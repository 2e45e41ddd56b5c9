use vstd::prelude::*;
use crate::number::Number;
use crate::operator::Operator;
use crate::lang::parser::{Node, CommandNode, CommandView, ExpressionNode, ConstArg, ArgView, NodeView, ExprView, node_view, nodes_view, nodes_prefix_view, args_view, arg_view, commands_view};
use crate::synth::{Synth, SynthView, Id, NodeKind, Probe, NIL_NODE_ID, same_kind, node_inputs, input_slots};

verus! {

#[derive(PartialEq, Eq, Debug)]
pub enum CompileErrorKind {
    UnknownFunctionName(String),
    InvalidVariableName,
    InvalidNumberOfOperatorArgs,
    InvalidArgNumber,
    NoOutputVariables,
    /// The graph has no room for another node or probe.
    GraphFull,
}

/// A compile failure, with the source position where one is known.
#[derive(PartialEq, Eq, Debug)]
pub struct CompileError {
    pub kind: CompileErrorKind,
    pub pos: Option<(usize, usize)>,
}

/// A delay body waiting for the second pass: its probe id, its longest
/// time back, and the expression.
pub struct Pending<'a> {
    pub probe: Id,
    pub max: Number,
    pub body: &'a Node<ExpressionNode>,
}

/// Relies on `str`'s `==`: equal exactly when the characters are.
#[verifier::external_body]
fn str_eq(a: &str, b: &str) -> (r: bool)
    ensures
        r == (a@ == b@),
{
    a == b
}

// ---------------------------------------------------------------- lookups

/// The id that `name` was bound to last in `vars`.
pub open spec fn binding(vars: Seq<(String, Id)>, name: Seq<char>) -> Option<Id>
    decreases vars.len(),
{
    if vars.len() == 0 {
        None
    } else if vars.last().0@ == name {
        Some(vars.last().1)
    } else {
        binding(vars.drop_last(), name)
    }
}

/// The value given last to the constant argument `name`.
pub open spec fn const_arg(args: Seq<ArgView>, name: Seq<char>) -> Option<Number>
    decreases args.len(),
{
    if args.len() == 0 {
        None
    } else if args.last().name == name {
        Some(args.last().value)
    } else {
        const_arg(args.drop_last(), name)
    }
}

pub open spec fn const_or(args: Seq<ArgView>, name: Seq<char>, default: Number) -> Number {
    match const_arg(args, name) {
        Some(n) => n,
        None => default,
    }
}

proof fn lemma_binding_in(vars: Seq<(String, Id)>, name: Seq<char>)
    ensures
        binding(vars, name) matches Some(id) ==> exists|k: int| 0 <= k < vars.len() && (#[trigger] vars[k]).1 == id,
    decreases vars.len(),
{
    if vars.len() > 0 && vars.last().0@ != name {
        lemma_binding_in(vars.drop_last(), name);
        if binding(vars, name) is Some {
            let k = choose|k: int| 0 <= k < vars.len() - 1 && (#[trigger] vars.drop_last()[k]).1 == binding(vars, name)->Some_0;
            assert(vars[k] == vars.drop_last()[k]);
        }
    } else if vars.len() > 0 {
        assert(vars[vars.len() - 1] == vars.last());
    }
}

fn lookup_var(vars: &Vec<(String, Id)>, name: &String) -> (r: Option<Id>)
    ensures
        r == binding(vars@, name@),
{
    let mut k = vars.len();
    proof {
        assert(vars@.subrange(0, k as int) =~= vars@);
    }
    while k > 0
        invariant
            k <= vars.len(),
            binding(vars@, name@) == binding(vars@.subrange(0, k as int), name@),
        decreases k,
    {
        let ghost pre = vars@.subrange(0, k as int);
        proof {
            assert(pre.drop_last() =~= vars@.subrange(0, k - 1));
        }
        if str_eq(vars[k - 1].0.as_str(), name.as_str()) {
            return Some(vars[k - 1].1);
        }
        k = k - 1;
    }
    None
}

fn lookup_const(args: &Vec<ConstArg>, name: &str) -> (r: Option<Number>)
    ensures
        r == const_arg(args_view(args@), name@),
{
    let mut k = args.len();
    proof {
        assert(args@.subrange(0, k as int) =~= args@);
    }
    while k > 0
        invariant
            k <= args.len(),
            const_arg(args_view(args@), name@) == const_arg(args_view(args@.subrange(0, k as int)), name@),
        decreases k,
    {
        let ghost pre = args_view(args@.subrange(0, k as int));
        proof {
            assert(pre.drop_last() =~= args_view(args@.subrange(0, k - 1)));
            assert(pre.last() == arg_view(args@[k - 1]));
        }
        if str_eq(args[k - 1].name.as_str(), name) {
            return Some(args[k - 1].value.kind);
        }
        k = k - 1;
    }
    proof {
        assert(args_view(args@.subrange(0, 0)) =~= seq![]);
    }
    None
}

// ---------------------------------------------------------------- sizes

/// The number of nodes in an expression tree.
pub open spec fn expr_size(n: NodeView) -> nat
    decreases n, 0int,
{
    match n.kind {
        ExprView::Operator(_, args) => 1 + args_size(args, args.len() as int),
        ExprView::Call(_, _, args) => 1 + args_size(args, args.len() as int),
        _ => 1,
    }
}

pub open spec fn args_size(s: Seq<NodeView>, k: int) -> nat
    decreases s, k,
{
    if k <= 0 || k > s.len() {
        0
    } else {
        args_size(s, k - 1) + expr_size(s[k - 1])
    }
}

/// The total size of the pending delay bodies.
pub open spec fn pending_size(q: Seq<Pending>) -> nat
    decreases q.len(),
{
    if q.len() == 0 {
        0
    } else {
        pending_size(q.drop_last()) + expr_size(node_view(*q.last().body))
    }
}

proof fn lemma_pending_prefix(q: Seq<Pending>, k: int)
    requires
        0 <= k <= q.len(),
    ensures
        pending_size(q.subrange(0, k)) <= pending_size(q),
    decreases q.len() - k,
{
    if k < q.len() {
        assert(q.drop_last().subrange(0, k) =~= q.subrange(0, k));
        lemma_pending_prefix(q.drop_last(), k);
    } else {
        assert(q.subrange(0, k) =~= q);
    }
}

// ---------------------------------------------------------------- compiling

/// The data slot `id` is the output of a node of `kind` with these input
/// slots and initial state `data`.
pub open spec fn yields(s: SynthView, id: Id, kind: NodeKind, inputs: Seq<Option<Id>>, data: Seq<Number>) -> bool {
    exists|j: int|
        0 <= j < s.nodes.len() && s.output_of(j) == id && same_kind(s.nodes[j].kind, kind)
            && node_inputs(s.nodes[j]) == inputs && s.node_data(j) == data
}

/// `b` is the body of a delay call somewhere in `e`, delay bodies
/// included.
pub open spec fn has_body(e: Node<ExpressionNode>, b: Node<ExpressionNode>) -> bool
    decreases e,
{
    match e.kind {
        ExpressionNode::Operator(_, args) => args.len() == 2 && (has_body(args@[0], b) || has_body(
            args@[1],
            b,
        )),
        ExpressionNode::FunctionCall(name, _, args) => args.len() >= 1 && (has_body(args@[0], b) || (
        name@ == "delay"@ && args.len() == 2 && (args@[1] == b || has_body(args@[1], b)))),
        _ => false,
    }
}

/// The graph holds a delay node of at most `max` that reads probe `p`.
pub open spec fn delay_node_for(s: SynthView, p: Id, max: Number) -> bool {
    exists|j: int| 0 <= j < s.nodes.len() && s.nodes[j].kind == NodeKind::Delay(max, p)
}

/// `sub` is `e` or a part of it that compiles with it: an operator's
/// arguments, a call's first argument, and their parts; not a delay's body.
pub open spec fn direct_part(e: Node<ExpressionNode>, sub: Node<ExpressionNode>) -> bool
    decreases e,
{
    e == sub || match e.kind {
        ExpressionNode::Operator(_, args) => args.len() == 2 && (direct_part(args@[0], sub) || direct_part(
            args@[1],
            sub,
        )),
        ExpressionNode::FunctionCall(_, _, args) => args.len() >= 1 && direct_part(args@[0], sub),
        _ => false,
    }
}

/// Node `j` of `s` is what some direct part of `e` compiled to.
pub open spec fn made_by(s: SynthView, j: int, e: Node<ExpressionNode>, vars: Seq<(String, Id)>) -> bool {
    exists|sub: Node<ExpressionNode>| #[trigger] direct_part(e, sub) && compiled_as(s, sub, vars, s.output_of(j))
}

/// Every node from `from` on is made by `e`.
pub open spec fn parts_made(s: SynthView, from: int, e: Node<ExpressionNode>, vars: Seq<(String, Id)>) -> bool {
    forall|j: int| from <= j < s.nodes.len() ==> #[trigger] made_by(s, j, e, vars)
}

proof fn lemma_made_lift(s: SynthView, t: SynthView, j: int, e: Node<ExpressionNode>, e2: Node<ExpressionNode>, vars: Seq<(String, Id)>)
    requires
        s.wf(),
        t.wf(),
        grows(s, t),
        0 <= j < s.nodes.len(),
        made_by(s, j, e, vars),
        forall|x: Node<ExpressionNode>| direct_part(e, x) ==> #[trigger] direct_part(e2, x),
    ensures
        made_by(t, j, e2, vars),
{
    let sub = choose|sub: Node<ExpressionNode>| #[trigger] direct_part(e, sub) && compiled_as(s, sub, vars, s.output_of(j));
    assert(t.nodes[j] == t.nodes.subrange(0, s.nodes.len() as int)[j]);
    assert(t.output_of(j) == s.output_of(j));
    lemma_compiled_grows(s, t, sub, vars, s.output_of(j));
    assert(direct_part(e2, sub));
}

proof fn lemma_parts_join(
    e: Node<ExpressionNode>,
    c: Node<ExpressionNode>,
    s1: SynthView,
    t: SynthView,
    from: int,
    vars: Seq<(String, Id)>,
)
    requires
        s1.wf(),
        t.wf(),
        grows(s1, t),
        0 <= from,
        parts_made(s1, from, c, vars),
        forall|x: Node<ExpressionNode>| direct_part(c, x) ==> #[trigger] direct_part(e, x),
    ensures
        forall|j: int| from <= j < s1.nodes.len() ==> #[trigger] made_by(t, j, e, vars),
{
    assert forall|j: int| from <= j < s1.nodes.len() implies #[trigger] made_by(t, j, e, vars) by {
        assert(made_by(s1, j, c, vars));
        lemma_made_lift(s1, t, j, c, e, vars);
    }
}

/// The node that compiling `e` itself made, as the last one, is made by `e`.
proof fn lemma_self_made(s: SynthView, e: Node<ExpressionNode>, vars: Seq<(String, Id)>, j: int, id: Id)
    requires
        compiled_as(s, e, vars, id),
        s.output_of(j) == id,
    ensures
        made_by(s, j, e, vars),
{
    assert(direct_part(e, e));
}

/// The nodes that compiling an operator or a call added: those its
/// arguments made, then at most its own.
proof fn lemma_node_parts(
    e: Node<ExpressionNode>,
    s0: SynthView,
    s1: SynthView,
    s2: SynthView,
    s3: SynthView,
    vars: Seq<(String, Id)>,
    id: Id,
)
    requires
        e.kind is Operator || e.kind is FunctionCall,
        e.kind is Operator ==> e.kind->Operator_1.len() == 2,
        e.kind is FunctionCall ==> e.kind->FunctionCall_2.len() >= 1,
        s1.wf(),
        s2.wf(),
        s3.wf(),
        grows(s0, s1),
        grows(s1, s2),
        grows(s2, s3),
        parts_made(
            s1,
            s0.nodes.len() as int,
            if e.kind is Operator {
                e.kind->Operator_1@[0]
            } else {
                e.kind->FunctionCall_2@[0]
            },
            vars,
        ),
        e.kind is Operator ==> parts_made(s2, s1.nodes.len() as int, e.kind->Operator_1@[1], vars),
        e.kind is FunctionCall ==> s2.nodes.len() == s1.nodes.len(),
        compiled_as(s3, e, vars, id),
        s3.nodes.len() <= s2.nodes.len() + 1,
        s3.nodes.len() == s2.nodes.len() + 1 ==> s3.output_of(s2.nodes.len() as int) == id,
    ensures
        parts_made(s3, s0.nodes.len() as int, e, vars),
{
    lemma_grows_trans(s1, s2, s3);
    if e.kind is Operator {
        let args = e.kind->Operator_1@;
        assert forall|x: Node<ExpressionNode>| direct_part(args[0], x) implies #[trigger] direct_part(e, x) by {}
        assert forall|x: Node<ExpressionNode>| direct_part(args[1], x) implies #[trigger] direct_part(e, x) by {}
        lemma_parts_join(e, args[0], s1, s3, s0.nodes.len() as int, vars);
        lemma_parts_join(e, args[1], s2, s3, s1.nodes.len() as int, vars);
    } else {
        let args = e.kind->FunctionCall_2@;
        assert forall|x: Node<ExpressionNode>| direct_part(args[0], x) implies #[trigger] direct_part(e, x) by {}
        lemma_parts_join(e, args[0], s1, s3, s0.nodes.len() as int, vars);
    }
    if s3.nodes.len() == s2.nodes.len() + 1 {
        lemma_self_made(s3, e, vars, s2.nodes.len() as int, id);
    }
}

/// The probe ids allocated from `s` to `t` have no probe yet.
pub open spec fn fresh_probes_empty(s: SynthView, t: SynthView) -> bool {
    forall|p: int| s.probes.len() <= p < t.probes.len() ==> (#[trigger] t.probes[p]) is None
}

proof fn lemma_fresh_trans(a: SynthView, b: SynthView, c: SynthView)
    requires
        fresh_probes_empty(a, b),
        fresh_probes_empty(b, c),
        extends(b, c),
    ensures
        fresh_probes_empty(a, c),
{
    assert forall|p: int| a.probes.len() <= p < c.probes.len() implies (#[trigger] c.probes[p]) is None by {
        if p < b.probes.len() {
            assert(c.probes[p] == c.probes.subrange(0, b.probes.len() as int)[p]);
        }
    }
}

/// The queued entries from `from` on are bodies of delays in `e`, each with
/// its delay node in `s`.
pub open spec fn pending_in(s: SynthView, q: Seq<Pending>, from: int, e: Node<ExpressionNode>) -> bool {
    forall|k: int|
        from <= k < q.len() ==> has_body(e, *(#[trigger] q[k]).body) && delay_node_for(s, q[k].probe, q[k].max)
}

/// Entries `from..q.len()` stay as they are in a longer queue `r` and a
/// larger graph `t`, and stay within any expression that holds `e`'s bodies.
proof fn lemma_pending_lift(
    s: SynthView,
    t: SynthView,
    q: Seq<Pending>,
    r: Seq<Pending>,
    from: int,
    e: Node<ExpressionNode>,
    e2: Node<ExpressionNode>,
)
    requires
        0 <= from,
        pending_in(s, q, from, e),
        grows(s, t),
        q.len() <= r.len(),
        r.subrange(0, q.len() as int) == q,
        forall|x: Node<ExpressionNode>| has_body(e, x) ==> #[trigger] has_body(e2, x),
    ensures
        forall|k: int|
            from <= k < q.len() ==> has_body(e2, *(#[trigger] r[k]).body) && delay_node_for(t, r[k].probe, r[k].max),
{
    assert forall|k: int| from <= k < q.len() implies has_body(e2, *(#[trigger] r[k]).body) && delay_node_for(
        t,
        r[k].probe,
        r[k].max,
    ) by {
        assert(r[k] == r.subrange(0, q.len() as int)[k]);
        assert(has_body(e, *q[k].body));
        lemma_delay_node_grows(s, t, q[k].probe, q[k].max);
    }
}

proof fn lemma_operator_pending(
    e: Node<ExpressionNode>,
    s1: SynthView,
    s2: SynthView,
    s3: SynthView,
    q0: Seq<Pending>,
    q1: Seq<Pending>,
    q2: Seq<Pending>,
)
    requires
        e.kind is Operator,
        e.kind->Operator_1.len() == 2,
        pending_in(s1, q1, q0.len() as int, e.kind->Operator_1@[0]),
        pending_in(s2, q2, q1.len() as int, e.kind->Operator_1@[1]),
        grows(s1, s2),
        grows(s2, s3),
        q0.len() <= q1.len() <= q2.len(),
        q2.subrange(0, q1.len() as int) == q1,
    ensures
        pending_in(s3, q2, q0.len() as int, e),
{
    let args = e.kind->Operator_1@;
    assert forall|x: Node<ExpressionNode>| has_body(args[0], x) implies #[trigger] has_body(e, x) by {}
    assert forall|x: Node<ExpressionNode>| has_body(args[1], x) implies #[trigger] has_body(e, x) by {}
    lemma_grows_trans(s1, s2, s3);
    assert(q2.subrange(0, q2.len() as int) =~= q2);
    lemma_pending_lift(s1, s3, q1, q2, q0.len() as int, args[0], e);
    lemma_pending_lift(s2, s3, q2, q2, q1.len() as int, args[1], e);
}

proof fn lemma_grows_trans(a: SynthView, b: SynthView, c: SynthView)
    requires
        grows(a, b),
        grows(b, c),
    ensures
        grows(a, c),
{
    assert(c.nodes.subrange(0, a.nodes.len() as int) =~= b.nodes.subrange(0, a.nodes.len() as int));
    assert(c.data.subrange(0, a.data.len() as int) =~= b.data.subrange(0, a.data.len() as int));
}

proof fn lemma_delay_node_grows(s: SynthView, t: SynthView, p: Id, max: Number)
    requires
        grows(s, t),
        delay_node_for(s, p, max),
    ensures
        delay_node_for(t, p, max),
{
    let j = choose|j: int| 0 <= j < s.nodes.len() && s.nodes[j].kind == NodeKind::Delay(max, p);
    assert(t.nodes[j] == t.nodes.subrange(0, s.nodes.len() as int)[j]);
}

/// The graph `t` holds the nodes and data of `s`, and maybe more.
pub open spec fn grows(s: SynthView, t: SynthView) -> bool {
    &&& s.nodes.len() <= t.nodes.len()
    &&& t.nodes.subrange(0, s.nodes.len() as int) == s.nodes
    &&& s.data.len() <= t.data.len()
    &&& t.data.subrange(0, s.data.len() as int) == s.data
}

proof fn lemma_yields_grows(s: SynthView, t: SynthView, id: Id, kind: NodeKind, inputs: Seq<Option<Id>>, data: Seq<Number>)
    requires
        s.wf(),
        grows(s, t),
        yields(s, id, kind, inputs, data),
    ensures
        yields(t, id, kind, inputs, data),
{
    let j = choose|j: int|
        0 <= j < s.nodes.len() && s.output_of(j) == id && same_kind(s.nodes[j].kind, kind)
            && node_inputs(s.nodes[j]) == inputs && s.node_data(j) == data;
    assert(t.nodes[j] == t.nodes.subrange(0, s.nodes.len() as int)[j]);
    assert(t.node_data(j) =~= s.node_data(j)) by {
        assert forall|q: int| 0 <= q < s.node_data(j).len() implies t.node_data(j)[q] == s.node_data(j)[q] by {
            let at = s.nodes[j].data_loc.0 + q;
            assert(t.data[at] == t.data.subrange(0, s.data.len() as int)[at]);
        }
    }
}


pub open spec fn first_pos(args: Seq<Node<ExpressionNode>>) -> Option<(usize, usize)> {
    if args.len() > 0 {
        args[0].pos
    } else {
        None
    }
}

pub open spec fn slots_valid(s: SynthView, vars: Seq<(String, Id)>) -> bool {
    forall|k: int| 0 <= k < vars.len() ==> (#[trigger] vars[k]).1.0 < s.data.len() && s.is_output(vars[k].1)
}

proof fn lemma_slots_grows(s: SynthView, t: SynthView, vars: Seq<(String, Id)>)
    requires
        slots_valid(s, vars),
        grows(s, t),
    ensures
        slots_valid(t, vars),
{
    assert forall|k: int| 0 <= k < vars.len() implies (#[trigger] vars[k]).1.0 < t.data.len() && t.is_output(
        vars[k].1,
    ) by {
        lemma_output_grows(s, t, vars[k].1);
    }
}

proof fn lemma_slots_push(s: SynthView, vars: Seq<(String, Id)>, x: (String, Id))
    requires
        slots_valid(s, vars),
        x.1.0 < s.data.len(),
        s.is_output(x.1),
    ensures
        slots_valid(s, vars.push(x)),
{
    assert forall|k: int| 0 <= k < vars.len() + 1 implies (#[trigger] vars.push(x)[k]).1.0 < s.data.len()
        && s.is_output(vars.push(x)[k].1) by {
        if k < vars.len() {
            assert(vars.push(x)[k] == vars[k]);
        }
    }
}

proof fn lemma_output_grows(s: SynthView, t: SynthView, id: Id)
    requires
        grows(s, t),
        s.is_output(id),
    ensures
        t.is_output(id),
{
    let j = choose|j: int| 0 <= j < s.nodes.len() && s.output_of(j) == id;
    assert(t.nodes[j] == t.nodes.subrange(0, s.nodes.len() as int)[j]);
    assert(t.output_of(j) == id);
}

pub open spec fn pending_valid(s: SynthView, q: Seq<Pending>) -> bool {
    forall|k: int| 0 <= k < q.len() ==> (#[trigger] q[k]).probe.0 < s.probes.len()
}

/// Each probe id allocated between `s` and `t` has its body queued
/// between `q` and `r`.
pub open spec fn queued(s: SynthView, t: SynthView, q: Seq<Pending>, r: Seq<Pending>) -> bool {
    forall|p: int| s.probes.len() <= p < t.probes.len() ==> #[trigger] queued_from(r, q.len() as int, p)
}

/// Some entry of `r` from index `lo` on is the body of probe `p`.
pub open spec fn queued_from(r: Seq<Pending>, lo: int, p: int) -> bool {
    exists|k: int| lo <= k < r.len() && (#[trigger] r[k]).probe.0 == p
}

/// The names that `vars` binds.
pub open spec fn bound_names(vars: Seq<(String, Id)>) -> Set<Seq<char>> {
    Set::new(|n: Seq<char>| binding(vars, n) is Some)
}

/// The expression compiles with the names `names` bound, its delay bodies
/// with the names `all` bound.
pub open spec fn sound(e: Node<ExpressionNode>, names: Set<Seq<char>>, all: Set<Seq<char>>) -> bool
    decreases e,
{
    match e.kind {
        ExpressionNode::Float(_) => true,
        ExpressionNode::Variable(name) => names.contains(name@),
        ExpressionNode::Operator(_, args) => args.len() == 2 && sound(args@[0], names, all) && sound(
            args@[1],
            names,
            all,
        ),
        ExpressionNode::FunctionCall(name, _, args) => {
            &&& is_known_function(name@)
            &&& args.len() == function_arity(name@)
            &&& sound(args@[0], names, all)
            &&& (name@ == "delay"@ ==> sound(args@[1], all, all))
        },
    }
}

/// The first error that compiling `e` meets with `names` bound, delay
/// bodies aside: the node's own shape first, then its arguments in order.
pub open spec fn direct_error(e: Node<ExpressionNode>, names: Set<Seq<char>>) -> Option<CompileError>
    decreases e,
{
    match e.kind {
        ExpressionNode::Float(_) => None,
        ExpressionNode::Variable(name) => if names.contains(name@) {
            None
        } else {
            Some(CompileError { kind: CompileErrorKind::InvalidVariableName, pos: e.pos })
        },
        ExpressionNode::Operator(_, args) => if args.len() != 2 {
            Some(CompileError { kind: CompileErrorKind::InvalidNumberOfOperatorArgs, pos: first_pos(args@) })
        } else {
            match direct_error(args@[0], names) {
                Some(x) => Some(x),
                None => direct_error(args@[1], names),
            }
        },
        ExpressionNode::FunctionCall(name, _, args) => if !is_known_function(name@) {
            Some(CompileError { kind: CompileErrorKind::UnknownFunctionName(name), pos: first_pos(args@) })
        } else if args.len() != function_arity(name@) {
            Some(CompileError { kind: CompileErrorKind::InvalidArgNumber, pos: first_pos(args@) })
        } else {
            direct_error(args@[0], names)
        },
    }
}

/// The queued bodies from index `from` on are sound with `all` bound.
pub open spec fn bodies_sound(q: Seq<Pending>, from: int, all: Set<Seq<char>>) -> bool {
    forall|k: int| from <= k < q.len() ==> sound(*(#[trigger] q[k]).body, all, all)
}

/// The graph has room for `size` more tree nodes.
pub open spec fn roomy(s: SynthView, size: nat) -> bool {
    s.data.len() + 2 * size < NIL_NODE_ID && s.probes.len() + size < NIL_NODE_ID
}

/// From `s` and queue `q` to `t` and queue `r`, the data array and the
/// probes grew by at most what `size` more tree nodes can take (two slots
/// and one probe each), queued bodies counted as not yet spent.
pub open spec fn within_budget(s: SynthView, q: Seq<Pending>, t: SynthView, r: Seq<Pending>, size: nat) -> bool {
    &&& t.data.len() + 2 * pending_size(r) <= s.data.len() + 2 * pending_size(q) + 2 * size
    &&& t.probes.len() + pending_size(r) <= s.probes.len() + pending_size(q) + size
}

proof fn lemma_budget_trans(
    s0: SynthView,
    s1: SynthView,
    s2: SynthView,
    q0: Seq<Pending>,
    q1: Seq<Pending>,
    q2: Seq<Pending>,
    a: nat,
    b: nat,
)
    requires
        within_budget(s0, q0, s1, q1, a),
        within_budget(s1, q1, s2, q2, b),
    ensures
        within_budget(s0, q0, s2, q2, a + b),
{
}

/// What a first part of a tree spent leaves room for the rest.
proof fn lemma_room_after(s0: SynthView, q0: Seq<Pending>, s1: SynthView, q1: Seq<Pending>, a: nat, b: nat)
    requires
        within_budget(s0, q0, s1, q1, a),
        q0.len() <= q1.len(),
        q1.subrange(0, q0.len() as int) == q0,
        roomy(s0, a + b),
    ensures
        roomy(s1, b),
        s1.data.len() <= s0.data.len() + 2 * a,
        s1.probes.len() <= s0.probes.len() + a,
{
    lemma_pending_prefix(q1, q0.len() as int);
}

proof fn lemma_bodies_join(q0: Seq<Pending>, q1: Seq<Pending>, q2: Seq<Pending>, all: Set<Seq<char>>)
    requires
        q0.len() <= q1.len() <= q2.len(),
        q2.subrange(0, q1.len() as int) == q1,
        bodies_sound(q1, q0.len() as int, all),
        bodies_sound(q2, q1.len() as int, all),
    ensures
        bodies_sound(q2, q0.len() as int, all),
{
    assert forall|k: int| q0.len() <= k < q2.len() implies sound(*(#[trigger] q2[k]).body, all, all) by {
        if k < q1.len() {
            assert(q2[k] == q2.subrange(0, q1.len() as int)[k]);
        }
    }
}

/// The graph `t` extends `s`: nodes and data are only appended, probe ids
/// only allocated.
pub open spec fn extends(s: SynthView, t: SynthView) -> bool {
    &&& s.nodes.len() <= t.nodes.len()
    &&& t.nodes.subrange(0, s.nodes.len() as int) == s.nodes
    &&& s.data.len() <= t.data.len()
    &&& t.data.subrange(0, s.data.len() as int) == s.data
    &&& s.probes.len() <= t.probes.len()
    &&& t.probes.subrange(0, s.probes.len() as int) == s.probes
}

pub open spec fn is_known_function(name: Seq<char>) -> bool {
    name == "delay"@ || name == "clamp"@ || name == "square"@ || name == "osc"@
}

pub open spec fn function_arity(name: Seq<char>) -> nat {
    if name == "delay"@ {
        2
    } else {
        1
    }
}

pub open spec fn whole(negative: bool, n: u64) -> Number {
    Number::whole(negative, n)
}

/// The node whose output is slot `id`.
pub open spec fn node_of(s: SynthView, id: Id) -> int {
    choose|j: int| 0 <= j < s.nodes.len() && s.output_of(j) == id
}

/// Slot `id` is the output of a node of `kind` with these input slots and
/// initial state `data`.
pub open spec fn makes(s: SynthView, id: Id, kind: NodeKind, inputs: Seq<Option<Id>>, data: Seq<Number>) -> bool {
    &&& s.is_output(id)
    &&& same_kind(s.nodes[node_of(s, id)].kind, kind)
    &&& node_inputs(s.nodes[node_of(s, id)]) == inputs
    &&& s.node_data(node_of(s, id)) == data
}

/// Input `k` of the node whose output is slot `id`.
pub open spec fn arg_slot(s: SynthView, id: Id, k: int) -> Id {
    node_inputs(s.nodes[node_of(s, id)])[k]->Some_0
}

/// The node a built-in call of `name` made: its kind and state from the
/// constant arguments `c`, its one input the slot `a`.
pub open spec fn call_makes(s: SynthView, id: Id, name: Seq<char>, c: Seq<ArgView>, a: Id) -> bool {
    let ins = input_slots(seq![a]);
    if name == "delay"@ {
        exists|p: Id| makes(s, id, NodeKind::Delay(const_or(c, "max"@, whole(false, 5)), p), ins, seq![])
    } else if name == "clamp"@ {
        makes(
            s,
            id,
            NodeKind::Clamp(const_or(c, "min"@, whole(true, 1)), const_or(c, "max"@, whole(false, 1))),
            ins,
            seq![],
        )
    } else if name == "square"@ {
        makes(s, id, NodeKind::SquareOscillator, ins, seq![const_or(c, "off"@, whole(false, 0))])
    } else {
        makes(s, id, NodeKind::Oscillator, ins, seq![const_or(c, "off"@, whole(false, 0))])
    }
}

/// What compiling an expression gives when it succeeds: the output slot of
/// the node it made, whose input slots are what its arguments compiled to.
/// A variable gives its binding; a delay's body is not among its inputs.
pub open spec fn compiled_as(s: SynthView, e: Node<ExpressionNode>, vars: Seq<(String, Id)>, id: Id) -> bool
    decreases e,
{
    match e.kind {
        ExpressionNode::Float(f) => makes(s, id, NodeKind::Constant(f), input_slots(seq![]), seq![]),
        ExpressionNode::Variable(name) => binding(vars, name@) == Some(id),
        ExpressionNode::Operator(op, args) => {
            &&& args.len() == 2
            &&& makes(
                s,
                id,
                NodeKind::ConstantOp(op),
                input_slots(seq![arg_slot(s, id, 0), arg_slot(s, id, 1)]),
                seq![],
            )
            &&& compiled_as(s, args@[0], vars, arg_slot(s, id, 0))
            &&& compiled_as(s, args@[1], vars, arg_slot(s, id, 1))
        },
        ExpressionNode::FunctionCall(name, c, args) => {
            &&& args.len() >= 1
            &&& call_makes(s, id, name@, args_view(c@), arg_slot(s, id, 0))
            &&& compiled_as(s, args@[0], vars, arg_slot(s, id, 0))
        },
    }
}

/// Distinct nodes of a well-formed graph have distinct output slots.
proof fn lemma_output_unique(s: SynthView, j1: int, j2: int)
    requires
        s.wf(),
        0 <= j1 < s.nodes.len(),
        0 <= j2 < s.nodes.len(),
        s.output_of(j1) == s.output_of(j2),
    ensures
        j1 == j2,
{
    if j1 < j2 {
        assert(s.nodes[j1].data_loc.0 + s.nodes[j1].spec_size() <= s.nodes[j2].data_loc.0);
    } else if j2 < j1 {
        assert(s.nodes[j2].data_loc.0 + s.nodes[j2].spec_size() <= s.nodes[j1].data_loc.0);
    }
}

/// What `yields` says of a node, `makes` says of it in a well-formed graph.
proof fn lemma_yields_makes(s: SynthView, id: Id, kind: NodeKind, inputs: Seq<Option<Id>>, data: Seq<Number>)
    requires
        s.wf(),
        yields(s, id, kind, inputs, data),
    ensures
        makes(s, id, kind, inputs, data),
        0 <= node_of(s, id) < s.nodes.len(),
{
    let j = choose|j: int|
        0 <= j < s.nodes.len() && s.output_of(j) == id && same_kind(s.nodes[j].kind, kind)
            && node_inputs(s.nodes[j]) == inputs && s.node_data(j) == data;
    assert(s.is_output(id));
    lemma_output_unique(s, j, node_of(s, id));
}

proof fn lemma_makes_grows(s: SynthView, t: SynthView, id: Id, kind: NodeKind, inputs: Seq<Option<Id>>, data: Seq<Number>)
    requires
        s.wf(),
        t.wf(),
        grows(s, t),
        makes(s, id, kind, inputs, data),
    ensures
        makes(t, id, kind, inputs, data),
        node_of(t, id) == node_of(s, id),
        t.nodes[node_of(t, id)] == s.nodes[node_of(s, id)],
{
    let j = node_of(s, id);
    assert(yields(s, id, kind, inputs, data));
    lemma_yields_grows(s, t, id, kind, inputs, data);
    lemma_yields_makes(t, id, kind, inputs, data);
    assert(t.nodes[j] == t.nodes.subrange(0, s.nodes.len() as int)[j]);
    lemma_output_unique(t, j, node_of(t, id));
}

proof fn lemma_call_arg(s: SynthView, id: Id, a: Id)
    requires
        node_inputs(s.nodes[node_of(s, id)]) == input_slots(seq![a]),
    ensures
        arg_slot(s, id, 0) == a,
{
    assert(input_slots(seq![a])[0] == Some(a));
}

proof fn lemma_compiled_grows(s: SynthView, t: SynthView, e: Node<ExpressionNode>, vars: Seq<(String, Id)>, id: Id)
    requires
        s.wf(),
        t.wf(),
        grows(s, t),
        compiled_as(s, e, vars, id),
    ensures
        compiled_as(t, e, vars, id),
    decreases e,
{
    match e.kind {
        ExpressionNode::Float(f) => {
            lemma_makes_grows(s, t, id, NodeKind::Constant(f), input_slots(seq![]), seq![]);
        },
        ExpressionNode::Variable(_) => {},
        ExpressionNode::Operator(op, args) => {
            let ins = input_slots(seq![arg_slot(s, id, 0), arg_slot(s, id, 1)]);
            lemma_makes_grows(s, t, id, NodeKind::ConstantOp(op), ins, seq![]);
            lemma_compiled_grows(s, t, args@[0], vars, arg_slot(s, id, 0));
            lemma_compiled_grows(s, t, args@[1], vars, arg_slot(s, id, 1));
        },
        ExpressionNode::FunctionCall(name, c, args) => {
            let a = arg_slot(s, id, 0);
            let cv = args_view(c@);
            let ins = input_slots(seq![a]);
            if name@ == "delay"@ {
                let p = choose|p: Id| makes(s, id, NodeKind::Delay(const_or(cv, "max"@, whole(false, 5)), p), ins, seq![]);
                lemma_makes_grows(s, t, id, NodeKind::Delay(const_or(cv, "max"@, whole(false, 5)), p), ins, seq![]);
            } else if name@ == "clamp"@ {
                lemma_makes_grows(s, t, id, NodeKind::Clamp(const_or(cv, "min"@, whole(true, 1)), const_or(cv, "max"@, whole(false, 1))), ins, seq![]);
            } else if name@ == "square"@ {
                lemma_makes_grows(s, t, id, NodeKind::SquareOscillator, ins, seq![const_or(cv, "off"@, whole(false, 0))]);
            } else {
                lemma_makes_grows(s, t, id, NodeKind::Oscillator, ins, seq![const_or(cv, "off"@, whole(false, 0))]);
            }
            lemma_compiled_grows(s, t, args@[0], vars, a);
        },
    }
}

proof fn lemma_extends_grows(s: SynthView, t: SynthView)
    requires
        extends(s, t),
    ensures
        grows(s, t),
{
}

/// The error that the shape of `e` alone gives, before its arguments are
/// compiled.
pub open spec fn shape_error(e: Node<ExpressionNode>, vars: Seq<(String, Id)>) -> Option<CompileError> {
    match e.kind {
        ExpressionNode::Float(_) => None,
        ExpressionNode::Variable(name) => if binding(vars, name@) is None {
            Some(CompileError { kind: CompileErrorKind::InvalidVariableName, pos: e.pos })
        } else {
            None
        },
        ExpressionNode::Operator(_, args) => if args.len() != 2 {
            Some(CompileError { kind: CompileErrorKind::InvalidNumberOfOperatorArgs, pos: first_pos(args@) })
        } else {
            None
        },
        ExpressionNode::FunctionCall(name, _, args) => if !is_known_function(name@) {
            Some(CompileError { kind: CompileErrorKind::UnknownFunctionName(name), pos: first_pos(args@) })
        } else if args.len() != function_arity(name@) {
            Some(CompileError { kind: CompileErrorKind::InvalidArgNumber, pos: first_pos(args@) })
        } else {
            None
        },
    }
}

fn graph_full() -> (r: CompileError)
    ensures
        r.kind == CompileErrorKind::GraphFull,
{
    CompileError { kind: CompileErrorKind::GraphFull, pos: None }
}

} // verus!

verus! {

proof fn lemma_extends_trans(a: SynthView, b: SynthView, c: SynthView)
    requires
        extends(a, b),
        extends(b, c),
    ensures
        extends(a, c),
{
    assert(c.nodes.subrange(0, a.nodes.len() as int) =~= b.nodes.subrange(0, a.nodes.len() as int));
    assert(c.data.subrange(0, a.data.len() as int) =~= b.data.subrange(0, a.data.len() as int));
    assert(c.probes.subrange(0, a.probes.len() as int) =~= b.probes.subrange(0, a.probes.len() as int));
}

proof fn lemma_extends_refl(a: SynthView)
    ensures
        extends(a, a),
{
    assert(a.nodes.subrange(0, a.nodes.len() as int) =~= a.nodes);
    assert(a.data.subrange(0, a.data.len() as int) =~= a.data);
    assert(a.probes.subrange(0, a.probes.len() as int) =~= a.probes);
}

proof fn lemma_queued_trans(
    s0: SynthView,
    s1: SynthView,
    s2: SynthView,
    q0: Seq<Pending>,
    q1: Seq<Pending>,
    q2: Seq<Pending>,
)
    requires
        queued(s0, s1, q0, q1),
        queued(s1, s2, q1, q2),
        q0.len() <= q1.len() <= q2.len(),
        q2.subrange(0, q1.len() as int) == q1,
    ensures
        queued(s0, s2, q0, q2),
{
    assert forall|p: int| s0.probes.len() <= p < s2.probes.len() implies #[trigger] queued_from(
        q2,
        q0.len() as int,
        p,
    ) by {
        if p < s1.probes.len() {
            assert(queued_from(q1, q0.len() as int, p));
            let k = choose|k: int| q0.len() <= k < q1.len() && (#[trigger] q1[k]).probe.0 == p;
            assert(q2[k] == q2.subrange(0, q1.len() as int)[k]);
        } else {
            assert(queued_from(q2, q1.len() as int, p));
            let k = choose|k: int| q1.len() <= k < q2.len() && (#[trigger] q2[k]).probe.0 == p;
            assert(q2[k].probe.0 == p);
        }
    }
}

proof fn lemma_prefix_trans<A>(a: Seq<A>, b: Seq<A>, c: Seq<A>)
    requires
        a.len() <= b.len() <= c.len(),
        b.subrange(0, a.len() as int) == a,
        c.subrange(0, b.len() as int) == b,
    ensures
        c.subrange(0, a.len() as int) == a,
{
    assert(c.subrange(0, a.len() as int) =~= b.subrange(0, a.len() as int));
}

/// The output slot of node `node`, just added.
fn output_slot(synth: &Synth, node: Id) -> (r: Result<Id, CompileError>)
    requires
        synth@.wf(),
        node.0 < synth@.nodes.len(),
    ensures
        r matches Ok(id) && id == synth@.output_of(node.0 as int) && id.0 < synth@.data.len(),
{
    match synth.get_node_output(node) {
        Some(id) => Ok(id),
        None => Err(graph_full()),
    }
}

/// Adds a node with the given inputs and state, and gives its output slot.
fn emit(synth: &mut Synth, kind: NodeKind, inputs: Vec<Id>, data: Vec<Number>) -> (r: Result<Id, CompileError>)
    requires
        old(synth)@.wf(),
        inputs.len() <= 3,
        forall|k: int| 0 <= k < inputs.len() ==> (#[trigger] inputs@[k]).0 < old(synth)@.data.len(),
        forall|k: int| 0 <= k < inputs.len() ==> old(synth)@.is_output(#[trigger] inputs@[k]),
        data.len() == kind.spec_n_data_allocations(),
        kind is Delay ==> kind->Delay_1.0 < old(synth)@.probes.len(),
    ensures
        final(synth)@.wf(),
        extends(old(synth)@, final(synth)@),
        final(synth)@.probes == old(synth)@.probes,
        final(synth)@.data.len() <= old(synth)@.data.len() + data.len() + 1,
        old(synth)@.data.len() + data.len() + 1 < NIL_NODE_ID ==> r is Ok,
        final(synth)@.nodes.len() <= old(synth)@.nodes.len() + 1,
        final(synth)@.nodes.len() == old(synth)@.nodes.len() + 1 ==> r is Ok && final(synth)@.output_of(
            old(synth)@.nodes.len() as int,
        ) == r->Ok_0,
        match r {
            Ok(id) => id.0 < final(synth)@.data.len() && yields(final(synth)@, id, kind, input_slots(inputs@), data@),
            Err(e) => e.kind == CompileErrorKind::GraphFull,
        },
{
    if !synth.has_room(data.len()) {
        proof {
            lemma_extends_refl(synth@);
        }
        return Err(graph_full());
    }
    let ghost k = kind;
    let node = synth.add_node(kind, inputs.as_slice(), data.as_slice());
    let r = output_slot(synth, node);
    proof {
        let s = synth@;
        assert(s.probes.subrange(0, s.probes.len() as int) =~= s.probes);
        assert(s.output_of(node.0 as int) == r->Ok_0);
        assert(yields(s, r->Ok_0, k, input_slots(inputs@), data@));
    }
    r
}

/// Compiles one expression into the graph against the bindings `vars`,
/// and gives the data slot of its value. A delay's body is not compiled
/// here: it is queued on `probes` with a fresh probe id.
#[verifier::rlimit(100)]
pub fn compile_expression<'a>(
    expr: &'a Node<ExpressionNode>,
    probes: &mut Vec<Pending<'a>>,
    vars: &Vec<(String, Id)>,
    synth: &mut Synth,
) -> (r: Result<Id, CompileError>)
    requires
        old(synth)@.wf(),
        slots_valid(old(synth)@, vars@),
        pending_valid(old(synth)@, old(probes)@),
    ensures
        final(synth)@.wf(),
        extends(old(synth)@, final(synth)@),
        pending_valid(final(synth)@, final(probes)@),
        old(probes)@.len() <= final(probes)@.len(),
        final(probes)@.subrange(0, old(probes)@.len() as int) == old(probes)@,
        pending_size(final(probes)@) < pending_size(old(probes)@) + expr_size(node_view(*expr)),
        queued(old(synth)@, final(synth)@, old(probes)@, final(probes)@),
        r is Ok ==> pending_in(final(synth)@, final(probes)@, old(probes)@.len() as int, *expr),
        fresh_probes_empty(old(synth)@, final(synth)@),
        r is Ok ==> parts_made(final(synth)@, old(synth)@.nodes.len() as int, *expr, vars@),
        within_budget(old(synth)@, old(probes)@, final(synth)@, final(probes)@, expr_size(node_view(*expr))),
        shape_error(*expr, vars@) matches Some(e) ==> r == Err::<Id, CompileError>(e),
        r matches Ok(id) ==> id.0 < final(synth)@.data.len() && final(synth)@.is_output(id) && compiled_as(
            final(synth)@,
            *expr,
            vars@,
            id,
        ),
        r matches Err(e) ==> e.kind != CompileErrorKind::NoOutputVariables,
        roomy(old(synth)@, expr_size(node_view(*expr))) ==> match direct_error(*expr, bound_names(vars@)) {
            Some(err) => r == Err::<Id, CompileError>(err),
            None => r is Ok,
        },
        roomy(old(synth)@, expr_size(node_view(*expr))) ==> forall|all: Set<Seq<char>>|
            #[trigger] sound(*expr, bound_names(vars@), all) ==> r is Ok && bodies_sound(
                final(probes)@,
                old(probes)@.len() as int,
                all,
            ),
    decreases *expr, 1int,
{
    let ghost s0 = synth@;
    let ghost q0 = probes@;
    proof {
        lemma_extends_refl(s0);
        assert(q0.subrange(0, q0.len() as int) =~= q0);
    }
    match &expr.kind {
        ExpressionNode::Float(value) => {
            let none: Vec<Number> = Vec::new();
            proof {
                assert(none@ =~= seq![]);
            }
            let no_inputs: Vec<Id> = Vec::new();
            proof {
                assert(no_inputs@ =~= seq![]);
            }
            let r = emit(synth, NodeKind::Constant(*value), no_inputs, none);
            proof {
                if r is Ok && synth@.nodes.len() > s0.nodes.len() {
                    lemma_self_made(synth@, *expr, vars@, s0.nodes.len() as int, r->Ok_0);
                }
            }
            r
        },
        ExpressionNode::Variable(name) => match lookup_var(vars, name) {
            Some(id) => {
                proof {
                    lemma_binding_in(vars@, name@);
                }
                Ok(id)
            },
            None => Err(CompileError { kind: CompileErrorKind::InvalidVariableName, pos: expr.pos }),
        },
        ExpressionNode::Operator(op, args) => compile_operator(expr, op, args, probes, vars, synth),
        ExpressionNode::FunctionCall(name, consts, args) => {
            compile_call(expr, name, consts, args, probes, vars, synth)
        },
    }
}

} // verus!

verus! {

fn first_arg_pos(args: &Vec<Node<ExpressionNode>>) -> (r: Option<(usize, usize)>)
    ensures
        r == first_pos(args@),
{
    if args.len() > 0 {
        args[0].pos
    } else {
        None
    }
}

proof fn lemma_nodes_view_index(s: Seq<Node<ExpressionNode>>, n: int, k: int)
    requires
        0 <= k < n <= s.len(),
    ensures
        nodes_prefix_view(s, n).len() == n,
        nodes_prefix_view(s, n)[k] == node_view(s[k]),
    decreases n,
{
    lemma_nodes_view_len(s, n - 1);
    if k < n - 1 {
        lemma_nodes_view_index(s, n - 1, k);
    }
}

pub proof fn lemma_nodes_view_len(s: Seq<Node<ExpressionNode>>, n: int)
    requires
        0 <= n <= s.len(),
    ensures
        nodes_prefix_view(s, n).len() == n,
    decreases n,
{
    if n > 0 {
        lemma_nodes_view_len(s, n - 1);
    }
}

/// The size of an operator or call node with arguments.
proof fn lemma_arg_sizes(e: Node<ExpressionNode>)
    requires
        e.kind is Operator || e.kind is FunctionCall,
    ensures
        ({
            let args = if e.kind is Operator {
                e.kind->Operator_1@
            } else {
                e.kind->FunctionCall_2@
            };
            &&& args.len() == 1 ==> expr_size(node_view(e)) == 1 + expr_size(node_view(args[0]))
            &&& args.len() == 2 ==> expr_size(node_view(e)) == 1 + expr_size(node_view(args[0]))
                + expr_size(node_view(args[1]))
        }),
{
    let args = if e.kind is Operator {
        e.kind->Operator_1@
    } else {
        e.kind->FunctionCall_2@
    };
    let v = nodes_view(args);
    if args.len() == 1 {
        lemma_nodes_view_index(args, 1, 0);
        assert(args_size(v, 1) == args_size(v, 0) + expr_size(v[0]));
    }
    if args.len() == 2 {
        lemma_nodes_view_index(args, 2, 0);
        lemma_nodes_view_index(args, 2, 1);
        assert(args_size(v, 2) == args_size(v, 1) + expr_size(v[1]));
        assert(args_size(v, 1) == args_size(v, 0) + expr_size(v[0]));
    }
}

proof fn lemma_two_args(e: Node<ExpressionNode>)
    requires
        e.kind is Operator,
        e.kind->Operator_1@.len() == 2,
    ensures
        expr_size(node_view(e)) == 1 + expr_size(node_view(e.kind->Operator_1@[0])) + expr_size(
            node_view(e.kind->Operator_1@[1]),
        ),
{
    lemma_arg_sizes(e);
}

fn default_or(v: Option<Number>, d: Number) -> (r: Number)
    ensures
        r == match v {
            Some(n) => n,
            None => d,
        },
{
    match v {
        Some(n) => n,
        None => d,
    }
}

/// Compiles a call of one of the built-in functions.
/// Compiles an operator application.
proof fn lemma_operator_ok(
    e: Node<ExpressionNode>,
    op: Operator,
    s0: SynthView,
    s1: SynthView,
    s2: SynthView,
    s3: SynthView,
    q0: Seq<Pending>,
    q1: Seq<Pending>,
    q2: Seq<Pending>,
    vars: Seq<(String, Id)>,
    a: Id,
    b: Id,
    id: Id,
)
    requires
        e.kind is Operator,
        e.kind->Operator_0 == op,
        e.kind->Operator_1.len() == 2,
        s1.wf(),
        s2.wf(),
        s3.wf(),
        extends(s0, s1),
        extends(s1, s2),
        extends(s2, s3),
        compiled_as(s1, e.kind->Operator_1@[0], vars, a),
        compiled_as(s2, e.kind->Operator_1@[1], vars, b),
        yields(s3, id, NodeKind::ConstantOp(op), input_slots(seq![a, b]), seq![]),
        pending_in(s1, q1, q0.len() as int, e.kind->Operator_1@[0]),
        pending_in(s2, q2, q1.len() as int, e.kind->Operator_1@[1]),
        q0.len() <= q1.len() <= q2.len(),
        q2.subrange(0, q1.len() as int) == q1,
        parts_made(s1, s0.nodes.len() as int, e.kind->Operator_1@[0], vars),
        parts_made(s2, s1.nodes.len() as int, e.kind->Operator_1@[1], vars),
        s3.nodes.len() <= s2.nodes.len() + 1,
        s3.nodes.len() == s2.nodes.len() + 1 ==> s3.output_of(s2.nodes.len() as int) == id,
    ensures
        compiled_as(s3, e, vars, id),
        pending_in(s3, q2, q0.len() as int, e),
        parts_made(s3, s0.nodes.len() as int, e, vars),
{
    let args = e.kind->Operator_1@;
    lemma_extends_grows(s0, s1);
    lemma_extends_grows(s1, s2);
    lemma_extends_grows(s2, s3);
    lemma_compiled_grows(s1, s2, args[0], vars, a);
    lemma_compiled_grows(s2, s3, args[0], vars, a);
    lemma_compiled_grows(s2, s3, args[1], vars, b);
    lemma_yields_makes(s3, id, NodeKind::ConstantOp(op), input_slots(seq![a, b]), seq![]);
    assert(input_slots(seq![a, b])[0] == Some(a));
    assert(input_slots(seq![a, b])[1] == Some(b));
    assert(arg_slot(s3, id, 0) == a && arg_slot(s3, id, 1) == b);
    assert(input_slots(seq![a, b]) =~= input_slots(seq![arg_slot(s3, id, 0), arg_slot(s3, id, 1)]));
    assert(compiled_as(s3, e, vars, id));
    lemma_operator_pending(e, s1, s2, s3, q0, q1, q2);
    lemma_node_parts(e, s0, s1, s2, s3, vars, id);
}

#[verifier::rlimit(100)]
fn compile_operator<'a>(
    expr: &'a Node<ExpressionNode>,
    op: &'a Operator,
    args: &'a Vec<Node<ExpressionNode>>,
    probes: &mut Vec<Pending<'a>>,
    vars: &Vec<(String, Id)>,
    synth: &mut Synth,
) -> (r: Result<Id, CompileError>)
    requires
        expr.kind == ExpressionNode::Operator(*op, *args),
        old(synth)@.wf(),
        slots_valid(old(synth)@, vars@),
        pending_valid(old(synth)@, old(probes)@),
    ensures
        final(synth)@.wf(),
        extends(old(synth)@, final(synth)@),
        pending_valid(final(synth)@, final(probes)@),
        old(probes)@.len() <= final(probes)@.len(),
        final(probes)@.subrange(0, old(probes)@.len() as int) == old(probes)@,
        pending_size(final(probes)@) < pending_size(old(probes)@) + expr_size(node_view(*expr)),
        queued(old(synth)@, final(synth)@, old(probes)@, final(probes)@),
        r is Ok ==> pending_in(final(synth)@, final(probes)@, old(probes)@.len() as int, *expr),
        fresh_probes_empty(old(synth)@, final(synth)@),
        r is Ok ==> parts_made(final(synth)@, old(synth)@.nodes.len() as int, *expr, vars@),
        within_budget(old(synth)@, old(probes)@, final(synth)@, final(probes)@, expr_size(node_view(*expr))),
        shape_error(*expr, vars@) matches Some(e) ==> r == Err::<Id, CompileError>(e),
        r matches Ok(id) ==> id.0 < final(synth)@.data.len() && final(synth)@.is_output(id) && compiled_as(
            final(synth)@,
            *expr,
            vars@,
            id,
        ),
        r matches Err(e) ==> e.kind != CompileErrorKind::NoOutputVariables,
        roomy(old(synth)@, expr_size(node_view(*expr))) ==> match direct_error(*expr, bound_names(vars@)) {
            Some(err) => r == Err::<Id, CompileError>(err),
            None => r is Ok,
        },
        roomy(old(synth)@, expr_size(node_view(*expr))) ==> forall|all: Set<Seq<char>>|
            #[trigger] sound(*expr, bound_names(vars@), all) ==> r is Ok && bodies_sound(
                final(probes)@,
                old(probes)@.len() as int,
                all,
            ),
    decreases *expr, 0int,
{
    let ghost s0 = synth@;
    let ghost q0 = probes@;
    proof {
        lemma_extends_refl(s0);
        assert(q0.subrange(0, q0.len() as int) =~= q0);
    }
    if args.len() != 2 {
        return Err(
            CompileError {
                kind: CompileErrorKind::InvalidNumberOfOperatorArgs,
                pos: first_arg_pos(args),
            },
        );
    }
    proof {
        lemma_two_args(*expr);
    }
    let ghost names = bound_names(vars@);
    let ghost sa = expr_size(node_view(args@[0]));
    let ghost sb = expr_size(node_view(args@[1]));
    let a = match compile_expression(&args[0], probes, vars, synth) {
        Ok(a) => a,
        Err(e) => {
            proof {
                if roomy(s0, expr_size(node_view(*expr))) {
                    assert forall|all: Set<Seq<char>>| #[trigger]
                        sound(*expr, names, all) implies false by {
                        assert(sound(args@[0], names, all));
                    }
                }
            }
            return Err(e);
        },
    };
    let ghost s1 = synth@;
    let ghost q1 = probes@;
    proof {
        if roomy(s0, expr_size(node_view(*expr))) {
            lemma_room_after(s0, q0, s1, q1, sa, sb);
        }
        lemma_extends_grows(s0, s1);
        lemma_slots_grows(s0, s1, vars@);
    }
    let b = match compile_expression(&args[1], probes, vars, synth) {
        Ok(b) => b,
        Err(e) => {
            proof {
                lemma_extends_trans(s0, s1, synth@);
                lemma_prefix_trans(q0, q1, probes@);
                lemma_queued_trans(s0, s1, synth@, q0, q1, probes@);
                lemma_fresh_trans(s0, s1, synth@);
                lemma_budget_trans(s0, s1, synth@, q0, q1, probes@,
                    expr_size(node_view(args@[0])), expr_size(node_view(args@[1])));
                if roomy(s0, expr_size(node_view(*expr))) {
                    assert forall|all: Set<Seq<char>>| #[trigger]
                        sound(*expr, names, all) implies false by {
                        assert(sound(args@[0], names, all));
                        assert(sound(args@[1], names, all));
                    }
                }
            }
            return Err(e);
        },
    };
    let ghost s2 = synth@;
    let ghost q2 = probes@;
    proof {
        lemma_extends_trans(s0, s1, s2);
        lemma_prefix_trans(q0, q1, probes@);
        lemma_queued_trans(s0, s1, s2, q0, q1, q2);
        lemma_budget_trans(s0, s1, s2, q0, q1, q2,
            expr_size(node_view(args@[0])), expr_size(node_view(args@[1])));
    }
    let none: Vec<Number> = Vec::new();
    proof {
        assert(none@ =~= seq![]);
    }
    let ins = vec![a, b];
    proof {
        assert(ins@ =~= seq![a, b]);
        lemma_extends_grows(s1, s2);
        lemma_output_grows(s1, s2, a);
    }
    let r = emit(synth, NodeKind::ConstantOp(*op), ins, none);
    proof {
        if r is Ok {
            lemma_operator_ok(*expr, *op, s0, s1, s2, synth@, q0, q1, q2, vars@, a, b, r->Ok_0);
        }
        lemma_extends_trans(s0, s2, synth@);
        assert(queued(s2, synth@, q2, q2));
        assert(q2.subrange(0, q2.len() as int) =~= q2);
        lemma_queued_trans(s0, s2, synth@, q0, q2, q2);
        lemma_budget_trans(s0, s2, synth@, q0, q2, q2,
            expr_size(node_view(args@[0])) + expr_size(node_view(args@[1])), 1);
        if roomy(s0, expr_size(node_view(*expr))) {
            lemma_room_after(s0, q0, s2, q2, sa + sb, 0);
            assert forall|all: Set<Seq<char>>| #[trigger]
                sound(*expr, names, all) implies r is Ok && bodies_sound(probes@, q0.len() as int, all) by {
                assert(sound(args@[0], names, all));
                assert(sound(args@[1], names, all));
                lemma_bodies_join(q0, q1, q2, all);
            }
        }
    }
    r
}

#[verifier::rlimit(80)]
fn compile_call<'a>(
    expr: &'a Node<ExpressionNode>,
    name: &'a String,
    consts: &'a Vec<ConstArg>,
    args: &'a Vec<Node<ExpressionNode>>,
    probes: &mut Vec<Pending<'a>>,
    vars: &Vec<(String, Id)>,
    synth: &mut Synth,
) -> (r: Result<Id, CompileError>)
    requires
        expr.kind == ExpressionNode::FunctionCall(*name, *consts, *args),
        old(synth)@.wf(),
        slots_valid(old(synth)@, vars@),
        pending_valid(old(synth)@, old(probes)@),
    ensures
        final(synth)@.wf(),
        extends(old(synth)@, final(synth)@),
        pending_valid(final(synth)@, final(probes)@),
        old(probes)@.len() <= final(probes)@.len(),
        final(probes)@.subrange(0, old(probes)@.len() as int) == old(probes)@,
        pending_size(final(probes)@) < pending_size(old(probes)@) + expr_size(node_view(*expr)),
        queued(old(synth)@, final(synth)@, old(probes)@, final(probes)@),
        r is Ok ==> pending_in(final(synth)@, final(probes)@, old(probes)@.len() as int, *expr),
        fresh_probes_empty(old(synth)@, final(synth)@),
        r is Ok ==> parts_made(final(synth)@, old(synth)@.nodes.len() as int, *expr, vars@),
        within_budget(old(synth)@, old(probes)@, final(synth)@, final(probes)@, expr_size(node_view(*expr))),
        shape_error(*expr, vars@) matches Some(e) ==> r == Err::<Id, CompileError>(e),
        r matches Ok(id) ==> id.0 < final(synth)@.data.len() && final(synth)@.is_output(id) && compiled_as(
            final(synth)@,
            *expr,
            vars@,
            id,
        ),
        r matches Err(e) ==> e.kind != CompileErrorKind::NoOutputVariables,
        roomy(old(synth)@, expr_size(node_view(*expr))) ==> match direct_error(*expr, bound_names(vars@)) {
            Some(err) => r == Err::<Id, CompileError>(err),
            None => r is Ok,
        },
        roomy(old(synth)@, expr_size(node_view(*expr))) ==> forall|all: Set<Seq<char>>|
            #[trigger] sound(*expr, bound_names(vars@), all) ==> r is Ok && bodies_sound(
                final(probes)@,
                old(probes)@.len() as int,
                all,
            ),
    decreases *expr, 0int,
{
    let ghost s0 = synth@;
    let ghost q0 = probes@;
    proof {
        lemma_extends_refl(s0);
        assert(q0.subrange(0, q0.len() as int) =~= q0);
        lemma_arg_sizes(*expr);
    }
    let pos = first_arg_pos(args);
    let is_delay = str_eq(name.as_str(), "delay");
    let is_clamp = str_eq(name.as_str(), "clamp");
    let is_square = str_eq(name.as_str(), "square");
    let is_osc = str_eq(name.as_str(), "osc");
    if !(is_delay || is_clamp || is_square || is_osc) {
        return Err(CompileError { kind: CompileErrorKind::UnknownFunctionName(name.clone()), pos });
    }
    let arity: usize = if is_delay {
        2
    } else {
        1
    };
    if args.len() != arity {
        return Err(CompileError { kind: CompileErrorKind::InvalidArgNumber, pos });
    }
    let ghost names = bound_names(vars@);
    let ghost sa = expr_size(node_view(args@[0]));
    let ghost rest: nat = if is_delay {
        expr_size(node_view(args@[1])) + 1
    } else {
        1
    };
    let first = match compile_expression(&args[0], probes, vars, synth) {
        Ok(a) => a,
        Err(e) => {
            proof {
                if roomy(s0, expr_size(node_view(*expr))) {
                    assert forall|all: Set<Seq<char>>| #[trigger]
                        sound(*expr, names, all) implies false by {
                        assert(sound(args@[0], names, all));
                    }
                }
            }
            return Err(e);
        },
    };
    let ghost s1 = synth@;
    let ghost q1 = probes@;
    proof {
        if roomy(s0, expr_size(node_view(*expr))) {
            lemma_room_after(s0, q0, s1, q1, sa, rest);
        }
        lemma_extends_grows(s0, s1);
        lemma_slots_grows(s0, s1, vars@);
    }
    if is_delay {
        if synth.probe_count() >= 0xffff_ffff {
            return Err(graph_full());
        }
        let probe = synth.allocate_probe_id();
        let ghost s2 = synth@;
        let max = default_or(lookup_const(consts, "max"), Number::integer(false, 5));
        probes.push(Pending { probe, max, body: &args[1] });
        proof {
            assert(s2.probes.subrange(0, s1.probes.len() as int) =~= s1.probes);
            assert(s2.nodes.subrange(0, s1.nodes.len() as int) =~= s1.nodes);
            assert(s2.data.subrange(0, s1.data.len() as int) =~= s1.data);
            lemma_extends_trans(s0, s1, s2);
            assert(probes@.drop_last() =~= q1);
            assert(probes@.subrange(0, q1.len() as int) =~= q1);
            lemma_prefix_trans(q0, q1, probes@);
            assert forall|k: int| 0 <= k < probes@.len() implies (#[trigger] probes@[k]).probe.0
                < s2.probes.len() by {
                if k < q1.len() {
                    assert(probes@[k] == q1[k]);
                }
            }
            assert(queued_from(probes@, q1.len() as int, s1.probes.len() as int)) by {
                assert(probes@[q1.len() as int].probe.0 == s1.probes.len());
            }
            assert(queued(s1, s2, q1, probes@));
            lemma_queued_trans(s0, s1, s2, q0, q1, probes@);
        }
        let ghost q2 = probes@;
        let none: Vec<Number> = Vec::new();
        proof {
            assert(none@ =~= seq![]);
        }
        proof {
            assert(pending_size(probes@) == pending_size(q1) + expr_size(node_view(args@[1])));
            assert(within_budget(s1, q1, s2, probes@, 1 + expr_size(node_view(args@[1]))));
            lemma_budget_trans(s0, s1, s2, q0, q1, probes@,
                expr_size(node_view(args@[0])), 1 + expr_size(node_view(args@[1])));
        }
        let ins = vec![first];
        proof {
            assert(ins@ =~= seq![first]);
            assert(grows(s1, s2));
            lemma_output_grows(s1, s2, first);
        }
        let r = emit(synth, NodeKind::Delay(max, probe), ins, none);
        proof {
            lemma_extends_trans(s0, s2, synth@);
            assert(queued(s2, synth@, q2, q2));
            assert(q2.subrange(0, q2.len() as int) =~= q2);
            lemma_queued_trans(s0, s2, synth@, q0, q2, q2);
            lemma_budget_trans(s0, s2, synth@, q0, q2, q2,
                expr_size(node_view(args@[0])) + 1 + expr_size(node_view(args@[1])), 1);
            if roomy(s0, expr_size(node_view(*expr))) {
                assert forall|all: Set<Seq<char>>| #[trigger]
                    sound(*expr, names, all) implies r is Ok && bodies_sound(probes@, q0.len() as int, all) by {
                    assert(sound(args@[0], names, all));
                    assert(sound(args@[1], all, all));
                    assert(bodies_sound(q2, q1.len() as int, all)) by {
                        assert(q2[q1.len() as int].body == &args@[1]);
                    }
                    lemma_bodies_join(q0, q1, q2, all);
                }
            }
            if r is Ok {
                assert(max == const_or(args_view(consts@), "max"@, whole(false, 5)));
                let ins = input_slots(seq![first]);
                assert(yields(synth@, r->Ok_0, NodeKind::Delay(max, probe), ins, seq![]));
                assert(exists|p: Id| yields(synth@, r->Ok_0, NodeKind::Delay(max, p), ins, seq![]));
                assert(extends(s1, s2));
                lemma_extends_trans(s1, s2, synth@);
                lemma_compiled_grows(s1, synth@, args@[0], vars@, first);
                let id = r->Ok_0;
                lemma_yields_makes(synth@, id, NodeKind::Delay(max, probe), input_slots(seq![first]), seq![]);
                lemma_call_arg(synth@, id, first);
                assert(call_makes(synth@, id, name@, args_view(consts@), first));
                lemma_extends_grows(s0, s1);
                lemma_extends_grows(s0, s1);
                lemma_extends_grows(s2, synth@);
                lemma_node_parts(*expr, s0, s1, s2, synth@, vars@, id);
            }
        }
        r
    } else {
        let kind = if is_clamp {
            NodeKind::Clamp(
                default_or(lookup_const(consts, "min"), Number::integer(true, 1)),
                default_or(lookup_const(consts, "max"), Number::integer(false, 1)),
            )
        } else if is_square {
            NodeKind::SquareOscillator
        } else {
            NodeKind::Oscillator
        };
        let mut data: Vec<Number> = Vec::new();
        if !is_clamp {
            let off = default_or(lookup_const(consts, "off"), Number::integer(false, 0));
            data.push(off);
            proof {
                assert(data@ =~= seq![off]);
            }
        } else {
            proof {
                assert(data@ =~= seq![]);
            }
        }
        let ins = vec![first];
        proof {
            assert(ins@ =~= seq![first]);
        }
        let r = emit(synth, kind, ins, data);
        proof {
            lemma_extends_trans(s0, s1, synth@);
            assert(queued(s1, synth@, q1, q1));
            assert(q1.subrange(0, q1.len() as int) =~= q1);
            lemma_queued_trans(s0, s1, synth@, q0, q1, q1);
            lemma_budget_trans(s0, s1, synth@, q0, q1, q1, expr_size(node_view(args@[0])), 1);
            if r is Ok {
                lemma_compiled_grows(s1, synth@, args@[0], vars@, first);
                let id = r->Ok_0;
                lemma_yields_makes(synth@, id, kind, input_slots(seq![first]), data@);
                lemma_call_arg(synth@, id, first);
                assert(call_makes(synth@, id, name@, args_view(consts@), first));
                lemma_extends_grows(s0, s1);
                lemma_extends_grows(s1, synth@);
                lemma_extends_refl(s1);
                lemma_extends_grows(s1, s1);
                lemma_node_parts(*expr, s0, s1, s1, synth@, vars@, id);
            }
            if roomy(s0, expr_size(node_view(*expr))) {
                assert forall|all: Set<Seq<char>>| #[trigger]
                    sound(*expr, names, all) implies r is Ok && bodies_sound(probes@, q0.len() as int, all) by {
                    assert(sound(args@[0], names, all));
                }
            }
        }
        r
    }
}

} // verus!

verus! {

/// Some statement of the program binds `name`.
pub open spec fn binds(cmds: Seq<Node<CommandNode>>, name: Seq<char>) -> bool {
    exists|k: int| 0 <= k < cmds.len() && (#[trigger] cmds[k]).kind->Assignment_0@ == name
}

/// The output slots that the bindings choose: `out` for both channels,
/// else `left` and `right`.
pub open spec fn outputs_of(vars: Seq<(String, Id)>) -> Result<(Id, Id), CompileError> {
    match binding(vars, "out"@) {
        Some(id) => Ok((id, id)),
        None => match (binding(vars, "left"@), binding(vars, "right"@)) {
            (Some(l), Some(r)) => Ok((l, r)),
            _ => Err(CompileError { kind: CompileErrorKind::NoOutputVariables, pos: None }),
        },
    }
}

/// Picks the output slots from the bindings.
pub fn select_outputs(vars: &Vec<(String, Id)>) -> (r: Result<(Id, Id), CompileError>)
    ensures
        r == outputs_of(vars@),
{
    let out = String::from_str("out");
    if let Some(id) = lookup_var(vars, &out) {
        return Ok((id, id));
    }
    let left = match lookup_var(vars, &String::from_str("left")) {
        Some(id) => id,
        None => {
            return Err(CompileError { kind: CompileErrorKind::NoOutputVariables, pos: None });
        },
    };
    let right = match lookup_var(vars, &String::from_str("right")) {
        Some(id) => id,
        None => {
            return Err(CompileError { kind: CompileErrorKind::NoOutputVariables, pos: None });
        },
    };
    Ok((left, right))
}

} // verus!

verus! {

/// The expression of a statement.
pub open spec fn stmt_expr(c: Node<CommandNode>) -> Node<ExpressionNode> {
    *c.kind->Assignment_1
}

/// The names that the first `k` statements bind.
pub open spec fn names_before(cmds: Seq<Node<CommandNode>>, k: int) -> Set<Seq<char>> {
    Set::new(|n: Seq<char>| binds(cmds.subrange(0, k), n))
}

/// Each statement compiles with the names bound before it, and each delay
/// body with every name of the program bound.
pub open spec fn program_sound(cmds: Seq<Node<CommandNode>>) -> bool {
    forall|k: int|
        0 <= k < cmds.len() ==> sound(
            stmt_expr(#[trigger] cmds[k]),
            names_before(cmds, k),
            names_before(cmds, cmds.len() as int),
        )
}

/// `b` is the body of a delay in one of the statements.
pub open spec fn in_program(cmds: Seq<Node<CommandNode>>, b: Node<ExpressionNode>) -> bool {
    exists|j: int| 0 <= j < cmds.len() && #[trigger] has_body(stmt_expr(cmds[j]), b)
}

/// The queued bodies are bodies of delays in the program, each with its
/// delay node in `s`.
#[verifier::opaque]
pub open spec fn queue_from_program(cmds: Seq<Node<CommandNode>>, s: SynthView, q: Seq<Pending>) -> bool {
    forall|k: int|
        0 <= k < q.len() ==> in_program(cmds, *(#[trigger] q[k]).body) && delay_node_for(s, q[k].probe, q[k].max)
}

/// Probe `p` of `s` records the slot that the body of a delay of the
/// program compiled to, with the bindings `vars`, and holds as far back as
/// that delay's max: the delay node that reads it has that max.
pub open spec fn probe_explained(cmds: Seq<Node<CommandNode>>, vars: Seq<(String, Id)>, s: SynthView, p: int) -> bool {
    &&& s.probes[p] is Some
    &&& exists|b: Node<ExpressionNode>|
        #[trigger] in_program(cmds, b) && compiled_as(s, b, vars, s.probes[p]->Some_0.probing)
    &&& delay_node_for(s, Id(p as u32), s.probes[p]->Some_0.max_time)
}

/// Node `j` of `s` is what a part of the program compiled to: a direct
/// part of a statement, with the bindings before it, or of a delay body,
/// with all the bindings.
pub open spec fn node_made(cmds: Seq<Node<CommandNode>>, vars: Seq<(String, Id)>, s: SynthView, j: int) -> bool {
    ||| exists|k: int| 0 <= k < vars.len() && #[trigger] made_by(s, j, stmt_expr(cmds[k]), vars.take(k))
    ||| exists|b: Node<ExpressionNode>| #[trigger] in_program(cmds, b) && made_by(s, j, b, vars)
}

pub open spec fn made_in_statements(cmds: Seq<Node<CommandNode>>, vars: Seq<(String, Id)>, s: SynthView, j: int) -> bool {
    exists|k: int| 0 <= k < vars.len() && #[trigger] made_by(s, j, stmt_expr(cmds[k]), vars.take(k))
}

#[verifier::opaque]
pub open spec fn direct_nodes_made(cmds: Seq<Node<CommandNode>>, vars: Seq<(String, Id)>, s: SynthView) -> bool {
    forall|j: int| 0 <= j < s.nodes.len() ==> #[trigger] made_in_statements(cmds, vars, s, j)
}

#[verifier::opaque]
pub open spec fn all_nodes_made(cmds: Seq<Node<CommandNode>>, vars: Seq<(String, Id)>, s: SynthView) -> bool {
    forall|j: int| 0 <= j < s.nodes.len() ==> #[trigger] node_made(cmds, vars, s, j)
}

proof fn lemma_direct_made(
    cmds: Seq<Node<CommandNode>>,
    k: int,
    v0: Seq<(String, Id)>,
    v1: Seq<(String, Id)>,
    s0: SynthView,
    s1: SynthView,
)
    requires
        direct_nodes_made(cmds, v0, s0),
        v0.len() == k,
        0 <= k < cmds.len(),
        v1.len() == k + 1,
        v1.take(k) == v0,
        s0.wf(),
        s1.wf(),
        grows(s0, s1),
        parts_made(s1, s0.nodes.len() as int, stmt_expr(cmds[k]), v0),
    ensures
        direct_nodes_made(cmds, v1, s1),
{
    reveal(direct_nodes_made);
    assert forall|j: int| 0 <= j < s1.nodes.len() implies #[trigger] made_in_statements(cmds, v1, s1, j) by {
        if j < s0.nodes.len() {
            assert(made_in_statements(cmds, v0, s0, j));
            let k2 = choose|k2: int| 0 <= k2 < v0.len() && #[trigger] made_by(s0, j, stmt_expr(cmds[k2]), v0.take(k2));
            assert(v1.take(k2) =~= v0.take(k2));
            lemma_made_lift(s0, s1, j, stmt_expr(cmds[k2]), stmt_expr(cmds[k2]), v0.take(k2));
            assert(made_by(s1, j, stmt_expr(cmds[k2]), v1.take(k2)));
        } else {
            assert(made_by(s1, j, stmt_expr(cmds[k]), v0));
            assert(v1.take(k) == v0);
        }
    }
}

proof fn lemma_direct_all_made(cmds: Seq<Node<CommandNode>>, vars: Seq<(String, Id)>, s: SynthView)
    requires
        direct_nodes_made(cmds, vars, s),
    ensures
        all_nodes_made(cmds, vars, s),
{
    reveal(direct_nodes_made);
    reveal(all_nodes_made);
    assert forall|j: int| 0 <= j < s.nodes.len() implies #[trigger] node_made(cmds, vars, s, j) by {
        assert(made_in_statements(cmds, vars, s, j));
        let k = choose|k: int| 0 <= k < vars.len() && #[trigger] made_by(s, j, stmt_expr(cmds[k]), vars.take(k));
    }
}

proof fn lemma_drain_made(
    cmds: Seq<Node<CommandNode>>,
    vars: Seq<(String, Id)>,
    s0: SynthView,
    s1: SynthView,
    s2: SynthView,
    body: Node<ExpressionNode>,
)
    requires
        all_nodes_made(cmds, vars, s0),
        in_program(cmds, body),
        parts_made(s1, s0.nodes.len() as int, body, vars),
        s0.wf(),
        s1.wf(),
        s2.wf(),
        grows(s0, s1),
        grows(s1, s2),
        s2.nodes.len() == s1.nodes.len(),
    ensures
        all_nodes_made(cmds, vars, s2),
{
    reveal(all_nodes_made);
    lemma_grows_trans(s0, s1, s2);
    assert forall|j: int| 0 <= j < s2.nodes.len() implies #[trigger] node_made(cmds, vars, s2, j) by {
        if j < s0.nodes.len() {
            assert(node_made(cmds, vars, s0, j));
            if exists|k: int| 0 <= k < vars.len() && #[trigger] made_by(s0, j, stmt_expr(cmds[k]), vars.take(k)) {
                let k = choose|k: int| 0 <= k < vars.len() && #[trigger] made_by(s0, j, stmt_expr(cmds[k]), vars.take(k));
                lemma_made_lift(s0, s2, j, stmt_expr(cmds[k]), stmt_expr(cmds[k]), vars.take(k));
            } else {
                let b = choose|b: Node<ExpressionNode>| #[trigger] in_program(cmds, b) && made_by(s0, j, b, vars);
                lemma_made_lift(s0, s2, j, b, b, vars);
            }
        } else {
            assert(made_by(s1, j, body, vars));
            lemma_made_lift(s1, s2, j, body, body, vars);
        }
    }
}

proof fn lemma_all_made(cmds: Seq<Node<CommandNode>>, vars: Seq<(String, Id)>, s: SynthView)
    requires
        all_nodes_made(cmds, vars, s),
    ensures
        forall|j: int| 0 <= j < s.nodes.len() ==> #[trigger] node_made(cmds, vars, s, j),
{
    reveal(all_nodes_made);
}

/// What compiling the program built, seen through its bindings `vars`:
/// each statement's binding, the output slots they choose, what each probe
/// records, and that every node is made by a part of the program.
pub open spec fn program_result(
    cmds: Seq<Node<CommandNode>>,
    vars: Seq<(String, Id)>,
    s: SynthView,
    left: Id,
    right: Id,
) -> bool {
    &&& bound_by(cmds, vars, s)
    &&& outputs_of(vars) == Ok::<(Id, Id), CompileError>((left, right))
    &&& forall|p: int| 0 <= p < s.probes.len() ==> #[trigger] probe_explained(cmds, vars, s, p)
    &&& forall|j: int| 0 <= j < s.nodes.len() ==> #[trigger] node_made(cmds, vars, s, j)
}

/// Every probe that has been given explains itself.
#[verifier::opaque]
pub open spec fn probes_explained(cmds: Seq<Node<CommandNode>>, vars: Seq<(String, Id)>, s: SynthView) -> bool {
    forall|p: int| 0 <= p < s.probes.len() && (#[trigger] s.probes[p]) is Some ==> probe_explained(cmds, vars, s, p)
}

/// No probe id has its probe yet.
#[verifier::opaque]
pub open spec fn no_probe_given(s: SynthView) -> bool {
    forall|p: int| 0 <= p < s.probes.len() ==> (#[trigger] s.probes[p]) is None
}

proof fn lemma_direct_step(
    cmds: Seq<Node<CommandNode>>,
    k: int,
    s0: SynthView,
    s1: SynthView,
    q0: Seq<Pending>,
    q1: Seq<Pending>,
)
    requires
        0 <= k < cmds.len(),
        queue_from_program(cmds, s0, q0),
        no_probe_given(s0),
        extends(s0, s1),
        fresh_probes_empty(s0, s1),
        q0.len() <= q1.len(),
        q1.subrange(0, q0.len() as int) == q0,
        pending_in(s1, q1, q0.len() as int, stmt_expr(cmds[k])),
    ensures
        queue_from_program(cmds, s1, q1),
        no_probe_given(s1),
{
    reveal(queue_from_program);
    reveal(no_probe_given);
    lemma_extends_grows(s0, s1);
    assert forall|p: int| 0 <= p < s1.probes.len() implies (#[trigger] s1.probes[p]) is None by {
        if p < s0.probes.len() {
            assert(s1.probes[p] == s1.probes.subrange(0, s0.probes.len() as int)[p]);
        }
    }
    assert forall|j: int| 0 <= j < q1.len() implies in_program(cmds, *(#[trigger] q1[j]).body) && delay_node_for(
        s1,
        q1[j].probe,
        q1[j].max,
    ) by {
        if j < q0.len() {
            assert(q1[j] == q1.subrange(0, q0.len() as int)[j]);
            lemma_delay_node_grows(s0, s1, q0[j].probe, q0[j].max);
        } else {
            assert(has_body(stmt_expr(cmds[k]), *q1[j].body));
        }
    }
}

proof fn lemma_none_given_explained(cmds: Seq<Node<CommandNode>>, vars: Seq<(String, Id)>, s: SynthView)
    requires
        no_probe_given(s),
    ensures
        probes_explained(cmds, vars, s),
{
    reveal(no_probe_given);
    reveal(probes_explained);
}

proof fn lemma_all_explained(cmds: Seq<Node<CommandNode>>, vars: Seq<(String, Id)>, s: SynthView)
    requires
        probes_explained(cmds, vars, s),
        s.complete(),
    ensures
        forall|p: int| 0 <= p < s.probes.len() ==> #[trigger] probe_explained(cmds, vars, s, p),
{
    reveal(probes_explained);
    assert forall|p: int| 0 <= p < s.probes.len() implies #[trigger] probe_explained(cmds, vars, s, p) by {
        assert(s.probes[p] is Some);
    }
}

proof fn lemma_drain_step(
    cmds: Seq<Node<CommandNode>>,
    vars: Seq<(String, Id)>,
    q: Seq<Pending>,
    s0: SynthView,
    s1: SynthView,
    s2: SynthView,
    q1: Seq<Pending>,
    id: Id,
)
    requires
        q.len() > 0,
        queue_from_program(cmds, s0, q),
        probes_explained(cmds, vars, s0),
        s0.wf(),
        s1.wf(),
        s2.wf(),
        extends(s0, s1),
        fresh_probes_empty(s0, s1),
        q.len() - 1 <= q1.len(),
        q1.subrange(0, q.len() - 1) == q.drop_last(),
        pending_in(s1, q1, q.len() - 1, *q.last().body),
        compiled_as(s1, *q.last().body, vars, id),
        q.last().probe.0 < s0.probes.len(),
        s2.nodes == s1.nodes,
        s2.data == s1.data,
        s2.probes == s1.probes.update(q.last().probe.0 as int, Some(Probe { probing: id, max_time: q.last().max })),
    ensures
        queue_from_program(cmds, s2, q1),
        probes_explained(cmds, vars, s2),
{
    reveal(queue_from_program);
    reveal(probes_explained);
    let e = q.last();
    let q0 = q.drop_last();
    lemma_extends_grows(s0, s1);
    assert(grows(s1, s2)) by {
        assert(s2.nodes.subrange(0, s1.nodes.len() as int) =~= s1.nodes);
        assert(s2.data.subrange(0, s1.data.len() as int) =~= s1.data);
    }
    lemma_grows_trans(s0, s1, s2);
    assert(in_program(cmds, *e.body) && delay_node_for(s0, e.probe, e.max)) by {
        assert(q[q.len() - 1] == e);
    }
    let jb = choose|j: int| 0 <= j < cmds.len() && #[trigger] has_body(stmt_expr(cmds[j]), *e.body);
    assert forall|j: int| 0 <= j < q1.len() implies in_program(cmds, *(#[trigger] q1[j]).body) && delay_node_for(
        s2,
        q1[j].probe,
        q1[j].max,
    ) by {
        if j < q0.len() {
            assert(q1[j] == q1.subrange(0, q0.len() as int)[j]);
            assert(q0[j] == q[j]);
            lemma_delay_node_grows(s0, s2, q0[j].probe, q0[j].max);
        } else {
            lemma_has_body_trans(stmt_expr(cmds[jb]), *e.body, *q1[j].body);
            lemma_delay_node_grows(s1, s2, q1[j].probe, q1[j].max);
        }
    }
    assert forall|p: int| 0 <= p < s2.probes.len() && (#[trigger] s2.probes[p]) is Some implies probe_explained(
        cmds,
        vars,
        s2,
        p,
    ) by {
        if p == e.probe.0 {
            lemma_compiled_grows(s1, s2, *e.body, vars, id);
            lemma_delay_node_grows(s0, s2, e.probe, e.max);
            assert(Id(p as u32) == e.probe);
            assert(in_program(cmds, *e.body));
        } else {
            assert(s2.probes[p] == s1.probes[p]);
            if p < s0.probes.len() {
                assert(s1.probes[p] == s1.probes.subrange(0, s0.probes.len() as int)[p]);
                assert(probe_explained(cmds, vars, s0, p));
                let b = choose|b: Node<ExpressionNode>|
                    #[trigger] in_program(cmds, b) && compiled_as(s0, b, vars, s0.probes[p]->Some_0.probing);
                lemma_compiled_grows(s0, s2, b, vars, s0.probes[p]->Some_0.probing);
                lemma_delay_node_grows(s0, s2, Id(p as u32), s0.probes[p]->Some_0.max_time);
            }
        }
    }
}

proof fn lemma_has_body_trans(e: Node<ExpressionNode>, b: Node<ExpressionNode>, x: Node<ExpressionNode>)
    requires
        has_body(e, b),
        has_body(b, x),
    ensures
        has_body(e, x),
    decreases e,
{
    match e.kind {
        ExpressionNode::Operator(_, args) => {
            if has_body(args@[0], b) {
                lemma_has_body_trans(args@[0], b, x);
            } else {
                lemma_has_body_trans(args@[1], b, x);
            }
        },
        ExpressionNode::FunctionCall(name, _, args) => {
            if has_body(args@[0], b) {
                lemma_has_body_trans(args@[0], b, x);
            } else if args@[1] != b {
                lemma_has_body_trans(args@[1], b, x);
            }
        },
        _ => {},
    }
}

/// `vars` binds each statement's name, in order, to the slot that its
/// expression compiled to in `s`, with the bindings before it in scope.
pub open spec fn bound_by(cmds: Seq<Node<CommandNode>>, vars: Seq<(String, Id)>, s: SynthView) -> bool {
    &&& vars.len() == cmds.len()
    &&& forall|k: int|
        0 <= k < cmds.len() ==> (#[trigger] vars[k]).0@ == cmds[k].kind->Assignment_0@ && compiled_as(
            s,
            stmt_expr(cmds[k]),
            vars.take(k),
            vars[k].1,
        )
}

/// The error of the first statement from `k` on that fails to compile,
/// delay bodies aside.
pub open spec fn first_error(cmds: Seq<Node<CommandNode>>, k: int) -> Option<CompileError>
    decreases cmds.len() - k,
{
    if k < 0 || k >= cmds.len() {
        None
    } else {
        match direct_error(stmt_expr(cmds[k]), names_before(cmds, k)) {
            Some(e) => Some(e),
            None => first_error(cmds, k + 1),
        }
    }
}

/// The number of expression tree nodes in the program.
pub open spec fn program_size(cmds: Seq<Node<CommandNode>>) -> nat
    decreases cmds.len(),
{
    if cmds.len() == 0 {
        0
    } else {
        program_size(cmds.drop_last()) + expr_size(node_view(stmt_expr(cmds.last())))
    }
}

proof fn lemma_program_size_prefix(cmds: Seq<Node<CommandNode>>, k: int)
    requires
        0 <= k < cmds.len(),
    ensures
        program_size(cmds.subrange(0, k + 1)) == program_size(cmds.subrange(0, k)) + expr_size(
            node_view(stmt_expr(cmds[k])),
        ),
        program_size(cmds.subrange(0, k + 1)) <= program_size(cmds),
    decreases cmds.len(),
{
    assert(cmds.subrange(0, k + 1).drop_last() =~= cmds.subrange(0, k));
    if k + 1 < cmds.len() {
        assert(cmds.drop_last().subrange(0, k + 1) =~= cmds.subrange(0, k + 1));
        assert(cmds.drop_last().subrange(0, k) =~= cmds.subrange(0, k));
        lemma_program_size_prefix(cmds.drop_last(), k);
    } else {
        assert(cmds.subrange(0, k + 1) =~= cmds);
    }
}

pub open spec fn covered(s: SynthView, q: Seq<Pending>) -> bool {
    forall|p: int| 0 <= p < s.probes.len() && (#[trigger] s.probes[p]) is None ==> queued_from(q, 0, p)
}

/// Compiles a program: first each statement in order, each seeing the
/// bindings before it; then the queued delay bodies, latest first, each
/// seeing every binding. The outputs are `out` on both channels, else
/// `left` and `right`.
#[verifier::rlimit(100)]
pub fn compile(nodes: Vec<Node<CommandNode>>) -> (r: Result<(Synth, Id, Id), CompileError>)
    ensures
        match r {
            Ok((s, left, right)) => {
                &&& s@.wf()
                &&& s@.complete()
                &&& left.0 < s@.data.len()
                &&& right.0 < s@.data.len()
                &&& exists|vars: Seq<(String, Id)>| #[trigger] program_result(nodes@, vars, s@, left, right)
                &&& binds(nodes@, "out"@) ==> left == right
                &&& binds(nodes@, "out"@) || (binds(nodes@, "left"@) && binds(nodes@, "right"@))
            },
            Err(e) => e.kind == CompileErrorKind::NoOutputVariables ==> !binds(nodes@, "out"@) && !(
            binds(nodes@, "left"@) && binds(nodes@, "right"@)),
        },
        !binds(nodes@, "out"@) && !(binds(nodes@, "left"@) && binds(nodes@, "right"@)) ==> r is Err,
        program_sound(nodes@) && 2 * program_size(nodes@) + 2 < NIL_NODE_ID && (binds(nodes@, "out"@) || (
        binds(nodes@, "left"@) && binds(nodes@, "right"@))) ==> r is Ok,
        program_sound(nodes@) && 2 * program_size(nodes@) + 2 < NIL_NODE_ID && !binds(nodes@, "out"@) && !(
        binds(nodes@, "left"@) && binds(nodes@, "right"@)) ==> (r matches Err(e) && e.kind
            == CompileErrorKind::NoOutputVariables),
        2 * program_size(nodes@) + 2 < NIL_NODE_ID && first_error(nodes@, 0) is Some ==> r
            == Err::<(Synth, Id, Id), CompileError>(first_error(nodes@, 0)->Some_0),
        r matches Err(e) ==> (e.kind == CompileErrorKind::NoOutputVariables ==> e.pos is None),
{
    let ghost all = names_before(nodes@, nodes@.len() as int);
    let ghost total = program_size(nodes@);
    let mut synth = Synth::new();
    let mut vars: Vec<(String, Id)> = Vec::new();
    let mut probes: Vec<Pending> = Vec::new();
    let mut k: usize = 0;
    proof {
        reveal(queue_from_program);
        reveal(no_probe_given);
        reveal(direct_nodes_made);
    }
    while k < nodes.len()
        invariant
            k <= nodes.len(),
            synth@.wf(),
            slots_valid(synth@, vars@),
            pending_valid(synth@, probes@),
            covered(synth@, probes@),
            forall|name: Seq<char>|
                #![trigger binding(vars@, name)]
                binding(vars@, name) is Some <==> binds(nodes@.subrange(0, k as int), name),
            all == names_before(nodes@, nodes@.len() as int),
            total == program_size(nodes@),
            synth@.data.len() + 2 * pending_size(probes@) <= 2 * program_size(nodes@.subrange(0, k as int)),
            synth@.probes.len() + pending_size(probes@) <= program_size(nodes@.subrange(0, k as int)),
            program_sound(nodes@) && 2 * total + 2 < NIL_NODE_ID ==> bodies_sound(probes@, 0, all),
            2 * total + 2 < NIL_NODE_ID ==> first_error(nodes@, 0) == first_error(nodes@, k as int),
            bound_by(nodes@.take(k as int), vars@, synth@),
            queue_from_program(nodes@, synth@, probes@),
            no_probe_given(synth@),
            vars@.len() == k,
            direct_nodes_made(nodes@, vars@, synth@),
        decreases nodes.len() - k,
    {
        let ghost s0 = synth@;
        let ghost q0 = probes@;
        let ghost v0 = vars@;
        proof {
            lemma_program_size_prefix(nodes@, k as int);
            assert(bound_names(vars@) =~= names_before(nodes@, k as int));
        }
        match &nodes[k].kind {
            CommandNode::Assignment(name, expr) => {
                let id = match compile_expression(expr, &mut probes, &vars, &mut synth) {
                    Ok(id) => id,
                    Err(e) => {
                        proof {
                            if program_sound(nodes@) && 2 * total + 2 < NIL_NODE_ID {
                                assert(sound(stmt_expr(nodes@[k as int]), names_before(nodes@, k as int), all));
                            }
                        }
                        return Err(e);
                    },
                };
                let ghost s1 = synth@;
                vars.push((name.clone(), id));
                proof {
                    lemma_extends_grows(s0, s1);
                    lemma_direct_step(nodes@, k as int, s0, s1, q0, probes@);
                    assert(vars@.take(k as int) =~= v0);
                    lemma_direct_made(nodes@, k as int, v0, vars@, s0, s1);
                    assert forall|j: int| 0 <= j < k + 1 implies (#[trigger] vars@[j]).0@ == nodes@.take(
                        k + 1,
                    )[j].kind->Assignment_0@ && compiled_as(
                        s1,
                        stmt_expr(nodes@.take(k + 1)[j]),
                        vars@.take(j),
                        vars@[j].1,
                    ) by {
                        if j < k {
                            assert(vars@.take(j) =~= v0.take(j));
                            assert(vars@[j] == v0[j]);
                            assert(nodes@.take(k + 1)[j] == nodes@.take(k as int)[j]);
                            lemma_compiled_grows(s0, s1, stmt_expr(nodes@[j]), v0.take(j), v0[j].1);
                        } else {
                            assert(vars@.take(j) =~= v0);
                        }
                    }
                    if program_sound(nodes@) && 2 * total + 2 < NIL_NODE_ID {
                        assert(sound(stmt_expr(nodes@[k as int]), names_before(nodes@, k as int), all));
                        assert(q0.subrange(0, 0) =~= Seq::<Pending>::empty());
                        assert(bodies_sound(probes@, q0.len() as int, all));
                        lemma_bodies_join(q0.subrange(0, 0), q0, probes@, all);
                    }
                    lemma_covered_step(s0, synth@, q0, probes@);
                    lemma_slots_grows(s0, s1, v0);
                    lemma_slots_push(s1, v0, vars@.last());
                    assert(vars@ =~= v0.push(vars@.last()));
                    assert(vars@.drop_last() =~= v0);
                    assert(vars@.last().0@ == nodes@[k as int].kind->Assignment_0@);
                    let pre = nodes@.subrange(0, k as int);
                    let pre1 = nodes@.subrange(0, k + 1);
                    assert forall|n: Seq<char>| #[trigger]
                        binding(vars@, n) is Some <==> binds(pre1, n) by {
                        if binds(pre, n) {
                            let j = choose|j: int| 0 <= j < pre.len() && (#[trigger] pre[j]).kind->Assignment_0@ == n;
                            assert(pre1[j] == pre[j]);
                        }
                        if binds(pre1, n) {
                            let j = choose|j: int| 0 <= j < pre1.len() && (#[trigger] pre1[j]).kind->Assignment_0@ == n;
                            if j < k {
                                assert(pre1[j] == pre[j]);
                            }
                        }
                        assert(pre1[k as int] == nodes@[k as int]);
                        if n != vars@.last().0@ {
                            assert(binding(vars@, n) == binding(v0, n));
                        }
                    }
                }
            },
        }
        k = k + 1;
    }
    proof {
        assert(nodes@.subrange(0, nodes@.len() as int) =~= nodes@);
    }
    proof {
        assert(bound_names(vars@) =~= all);
        assert(first_error(nodes@, nodes@.len() as int) is None);
        assert(nodes@.take(nodes@.len() as int) =~= nodes@);
        lemma_none_given_explained(nodes@, vars@, synth@);
        lemma_direct_all_made(nodes@, vars@, synth@);
    }
    while probes.len() > 0
        invariant
            synth@.wf(),
            slots_valid(synth@, vars@),
            pending_valid(synth@, probes@),
            covered(synth@, probes@),
            bound_names(vars@) == all,
            total == program_size(nodes@),
            2 * total + 2 < NIL_NODE_ID ==> first_error(nodes@, 0) is None,
            bound_by(nodes@, vars@, synth@),
            synth@.data.len() + 2 * pending_size(probes@) <= 2 * total,
            synth@.probes.len() + pending_size(probes@) <= total,
            program_sound(nodes@) && 2 * total + 2 < NIL_NODE_ID ==> bodies_sound(probes@, 0, all),
            queue_from_program(nodes@, synth@, probes@),
            probes_explained(nodes@, vars@, synth@),
            all_nodes_made(nodes@, vars@, synth@),
        decreases pending_size(probes@),
    {
        let ghost q = probes@;
        let ghost s0 = synth@;
        let p = match probes.pop() {
            Some(p) => p,
            None => {
                return Err(graph_full());
            },
        };
        let ghost q0 = probes@;
        proof {
            assert(q0 =~= q.drop_last());
            assert(q.last() == p);
            assert(pending_size(q) == pending_size(q0) + expr_size(node_view(*p.body)));
            if 2 * total + 2 < NIL_NODE_ID {
                assert(roomy(s0, expr_size(node_view(*p.body))));
            }
            if program_sound(nodes@) && 2 * total + 2 < NIL_NODE_ID {
                assert(sound(*q[q.len() - 1].body, all, all));
                assert(bodies_sound(q0, 0, all)) by {
                    assert forall|j: int| 0 <= j < q0.len() implies sound(*(#[trigger] q0[j]).body, all, all) by {
                        assert(q0[j] == q[j]);
                    }
                }
            }
            assert(pending_valid(s0, q0)) by {
                assert forall|j: int| 0 <= j < q0.len() implies (#[trigger] q0[j]).probe.0 < s0.probes.len() by {
                    assert(q0[j] == q[j]);
                }
            }
        }
        let id = match compile_expression(p.body, &mut probes, &vars, &mut synth) {
            Ok(id) => id,
            Err(e) => {
                proof {
                    if program_sound(nodes@) && 2 * total + 2 < NIL_NODE_ID {
                        assert(roomy(s0, expr_size(node_view(*p.body))));
                        assert(sound(*p.body, bound_names(vars@), all));
                    }
                }
                return Err(e);
            },
        };
        let ghost s1 = synth@;
        let ghost q1 = probes@;
        proof {
            if program_sound(nodes@) && 2 * total + 2 < NIL_NODE_ID {
                lemma_bodies_join(q0.subrange(0, 0), q0, q1, all);
            }
        }
        proof {
            assert(p.probe.0 < s0.probes.len());
            assert(s1.probes.subrange(0, s0.probes.len() as int)[p.probe.0 as int] == s0.probes[p.probe.0 as int]);
        }
        synth.add_probe(p.probe, p.max, id);
        proof {
            lemma_extends_grows(s0, s1);
            assert(grows(s1, synth@)) by {
                assert(synth@.nodes.subrange(0, s1.nodes.len() as int) =~= s1.nodes);
                assert(synth@.data.subrange(0, s1.data.len() as int) =~= s1.data);
            }
            assert forall|j: int| 0 <= j < nodes@.len() implies (#[trigger] vars@[j]).0@ == nodes@[j].kind->Assignment_0@
                && compiled_as(synth@, stmt_expr(nodes@[j]), vars@.take(j), vars@[j].1) by {
                lemma_compiled_grows(s0, s1, stmt_expr(nodes@[j]), vars@.take(j), vars@[j].1);
                lemma_compiled_grows(s1, synth@, stmt_expr(nodes@[j]), vars@.take(j), vars@[j].1);
            }
            lemma_covered_drain(q, s0, s1, synth@, q0, probes@, p.probe.0 as int);
            lemma_drain_step(nodes@, vars@, q, s0, s1, synth@, probes@, id);
            lemma_extends_grows(s0, s1);
            assert(grows(s1, synth@)) by {
                assert(synth@.nodes.subrange(0, s1.nodes.len() as int) =~= s1.nodes);
                assert(synth@.data.subrange(0, s1.data.len() as int) =~= s1.data);
            }
            assert(in_program(nodes@, *p.body)) by {
                reveal(queue_from_program);
                assert(q[q.len() - 1] == p);
            }
            lemma_drain_made(nodes@, vars@, s0, s1, synth@, *p.body);
            lemma_slots_grows(s0, s1, vars@);
            lemma_slots_grows(s1, synth@, vars@);
        }
    }
    proof {
        assert forall|p: int| 0 <= p < synth@.probes.len() implies (#[trigger] synth@.probes[p]) is Some by {
            if synth@.probes[p] is None {
                assert(queued_from(probes@, 0, p));
                let j = choose|j: int| 0 <= j < probes@.len() && (#[trigger] probes@[j]).probe.0 == p;
            }
        }
    }
    match select_outputs(&vars) {
        Ok((left, right)) => {
            proof {
                lemma_all_explained(nodes@, vars@, synth@);
                lemma_all_made(nodes@, vars@, synth@);
                assert(program_result(nodes@, vars@, synth@, left, right));
                lemma_binding_in(vars@, "out"@);
                lemma_binding_in(vars@, "left"@);
                lemma_binding_in(vars@, "right"@);
                assert(binding(vars@, "out"@) is Some <==> binds(nodes@, "out"@));
                assert(binding(vars@, "left"@) is Some <==> binds(nodes@, "left"@));
                assert(binding(vars@, "right"@) is Some <==> binds(nodes@, "right"@));
            }
            Ok((synth, left, right))
        },
        Err(e) => {
            proof {
                assert(binding(vars@, "out"@) is Some <==> binds(nodes@, "out"@));
                assert(binding(vars@, "left"@) is Some <==> binds(nodes@, "left"@));
                assert(binding(vars@, "right"@) is Some <==> binds(nodes@, "right"@));
            }
            Err(e)
        },
    }
}

proof fn lemma_covered_step(s0: SynthView, s1: SynthView, q0: Seq<Pending>, q1: Seq<Pending>)
    requires
        covered(s0, q0),
        extends(s0, s1),
        queued(s0, s1, q0, q1),
        q0.len() <= q1.len(),
        q1.subrange(0, q0.len() as int) == q0,
    ensures
        covered(s1, q1),
{
    assert forall|p: int| 0 <= p < s1.probes.len() && (#[trigger] s1.probes[p]) is None implies queued_from(
        q1,
        0,
        p,
    ) by {
        if p < s0.probes.len() {
            assert(s1.probes[p] == s1.probes.subrange(0, s0.probes.len() as int)[p]);
            assert(queued_from(q0, 0, p));
            let j = choose|j: int| 0 <= j < q0.len() && (#[trigger] q0[j]).probe.0 == p;
            assert(q1[j] == q1.subrange(0, q0.len() as int)[j]);
        } else {
            assert(queued_from(q1, q0.len() as int, p));
            let j = choose|j: int| q0.len() <= j < q1.len() && (#[trigger] q1[j]).probe.0 == p;
        }
    }
}

proof fn lemma_covered_drain(
    q: Seq<Pending>,
    s0: SynthView,
    s1: SynthView,
    s2: SynthView,
    q0: Seq<Pending>,
    q1: Seq<Pending>,
    probe: int,
)
    requires
        covered(s0, q),
        q.len() > 0,
        q0 == q.drop_last(),
        q.last().probe.0 == probe,
        0 <= probe < s0.probes.len(),
        extends(s0, s1),
        queued(s0, s1, q0, q1),
        q0.len() <= q1.len(),
        q1.subrange(0, q0.len() as int) == q0,
        s2.probes == s1.probes.update(probe, s2.probes[probe]),
        s2.probes[probe] is Some,
    ensures
        covered(s2, q1),
{
    assert forall|p: int| 0 <= p < s2.probes.len() && (#[trigger] s2.probes[p]) is None implies queued_from(
        q1,
        0,
        p,
    ) by {
        assert(p != probe);
        assert(s2.probes[p] == s1.probes[p]);
        if p < s0.probes.len() {
            assert(s1.probes[p] == s1.probes.subrange(0, s0.probes.len() as int)[p]);
            assert(queued_from(q, 0, p));
            let j = choose|j: int| 0 <= j < q.len() && (#[trigger] q[j]).probe.0 == p;
            assert(j != q.len() - 1);
            assert(q0[j] == q[j]);
            assert(q1[j] == q1.subrange(0, q0.len() as int)[j]);
        } else {
            assert(queued_from(q1, q0.len() as int, p));
            let j = choose|j: int| q0.len() <= j < q1.len() && (#[trigger] q1[j]).probe.0 == p;
        }
    }
}

} // verus!

verus! {

// ---------------------------------------------------------------- the same, on syntax views

/// `sound`, on the view of an expression.
pub open spec fn sound_view(e: NodeView, names: Set<Seq<char>>, all: Set<Seq<char>>) -> bool
    decreases e,
{
    match e.kind {
        ExprView::Float(_) => true,
        ExprView::Variable(name) => names.contains(name),
        ExprView::Operator(_, args) => args.len() == 2 && sound_view(args[0], names, all) && sound_view(
            args[1],
            names,
            all,
        ),
        ExprView::Call(name, _, args) => {
            &&& is_known_function(name)
            &&& args.len() == function_arity(name)
            &&& sound_view(args[0], names, all)
            &&& (name == "delay"@ ==> sound_view(args[1], all, all))
        },
    }
}

pub open spec fn binds_view(cmds: Seq<CommandView>, name: Seq<char>) -> bool {
    exists|k: int| 0 <= k < cmds.len() && (#[trigger] cmds[k]).name == name
}

pub open spec fn names_before_view(cmds: Seq<CommandView>, k: int) -> Set<Seq<char>> {
    Set::new(|n: Seq<char>| binds_view(cmds.subrange(0, k), n))
}

/// `program_sound`, on the views of the statements.
pub open spec fn program_sound_view(cmds: Seq<CommandView>) -> bool {
    forall|k: int|
        0 <= k < cmds.len() ==> sound_view(
            (#[trigger] cmds[k]).expr,
            names_before_view(cmds, k),
            names_before_view(cmds, cmds.len() as int),
        )
}

pub open spec fn program_size_view(cmds: Seq<CommandView>) -> nat
    decreases cmds.len(),
{
    if cmds.len() == 0 {
        0
    } else {
        program_size_view(cmds.drop_last()) + expr_size(cmds.last().expr)
    }
}

/// A program compiles when every statement does, it fits in a graph, and
/// it binds its outputs.
pub open spec fn compilable(cmds: Seq<CommandView>) -> bool {
    &&& program_sound_view(cmds)
    &&& 2 * program_size_view(cmds) + 2 < NIL_NODE_ID
    &&& (binds_view(cmds, "out"@) || (binds_view(cmds, "left"@) && binds_view(cmds, "right"@)))
}

proof fn lemma_sound_view(e: Node<ExpressionNode>, names: Set<Seq<char>>, all: Set<Seq<char>>)
    ensures
        sound_view(node_view(e), names, all) == sound(e, names, all),
    decreases e,
{
    match e.kind {
        ExpressionNode::Operator(_, args) => {
            lemma_nodes_view_len(args@, args@.len() as int);
            if args.len() == 2 {
                lemma_nodes_view_index(args@, 2, 0);
                lemma_nodes_view_index(args@, 2, 1);
                lemma_sound_view(args@[0], names, all);
                lemma_sound_view(args@[1], names, all);
            }
        },
        ExpressionNode::FunctionCall(name, _, args) => {
            lemma_nodes_view_len(args@, args@.len() as int);
            if args.len() >= 1 {
                lemma_nodes_view_index(args@, args@.len() as int, 0);
                lemma_sound_view(args@[0], names, all);
            }
            if args.len() >= 2 {
                lemma_nodes_view_index(args@, args@.len() as int, 1);
                lemma_sound_view(args@[1], all, all);
            }
        },
        _ => {},
    }
}

proof fn lemma_binds_view(cmds: Seq<Node<CommandNode>>, name: Seq<char>)
    ensures
        binds_view(commands_view(cmds), name) == binds(cmds, name),
{
    let v = commands_view(cmds);
    if binds(cmds, name) {
        let k = choose|k: int| 0 <= k < cmds.len() && (#[trigger] cmds[k]).kind->Assignment_0@ == name;
        assert(v[k].name == name);
    }
    if binds_view(v, name) {
        let k = choose|k: int| 0 <= k < v.len() && (#[trigger] v[k]).name == name;
        assert(cmds[k].kind->Assignment_0@ == name);
    }
}

proof fn lemma_names_before_view(cmds: Seq<Node<CommandNode>>, k: int)
    requires
        0 <= k <= cmds.len(),
    ensures
        names_before_view(commands_view(cmds), k) == names_before(cmds, k),
{
    let v = commands_view(cmds);
    assert(v.subrange(0, k) =~= commands_view(cmds.subrange(0, k)));
    assert forall|n: Seq<char>| #[trigger] names_before_view(v, k).contains(n) == names_before(cmds, k).contains(n) by {
        lemma_binds_view(cmds.subrange(0, k), n);
    }
    assert(names_before_view(v, k) =~= names_before(cmds, k));
}

proof fn lemma_program_size_view(cmds: Seq<Node<CommandNode>>)
    ensures
        program_size_view(commands_view(cmds)) == program_size(cmds),
    decreases cmds.len(),
{
    if cmds.len() > 0 {
        let v = commands_view(cmds);
        assert(v.drop_last() =~= commands_view(cmds.drop_last()));
        lemma_program_size_view(cmds.drop_last());
    }
}

/// Statements whose views are compilable compile.
pub proof fn lemma_compilable(cmds: Seq<Node<CommandNode>>)
    requires
        compilable(commands_view(cmds)),
    ensures
        program_sound(cmds),
        2 * program_size(cmds) + 2 < NIL_NODE_ID,
        binds(cmds, "out"@) || (binds(cmds, "left"@) && binds(cmds, "right"@)),
{
    let v = commands_view(cmds);
    lemma_program_size_view(cmds);
    lemma_binds_view(cmds, "out"@);
    lemma_binds_view(cmds, "left"@);
    lemma_binds_view(cmds, "right"@);
    lemma_names_before_view(cmds, cmds.len() as int);
    assert forall|k: int| 0 <= k < cmds.len() implies sound(
        stmt_expr(#[trigger] cmds[k]),
        names_before(cmds, k),
        names_before(cmds, cmds.len() as int),
    ) by {
        lemma_names_before_view(cmds, k);
        assert(v[k].expr == node_view(stmt_expr(cmds[k])));
        lemma_sound_view(stmt_expr(cmds[k]), names_before(cmds, k), names_before(cmds, cmds.len() as int));
    }
}

} // verus!
