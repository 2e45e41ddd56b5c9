use vstd::prelude::*;
use crate::number::Number;
use crate::operator::Operator;
use crate::lang::tokenize::{Token, TokenKind, BlockKind};

verus! {

#[derive(PartialEq, Eq, Structural, Debug, Clone, Copy)]
pub enum ParseErrorKind {
    UnexpectedEndOfFile,
    UnexpectedToken,
    ExpectedFloat,
    ExpectedArgList,
    ExpectedCommandTerminator,
    ExpectedAssignment,
    ExpectedSeparator,
    ExpectedIdentifier,
}

/// A parse failure, at the offending token; no position when the tokens ran
/// out.
#[derive(PartialEq, Eq, Debug, Clone, Copy)]
pub struct ParseError {
    pub kind: ParseErrorKind,
    pub pos: Option<(usize, usize)>,
}

/// A syntax tree node with its source position, where it has one.
#[derive(Debug)]
pub struct Node<T> {
    pub kind: T,
    pub pos: Option<(usize, usize)>,
}

impl<T> Node<T> {
    pub fn new(kind: T) -> (r: Node<T>)
        ensures
            r.kind == kind,
            r.pos is None,
    {
        Node { kind, pos: None }
    }

    pub fn with_pos(kind: T, pos: (usize, usize)) -> (r: Node<T>)
        ensures
            r.kind == kind,
            r.pos == Some(pos),
    {
        Node { kind, pos: Some(pos) }
    }
}

/// A named constant argument of a call, such as `max: 2`.
#[derive(Debug)]
pub struct ConstArg {
    pub name: String,
    pub value: Node<Number>,
}

#[derive(Debug)]
pub enum ExpressionNode {
    Float(Number),
    Variable(String),
    Operator(Operator, Vec<Node<ExpressionNode>>),
    /// Name, named constant arguments (names unique), positional arguments.
    FunctionCall(String, Vec<ConstArg>, Vec<Node<ExpressionNode>>),
}

#[derive(Debug)]
pub enum CommandNode {
    Assignment(String, Box<Node<ExpressionNode>>),
}

// ---------------------------------------------------------------- views

/// The value of a constant argument, as the program states it.
pub struct ArgView {
    pub name: Seq<char>,
    pub value: Number,
    pub pos: Option<(usize, usize)>,
}

pub enum ExprView {
    Float(Number),
    Variable(Seq<char>),
    Operator(Operator, Seq<NodeView>),
    Call(Seq<char>, Seq<ArgView>, Seq<NodeView>),
}

pub struct NodeView {
    pub kind: ExprView,
    pub pos: Option<(usize, usize)>,
}

pub struct CommandView {
    pub name: Seq<char>,
    pub expr: NodeView,
    pub pos: Option<(usize, usize)>,
}

pub open spec fn arg_view(a: ConstArg) -> ArgView {
    ArgView { name: a.name@, value: a.value.kind, pos: a.value.pos }
}

pub open spec fn args_view(s: Seq<ConstArg>) -> Seq<ArgView> {
    s.map_values(|a: ConstArg| arg_view(a))
}

pub open spec fn node_view(n: Node<ExpressionNode>) -> NodeView
    decreases n, 0int,
{
    NodeView {
        kind: match n.kind {
            ExpressionNode::Float(f) => ExprView::Float(f),
            ExpressionNode::Variable(s) => ExprView::Variable(s@),
            ExpressionNode::Operator(op, v) => ExprView::Operator(op, nodes_prefix_view(v@, v@.len() as int)),
            ExpressionNode::FunctionCall(name, c, v) => ExprView::Call(
                name@,
                args_view(c@),
                nodes_prefix_view(v@, v@.len() as int),
            ),
        },
        pos: n.pos,
    }
}

pub open spec fn nodes_prefix_view(s: Seq<Node<ExpressionNode>>, n: int) -> Seq<NodeView>
    decreases s, n,
{
    if n <= 0 || n > s.len() {
        Seq::empty()
    } else {
        nodes_prefix_view(s, n - 1).push(node_view(s[n - 1]))
    }
}

pub open spec fn nodes_view(s: Seq<Node<ExpressionNode>>) -> Seq<NodeView> {
    nodes_prefix_view(s, s.len() as int)
}

pub open spec fn command_view(c: Node<CommandNode>) -> CommandView {
    match c.kind {
        CommandNode::Assignment(name, e) => CommandView { name: name@, expr: node_view(*e), pos: c.pos },
    }
}

pub open spec fn commands_view(s: Seq<Node<CommandNode>>) -> Seq<CommandView> {
    s.map_values(|c: Node<CommandNode>| command_view(c))
}

// ---------------------------------------------------------------- grammar

pub open spec fn eof<A>() -> Result<A, ParseError> {
    Err(ParseError { kind: ParseErrorKind::UnexpectedEndOfFile, pos: None })
}

pub open spec fn fail<A>(kind: ParseErrorKind, t: Token) -> Result<A, ParseError> {
    Err(ParseError { kind, pos: Some(t.pos) })
}

/// `expr` at index `i`: the node and the index after it.
pub open spec fn parse_expression_spec(ts: Seq<Token>, i: int) -> Result<(NodeView, int), ParseError>
    decreases ts, ts.len() - i, 0int,
{
    if !(0 <= i < ts.len()) {
        eof()
    } else {
        let t = ts[i];
        match t.kind {
            TokenKind::Float(f) => Ok((NodeView { kind: ExprView::Float(f), pos: Some(t.pos) }, i + 1)),
            TokenKind::Variable => {
                if i + 1 >= ts.len() {
                    eof()
                } else {
                    match ts[i + 1].kind {
                        TokenKind::Identifier(name) => Ok(
                            (
                                NodeView { kind: ExprView::Variable(name@), pos: Some(ts[i + 1].pos) },
                                i + 2,
                            ),
                        ),
                        _ => fail(ParseErrorKind::ExpectedIdentifier, ts[i + 1]),
                    }
                }
            },
            TokenKind::Operator(op) => match parse_args_spec(ts, i + 1) {
                Ok((args, e)) => Ok((NodeView { kind: ExprView::Operator(op, args), pos: Some(t.pos) }, e)),
                Err(err) => Err(err),
            },
            TokenKind::Identifier(name) => parse_function_spec(ts, i + 1, name@),
            _ => fail(ParseErrorKind::UnexpectedToken, t),
        }
    }
}

/// A call of `name`, whose tokens continue at `i`: optional constant
/// arguments in brackets, then the arguments.
pub open spec fn parse_function_spec(ts: Seq<Token>, i: int, name: Seq<char>) -> Result<
    (NodeView, int),
    ParseError,
>
    decreases ts, ts.len() - i, 2int,
{
    if 0 <= i < ts.len() && ts[i].kind is Block && ts[i].kind->Block_0 == BlockKind::Bracket {
        match parse_const_args_spec(ts[i].kind->Block_1@) {
            Ok(consts) => match parse_args_spec(ts, i + 1) {
                Ok((args, e)) => Ok(
                    (NodeView { kind: ExprView::Call(name, consts, args), pos: Some(ts[i].pos) }, e),
                ),
                Err(err) => Err(err),
            },
            Err(err) => Err(err),
        }
    } else {
        match parse_args_spec(ts, i) {
            Ok((args, e)) => Ok((NodeView { kind: ExprView::Call(name, seq![], args), pos: None }, e)),
            Err(err) => Err(err),
        }
    }
}

/// `args` at `i`: a parenthesized list, or else one expression.
pub open spec fn parse_args_spec(ts: Seq<Token>, i: int) -> Result<(Seq<NodeView>, int), ParseError>
    decreases ts, ts.len() - i, 1int,
{
    if 0 <= i < ts.len() && ts[i].kind is Block && ts[i].kind->Block_0 == BlockKind::Parenthesis {
        match parse_list_spec(ts[i].kind->Block_1@, 0, seq![]) {
            Ok(v) => Ok((v, i + 1)),
            Err(err) => Err(err),
        }
    } else {
        match parse_expression_spec(ts, i) {
            Ok((n, e)) => Ok((seq![n], e)),
            Err(err) => Err(err),
        }
    }
}

/// The comma-separated expressions of a block's tokens from `k`, after
/// those in `acc`. An empty block is an empty list.
pub open spec fn parse_list_spec(ts: Seq<Token>, k: int, acc: Seq<NodeView>) -> Result<
    Seq<NodeView>,
    ParseError,
>
    decreases ts, ts.len() - k, 1int,
{
    if ts.len() == 0 {
        Ok(seq![])
    } else {
        match parse_expression_spec(ts, k) {
            Ok((n, e)) => {
                // an expression takes at least one token (see `parse_expression`);
                // the bound makes that plain to the termination check
                let e = if e > k {
                    e
                } else {
                    k + 1
                };
                if !(0 <= e < ts.len()) {
                    Ok(acc.push(n))
                } else if ts[e].kind is Separator && ts[e].kind->Separator_0 == ',' {
                    parse_list_spec(ts, e + 1, acc.push(n))
                } else {
                    fail(ParseErrorKind::ExpectedSeparator, ts[e])
                }
            },
            Err(err) => Err(err),
        }
    }
}

/// `acc` with `a` in it: an argument of the same name is replaced in place.
pub open spec fn insert_arg(acc: Seq<ArgView>, a: ArgView) -> Seq<ArgView> {
    if exists|k: int| 0 <= k < acc.len() && acc[k].name == a.name {
        let k = choose|k: int| 0 <= k < acc.len() && acc[k].name == a.name;
        acc.update(k, a)
    } else {
        acc.push(a)
    }
}

/// `name ':' float` entries from `k`, separated by commas, after `acc`.
pub open spec fn parse_const_entries_spec(ts: Seq<Token>, k: int, acc: Seq<ArgView>) -> Result<
    Seq<ArgView>,
    ParseError,
>
    decreases ts.len() - k,
{
    if !(0 <= k < ts.len()) {
        eof()
    } else {
        match ts[k].kind {
            TokenKind::Identifier(name) => {
                if k + 1 >= ts.len() {
                    eof()
                } else if !(ts[k + 1].kind is Assignment) {
                    fail(ParseErrorKind::ExpectedAssignment, ts[k + 1])
                } else if k + 2 >= ts.len() {
                    eof()
                } else {
                    match ts[k + 2].kind {
                        TokenKind::Float(f) => {
                            let acc2 = insert_arg(
                                acc,
                                ArgView { name: name@, value: f, pos: Some(ts[k + 2].pos) },
                            );
                            if k + 3 >= ts.len() {
                                Ok(acc2)
                            } else if ts[k + 3].kind is Separator && ts[k + 3].kind->Separator_0
                                == ',' {
                                parse_const_entries_spec(ts, k + 4, acc2)
                            } else {
                                fail(ParseErrorKind::ExpectedSeparator, ts[k + 3])
                            }
                        },
                        _ => fail(ParseErrorKind::ExpectedFloat, ts[k + 2]),
                    }
                }
            },
            _ => fail(ParseErrorKind::ExpectedIdentifier, ts[k]),
        }
    }
}

/// `constArgs`: the contents of a bracket block.
pub open spec fn parse_const_args_spec(ts: Seq<Token>) -> Result<Seq<ArgView>, ParseError> {
    if ts.len() == 0 {
        Ok(seq![])
    } else {
        parse_const_entries_spec(ts, 0, seq![])
    }
}

/// `IDENT ':' expr ';'` at `i`.
pub open spec fn parse_command_spec(ts: Seq<Token>, i: int) -> Result<(CommandView, int), ParseError> {
    if !(0 <= i < ts.len()) {
        eof()
    } else {
        match ts[i].kind {
            TokenKind::Identifier(name) => {
                if i + 1 >= ts.len() {
                    eof()
                } else if !(ts[i + 1].kind is Assignment) {
                    fail(ParseErrorKind::UnexpectedToken, ts[i + 1])
                } else {
                    match parse_expression_spec(ts, i + 2) {
                        Ok((n, e)) => {
                            if 0 <= e < ts.len() && ts[e].kind is CommandTerminator {
                                Ok((CommandView { name: name@, expr: n, pos: Some(ts[i].pos) }, e + 1))
                            } else if 0 <= e < ts.len() {
                                Err(
                                    ParseError {
                                        kind: ParseErrorKind::ExpectedCommandTerminator,
                                        pos: Some(ts[e].pos),
                                    },
                                )
                            } else {
                                eof()
                            }
                        },
                        Err(err) => Err(err),
                    }
                }
            },
            _ => fail(ParseErrorKind::UnexpectedToken, ts[i]),
        }
    }
}

/// The statements from `i` on, after those in `acc`.
pub open spec fn parse_program_spec(ts: Seq<Token>, i: int, acc: Seq<CommandView>) -> Result<
    Seq<CommandView>,
    ParseError,
>
    decreases ts.len() - i,
{
    if !(0 <= i < ts.len()) {
        Ok(acc)
    } else {
        match parse_command_spec(ts, i) {
            // a statement takes at least one token (see `parse_command`)
            Ok((c, e)) => if e > i {
                parse_program_spec(ts, e, acc.push(c))
            } else {
                Ok(acc)
            },
            Err(err) => Err(err),
        }
    }
}

} // verus!

verus! {

pub proof fn lemma_nodes_prefix_push(s: Seq<Node<ExpressionNode>>, t: Node<ExpressionNode>, n: int)
    requires
        0 <= n <= s.len(),
    ensures
        nodes_prefix_view(s.push(t), n) == nodes_prefix_view(s, n),
    decreases n,
{
    if n > 0 {
        lemma_nodes_prefix_push(s, t, n - 1);
        assert(s.push(t)[n - 1] == s[n - 1]);
    }
}

pub proof fn lemma_nodes_view_push(s: Seq<Node<ExpressionNode>>, t: Node<ExpressionNode>)
    ensures
        nodes_view(s.push(t)) == nodes_view(s).push(node_view(t)),
{
    lemma_nodes_prefix_push(s, t, s.len() as int);
    assert(s.push(t)[s.len() as int] == t);
}

fn end_of_input<A>() -> (r: Result<A, ParseError>)
    ensures
        r == eof::<A>(),
{
    Err(ParseError { kind: ParseErrorKind::UnexpectedEndOfFile, pos: None })
}

fn error_at<A>(kind: ParseErrorKind, t: &Token) -> (r: Result<A, ParseError>)
    ensures
        r == fail::<A>(kind, *t),
{
    Err(ParseError { kind, pos: Some(t.pos) })
}

/// Parses one expression at `i`; returns it and the index after it.
pub fn parse_expression(ts: &Vec<Token>, i: usize) -> (r: Result<(Node<ExpressionNode>, usize), ParseError>)
    ensures
        match r {
            Ok((n, e)) => parse_expression_spec(ts@, i as int) == Ok::<(NodeView, int), ParseError>(
                (node_view(n), e as int),
            ) && i < e <= ts.len(),
            Err(err) => parse_expression_spec(ts@, i as int) == Err::<(NodeView, int), ParseError>(err),
        },
    decreases ts@, ts@.len() - i, 0int,
{
    if i >= ts.len() {
        return end_of_input();
    }
    let t = &ts[i];
    match &t.kind {
        TokenKind::Float(f) => Ok((Node::with_pos(ExpressionNode::Float(*f), t.pos), i + 1)),
        TokenKind::Variable => {
            if i + 1 >= ts.len() {
                end_of_input()
            } else {
                match &ts[i + 1].kind {
                    TokenKind::Identifier(name) => Ok(
                        (Node::with_pos(ExpressionNode::Variable(name.clone()), ts[i + 1].pos), i + 2),
                    ),
                    _ => error_at(ParseErrorKind::ExpectedIdentifier, &ts[i + 1]),
                }
            }
        },
        TokenKind::Operator(op) => match parse_args(ts, i + 1) {
            Ok((args, e)) => Ok((Node::with_pos(ExpressionNode::Operator(*op, args), t.pos), e)),
            Err(err) => Err(err),
        },
        TokenKind::Identifier(name) => parse_function(ts, i + 1, name.clone()),
        _ => error_at(ParseErrorKind::UnexpectedToken, t),
    }
}

/// Parses the rest of a call of `name`, whose tokens continue at `i`.
fn parse_function(ts: &Vec<Token>, i: usize, name: String) -> (r: Result<(Node<ExpressionNode>, usize), ParseError>)
    requires
        i <= ts.len(),
    ensures
        match r {
            Ok((n, e)) => parse_function_spec(ts@, i as int, name@) == Ok::<(NodeView, int), ParseError>(
                (node_view(n), e as int),
            ) && i < e <= ts.len(),
            Err(err) => parse_function_spec(ts@, i as int, name@) == Err::<(NodeView, int), ParseError>(
                err,
            ),
        },
    decreases ts@, ts@.len() - i, 2int,
{
    if i < ts.len() {
        if let TokenKind::Block(BlockKind::Bracket, contents) = &ts[i].kind {
            let consts = match parse_const_args_list(contents) {
                Ok(c) => c,
                Err(err) => {
                    return Err(err);
                },
            };
            return match parse_args(ts, i + 1) {
                Ok((args, e)) => Ok(
                    (Node::with_pos(ExpressionNode::FunctionCall(name, consts, args), ts[i].pos), e),
                ),
                Err(err) => Err(err),
            };
        }
    }
    match parse_args(ts, i) {
        Ok((args, e)) => {
            let n = Node::new(ExpressionNode::FunctionCall(name, Vec::new(), args));
            proof {
                assert(args_view(seq![]) =~= seq![]);
            }
            Ok((n, e))
        },
        Err(err) => Err(err),
    }
}

/// Parses `args` at `i`: a parenthesized list, or one expression.
fn parse_args(ts: &Vec<Token>, i: usize) -> (r: Result<(Vec<Node<ExpressionNode>>, usize), ParseError>)
    requires
        i <= ts.len(),
    ensures
        match r {
            Ok((v, e)) => parse_args_spec(ts@, i as int) == Ok::<(Seq<NodeView>, int), ParseError>(
                (nodes_view(v@), e as int),
            ) && i < e <= ts.len(),
            Err(err) => parse_args_spec(ts@, i as int) == Err::<(Seq<NodeView>, int), ParseError>(err),
        },
    decreases ts@, ts@.len() - i, 1int,
{
    if i < ts.len() {
        if let TokenKind::Block(BlockKind::Parenthesis, contents) = &ts[i].kind {
            return match parse_expression_list(contents) {
                Ok(v) => Ok((v, i + 1)),
                Err(err) => Err(err),
            };
        }
    }
    match parse_expression(ts, i) {
        Ok((n, e)) => {
            let mut v = Vec::new();
            proof {
                lemma_nodes_view_push(v@, n);
            }
            v.push(n);
            proof {
                assert(nodes_view(v@) =~= seq![node_view(v@[0])]);
            }
            Ok((v, e))
        },
        Err(err) => Err(err),
    }
}

/// Parses the contents of a parenthesis block as a comma-separated list.
fn parse_expression_list(ts: &Vec<Token>) -> (r: Result<Vec<Node<ExpressionNode>>, ParseError>)
    ensures
        match r {
            Ok(v) => parse_list_spec(ts@, 0, seq![]) == Ok::<Seq<NodeView>, ParseError>(nodes_view(v@)),
            Err(err) => parse_list_spec(ts@, 0, seq![]) == Err::<Seq<NodeView>, ParseError>(err),
        },
    decreases ts@, ts@.len() + 1, 0int,
{
    let mut out: Vec<Node<ExpressionNode>> = Vec::new();
    if ts.len() == 0 {
        return Ok(out);
    }
    let mut k: usize = 0;
    proof {
        assert(nodes_view(out@) =~= seq![]);
    }
    loop
        invariant
            0 < ts.len(),
            k < ts.len(),
            parse_list_spec(ts@, 0, seq![]) == parse_list_spec(ts@, k as int, nodes_view(out@)),
        decreases ts.len() - k,
    {
        match parse_expression(ts, k) {
            Ok((n, e)) => {
                proof {
                    lemma_nodes_view_push(out@, n);
                }
                out.push(n);
                if e >= ts.len() {
                    return Ok(out);
                }
                if let TokenKind::Separator(',') = &ts[e].kind {
                    if e + 1 >= ts.len() {
                        proof {
                            assert(parse_expression_spec(ts@, e + 1) == eof::<(NodeView, int)>());
                            assert(parse_list_spec(ts@, e + 1, nodes_view(out@)) == eof::<
                                Seq<NodeView>,
                            >());
                        }
                        return end_of_input();
                    }
                    k = e + 1;
                } else {
                    return error_at(ParseErrorKind::ExpectedSeparator, &ts[e]);
                }
            },
            Err(err) => {
                return Err(err);
            },
        }
    }
}

} // verus!

verus! {

pub open spec fn names_unique(s: Seq<ArgView>) -> bool {
    forall|a: int, b: int| 0 <= a < s.len() && 0 <= b < s.len() && s[a].name == s[b].name ==> a == b
}

/// Puts `a` into `out`, replacing the argument of the same name.
fn insert_const_arg(out: &mut Vec<ConstArg>, a: ConstArg)
    requires
        names_unique(args_view(old(out)@)),
    ensures
        args_view(final(out)@) == insert_arg(args_view(old(out)@), arg_view(a)),
        names_unique(args_view(final(out)@)),
{
    let ghost s = args_view(out@);
    let mut k: usize = 0;
    while k < out.len()
        invariant
            k <= out.len(),
            out@ == old(out)@,
            s == args_view(out@),
            names_unique(s),
            forall|m: int| 0 <= m < k ==> s[m].name != a.name@,
        decreases out.len() - k,
    {
        proof {
            assert(s[k as int] == arg_view(out@[k as int]));
        }
        if out[k].name == a.name {
            proof {
                let c = choose|m: int| 0 <= m < s.len() && s[m].name == arg_view(a).name;
                assert(s[k as int].name == arg_view(a).name);
                assert(s[c].name == s[k as int].name);
                assert(c == k);
            }
            out.set(k, a);
            proof {
                assert(args_view(out@) =~= s.update(k as int, arg_view(a)));
                assert(names_unique(args_view(out@))) by {
                    let t = args_view(out@);
                    assert forall|x: int, y: int|
                        0 <= x < t.len() && 0 <= y < t.len() && t[x].name == t[y].name implies x
                        == y by {
                        if x != k && y != k {
                            assert(s[x].name == s[y].name);
                        } else if x != k {
                            assert(s[x].name == s[k as int].name);
                        } else if y != k {
                            assert(s[y].name == s[k as int].name);
                        }
                    }
                }
            }
            return;
        }
        k = k + 1;
    }
    out.push(a);
    proof {
        assert(args_view(out@) =~= s.push(arg_view(a)));
        assert(!exists|m: int| 0 <= m < s.len() && s[m].name == arg_view(a).name);
    }
}

/// Parses the contents of a bracket block: `name: float` entries separated
/// by commas.
fn parse_const_args_list(ts: &Vec<Token>) -> (r: Result<Vec<ConstArg>, ParseError>)
    ensures
        match r {
            Ok(v) => parse_const_args_spec(ts@) == Ok::<Seq<ArgView>, ParseError>(args_view(v@)),
            Err(err) => parse_const_args_spec(ts@) == Err::<Seq<ArgView>, ParseError>(err),
        },
{
    let mut out: Vec<ConstArg> = Vec::new();
    proof {
        assert(args_view(out@) =~= seq![]);
    }
    if ts.len() == 0 {
        return Ok(out);
    }
    let mut k: usize = 0;
    loop
        invariant
            k <= ts.len(),
            0 < ts.len(),
            names_unique(args_view(out@)),
            parse_const_args_spec(ts@) == parse_const_entries_spec(ts@, k as int, args_view(out@)),
        decreases ts.len() - k,
    {
        if k >= ts.len() {
            return end_of_input();
        }
        let name = match &ts[k].kind {
            TokenKind::Identifier(name) => name.clone(),
            _ => {
                return error_at(ParseErrorKind::ExpectedIdentifier, &ts[k]);
            },
        };
        if k + 1 >= ts.len() {
            return end_of_input();
        }
        if !matches!(ts[k + 1].kind, TokenKind::Assignment) {
            return error_at(ParseErrorKind::ExpectedAssignment, &ts[k + 1]);
        }
        if k + 2 >= ts.len() {
            return end_of_input();
        }
        let value = match &ts[k + 2].kind {
            TokenKind::Float(f) => Node::with_pos(*f, ts[k + 2].pos),
            _ => {
                return error_at(ParseErrorKind::ExpectedFloat, &ts[k + 2]);
            },
        };
        insert_const_arg(&mut out, ConstArg { name, value });
        if k + 3 >= ts.len() {
            return Ok(out);
        }
        if let TokenKind::Separator(',') = &ts[k + 3].kind {
            k = k + 4;
        } else {
            return error_at(ParseErrorKind::ExpectedSeparator, &ts[k + 3]);
        }
    }
}

/// Parses one statement `name : expr ;` at `i`.
fn parse_command(ts: &Vec<Token>, i: usize) -> (r: Result<(Node<CommandNode>, usize), ParseError>)
    ensures
        match r {
            Ok((c, e)) => parse_command_spec(ts@, i as int) == Ok::<(CommandView, int), ParseError>(
                (command_view(c), e as int),
            ) && i < e <= ts.len(),
            Err(err) => parse_command_spec(ts@, i as int) == Err::<(CommandView, int), ParseError>(err),
        },
{
    if i >= ts.len() {
        return end_of_input();
    }
    let name = match &ts[i].kind {
        TokenKind::Identifier(name) => name.clone(),
        _ => {
            return error_at(ParseErrorKind::UnexpectedToken, &ts[i]);
        },
    };
    if i + 1 >= ts.len() {
        return end_of_input();
    }
    if !matches!(ts[i + 1].kind, TokenKind::Assignment) {
        return error_at(ParseErrorKind::UnexpectedToken, &ts[i + 1]);
    }
    match parse_expression(ts, i + 2) {
        Ok((n, e)) => {
            if e < ts.len() && matches!(ts[e].kind, TokenKind::CommandTerminator) {
                Ok((Node::with_pos(CommandNode::Assignment(name, Box::new(n)), ts[i].pos), e + 1))
            } else if e < ts.len() {
                Err(ParseError { kind: ParseErrorKind::ExpectedCommandTerminator, pos: Some(ts[e].pos) })
            } else {
                end_of_input()
            }
        },
        Err(err) => Err(err),
    }
}

/// Parses a whole program into its statements, in order.
pub fn parse_tokens(ts: &Vec<Token>) -> (r: Result<Vec<Node<CommandNode>>, ParseError>)
    ensures
        match r {
            Ok(v) => parse_program_spec(ts@, 0, seq![]) == Ok::<Seq<CommandView>, ParseError>(
                commands_view(v@),
            ),
            Err(err) => parse_program_spec(ts@, 0, seq![]) == Err::<Seq<CommandView>, ParseError>(err),
        },
{
    let mut out: Vec<Node<CommandNode>> = Vec::new();
    let mut i: usize = 0;
    proof {
        assert(commands_view(out@) =~= seq![]);
    }
    while i < ts.len()
        invariant
            i <= ts.len(),
            parse_program_spec(ts@, 0, seq![]) == parse_program_spec(ts@, i as int, commands_view(out@)),
        decreases ts.len() - i,
    {
        match parse_command(ts, i) {
            Ok((c, e)) => {
                let ghost before = out@;
                out.push(c);
                proof {
                    assert(commands_view(out@) =~= commands_view(before).push(command_view(c)));
                }
                i = e;
            },
            Err(err) => {
                return Err(err);
            },
        }
    }
    Ok(out)
}

} // verus!
