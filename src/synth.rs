pub mod execution_data;

use vstd::prelude::*;
use crate::number::Number;
use crate::operator::Operator;

verus! {

/// The reserved value of `MaybeId` that means "no id".
pub const NIL_NODE_ID: u32 = 0xffff_ffff;

/// The number of input slots of a node.
pub const MAX_INPUTS: usize = 3;

/// A handle to a node, or to a slot of the shared data array. It never
/// holds `NIL_NODE_ID`.
#[derive(PartialEq, Eq, Structural, Clone, Copy, Debug, Hash)]
pub struct Id(pub u32);

impl Id {
    pub fn maybe(self) -> (r: MaybeId)
        requires
            self.0 != NIL_NODE_ID,
        ensures
            r.spec_get() == Some(self),
    {
        MaybeId(self.0)
    }

    pub fn as_usize(self) -> (r: usize)
        ensures
            r == self.0,
    {
        self.0 as usize
    }
}

/// An optional `Id` in one word: `NIL_NODE_ID` stands for none.
#[derive(PartialEq, Eq, Structural, Clone, Copy, Debug)]
pub struct MaybeId(pub u32);

impl MaybeId {
    pub open spec fn spec_get(self) -> Option<Id> {
        if self.0 == NIL_NODE_ID {
            None
        } else {
            Some(Id(self.0))
        }
    }

    pub fn none() -> (r: MaybeId)
        ensures
            r.spec_get() is None,
    {
        MaybeId(NIL_NODE_ID)
    }

    pub fn from_option(option: Option<Id>) -> (r: MaybeId)
        requires
            option matches Some(id) ==> id.0 != NIL_NODE_ID,
        ensures
            r.spec_get() == option,
    {
        match option {
            Some(v) => MaybeId(v.0),
            None => MaybeId::none(),
        }
    }

    pub fn get(self) -> (r: Option<Id>)
        ensures
            r == self.spec_get(),
    {
        if self.0 == NIL_NODE_ID {
            None
        } else {
            Some(Id(self.0))
        }
    }

    pub fn get_usize(self) -> (r: Option<usize>)
        ensures
            r == match self.spec_get() {
                Some(id) => Some(id.0 as usize),
                None => None,
            },
    {
        if self.0 == NIL_NODE_ID {
            None
        } else {
            Some(self.0 as usize)
        }
    }
}

/// What a node computes. Numbers are the program's literals.
#[derive(Debug)]
pub enum NodeKind {
    SquareOscillator,
    Oscillator,
    /// A ramp that wraps at the given maximum.
    Linear(Number),
    /// A looping lookup into a fixed sequence.
    Sequence(Vec<Number>),
    /// Limits the input to `[min, max]`.
    Clamp(Number, Number),
    Constant(Number),
    ConstantOp(Operator),
    /// Reads the probe with the given id, at most the given time back.
    Delay(Number, Id),
}

/// Equality of node kinds, a sequence's values compared in order.
pub open spec fn same_kind(a: NodeKind, b: NodeKind) -> bool {
    match (a, b) {
        (NodeKind::Sequence(x), NodeKind::Sequence(y)) => x@ == y@,
        (NodeKind::Sequence(_), _) => false,
        (_, NodeKind::Sequence(_)) => false,
        _ => a == b,
    }
}

impl NodeKind {
    pub open spec fn spec_n_inputs(&self) -> nat {
        match self {
            NodeKind::Constant(_) => 0,
            NodeKind::ConstantOp(_) => 2,
            _ => 1,
        }
    }

    pub open spec fn spec_n_data_allocations(&self) -> nat {
        match self {
            NodeKind::SquareOscillator | NodeKind::Oscillator | NodeKind::Linear(_) => 1,
            _ => 0,
        }
    }

    /// Whether the node's output depends on its inputs of this tick alone.
    pub fn is_constant(&self) -> (r: bool)
        ensures
            r == !(self is SquareOscillator || self is Oscillator || self is Linear || self is Delay),
    {
        match self {
            NodeKind::SquareOscillator => false,
            NodeKind::Oscillator => false,
            NodeKind::Linear(_) => false,
            NodeKind::Sequence(_) => true,
            NodeKind::Clamp(_, _) => true,
            NodeKind::Constant(_) => true,
            NodeKind::ConstantOp(_) => true,
            NodeKind::Delay(_, _) => false,
        }
    }

    pub fn n_inputs(&self) -> (r: usize)
        ensures
            r == self.spec_n_inputs(),
    {
        match self {
            NodeKind::Constant(_) => 0,
            NodeKind::ConstantOp(_) => 2,
            _ => 1,
        }
    }

    pub fn n_outputs(&self) -> (r: usize)
        ensures
            r == 1,
    {
        1
    }

    /// How many persistent state slots the node owns before its output.
    pub fn n_data_allocations(&self) -> (r: usize)
        ensures
            r == self.spec_n_data_allocations(),
    {
        match self {
            NodeKind::SquareOscillator => 1,
            NodeKind::Oscillator => 1,
            NodeKind::Linear(_) => 1,
            _ => 0,
        }
    }

    fn same(&self, other: &NodeKind) -> (r: bool)
        ensures
            r == same_kind(*self, *other),
    {
        match (self, other) {
            (NodeKind::Sequence(x), NodeKind::Sequence(y)) => {
                if x.len() != y.len() {
                    return false;
                }
                let mut k: usize = 0;
                while k < x.len()
                    invariant
                        same_kind(*self, *other) == (x@ == y@),
                        x.len() == y.len(),
                        k <= x.len(),
                        forall|m: int| 0 <= m < k ==> x@[m] == y@[m],
                    decreases x.len() - k,
                {
                    if !(x[k] == y[k]) {
                        proof {
                            assert(x@[k as int] != y@[k as int]);
                        }
                        return false;
                    }
                    k = k + 1;
                }
                proof {
                    assert(x@ =~= y@);
                }
                true
            },
            (NodeKind::Sequence(_), _) => false,
            (_, NodeKind::Sequence(_)) => false,
            (NodeKind::SquareOscillator, NodeKind::SquareOscillator) => true,
            (NodeKind::Oscillator, NodeKind::Oscillator) => true,
            (NodeKind::Linear(a), NodeKind::Linear(b)) => *a == *b,
            (NodeKind::Clamp(a, b), NodeKind::Clamp(c, d)) => *a == *c && *b == *d,
            (NodeKind::Constant(a), NodeKind::Constant(b)) => *a == *b,
            (NodeKind::ConstantOp(a), NodeKind::ConstantOp(b)) => *a == *b,
            (NodeKind::Delay(a, p), NodeKind::Delay(b, q)) => *a == *b && *p == *q,
            _ => false,
        }
    }
}

/// A node of the graph: its kind, its input slots (earlier outputs), and
/// where its data starts. It owns `n_data_allocations` state slots from
/// `data_loc`, then its output slot.
#[derive(Debug)]
pub struct Node {
    pub inputs: [MaybeId; 3],
    pub data_loc: Id,
    pub kind: NodeKind,
}

impl Node {
    pub open spec fn input(&self, k: int) -> Option<Id> {
        self.inputs@[k].spec_get()
    }

    pub open spec fn spec_size(&self) -> nat {
        self.kind.spec_n_data_allocations() + 1
    }

    pub open spec fn spec_output_loc(&self) -> nat {
        (self.data_loc.0 + self.kind.spec_n_data_allocations()) as nat
    }

    /// The range of data slots that the node owns: state, then output.
    pub fn get_allocated_range(&self) -> (r: (usize, usize))
        requires
            self.data_loc.0 + self.spec_size() <= usize::MAX,
        ensures
            r.0 == self.data_loc.0,
            r.1 == self.data_loc.0 + self.spec_size(),
    {
        let size = self.kind.n_data_allocations() + 1;
        (self.data_loc.as_usize(), self.data_loc.as_usize() + size)
    }

    /// The data slot of output `output`; a node has one output.
    pub fn get_output_loc(&self, output: usize) -> (r: Option<usize>)
        requires
            self.spec_output_loc() <= usize::MAX,
        ensures
            r == if output < 1 {
                Some(self.spec_output_loc() as usize)
            } else {
                None::<usize>
            },
    {
        if output < self.kind.n_outputs() {
            Some(self.data_loc.as_usize() + self.kind.n_data_allocations())
        } else {
            None
        }
    }
}

/// A probe as the graph declares it: the output slot it records, and the
/// longest time back that it must hold.
#[derive(Debug, Clone, Copy)]
pub struct Probe {
    pub probing: Id,
    pub max_time: Number,
}

} // verus!

verus! {

/// The compiled graph: nodes in creation order, the initial contents of the
/// shared data array, and the probes declared so far (by probe id; `None`
/// for an id allocated but not yet given its probe).
#[derive(Debug)]
pub struct Synth {
    nodes: Vec<Node>,
    initial_data: Vec<Number>,
    probes: Vec<Option<Probe>>,
}

pub struct SynthView {
    pub nodes: Seq<Node>,
    pub data: Seq<Number>,
    pub probes: Seq<Option<Probe>>,
}

impl View for Synth {
    type V = SynthView;

    closed spec fn view(&self) -> SynthView {
        SynthView { nodes: self.nodes@, data: self.initial_data@, probes: self.probes@ }
    }
}

/// The input slots of a node made from the list `inputs`.
pub open spec fn input_slots(inputs: Seq<Id>) -> Seq<Option<Id>> {
    Seq::new(3, |k: int| if k < inputs.len() { Some(inputs[k]) } else { None })
}

pub open spec fn node_inputs(n: Node) -> Seq<Option<Id>> {
    Seq::new(3, |k: int| n.input(k))
}

impl SynthView {
    pub open spec fn node_data(self, j: int) -> Seq<Number> {
        self.data.subrange(
            self.nodes[j].data_loc.0 as int,
            self.nodes[j].data_loc.0 + self.nodes[j].kind.spec_n_data_allocations(),
        )
    }

    /// Node `j` has this kind, these inputs and this initial state.
    pub open spec fn matches(self, j: int, kind: NodeKind, inputs: Seq<Option<Id>>, data: Seq<Number>) -> bool {
        &&& same_kind(self.nodes[j].kind, kind)
        &&& node_inputs(self.nodes[j]) == inputs
        &&& self.node_data(j) == data
    }

    pub open spec fn output_of(self, j: int) -> Id {
        Id(self.nodes[j].spec_output_loc() as u32)
    }

    /// The data slot is the output of a node made before node `i`.
    pub open spec fn earlier_output(self, i: int, id: Id) -> bool {
        exists|j: int| 0 <= j < i && #[trigger] self.output_of(j) == id
    }

    /// The data slot is some node's output.
    pub open spec fn is_output(self, id: Id) -> bool {
        exists|j: int| 0 <= j < self.nodes.len() && self.output_of(j) == id
    }

    /// Nodes own disjoint ranges of the data array, in creation order; a
    /// node's inputs are slots before its own; no two nodes are equal.
    pub open spec fn wf(self) -> bool {
        &&& self.data.len() < NIL_NODE_ID
        &&& self.nodes.len() <= self.data.len()
        &&& forall|i: int|
            0 <= i < self.nodes.len() ==> self.nodes[i].data_loc.0 + self.nodes[i].spec_size()
                <= self.data.len()
        &&& forall|i: int, j: int|
            0 <= i < j < self.nodes.len() ==> self.nodes[i].data_loc.0 + self.nodes[i].spec_size()
                <= self.nodes[j].data_loc.0
        &&& forall|i: int, k: int|
            0 <= i < self.nodes.len() && 0 <= k < 3 && (#[trigger] self.nodes[i].input(k)) is Some
                ==> self.nodes[i].input(k)->Some_0.0 < self.nodes[i].data_loc.0
        &&& forall|i: int, k: int|
            0 <= i < self.nodes.len() && 0 <= k < 3 && (#[trigger] self.nodes[i].input(k)) is Some
                ==> self.earlier_output(i, self.nodes[i].input(k)->Some_0)
        &&& forall|i: int|
            0 <= i < self.nodes.len() && (#[trigger] self.nodes[i]).kind is Delay
                ==> self.nodes[i].kind->Delay_1.0 < self.probes.len()
        &&& forall|p: int|
            0 <= p < self.probes.len() && (#[trigger] self.probes[p]) is Some
                ==> self.probes[p]->Some_0.probing.0 < self.data.len()
        &&& forall|i: int, j: int|
            0 <= i < j < self.nodes.len() ==> !self.matches(
                j,
                self.nodes[i].kind,
                node_inputs(self.nodes[i]),
                self.node_data(i),
            )
    }

    /// Every allocated probe id has its probe.
    pub open spec fn complete(self) -> bool {
        forall|p: int| 0 <= p < self.probes.len() ==> (#[trigger] self.probes[p]) is Some
    }
}

impl Synth {
    pub fn new() -> (r: Synth)
        ensures
            r@.nodes == Seq::<Node>::empty(),
            r@.data == Seq::<Number>::empty(),
            r@.probes == Seq::<Option<Probe>>::empty(),
            r@.wf(),
    {
        Synth { nodes: Vec::new(), initial_data: Vec::new(), probes: Vec::new() }
    }

    pub fn len(&self) -> (r: usize)
        ensures
            r == self@.nodes.len(),
    {
        self.nodes.len()
    }

    pub fn data_len(&self) -> (r: usize)
        ensures
            r == self@.data.len(),
    {
        self.initial_data.len()
    }

    pub fn probe_count(&self) -> (r: usize)
        ensures
            r == self@.probes.len(),
    {
        self.probes.len()
    }

    /// The initial state of node `node`.
    pub fn get_node_data(&self, node: Id) -> (r: Option<Vec<Number>>)
        requires
            self@.wf(),
        ensures
            r matches Some(v) ==> v@ == self@.node_data(node.0 as int),
            r is Some <==> node.0 < self@.nodes.len(),
    {
        if node.as_usize() < self.nodes.len() {
            let n = &self.nodes[node.as_usize()];
            let start = n.data_loc.as_usize();
            let end = start + n.kind.n_data_allocations();
            let mut out: Vec<Number> = Vec::new();
            let mut k = start;
            while k < end
                invariant
                    start <= k <= end <= self@.data.len(),
                    out@ == self@.data.subrange(start as int, k as int),
                decreases end - k,
            {
                out.push(self.initial_data[k]);
                k = k + 1;
                proof {
                    assert(out@ =~= self@.data.subrange(start as int, k as int));
                }
            }
            Some(out)
        } else {
            None
        }
    }

    pub fn get_node(&self, node: Id) -> (r: Option<&Node>)
        ensures
            r is Some <==> node.0 < self@.nodes.len(),
            r matches Some(n) ==> *n == self@.nodes[node.0 as int],
    {
        if node.as_usize() < self.nodes.len() {
            Some(&self.nodes[node.as_usize()])
        } else {
            None
        }
    }

    /// The data slot that holds the output of node `node`.
    pub fn get_node_output(&self, node: Id) -> (r: Option<Id>)
        requires
            self@.wf(),
        ensures
            r is Some <==> node.0 < self@.nodes.len(),
            r matches Some(id) ==> id == self@.output_of(node.0 as int) && id.0 < self@.data.len(),
    {
        if node.as_usize() < self.nodes.len() {
            let n = &self.nodes[node.as_usize()];
            Some(Id((n.data_loc.as_usize() + n.kind.n_data_allocations()) as u32))
        } else {
            None
        }
    }

    /// Whether a node with `n_data` state slots still fits.
    pub fn has_room(&self, n_data: usize) -> (r: bool)
        ensures
            r == (self@.data.len() + n_data + 1 < NIL_NODE_ID),
    {
        self.initial_data.len() < 0xffff_fffe && n_data < 0xffff_fffe - self.initial_data.len()
    }
}

} // verus!

verus! {

pub open spec fn slots_view(a: [MaybeId; 3]) -> Seq<Option<Id>> {
    Seq::new(3, |k: int| a@[k].spec_get())
}

/// A graph that differs from a well-formed one only in its probes, with
/// room for each delay's probe and each probe's slot, is well-formed.
proof fn lemma_same_nodes_wf(v: SynthView, w: SynthView)
    requires
        v.wf(),
        w.nodes == v.nodes,
        w.data == v.data,
        w.probes.len() >= v.probes.len(),
        forall|p: int|
            0 <= p < w.probes.len() && (#[trigger] w.probes[p]) is Some
                ==> w.probes[p]->Some_0.probing.0 < w.data.len(),
    ensures
        w.wf(),
{
    assert forall|i: int| 0 <= i < w.nodes.len() && (#[trigger] w.nodes[i]).kind is Delay
        implies w.nodes[i].kind->Delay_1.0 < w.probes.len() by {
        assert(v.nodes[i] == w.nodes[i]);
    }
    assert forall|i: int, k: int|
        0 <= i < w.nodes.len() && 0 <= k < 3 && (#[trigger] w.nodes[i].input(k)) is Some
            implies w.earlier_output(i, w.nodes[i].input(k)->Some_0) by {
        let id = w.nodes[i].input(k)->Some_0;
        assert(v.earlier_output(i, id));
        let j = choose|j: int| 0 <= j < i && #[trigger] v.output_of(j) == id;
        assert(w.output_of(j) == id);
    }
    assert forall|i: int, j: int| 0 <= i < j < w.nodes.len() implies !w.matches(
        j,
        w.nodes[i].kind,
        node_inputs(w.nodes[i]),
        w.node_data(i),
    ) by {
        assert(w.node_data(i) == v.node_data(i));
        assert(!v.matches(j, v.nodes[i].kind, node_inputs(v.nodes[i]), v.node_data(i)));
    }
}

impl Synth {
    fn node_matches(&self, j: usize, kind: &NodeKind, inputs: &[MaybeId; 3], data: &[Number]) -> (r: bool)
        requires
            self@.wf(),
            j < self@.nodes.len(),
        ensures
            r == self@.matches(j as int, *kind, slots_view(*inputs), data@),
    {
        let n = &self.nodes[j];
        if !n.kind.same(kind) {
            return false;
        }
        let mut k: usize = 0;
        while k < 3
            invariant
                k <= 3,
                *n == self@.nodes[j as int],
                forall|m: int| 0 <= m < k ==> n.inputs@[m] == inputs@[m],
            decreases 3 - k,
        {
            if !(n.inputs[k] == inputs[k]) {
                proof {
                    assert(node_inputs(*n)[k as int] != slots_view(*inputs)[k as int]);
                }
                return false;
            }
            k = k + 1;
        }
        proof {
            assert(node_inputs(*n) =~= slots_view(*inputs));
        }
        let start = n.data_loc.as_usize();
        let count = n.kind.n_data_allocations();
        if count != data.len() {
            return false;
        }
        let mut m: usize = 0;
        while m < count
            invariant
                m <= count == data.len(),
                *n == self@.nodes[j as int],
                start == n.data_loc.0,
                count == n.kind.spec_n_data_allocations(),
                start + count <= self@.data.len(),
                forall|q: int| 0 <= q < m ==> self@.data[start + q] == data@[q],
            decreases count - m,
        {
            if !(self.initial_data[start + m] == data[m]) {
                proof {
                    assert(self@.node_data(j as int)[m as int] != data@[m as int]);
                }
                return false;
            }
            m = m + 1;
        }
        proof {
            assert(self@.node_data(j as int) =~= data@);
        }
        true
    }

    /// Adds a node of `kind` reading the slots `inputs`, with initial state
    /// `data`, unless an equal node (same kind, inputs and initial state)
    /// exists: then that node's id is returned and nothing changes.
    pub fn add_node(&mut self, kind: NodeKind, inputs: &[Id], data: &[Number]) -> (r: Id)
        requires
            old(self)@.wf(),
            inputs.len() <= MAX_INPUTS,
            forall|k: int| 0 <= k < inputs.len() ==> (#[trigger] inputs@[k]).0 < old(self)@.data.len(),
            forall|k: int| 0 <= k < inputs.len() ==> old(self)@.is_output(#[trigger] inputs@[k]),
            data.len() == kind.spec_n_data_allocations(),
            old(self)@.data.len() + data.len() + 1 < NIL_NODE_ID,
            kind is Delay ==> kind->Delay_1.0 < old(self)@.probes.len(),
        ensures
            final(self)@.wf(),
            final(self)@.probes == old(self)@.probes,
            r.0 < final(self)@.nodes.len(),
            final(self)@.matches(r.0 as int, kind, input_slots(inputs@), data@),
            old(self)@.nodes.len() <= final(self)@.nodes.len() <= old(self)@.nodes.len() + 1,
            final(self)@.nodes.subrange(0, old(self)@.nodes.len() as int) == old(self)@.nodes,
            final(self)@.data.subrange(0, old(self)@.data.len() as int) == old(self)@.data,
            (exists|j: int| 0 <= j < old(self)@.nodes.len() && old(self)@.matches(j, kind, input_slots(inputs@), data@))
                ==> final(self)@ == old(self)@,
            !(exists|j: int| 0 <= j < old(self)@.nodes.len() && old(self)@.matches(j, kind, input_slots(inputs@), data@))
                ==> {
                &&& r.0 == old(self)@.nodes.len()
                &&& final(self)@.nodes.last().data_loc.0 == old(self)@.data.len()
                &&& final(self)@.data == old(self)@.data + data@ + seq![Number::whole(false, 0)]
            },
    {
        let ghost v = self@;
        let a0 = if inputs.len() > 0 { inputs[0].maybe() } else { MaybeId::none() };
        let a1 = if inputs.len() > 1 { inputs[1].maybe() } else { MaybeId::none() };
        let a2 = if inputs.len() > 2 { inputs[2].maybe() } else { MaybeId::none() };
        let slots: [MaybeId; 3] = [a0, a1, a2];
        proof {
            assert(slots_view(slots) =~= input_slots(inputs@));
        }
        let mut j: usize = 0;
        while j < self.nodes.len()
            invariant
                self@ == v,
                v.wf(),
                j <= v.nodes.len(),
                slots_view(slots) == input_slots(inputs@),
                forall|q: int| 0 <= q < j ==> !v.matches(q, kind, input_slots(inputs@), data@),
            decreases v.nodes.len() - j,
        {
            if self.node_matches(j, &kind, &slots, data) {
                proof {
                    assert(self@.nodes.subrange(0, v.nodes.len() as int) =~= v.nodes);
                    assert(self@.data.subrange(0, v.data.len() as int) =~= v.data);
                }
                return Id(j as u32);
            }
            j = j + 1;
        }
        let id = Id(self.nodes.len() as u32);
        let loc = Id(self.initial_data.len() as u32);
        let mut k: usize = 0;
        while k < data.len()
            invariant
                k <= data.len(),
                self.nodes@ == v.nodes,
                self.probes@ == v.probes,
                self.initial_data@ == v.data + data@.subrange(0, k as int),
            decreases data.len() - k,
        {
            self.initial_data.push(data[k]);
            k = k + 1;
            proof {
                assert(self.initial_data@ =~= v.data + data@.subrange(0, k as int));
            }
        }
        self.initial_data.push(Number::integer(false, 0));
        let node = Node { inputs: slots, data_loc: loc, kind };
        self.nodes.push(node);
        proof {
            assert(data@.subrange(0, data@.len() as int) =~= data@);
            let w = self@;
            assert(w.data =~= v.data + data@ + seq![Number::whole(false, 0)]);
            let last = (w.nodes.len() - 1) as int;
            assert(w.nodes.subrange(0, v.nodes.len() as int) =~= v.nodes);
            assert(w.data.subrange(0, v.data.len() as int) =~= v.data);
            assert(node_inputs(w.nodes[last]) =~= slots_view(slots));
            assert(w.node_data(last) =~= data@);
            assert forall|i: int| 0 <= i < v.nodes.len() implies w.node_data(i) == v.node_data(i) by {
                assert(w.node_data(i) =~= v.node_data(i));
            }
            assert forall|i: int, jj: int| 0 <= i < jj < w.nodes.len() implies !w.matches(
                jj,
                w.nodes[i].kind,
                node_inputs(w.nodes[i]),
                w.node_data(i),
            ) by {
                assert(w.node_data(i) == v.node_data(i));
                if jj < v.nodes.len() {
                    assert(w.node_data(jj) == v.node_data(jj));
                    assert(!v.matches(jj, v.nodes[i].kind, node_inputs(v.nodes[i]), v.node_data(i)));
                } else {
                    assert(!v.matches(i, kind, input_slots(inputs@), data@));
                }
            }
            assert forall|i: int, kk: int|
                0 <= i < w.nodes.len() && 0 <= kk < 3 && (#[trigger] w.nodes[i].input(kk)) is Some
                    implies w.nodes[i].input(kk)->Some_0.0 < w.nodes[i].data_loc.0 by {
                if i == last {
                    assert(slots_view(slots)[kk] == w.nodes[i].input(kk));
                }
            }
            assert forall|i: int, kk: int|
                0 <= i < w.nodes.len() && 0 <= kk < 3 && (#[trigger] w.nodes[i].input(kk)) is Some
                    implies w.earlier_output(i, w.nodes[i].input(kk)->Some_0) by {
                let id = w.nodes[i].input(kk)->Some_0;
                if i == last {
                    assert(slots_view(slots)[kk] == w.nodes[i].input(kk));
                    assert(input_slots(inputs@)[kk] == Some(inputs@[kk]));
                    assert(v.is_output(inputs@[kk]));
                    let j = choose|j: int| 0 <= j < v.nodes.len() && v.output_of(j) == id;
                    assert(w.nodes[j] == v.nodes[j]);
                    assert(w.output_of(j) == id);
                } else {
                    assert(w.nodes[i] == v.nodes[i]);
                    assert(v.earlier_output(i, id));
                    let j = choose|j: int| 0 <= j < i && #[trigger] v.output_of(j) == id;
                    assert(w.nodes[j] == v.nodes[j]);
                    assert(w.output_of(j) == id);
                }
            }
        }
        id
    }

    /// Reserves a new probe id; its probe is given later by `add_probe`.
    pub fn allocate_probe_id(&mut self) -> (r: Id)
        requires
            old(self)@.wf(),
            old(self)@.probes.len() < NIL_NODE_ID,
        ensures
            final(self)@.wf(),
            r.0 == old(self)@.probes.len(),
            final(self)@.nodes == old(self)@.nodes,
            final(self)@.data == old(self)@.data,
            final(self)@.probes == old(self)@.probes.push(None),
    {
        let id = Id(self.probes.len() as u32);
        self.probes.push(None);
        proof {
            let w = self@;
            let v = old(self)@;
            assert forall|p: int| 0 <= p < w.probes.len() && (#[trigger] w.probes[p]) is Some
                implies w.probes[p]->Some_0.probing.0 < w.data.len() by {
                assert(p < v.probes.len());
                assert(w.probes[p] == v.probes[p]);
            }
            lemma_same_nodes_wf(v, w);
        }
        id
    }

    /// Gives probe `id` its probe: it records slot `probing` and must hold
    /// `time` back.
    pub fn add_probe(&mut self, id: Id, time: Number, probing: Id)
        requires
            old(self)@.wf(),
            id.0 < old(self)@.probes.len(),
            probing.0 < old(self)@.data.len(),
        ensures
            final(self)@.wf(),
            final(self)@.nodes == old(self)@.nodes,
            final(self)@.data == old(self)@.data,
            final(self)@.probes == old(self)@.probes.update(
                id.0 as int,
                Some(Probe { probing, max_time: time }),
            ),
    {
        self.probes.set(id.as_usize(), Some(Probe { probing, max_time: time }));
        proof {
            let w = self@;
            let v = old(self)@;
            assert forall|p: int| 0 <= p < w.probes.len() && (#[trigger] w.probes[p]) is Some
                implies w.probes[p]->Some_0.probing.0 < w.data.len() by {
                if p != id.0 {
                    assert(w.probes[p] == v.probes[p]);
                }
            }
            lemma_same_nodes_wf(v, w);
        }
    }

    /// Whether every allocated probe id has its probe.
    pub fn is_complete(&self) -> (r: bool)
        ensures
            r == self@.complete(),
    {
        let mut p: usize = 0;
        while p < self.probes.len()
            invariant
                p <= self.probes.len(),
                forall|q: int| 0 <= q < p ==> (#[trigger] self@.probes[q]) is Some,
            decreases self.probes.len() - p,
        {
            if self.probes[p].is_none() {
                return false;
            }
            p = p + 1;
        }
        true
    }
}

} // verus!
