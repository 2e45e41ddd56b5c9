use vstd::prelude::*;
use crate::number::Number;
use crate::synth::{Id, NodeKind, Synth, SynthView};

verus! {

// ---------------------------------------------------------------- probes

/// The history after recording `v` into a full ring holding `h` (newest
/// first): `v` comes first and the oldest value leaves.
pub open spec fn record<T>(h: Seq<T>, v: T) -> Seq<T> {
    seq![v] + h.take(h.len() - 1)
}

/// The history after recording each of `vs` in turn.
pub open spec fn record_all<T>(h: Seq<T>, vs: Seq<T>) -> Seq<T>
    decreases vs.len(),
{
    if vs.len() == 0 {
        h
    } else {
        record(record_all(h, vs.drop_last()), vs.last())
    }
}

/// `lag`, cut to the last index of a history of length `cap`.
pub open spec fn clamp_lag(lag: int, cap: int) -> int {
    if lag < cap {
        lag
    } else {
        cap - 1
    }
}

/// A ring buffer of the last values of one output slot. `data_start` is
/// where the newest value stands; older values follow, wrapping around.
#[derive(Debug)]
pub struct ProbeData<T> {
    data_start: usize,
    data: Vec<T>,
    probing: Id,
}

impl<T> ProbeData<T> {
    pub closed spec fn wf(&self) -> bool {
        &&& self.data.len() > 0
        &&& self.data_start < self.data.len()
    }

    /// The recorded values, newest first.
    pub closed spec fn history(&self) -> Seq<T> {
        Seq::new(
            self.data.len() as nat,
            |k: int| self.data@[(self.data_start + k) % (self.data.len() as int)],
        )
    }

    pub closed spec fn spec_probing(&self) -> Id {
        self.probing
    }
}

impl<T: Copy> ProbeData<T> {
    /// A probe of capacity `size` on slot `probing`, every value `fill`.
    pub fn new(size: usize, probing: Id, fill: T) -> (r: ProbeData<T>)
        requires
            size > 0,
        ensures
            r.wf(),
            r.history() == Seq::new(size as nat, |k: int| fill),
            r.spec_probing() == probing,
    {
        let mut data: Vec<T> = Vec::new();
        while data.len() < size
            invariant
                data.len() <= size,
                forall|k: int| 0 <= k < data.len() ==> data@[k] == fill,
            decreases size - data.len(),
        {
            data.push(fill);
        }
        let r = ProbeData { data_start: 0, data, probing };
        proof {
            assert(r.history() =~= Seq::new(size as nat, |k: int| fill));
        }
        r
    }

    pub fn capacity(&self) -> (r: usize)
        requires
            self.wf(),
        ensures
            r == self.history().len(),
            r > 0,
    {
        self.data.len()
    }

    pub fn probing(&self) -> (r: Id)
        ensures
            r == self.spec_probing(),
    {
        self.probing
    }

    /// The value recorded `loc` records ago (0: the newest); none when the
    /// buffer does not reach that far.
    pub fn get_data(&self, loc: usize) -> (r: Option<T>)
        requires
            self.wf(),
        ensures
            r == if loc < self.history().len() {
                Some(self.history()[loc as int])
            } else {
                None::<T>
            },
    {
        if loc < self.data.len() {
            let n = self.data.len();
            let index = if loc < n - self.data_start {
                self.data_start + loc
            } else {
                loc - (n - self.data_start)
            };
            proof {
                let s = self.data_start as int;
                let l = loc as int;
                let m = n as int;
                if l < m - s {
                    vstd::arithmetic::div_mod::lemma_small_mod((s + l) as nat, m as nat);
                } else {
                    vstd::arithmetic::div_mod::lemma_mod_sub_multiples_vanish(s + l, m);
                    vstd::arithmetic::div_mod::lemma_small_mod((s + l - m) as nat, m as nat);
                }
            }
            Some(self.data[index])
        } else {
            None
        }
    }

    /// The value recorded `lag` records ago, a lag past the capacity read as
    /// the oldest value held.
    pub fn read_clamped(&self, lag: usize) -> (r: T)
        requires
            self.wf(),
        ensures
            r == self.history()[clamp_lag(lag as int, self.history().len() as int)],
    {
        let cap = self.data.len();
        let l = if lag < cap {
            lag
        } else {
            cap - 1
        };
        match self.get_data(l) {
            Some(v) => v,
            None => self.data[0],
        }
    }

    /// Records `value` as the newest; the oldest value leaves.
    pub fn add_data(&mut self, value: T)
        requires
            old(self).wf(),
        ensures
            final(self).wf(),
            final(self).history() == record(old(self).history(), value),
            final(self).spec_probing() == old(self).spec_probing(),
    {
        let ghost h = self.history();
        if self.data_start > 0 {
            self.data_start = self.data_start - 1;
        } else {
            self.data_start = self.data.len() - 1;
        }
        self.data.set(self.data_start, value);
        proof {
            let m = self.data.len() as int;
            let s = self.data_start as int;
            let s0 = old(self).data_start as int;
            assert forall|k: int| 0 <= k < m implies #[trigger] self.history()[k] == record(h, value)[k] by {
                if k == 0 {
                    vstd::arithmetic::div_mod::lemma_small_mod(s as nat, m as nat);
                } else {
                    // (s + k) % m == (s0 + k - 1) % m
                    if s0 > 0 {
                        assert(s + k == s0 + (k - 1));
                    } else {
                        vstd::arithmetic::div_mod::lemma_mod_add_multiples_vanish(k - 1, m);
                        assert(s + k == (k - 1) + m);
                    }
                    let j = (s + k) % m;
                    vstd::arithmetic::div_mod::lemma_mod_bound(s + k, m);
                    if j == s {
                        // s + k and s differ by k, 0 < k < m
                        vstd::arithmetic::div_mod::lemma_fundamental_div_mod(s + k, m);
                        vstd::arithmetic::div_mod::lemma_small_mod(s as nat, m as nat);
                        vstd::arithmetic::div_mod::lemma_mod_sub_multiples_vanish(s + k, m);
                        if s + k < m {
                            vstd::arithmetic::div_mod::lemma_small_mod((s + k) as nat, m as nat);
                        } else {
                            vstd::arithmetic::div_mod::lemma_small_mod((s + k - m) as nat, m as nat);
                        }
                    }
                    assert(h[k - 1] == old(self).data@[(s0 + (k - 1)) % m]);
                }
            }
            assert(self.history() =~= record(h, value));
        }
    }
}

/// Recording keeps the newest values, newest first: after recording `vs`
/// into a ring of capacity `h.len()`, the value `k` records back is
/// `vs[vs.len() - 1 - k]`, for each `k` that the ring and `vs` both reach.
pub proof fn lemma_ring_history<T>(h: Seq<T>, vs: Seq<T>, k: int)
    requires
        h.len() > 0,
        0 <= k < h.len(),
        k < vs.len(),
    ensures
        record_all(h, vs).len() == h.len(),
        record_all(h, vs)[k] == vs[vs.len() - 1 - k],
    decreases vs.len(),
{
    lemma_record_all_len(h, vs);
    lemma_record_all_len(h, vs.drop_last());
    if k > 0 {
        lemma_ring_history(h, vs.drop_last(), k - 1);
    }
}

pub proof fn lemma_record_all_len<T>(h: Seq<T>, vs: Seq<T>)
    requires
        h.len() > 0,
    ensures
        record_all(h, vs).len() == h.len(),
    decreases vs.len(),
{
    if vs.len() > 0 {
        lemma_record_all_len(h, vs.drop_last());
    }
}

} // verus!

verus! {

// ---------------------------------------------------------------- capacity

pub open spec fn pow10(s: nat) -> nat
    decreases s,
{
    if s == 0 {
        1
    } else {
        10 * pow10((s - 1) as nat)
    }
}

pub open spec fn ceil_div(a: nat, b: nat) -> nat {
    if a % b == 0 {
        a / b
    } else {
        a / b + 1
    }
}

/// How many samples a probe keeps for `max` time units at `rate` samples
/// per unit: `ceil(max * rate)`, and at least one.
pub open spec fn capacity_for(max: Number, rate: nat) -> nat {
    let c = ceil_div((max.mantissa * rate) as nat, pow10(max.scale as nat));
    if max.negative || c == 0 {
        1
    } else {
        c
    }
}

proof fn lemma_pow10_positive(s: nat)
    ensures
        pow10(s) >= 1,
    decreases s,
{
    if s > 0 {
        lemma_pow10_positive((s - 1) as nat);
    }
}

proof fn lemma_pow10_bounds()
    ensures
        pow10(38) < u128::MAX,
        pow10(39) > u128::MAX,
{
    reveal_with_fuel(pow10, 40);
}

proof fn lemma_pow10_grows(a: nat, b: nat)
    requires
        a <= b,
    ensures
        pow10(a) <= pow10(b),
    decreases b,
{
    if a < b {
        lemma_pow10_grows(a, (b - 1) as nat);
        lemma_pow10_positive((b - 1) as nat);
    }
}

/// The probe capacity for `max` at `rate`; none when it does not fit in
/// `usize`.
pub fn probe_capacity(max: Number, rate: usize) -> (r: Option<usize>)
    requires
        rate <= u64::MAX,
    ensures
        r == if capacity_for(max, rate as nat) <= usize::MAX {
            Some(capacity_for(max, rate as nat) as usize)
        } else {
            None::<usize>
        },
{
    proof {
        assert(max.mantissa * rate <= u64::MAX * u64::MAX) by (nonlinear_arith)
            requires
                max.mantissa <= u64::MAX,
                rate <= u64::MAX,
        ;
        lemma_pow10_positive(max.scale as nat);
        lemma_pow10_bounds();
    }
    let prod: u128 = (max.mantissa as u128) * (rate as u128);
    let c: u128;
    if max.scale > 38 {
        proof {
            lemma_pow10_grows(39, max.scale as nat);
            vstd::arithmetic::div_mod::lemma_small_mod(prod as nat, pow10(max.scale as nat));
            vstd::arithmetic::div_mod::lemma_basic_div(prod as int, pow10(max.scale as nat) as int);
        }
        c = if prod > 0 {
            1
        } else {
            0
        };
    } else {
        let mut p: u128 = 1;
        let mut k: usize = 0;
        while k < max.scale
            invariant
                k <= max.scale <= 38,
                p == pow10(k as nat),
                pow10(38) < u128::MAX,
            decreases max.scale - k,
        {
            proof {
                lemma_pow10_grows((k + 1) as nat, 38);
                assert(pow10((k + 1) as nat) == 10 * pow10(k as nat));
            }
            p = p * 10;
            k = k + 1;
        }
        let q = prod / p;
        proof {
            vstd::arithmetic::div_mod::lemma_div_is_ordered_by_denominator(prod as int, 1, p as int);
        }
        c = if prod % p == 0 {
            q
        } else {
            q + 1
        };
    }
    if max.negative || c == 0 {
        Some(1)
    } else if c <= usize::MAX as u128 {
        Some(c as usize)
    } else {
        None
    }
}

} // verus!

verus! {

// ---------------------------------------------------------------- running

/// The arithmetic of samples, which the graph leaves to its user: the
/// value of a number, one step of a node other than a delay, and how many
/// samples back a delay reads for a requested time. Each method is a
/// function of its arguments, named by its `spec_` counterpart; the render
/// is stated in those terms.
pub trait Evaluator<T> {
    /// The value of a number.
    spec fn spec_value(&self, n: Number) -> T;

    /// One tick of a node other than a delay: the new state and the output.
    spec fn spec_step(&self, kind: NodeKind, state: T, a: T, b: T, c: T, sample_rate: usize) -> (T, T);

    /// The number of samples back that a delay of at most `max` reads for
    /// the requested `time`.
    spec fn spec_lag(&self, max: Number, time: T, sample_rate: usize) -> usize;

    fn value(&self, n: &Number) -> (r: T)
        ensures
            r == self.spec_value(*n),
    ;

    /// One tick of a node: from its state (when it has one) and its inputs,
    /// the new state and the output.
    fn evaluate(&self, kind: &NodeKind, state: T, inputs: [T; 3], sample_rate: usize) -> (r: (T, T))
        ensures
            r == self.spec_step(*kind, state, inputs[0], inputs[1], inputs[2], sample_rate),
    ;

    fn delay_lag(&self, max: &Number, time: T, sample_rate: usize) -> (r: usize)
        ensures
            r == self.spec_lag(*max, time, sample_rate),
    ;
}

/// A render of a graph: the live data array and one ring buffer per probe.
pub struct ExecutionData<T> {
    node_data: Vec<T>,
    probes: Vec<ProbeData<T>>,
    sampling_rate: usize,
    synth: Synth,
}

impl<T> ExecutionData<T> {
    pub closed spec fn graph(&self) -> SynthView {
        self.synth@
    }

    pub closed spec fn data(&self) -> Seq<T> {
        self.node_data@
    }

    /// The history of each probe, newest first.
    pub closed spec fn histories(&self) -> Seq<Seq<T>> {
        Seq::new(self.probes@.len(), |p: int| self.probes@[p].history())
    }

    pub closed spec fn rate(&self) -> usize {
        self.sampling_rate
    }

    pub closed spec fn wf(&self) -> bool {
        &&& self.synth@.wf()
        &&& self.synth@.complete()
        &&& self.node_data@.len() == self.synth@.data.len()
        &&& self.probes@.len() == self.synth@.probes.len()
        &&& forall|p: int|
            0 <= p < self.probes@.len() ==> (#[trigger] self.probes@[p]).wf()
                && self.probes@[p].spec_probing() == self.synth@.probes[p]->Some_0.probing
    }
}

/// Every value of every history is `z`.
pub open spec fn filled_with<T>(hs: Seq<Seq<T>>, z: T) -> bool {
    forall|p: int, k: int| 0 <= p < hs.len() && 0 <= k < hs[p].len() ==> #[trigger] hs[p][k] == z
}

/// The slot that probe `p` records.
pub open spec fn probed(g: SynthView, p: int) -> int {
    g.probes[p]->Some_0.probing.0 as int
}

impl<T: Copy> ExecutionData<T> {
    /// A fresh render of `synth` at `sampling_rate` samples per time unit:
    /// the initial data, and each probe filled with zeros at the capacity
    /// of its longest time. None when a capacity does not fit in `usize`.
    pub fn new<E: Evaluator<T>>(synth: Synth, sampling_rate: usize, ev: &E) -> (r: Option<ExecutionData<T>>)
        requires
            synth@.wf(),
            synth@.complete(),
            sampling_rate <= u64::MAX,
        ensures
            r matches Some(e) ==> {
                &&& e.wf()
                &&& e.graph() == synth@
                &&& e.rate() == sampling_rate
                &&& forall|p: int|
                    0 <= p < synth@.probes.len() ==> (#[trigger] e.histories()[p]).len() == capacity_for(
                        synth@.probes[p]->Some_0.max_time,
                        sampling_rate as nat,
                    )
                &&& filled_with(e.histories(), ev.spec_value(Number::whole(false, 0)))
                &&& forall|k: int|
                    0 <= k < synth@.data.len() ==> #[trigger] e.data()[k] == ev.spec_value(synth@.data[k])
            },
            r is None <==> exists|p: int|
                0 <= p < synth@.probes.len() && capacity_for(
                    (#[trigger] synth@.probes[p])->Some_0.max_time,
                    sampling_rate as nat,
                ) > usize::MAX,
    {
        let zero = ev.value(&Number::integer(false, 0));
        let mut data: Vec<T> = Vec::new();
        let mut k: usize = 0;
        while k < synth.initial_data.len()
            invariant
                k <= synth.initial_data.len(),
                data.len() == k,
                synth@.data == synth.initial_data@,
                forall|q: int| 0 <= q < k ==> #[trigger] data@[q] == ev.spec_value(synth@.data[q]),
            decreases synth.initial_data.len() - k,
        {
            data.push(ev.value(&synth.initial_data[k]));
            k = k + 1;
        }
        let mut probes: Vec<ProbeData<T>> = Vec::new();
        let mut p: usize = 0;
        while p < synth.probes.len()
            invariant
                p <= synth.probes.len(),
                synth@.complete(),
                probes.len() == p,
                forall|q: int, k: int|
                    0 <= q < p && 0 <= k < probes@[q].history().len() ==> #[trigger] probes@[q].history()[k]
                        == zero,
                forall|q: int|
                    0 <= q < p ==> (#[trigger] probes@[q]).wf() && probes@[q].spec_probing()
                        == synth@.probes[q]->Some_0.probing && probes@[q].history().len()
                        == capacity_for(synth@.probes[q]->Some_0.max_time, sampling_rate as nat),
                forall|q: int|
                    0 <= q < p ==> capacity_for(
                        (#[trigger] synth@.probes[q])->Some_0.max_time,
                        sampling_rate as nat,
                    ) <= usize::MAX,
            decreases synth.probes.len() - p,
        {
            proof {
                assert(synth@.probes[p as int] is Some);
            }
            let probe = match synth.probes[p] {
                Some(pr) => pr,
                None => {
                    return None;
                },
            };
            let cap = match probe_capacity(probe.max_time, sampling_rate) {
                Some(c) => c,
                None => {
                    return None;
                },
            };
            probes.push(ProbeData::new(cap, probe.probing, zero));
            p = p + 1;
        }
        let e = ExecutionData { node_data: data, probes, sampling_rate, synth };
        proof {
            assert forall|q: int| 0 <= q < e.probes@.len() implies #[trigger] e.histories()[q]
                == e.probes@[q].history() by {}
            assert forall|q: int, k: int|
                0 <= q < e.histories().len() && 0 <= k < e.histories()[q].len()
                    implies #[trigger] e.histories()[q][k] == zero by {
                assert(e.histories()[q] == e.probes@[q].history());
            }
            assert(filled_with(e.histories(), zero));
        }
        Some(e)
    }

    /// The current value of output `output` of `node`; a node has one
    /// output.
    pub fn get_node_output(&self, node: &crate::synth::Node, output: usize) -> (r: Option<T>)
        requires
            node.spec_output_loc() <= usize::MAX,
        ensures
            r == if output < 1 && node.spec_output_loc() < self.data().len() {
                Some(self.data()[node.spec_output_loc() as int])
            } else {
                None::<T>
            },
    {
        match node.get_output_loc(output) {
            Some(loc) => if loc < self.node_data.len() {
                Some(self.node_data[loc])
            } else {
                None
            },
            None => None,
        }
    }

    /// The current value of data slot `id`.
    pub fn get_data(&self, id: Id) -> (r: Option<T>)
        ensures
            r == if id.0 < self.data().len() {
                Some(self.data()[id.0 as int])
            } else {
                None::<T>
            },
    {
        if id.as_usize() < self.node_data.len() {
            Some(self.node_data[id.as_usize()])
        } else {
            None
        }
    }
}

} // verus!

verus! {

/// The value of the slot `m` names in `d`, or `zero` when it names none.
pub open spec fn slot_value<T>(d: Seq<T>, m: Option<Id>, zero: T) -> T {
    match m {
        Some(id) => if id.0 < d.len() {
            d[id.0 as int]
        } else {
            zero
        },
        None => zero,
    }
}

/// Node `i` of `g` did its tick, from data `before` (as the tick began) to
/// data `d`: it read its input slots as they stand in `d`, written by the
/// nodes before it this tick. A delay's output is its probe's history
/// `hs` at the lag the evaluator asks for, cut to the capacity; any other
/// node's state and output are the evaluator's step from its old state.
pub open spec fn ran_node<T, E: Evaluator<T>>(
    ev: &E,
    g: SynthView,
    before: Seq<T>,
    d: Seq<T>,
    hs: Seq<Seq<T>>,
    i: int,
    rate: usize,
) -> bool {
    let n = g.nodes[i];
    let zero = ev.spec_value(Number::whole(false, 0));
    let a = slot_value(d, n.input(0), zero);
    let b = slot_value(d, n.input(1), zero);
    let c = slot_value(d, n.input(2), zero);
    let out = n.spec_output_loc() as int;
    let loc = n.data_loc.0 as int;
    match n.kind {
        NodeKind::Delay(max, p) => d[out] == hs[p.0 as int][clamp_lag(
            ev.spec_lag(max, a, rate) as int,
            hs[p.0 as int].len() as int,
        )],
        _ => {
            let st = if n.kind.spec_n_data_allocations() > 0 {
                before[loc]
            } else {
                zero
            };
            let r = ev.spec_step(n.kind, st, a, b, c, rate);
            &&& d[out] == r.1
            &&& n.kind.spec_n_data_allocations() > 0 ==> d[loc] == r.0
        },
    }
}

/// What node `j` did stays true while later nodes write their own slots.
proof fn lemma_ran_node_frame<T, E: Evaluator<T>>(
    ev: &E,
    g: SynthView,
    start: Seq<T>,
    before: Seq<T>,
    cur: Seq<T>,
    hs: Seq<Seq<T>>,
    j: int,
    i: int,
    rate: usize,
)
    requires
        g.wf(),
        0 <= j <= i < g.nodes.len(),
        before.len() == cur.len() == g.data.len(),
        j < i ==> ran_node(ev, g, start, before, hs, j, rate),
        j == i ==> ran_node(ev, g, start, cur, hs, j, rate),
        forall|x: int| 0 <= x < g.nodes[i].data_loc.0 ==> #[trigger] cur[x] == before[x],
    ensures
        ran_node(ev, g, start, cur, hs, j, rate),
{
    if j < i {
        let n = g.nodes[j];
        assert(n.data_loc.0 + n.spec_size() <= g.nodes[i].data_loc.0);
        assert forall|k: int| 0 <= k < 3 && (#[trigger] n.input(k)) is Some implies n.input(k)->Some_0.0
            < n.data_loc.0 by {}
        assert(n.input(0) is Some ==> n.input(0)->Some_0.0 < n.data_loc.0);
        assert(n.input(1) is Some ==> n.input(1)->Some_0.0 < n.data_loc.0);
        assert(n.input(2) is Some ==> n.input(2)->Some_0.0 < n.data_loc.0);
    }
}

/// Node `i` of `g` is a delay, reading probe `p`.
pub open spec fn delay_probe(g: SynthView, i: int) -> int {
    g.nodes[i].kind->Delay_1.0 as int
}

/// The value `v` is what the history `h` holds at some lag, cut to its
/// capacity.
pub open spec fn in_history<T>(h: Seq<T>, v: T) -> bool {
    exists|lag: int| 0 <= lag && v == #[trigger] h[clamp_lag(lag, h.len() as int)]
}

impl<T: Copy> ExecutionData<T> {
    /// The current value of the slot `m` names, or `zero` when it names none.
    fn read_slot(&self, m: crate::synth::MaybeId, zero: T) -> (r: T)
        ensures
            r == match m.spec_get() {
                Some(id) => if id.0 < self.data().len() {
                    self.data()[id.0 as int]
                } else {
                    zero
                },
                None => zero,
            },
    {
        match m.get() {
            Some(id) => if id.as_usize() < self.node_data.len() {
                self.node_data[id.as_usize()]
            } else {
                zero
            },
            None => zero,
        }
    }

    /// Advances the render by one sample. First every node, in creation
    /// order, computes its output from its inputs; a delay reads its
    /// probe's history as it stood before this tick. Then every probe
    /// records the new value of its slot.
    pub fn run<E: Evaluator<T>>(&mut self, ev: &E)
        requires
            old(self).wf(),
        ensures
            final(self).wf(),
            final(self).graph() == old(self).graph(),
            final(self).rate() == old(self).rate(),
            forall|i: int|
                0 <= i < old(self).graph().nodes.len() ==> #[trigger] ran_node(
                    ev,
                    old(self).graph(),
                    old(self).data(),
                    final(self).data(),
                    old(self).histories(),
                    i,
                    old(self).rate(),
                ),
            forall|p: int|
                0 <= p < old(self).graph().probes.len() ==> #[trigger] final(self).histories()[p] == record(
                    old(self).histories()[p],
                    final(self).data()[probed(old(self).graph(), p)],
                ),
    {
        let ghost g = self.synth@;
        let ghost hs = self.histories();
        let rate = self.sampling_rate;
        let zero = ev.value(&Number::integer(false, 0));
        let mut i: usize = 0;
        while i < self.synth.nodes.len()
            invariant
                self.wf(),
                self.synth@ == g,
                self.sampling_rate == old(self).sampling_rate,
                self.probes@ == old(self).probes@,
                self.histories() == hs,
                hs == old(self).histories(),
                i <= g.nodes.len(),
                zero == ev.spec_value(Number::whole(false, 0)),
                rate == old(self).sampling_rate,
                self.node_data@.len() == old(self).node_data@.len(),
                forall|j: int|
                    0 <= j < i ==> #[trigger] ran_node(
                        ev,
                        g,
                        old(self).node_data@,
                        self.node_data@,
                        hs,
                        j,
                        old(self).sampling_rate,
                    ),
                i < g.nodes.len() ==> forall|x: int|
                    g.nodes[i as int].data_loc.0 <= x < self.node_data@.len() ==> #[trigger] self.node_data@[x]
                        == old(self).node_data@[x],
            decreases g.nodes.len() - i,
        {
            let node = &self.synth.nodes[i];
            let loc = node.data_loc.as_usize();
            let n_alloc = node.kind.n_data_allocations();
            let out = loc + n_alloc;
            let a = self.read_slot(node.inputs[0], zero);
            let b = self.read_slot(node.inputs[1], zero);
            let c = self.read_slot(node.inputs[2], zero);
            let ghost before = self.node_data@;
            proof {
                let n = g.nodes[i as int];
                assert(n.input(0) is Some ==> n.input(0)->Some_0.0 < n.data_loc.0);
                assert(n.input(1) is Some ==> n.input(1)->Some_0.0 < n.data_loc.0);
                assert(n.input(2) is Some ==> n.input(2)->Some_0.0 < n.data_loc.0);
                assert(n.data_loc.0 + n.spec_size() <= g.data.len());
            }
            match &node.kind {
                NodeKind::Delay(max, probe) => {
                    let lag = ev.delay_lag(max, a, rate);
                    let pr = &self.probes[probe.as_usize()];
                    let v = pr.read_clamped(lag);
                    proof {
                        assert(hs[probe.0 as int] == pr.history());
                        assert(v == pr.history()[clamp_lag(lag as int, pr.history().len() as int)]);
                    }
                    self.node_data.set(out, v);
                    proof {
                        let cur = self.node_data@;
                        let n = g.nodes[i as int];
                        assert(slot_value(cur, n.input(0), zero) == slot_value(before, n.input(0), zero));
                    }
                },
                _ => {
                    let state = if n_alloc > 0 {
                        self.node_data[loc]
                    } else {
                        zero
                    };
                    let inputs = [a, b, c];
                    proof {
                        assert(inputs[0] == a && inputs[1] == b && inputs[2] == c);
                    }
                    let (next, value) = ev.evaluate(&node.kind, state, inputs, rate);
                    if n_alloc > 0 {
                        self.node_data.set(loc, next);
                    }
                    self.node_data.set(out, value);
                    proof {
                        let cur = self.node_data@;
                        let n = g.nodes[i as int];
                        assert(slot_value(cur, n.input(0), zero) == slot_value(before, n.input(0), zero));
                        assert(slot_value(cur, n.input(1), zero) == slot_value(before, n.input(1), zero));
                        assert(slot_value(cur, n.input(2), zero) == slot_value(before, n.input(2), zero));
                        assert(n_alloc > 0 ==> state == old(self).node_data@[loc as int]);
                        assert(n.kind == node.kind);
                        assert(cur[out as int] == value);
                        assert(n_alloc > 0 ==> cur[loc as int] == next);
                        assert((next, value) == ev.spec_step(n.kind, state, a, b, c, rate));
                        assert(node.inputs@[0] == node.inputs[0]);
                        assert(a == slot_value(before, n.input(0), zero));
                        assert(b == slot_value(before, n.input(1), zero));
                        assert(c == slot_value(before, n.input(2), zero));
                        assert(!(n.kind is Delay));
                        assert(ran_node(ev, g, old(self).node_data@, cur, hs, i as int, old(self).sampling_rate));
                    }
                },
            }
            proof {
                let cur = self.node_data@;
                let n = g.nodes[i as int];
                assert forall|x: int| 0 <= x < n.data_loc.0 implies #[trigger] cur[x] == before[x] by {}
                assert forall|j: int| 0 <= j < i + 1 implies #[trigger] ran_node(
                    ev,
                    g,
                    old(self).node_data@,
                    cur,
                    hs,
                    j,
                    old(self).sampling_rate,
                ) by {
                    lemma_ran_node_frame(ev, g, old(self).node_data@, before, cur, hs, j, i as int, old(self).sampling_rate);
                }
                if i + 1 < g.nodes.len() {
                    assert(n.data_loc.0 + n.spec_size() <= g.nodes[i + 1].data_loc.0);
                }
            }
            i = i + 1;
        }
        let ghost mid = self.node_data@;
        let mut p: usize = 0;
        while p < self.probes.len()
            invariant
                self.synth@ == g,
                g.wf(),
                g.complete(),
                self.sampling_rate == old(self).sampling_rate,
                self.node_data@ == mid,
                hs == old(self).histories(),
                old(self).probes@.len() == g.probes.len(),
                mid.len() == g.data.len(),
                self.probes@.len() == g.probes.len(),
                p <= g.probes.len(),
                forall|q: int|
                    0 <= q < g.probes.len() ==> (#[trigger] self.probes@[q]).wf()
                        && self.probes@[q].spec_probing() == g.probes[q]->Some_0.probing,
                forall|q: int| p <= q < g.probes.len() ==> #[trigger] self.probes@[q] == old(self).probes@[q],
                forall|q: int|
                    0 <= q < p ==> #[trigger] self.probes@[q].history() == record(
                        hs[q],
                        mid[probed(g, q)],
                    ),
            decreases g.probes.len() - p,
        {
            proof {
                assert(g.probes[p as int] is Some);
            }
            let slot = self.probes[p].probing().as_usize();
            let v = self.node_data[slot];
            let ghost ps = self.probes@;
            let mut pr = self.probes.remove(p);
            pr.add_data(v);
            self.probes.insert(p, pr);
            proof {
                assert forall|q: int| 0 <= q < g.probes.len() implies #[trigger] self.probes@[q] == if q
                    == p {
                    pr
                } else {
                    ps[q]
                } by {}
                assert(hs[p as int] == old(self).probes@[p as int].history());
            }
            p = p + 1;
        }
    }
}

} // verus!
