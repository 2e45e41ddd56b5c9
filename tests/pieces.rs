use synth_dsl::lang::compile_source;
use synth_dsl::lang::tokenize::{read_float, read_identifier, read_operator, skip_whitespace, TokenErrorKind};
use synth_dsl::number::Number;
use synth_dsl::operator::Operator;
use synth_dsl::synth::execution_data::{Evaluator, ExecutionData};
use synth_dsl::synth::{Id, MaybeId, NodeKind, Synth};

fn chars(s: &str) -> Vec<char> {
    s.chars().collect()
}

#[test]
fn read_operator_knows_five_symbols() {
    assert_eq!(read_operator('%', (0, 0)), Ok(Operator::Mod));
    let e = read_operator('^', (2, 3)).unwrap_err();
    assert_eq!(e.kind, TokenErrorKind::InvalidOperator);
    assert_eq!(e.pos, (2, 3));
}

#[test]
fn read_identifier_needs_one_character() {
    let cs = chars("ab_1+x");
    assert_eq!(read_identifier(&cs, 0, (0, 0)), Ok(("ab_1".to_string(), 4)));
    let e = read_identifier(&cs, 4, (0, 4)).unwrap_err();
    assert_eq!(e.kind, TokenErrorKind::EmptyIdentifier);
    assert_eq!(e.pos, (0, 4));
}

#[test]
fn read_float_rejects_a_second_point() {
    let cs = chars("12.50+.7");
    assert_eq!(read_float(&cs, 0, (0, 0)), Ok((Number { negative: false, mantissa: 125, scale: 1 }, 5)));
    assert_eq!(read_float(&cs, 6, (0, 6)), Ok((Number { negative: false, mantissa: 7, scale: 1 }, 8)));
    let cs = chars("12.5.0");
    let e = read_float(&cs, 0, (0, 0)).unwrap_err();
    assert_eq!(e.kind, TokenErrorKind::InvalidFloat);
    assert_eq!(e.pos, (0, 0));
}

#[test]
fn skip_whitespace_passes_comments_and_newlines() {
    let cs = chars("  # note\n\t x");
    assert_eq!(skip_whitespace(&cs, 0, (0, 0)), (11, (1, 2)));
    assert_eq!(skip_whitespace(&cs, 11, (1, 2)), (11, (1, 2)));
}

#[test]
fn maybe_id_round_trips() {
    assert_eq!(MaybeId::none().get(), None);
    assert_eq!(MaybeId::from_option(Some(Id(7))).get(), Some(Id(7)));
    assert_eq!(Id(7).maybe().get_usize(), Some(7));
    assert_eq!(MaybeId::from_option(None).get_usize(), None);
    assert_eq!(Id(9).as_usize(), 9);
}

#[test]
fn add_node_lays_out_state_then_output() {
    let mut s = Synth::new();
    let zero = Number::integer(false, 0);
    let c = s.add_node(NodeKind::Constant(Number::integer(false, 2)), &[], &[]);
    let out_c = s.get_node_output(c).unwrap();
    assert_eq!(out_c, Id(0));
    let o = s.add_node(NodeKind::Oscillator, &[out_c], &[zero]);
    assert_eq!(o, Id(1));
    assert_eq!(s.get_node_output(o), Some(Id(2)));
    assert_eq!(s.get_node(o).unwrap().get_allocated_range(), (1, 3));
    assert_eq!(s.get_node(o).unwrap().get_output_loc(0), Some(2));
    assert_eq!(s.get_node(o).unwrap().get_output_loc(1), None);
    assert_eq!(s.data_len(), 3);
    // the same node again is the same id
    assert_eq!(s.add_node(NodeKind::Oscillator, &[out_c], &[zero]), o);
    assert_eq!(s.len(), 2);
    assert_eq!(s.get_node_output(Id(5)), None);
    assert!(s.has_room(1));
}

#[test]
fn probes_are_allocated_then_given() {
    let mut s = Synth::new();
    let c = s.add_node(NodeKind::Constant(Number::integer(false, 1)), &[], &[]);
    let p = s.allocate_probe_id();
    assert_eq!(p, Id(0));
    assert!(!s.is_complete());
    s.add_probe(p, Number::integer(false, 1), c);
    assert!(s.is_complete());
    assert_eq!(s.probe_count(), 1);
}

#[test]
fn node_kind_arities() {
    assert_eq!(NodeKind::ConstantOp(Operator::Add).n_inputs(), 2);
    assert_eq!(NodeKind::Constant(Number::integer(false, 1)).n_inputs(), 0);
    assert_eq!(NodeKind::Oscillator.n_data_allocations(), 1);
    assert_eq!(NodeKind::Clamp(Number::integer(true, 1), Number::integer(false, 1)).n_data_allocations(), 0);
    assert_eq!(NodeKind::Delay(Number::integer(false, 1), Id(0)).n_outputs(), 1);
    assert!(NodeKind::Constant(Number::integer(false, 1)).is_constant());
    assert!(!NodeKind::Delay(Number::integer(false, 1), Id(0)).is_constant());
}

#[test]
fn decimal_numbers_are_normalized() {
    assert_eq!(Number::from_decimal(1500, 3), Number { negative: false, mantissa: 15, scale: 1 });
    assert_eq!(Number::from_decimal(0, 4), Number { negative: false, mantissa: 0, scale: 0 });
    assert_eq!(Number::integer(true, 0), Number { negative: false, mantissa: 0, scale: 0 });
}

/// Integer samples: an oscillator counts ticks, a constant is its
/// mantissa, any other node passes its first input on.
struct Counter;

impl Evaluator<i64> for Counter {
    fn spec_value(&self, n: Number) -> i64 {
        self.value(&n)
    }

    fn spec_step(&self, kind: NodeKind, state: i64, a: i64, b: i64, c: i64, sample_rate: usize) -> (i64, i64) {
        self.evaluate(&kind, state, [a, b, c], sample_rate)
    }

    fn spec_lag(&self, max: Number, time: i64, sample_rate: usize) -> usize {
        self.delay_lag(&max, time, sample_rate)
    }

    fn value(&self, n: &Number) -> i64 {
        n.mantissa as i64
    }
    fn evaluate(&self, kind: &NodeKind, state: i64, inputs: [i64; 3], _rate: usize) -> (i64, i64) {
        match kind {
            NodeKind::Constant(n) => (state, n.mantissa as i64),
            NodeKind::Oscillator => (state + 1, state + 1),
            _ => (state, inputs[0]),
        }
    }
    fn delay_lag(&self, _max: &Number, time: i64, _rate: usize) -> usize {
        time as usize
    }
}

#[test]
fn engine_works_for_any_sample_type() {
    let (synth, left, _) = compile_source("out : osc(0);").unwrap();
    let node_kind_is_osc = matches!(synth.get_node(Id(1)).unwrap().kind, NodeKind::Oscillator);
    assert!(node_kind_is_osc);
    let mut e = ExecutionData::new(synth, 10, &Counter).unwrap();
    e.run(&Counter);
    e.run(&Counter);
    assert_eq!(e.get_data(left), Some(2));
    assert_eq!(e.get_data(Id(99)), None);
}

#[test]
fn delay_with_any_sample_type_reads_history() {
    // x counts 1, 2, 3, ...; d reads x from `lag + 1` ticks back
    let (synth, left, right) = compile_source("x : osc(0); d : delay[max: 1](3, $x); left : $x; right : $d;").unwrap();
    let mut e = ExecutionData::new(synth, 10, &Counter).unwrap();
    let mut seen = Vec::new();
    for _ in 0..8 {
        e.run(&Counter);
        seen.push((e.get_data(left).unwrap(), e.get_data(right).unwrap()));
    }
    assert_eq!(seen, vec![(1, 0), (2, 0), (3, 0), (4, 0), (5, 1), (6, 2), (7, 3), (8, 4)]);
}
