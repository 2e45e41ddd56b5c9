use synth_dsl::lang::compile_source;
use synth_dsl::number::Number;
use synth_dsl::operator::Operator;
use synth_dsl::synth::execution_data::{probe_capacity, Evaluator, ExecutionData, ProbeData};
use synth_dsl::synth::{Id, NodeKind};

/// Sample arithmetic in `f32`.
struct F32Math;

fn to_f32(n: &Number) -> f32 {
    let v: f64 = format!("{}e-{}", n.mantissa, n.scale).parse().unwrap();
    (if n.negative { -v } else { v }) as f32
}

impl Evaluator<f32> for F32Math {
    fn spec_value(&self, n: Number) -> f32 {
        self.value(&n)
    }

    fn spec_step(&self, kind: NodeKind, state: f32, a: f32, b: f32, c: f32, sample_rate: usize) -> (f32, f32) {
        self.evaluate(&kind, state, [a, b, c], sample_rate)
    }

    fn spec_lag(&self, max: Number, time: f32, sample_rate: usize) -> usize {
        self.delay_lag(&max, time, sample_rate)
    }

    fn value(&self, n: &Number) -> f32 {
        to_f32(n)
    }

    fn evaluate(&self, kind: &NodeKind, state: f32, inputs: [f32; 3], sample_rate: usize) -> (f32, f32) {
        let dt = 1.0 / sample_rate as f32;
        match kind {
            NodeKind::SquareOscillator => {
                let phase = (state + inputs[0].abs() * dt) % 1.0;
                (phase, (phase * 2.0).ceil() - 1.0)
            }
            NodeKind::Oscillator => {
                let phase = (state + inputs[0].abs() * dt) % 1.0;
                (phase, (phase * 2.0 * std::f32::consts::PI).sin())
            }
            NodeKind::Linear(max) => {
                let v = (state + inputs[0] * dt) % to_f32(max);
                (v, v)
            }
            NodeKind::Sequence(values) => {
                let len = values.len() as f32;
                let x = inputs[0].floor();
                let at = (x - (x / len).floor() * len) as usize;
                (state, to_f32(&values[at]))
            }
            NodeKind::Clamp(lo, hi) => (state, inputs[0].max(to_f32(lo)).min(to_f32(hi))),
            NodeKind::Constant(c) => (state, to_f32(c)),
            NodeKind::ConstantOp(op) => {
                let (a, b) = (inputs[0], inputs[1]);
                let v = match op {
                    Operator::Add => a + b,
                    Operator::Sub => a - b,
                    Operator::Mult => a * b,
                    Operator::Div => a / b,
                    Operator::Mod => a % b,
                };
                (state, v)
            }
            NodeKind::Delay(_, _) => (state, 0.0),
        }
    }

    fn delay_lag(&self, max: &Number, time: f32, sample_rate: usize) -> usize {
        let t = time.max(0.001).min(to_f32(max));
        ((t * sample_rate as f32).round() as usize).saturating_sub(1)
    }
}

fn render(text: &str, rate: usize, ticks: usize) -> Vec<(f32, f32)> {
    let (synth, left, right) = compile_source(text).unwrap();
    let mut exec = ExecutionData::new(synth, rate, &F32Math).unwrap();
    let mut out = Vec::new();
    for _ in 0..ticks {
        exec.run(&F32Math);
        out.push((exec.get_data(left).unwrap(), exec.get_data(right).unwrap()));
    }
    out
}

#[test]
fn ring_buffer_keeps_the_newest_values() {
    let n = 4;
    let mut p = ProbeData::new(n, Id(0), 0i64);
    for v in 0..=(n as i64) {
        p.add_data(v * 10);
    }
    assert_eq!(p.get_data(0), Some(40));
    assert_eq!(p.get_data(n - 1), Some(10));
    assert_eq!(p.get_data(n), None);
}

#[test]
fn ring_buffer_after_exactly_capacity_records() {
    let n = 3;
    let mut p = ProbeData::new(n, Id(0), -1i32);
    assert_eq!(p.get_data(0), Some(-1));
    for v in [7, 8, 9] {
        p.add_data(v);
    }
    assert_eq!(p.get_data(0), Some(9));
    assert_eq!(p.get_data(n - 1), Some(7));
    assert_eq!(p.get_data(n), None);
    assert_eq!(p.capacity(), 3);
}

#[test]
fn probe_capacity_rounds_up() {
    let n = |m: u64, s: usize| Number { negative: false, mantissa: m, scale: s };
    assert_eq!(probe_capacity(n(5, 0), 48000), Some(240000));
    assert_eq!(probe_capacity(n(2, 2), 1000), Some(20));
    assert_eq!(probe_capacity(n(1, 3), 1500), Some(2));
    assert_eq!(probe_capacity(n(0, 0), 48000), Some(1));
    assert_eq!(probe_capacity(n(1, 60), 48000), Some(1));
    assert_eq!(probe_capacity(Number { negative: true, mantissa: 1, scale: 0 }, 10), Some(1));
}

#[test]
fn delay_reads_strictly_earlier_ticks() {
    let rate = 1000;
    let lag = (0.02f32 * rate as f32).round() as usize;
    let out = render("x : osc(1); d : delay(0.02, $x); left : $x; right : $d;", rate, 200);
    for k in 0..out.len() {
        let expected = if k >= lag { out[k - lag].0 } else { 0.0 };
        assert_eq!(out[k].1, expected, "tick {}", k);
        if k > 0 {
            assert_ne!(out[k].1, out[k].0);
        }
    }
}

#[test]
fn sine_zero_crossings_follow_the_frequency() {
    let rate = 48000;
    let out = render("out : osc(440);", rate, rate);
    let mut crossings = Vec::new();
    for k in 1..out.len() {
        assert_eq!(out[k].0, out[k].1);
        if (out[k - 1].0 < 0.0) != (out[k].0 < 0.0) {
            crossings.push(k);
        }
    }
    let half_period = rate as f32 / 880.0;
    assert!((crossings.len() as i64 - 880).abs() <= 2, "{} crossings", crossings.len());
    for w in crossings.windows(2) {
        let gap = (w[1] - w[0]) as f32;
        assert!((gap - half_period).abs() <= 1.0, "gap {}", gap);
    }
}

#[test]
fn constant_program_renders_its_value() {
    let out = render("left : 0.25; right : -(1, 3);", 100, 3);
    assert_eq!(out, vec![(0.25, -2.0); 3]);
}

#[test]
fn clamp_limits_the_signal() {
    let out = render("out : clamp[min: 0, max: 0.5](*(osc(10), 2));", 1000, 300);
    assert!(out.iter().all(|&(l, _)| (0.0..=0.5).contains(&l)));
    assert!(out.iter().any(|&(l, _)| l == 0.5));
}

#[test]
fn feedback_loop_decays() {
    let out = render("out : +(delay[max: 1](0.01, *($out, 0.5)), 1);", 1000, 100);
    assert_eq!(out[0].0, 1.0);
    assert_eq!(out[10].0, 1.5);
    assert!(out[99].0 < 2.0);
}

#[test]
fn operator_inputs_keep_their_order() {
    let out = render("a : 5; b : 2; left : -($a, $b); right : /($a, $b);", 100, 1);
    assert_eq!(out[0], (3.0, 2.5));
}

#[test]
fn delay_body_may_name_a_later_statement() {
    let out = render("d : delay(0.01, $x); x : 1; left : $d; right : $x;", 100, 3);
    // the probe watches x: a value of x from one tick back
    assert_eq!(out[0], (0.0, 1.0));
    assert_eq!(out[1], (1.0, 1.0));
}
