use synth_dsl::lang::compile::CompileErrorKind as StageError;
use synth_dsl::lang::{compile_source, CompileErrorKind};
use synth_dsl::lang::tokenize::TokenErrorKind;
use synth_dsl::lang::parser::ParseErrorKind;
use synth_dsl::number::Number;
use synth_dsl::synth::{Id, NodeKind};

#[test]
fn mono_output_uses_out_for_both_channels() {
    let (_, left, right) = compile_source("x : osc(2); out : +($x, 1);").unwrap();
    assert_eq!(left, right);
}

#[test]
fn out_wins_over_left_and_right() {
    let (_, left, right) = compile_source("left : 1; right : 2; out : 3;").unwrap();
    assert_eq!(left, right);
}

#[test]
fn stereo_output_needs_left_and_right() {
    let (_, left, right) = compile_source("left : osc(1); right : osc(2);").unwrap();
    assert_ne!(left, right);
    let e = compile_source("left : osc(1);").unwrap_err();
    assert_eq!(e.kind, CompileErrorKind::CompileError(StageError::NoOutputVariables));
    assert_eq!(e.pos, None);
    let e = compile_source("right : osc(1);").unwrap_err();
    assert_eq!(e.kind, CompileErrorKind::CompileError(StageError::NoOutputVariables));
    let e = compile_source("").unwrap_err();
    assert_eq!(e.kind, CompileErrorKind::CompileError(StageError::NoOutputVariables));
}

#[test]
fn equal_constants_share_one_node() {
    let (synth, left, right) = compile_source("a : 5; b : 5; left : $a; right : $b;").unwrap();
    assert_eq!(synth.len(), 1);
    assert_eq!(left, right);
    let node = synth.get_node(Id(0)).unwrap();
    assert!(matches!(node.kind, NodeKind::Constant(n) if n == Number { negative: false, mantissa: 5, scale: 0 }));
    assert_eq!(synth.get_node_output(Id(0)), Some(left));
}

#[test]
fn equal_values_written_differently_share_one_node() {
    let (synth, _, _) = compile_source("a : 5; b : 5.00; out : +($a, $b);").unwrap();
    assert_eq!(synth.len(), 2);
}

#[test]
fn oscillators_with_other_offsets_stay_apart() {
    let (synth, _, _) = compile_source("a : osc(1); b : osc[off: 0.25](1); out : +($a, $b);").unwrap();
    // the constant, two oscillators, the sum
    assert_eq!(synth.len(), 4);
    assert_eq!(synth.get_node_data(Id(1)), Some(vec![Number { negative: false, mantissa: 0, scale: 0 }]));
    assert_eq!(synth.get_node_data(Id(2)), Some(vec![Number { negative: false, mantissa: 25, scale: 2 }]));
}

#[test]
fn undefined_variable_points_at_its_name() {
    let e = compile_source("out : $missing;").unwrap_err();
    assert_eq!(e.kind, CompileErrorKind::CompileError(StageError::InvalidVariableName));
    assert_eq!(e.pos, Some((0, 7)));
}

#[test]
fn a_variable_is_visible_only_after_its_statement() {
    let e = compile_source("out : $a; a : 1;").unwrap_err();
    assert_eq!(e.kind, CompileErrorKind::CompileError(StageError::InvalidVariableName));
    assert_eq!(e.pos, Some((0, 7)));
}

#[test]
fn a_delay_body_sees_every_binding() {
    let (synth, left, right) = compile_source("out : delay(0.5, $later); later : osc(3);").unwrap();
    assert_eq!(left, right);
    assert!(synth.is_complete());
    assert_eq!(synth.probe_count(), 1);
}

#[test]
fn feedback_through_a_delay_compiles() {
    let (synth, _, _) = compile_source("out : +(osc(1), delay[max: 1](0.1, *($out, 0.5)));").unwrap();
    assert!(synth.is_complete());
}

#[test]
fn nested_delays_each_get_a_probe() {
    let (synth, _, _) = compile_source("x : osc(1); out : delay(0.1, delay(0.2, $x));").unwrap();
    assert_eq!(synth.probe_count(), 2);
    assert!(synth.is_complete());
}

#[test]
fn defaults_of_the_constant_arguments() {
    let (synth, _, _) = compile_source("x : osc(1); y : clamp($x); out : delay(1, $y);").unwrap();
    let mut found_clamp = false;
    let mut found_delay = false;
    let mut k: u32 = 0;
    while let Some(node) = synth.get_node(Id(k)) {
        match &node.kind {
            NodeKind::Clamp(lo, hi) => {
                assert_eq!(*lo, Number { negative: true, mantissa: 1, scale: 0 });
                assert_eq!(*hi, Number { negative: false, mantissa: 1, scale: 0 });
                found_clamp = true;
            }
            NodeKind::Delay(max, _) => {
                assert_eq!(*max, Number { negative: false, mantissa: 5, scale: 0 });
                found_delay = true;
            }
            _ => {}
        }
        k += 1;
    }
    assert!(found_clamp && found_delay);
}

#[test]
fn unknown_function() {
    let e = compile_source("out : sine(1);").unwrap_err();
    assert_eq!(e.kind, CompileErrorKind::CompileError(StageError::UnknownFunctionName("sine".to_string())));
    assert_eq!(e.pos, Some((0, 11)));
}

#[test]
fn wrong_argument_count() {
    let e = compile_source("out : osc(1, 2);").unwrap_err();
    assert_eq!(e.kind, CompileErrorKind::CompileError(StageError::InvalidArgNumber));
    assert_eq!(e.pos, Some((0, 10)));
    let e = compile_source("out : delay(1);").unwrap_err();
    assert_eq!(e.kind, CompileErrorKind::CompileError(StageError::InvalidArgNumber));
}

#[test]
fn operator_needs_two_arguments() {
    let e = compile_source("out : + 1;").unwrap_err();
    assert_eq!(e.kind, CompileErrorKind::CompileError(StageError::InvalidNumberOfOperatorArgs));
    assert_eq!(e.pos, Some((0, 8)));
}

#[test]
fn stage_errors_carry_their_stage() {
    let e = compile_source("out : @;").unwrap_err();
    assert_eq!(e.kind, CompileErrorKind::TokenizerError(TokenErrorKind::UnexpectedToken('@')));
    assert_eq!(e.pos, Some((0, 6)));
    let e = compile_source("out : 1").unwrap_err();
    assert_eq!(e.kind, CompileErrorKind::ParseError(ParseErrorKind::UnexpectedEndOfFile));
    let e = compile_source("out : 1 2;").unwrap_err();
    assert_eq!(e.kind, CompileErrorKind::ParseError(ParseErrorKind::ExpectedCommandTerminator));
    assert_eq!(e.pos, Some((0, 8)));
}

#[test]
fn output_slots_are_the_bound_slots() {
    let (_, left, right) = compile_source("left : 1; right : 2;").unwrap();
    assert_eq!((left, right), (Id(0), Id(1)));
    let (_, left, right) = compile_source("out : osc(440);").unwrap();
    assert_eq!((left, right), (Id(2), Id(2)));
}

#[test]
fn a_later_name_is_not_visible_outside_delays() {
    let e = compile_source("a : $b; b : 1; out : $a;").unwrap_err();
    assert_eq!(e.kind, CompileErrorKind::CompileError(StageError::InvalidVariableName));
    assert_eq!(e.pos, Some((0, 5)));
}

#[test]
fn the_first_failing_statement_decides_the_error() {
    let e = compile_source("a : foo(1); b : $nope; out : 1;").unwrap_err();
    assert_eq!(e.kind, CompileErrorKind::CompileError(StageError::UnknownFunctionName("foo".to_string())));
    assert_eq!(e.pos, Some((0, 8)));
    let e = compile_source("a : +(1, $nope); out : 1;").unwrap_err();
    assert_eq!(e.kind, CompileErrorKind::CompileError(StageError::InvalidVariableName));
    assert_eq!(e.pos, Some((0, 10)));
}
