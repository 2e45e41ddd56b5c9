use synth_dsl::lang::parser::{parse_tokens, CommandNode, ExpressionNode, ParseErrorKind};
use synth_dsl::lang::tokenize::tokenize;
use synth_dsl::number::Number;
use synth_dsl::operator::Operator;

fn parse(text: &str) -> Result<Vec<synth_dsl::lang::parser::Node<CommandNode>>, synth_dsl::lang::parser::ParseError> {
    parse_tokens(&tokenize(text).unwrap())
}

fn num(m: u64, s: usize) -> Number {
    Number { negative: false, mantissa: m, scale: s }
}

#[test]
fn parses_a_call_with_constant_arguments() {
    let cmds = parse("out : osc[off: 0.5](440);").unwrap();
    assert_eq!(cmds.len(), 1);
    assert_eq!(cmds[0].pos, Some((0, 0)));
    let CommandNode::Assignment(name, expr) = &cmds[0].kind;
    assert_eq!(name, "out");
    assert_eq!(expr.pos, Some((0, 9)));
    match &expr.kind {
        ExpressionNode::FunctionCall(f, consts, args) => {
            assert_eq!(f, "osc");
            assert_eq!(consts.len(), 1);
            assert_eq!(consts[0].name, "off");
            assert_eq!(consts[0].value.kind, num(5, 1));
            assert_eq!(consts[0].value.pos, Some((0, 15)));
            assert_eq!(args.len(), 1);
            assert!(matches!(args[0].kind, ExpressionNode::Float(n) if n == num(440, 0)));
        }
        _ => panic!("expected a call"),
    }
}

#[test]
fn call_without_brackets_has_no_position() {
    let cmds = parse("a : osc 1;").unwrap();
    let CommandNode::Assignment(_, expr) = &cmds[0].kind;
    assert_eq!(expr.pos, None);
    match &expr.kind {
        ExpressionNode::FunctionCall(_, consts, args) => {
            assert!(consts.is_empty());
            assert_eq!(args.len(), 1);
        }
        _ => panic!("expected a call"),
    }
}

#[test]
fn operator_takes_a_list_or_one_expression() {
    let cmds = parse("a : +($b, 2); c : - $a;").unwrap();
    let CommandNode::Assignment(_, e) = &cmds[0].kind;
    match &e.kind {
        ExpressionNode::Operator(Operator::Add, args) => {
            assert_eq!(args.len(), 2);
            assert!(matches!(&args[0].kind, ExpressionNode::Variable(v) if v == "b"));
            assert_eq!(args[0].pos, Some((0, 7)));
        }
        _ => panic!("expected an addition"),
    }
    let CommandNode::Assignment(_, e) = &cmds[1].kind;
    match &e.kind {
        ExpressionNode::Operator(Operator::Sub, args) => assert_eq!(args.len(), 1),
        _ => panic!("expected a subtraction"),
    }
}

#[test]
fn empty_argument_list() {
    let cmds = parse("a : f();").unwrap();
    let CommandNode::Assignment(_, e) = &cmds[0].kind;
    assert!(matches!(&e.kind, ExpressionNode::FunctionCall(_, _, args) if args.is_empty()));
}

#[test]
fn repeated_constant_argument_keeps_the_last_value() {
    let cmds = parse("a : clamp[max: 1, max: 2]($b);").unwrap();
    let CommandNode::Assignment(_, e) = &cmds[0].kind;
    match &e.kind {
        ExpressionNode::FunctionCall(_, consts, _) => {
            assert_eq!(consts.len(), 1);
            assert_eq!(consts[0].value.kind, num(2, 0));
        }
        _ => panic!("expected a call"),
    }
}

#[test]
fn missing_terminator() {
    let e = parse("a : 1 b : 2;").unwrap_err();
    assert_eq!(e.kind, ParseErrorKind::ExpectedCommandTerminator);
    assert_eq!(e.pos, Some((0, 6)));
    let e = parse("a : 1").unwrap_err();
    assert_eq!(e.kind, ParseErrorKind::UnexpectedEndOfFile);
    assert_eq!(e.pos, None);
}

#[test]
fn statement_must_start_with_a_name_and_colon() {
    let e = parse("5 : 1;").unwrap_err();
    assert_eq!(e.kind, ParseErrorKind::UnexpectedToken);
    assert_eq!(e.pos, Some((0, 0)));
    let e = parse("a 1;").unwrap_err();
    assert_eq!(e.kind, ParseErrorKind::UnexpectedToken);
    assert_eq!(e.pos, Some((0, 2)));
}

#[test]
fn running_out_of_tokens() {
    let e = parse("a :").unwrap_err();
    assert_eq!(e.kind, ParseErrorKind::UnexpectedEndOfFile);
    assert_eq!(e.pos, None);
    let e = parse("a : +(1,);").unwrap_err();
    assert_eq!(e.kind, ParseErrorKind::UnexpectedEndOfFile);
}

#[test]
fn variable_needs_a_name() {
    let e = parse("a : $ 1;").unwrap_err();
    assert_eq!(e.kind, ParseErrorKind::ExpectedIdentifier);
    assert_eq!(e.pos, Some((0, 6)));
}

#[test]
fn list_items_need_separators() {
    let e = parse("a : +(1 2);").unwrap_err();
    assert_eq!(e.kind, ParseErrorKind::ExpectedSeparator);
    assert_eq!(e.pos, Some((0, 8)));
}

#[test]
fn constant_arguments_are_checked() {
    let e = parse("a : f[1: 2](3);").unwrap_err();
    assert_eq!(e.kind, ParseErrorKind::ExpectedIdentifier);
    let e = parse("a : f[k 2](3);").unwrap_err();
    assert_eq!(e.kind, ParseErrorKind::ExpectedAssignment);
    assert_eq!(e.pos, Some((0, 8)));
    let e = parse("a : f[k: $x](3);").unwrap_err();
    assert_eq!(e.kind, ParseErrorKind::ExpectedFloat);
    let e = parse("a : f[k: 1 j: 2](3);").unwrap_err();
    assert_eq!(e.kind, ParseErrorKind::ExpectedSeparator);
}

#[test]
fn a_block_cannot_start_an_expression() {
    let e = parse("a : (1);").unwrap_err();
    assert_eq!(e.kind, ParseErrorKind::UnexpectedToken);
    assert_eq!(e.pos, Some((0, 4)));
}
