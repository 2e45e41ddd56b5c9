use synth_dsl::lang::display::{number_to_chars, tokens_to_text};
use synth_dsl::lang::tokenize::{tokenize, BlockKind, Token, TokenErrorKind, TokenKind};
use synth_dsl::number::Number;
use synth_dsl::operator::Operator;

fn kinds(ts: &[Token]) -> Vec<String> {
    ts.iter()
        .map(|t| match &t.kind {
            TokenKind::Operator(op) => format!("op {:?}", op),
            TokenKind::Assignment => ":".to_string(),
            TokenKind::Separator(c) => format!("sep {}", c),
            TokenKind::Identifier(s) => format!("id {}", s),
            TokenKind::Float(n) => format!("num {:?}", n),
            TokenKind::Block(k, inner) => format!("block {:?} [{}]", k, kinds(inner).join(", ")),
            TokenKind::Variable => "$".to_string(),
            TokenKind::CommandTerminator => ";".to_string(),
        })
        .collect()
}

#[test]
fn tokenizes_a_statement() {
    let ts = tokenize("out : osc(440);").unwrap();
    assert_eq!(ts.len(), 5);
    assert_eq!(ts[0].pos, (0, 0));
    assert!(matches!(&ts[0].kind, TokenKind::Identifier(s) if s == "out"));
    assert!(matches!(ts[1].kind, TokenKind::Assignment));
    assert_eq!(ts[1].pos, (0, 4));
    assert!(matches!(&ts[2].kind, TokenKind::Identifier(s) if s == "osc"));
    assert_eq!(ts[2].pos, (0, 6));
    match &ts[3].kind {
        TokenKind::Block(BlockKind::Parenthesis, inner) => {
            assert_eq!(inner.len(), 1);
            assert_eq!(inner[0].pos, (0, 10));
            assert!(matches!(inner[0].kind, TokenKind::Float(n) if n == Number { negative: false, mantissa: 440, scale: 0 }));
        }
        _ => panic!("expected a block"),
    }
    assert_eq!(ts[3].pos, (0, 9));
    assert!(matches!(ts[4].kind, TokenKind::CommandTerminator));
    assert_eq!(ts[4].pos, (0, 14));
}

#[test]
fn positions_count_lines_and_skip_comments() {
    let ts = tokenize("# a comment\n  a:1;\n\tb : $a ;").unwrap();
    assert_eq!(ts[0].pos, (1, 2));
    assert_eq!(ts[3].pos, (1, 5));
    assert_eq!(ts[4].pos, (2, 1));
    assert_eq!(ts[6].pos, (2, 5));
    assert!(matches!(ts[6].kind, TokenKind::Variable));
    assert_eq!(ts[7].pos, (2, 6));
    assert_eq!(ts.len(), 9);
}

#[test]
fn reads_operators_and_separators() {
    let ts = tokenize("+ - * / % ,").unwrap();
    let ops: Vec<Operator> = ts
        .iter()
        .filter_map(|t| match t.kind {
            TokenKind::Operator(op) => Some(op),
            _ => None,
        })
        .collect();
    assert_eq!(ops, vec![Operator::Add, Operator::Sub, Operator::Mult, Operator::Div, Operator::Mod]);
    assert!(matches!(ts[5].kind, TokenKind::Separator(',')));
}

#[test]
fn numbers_are_kept_in_lowest_terms() {
    let ts = tokenize("5 5.0 0.50 .25 7. 007").unwrap();
    let nums: Vec<Number> = ts
        .iter()
        .map(|t| match t.kind {
            TokenKind::Float(n) => n,
            _ => panic!("expected a number"),
        })
        .collect();
    assert_eq!(nums[0], Number { negative: false, mantissa: 5, scale: 0 });
    assert_eq!(nums[1], nums[0]);
    assert_eq!(nums[2], Number { negative: false, mantissa: 5, scale: 1 });
    assert_eq!(nums[3], Number { negative: false, mantissa: 25, scale: 2 });
    assert_eq!(nums[4], Number { negative: false, mantissa: 7, scale: 0 });
    assert_eq!(nums[5], Number { negative: false, mantissa: 7, scale: 0 });
}

#[test]
fn a_second_point_is_an_invalid_float() {
    let e = tokenize("1.2.3").unwrap_err();
    assert_eq!(e.kind, TokenErrorKind::InvalidFloat);
    assert_eq!(e.pos, (0, 0));
}

#[test]
fn nested_blocks_group_their_tokens() {
    let ts = tokenize("f[a:1]( +(1, 2), [x])").unwrap();
    assert_eq!(
        kinds(&ts),
        vec![
            "id f".to_string(),
            "block Bracket [id a, :, num Number { negative: false, mantissa: 1, scale: 0 }]".to_string(),
            "block Parenthesis [op Add, block Parenthesis [num Number { negative: false, mantissa: 1, scale: 0 }, sep ,, num Number { negative: false, mantissa: 2, scale: 0 }], sep ,, block Bracket [id x]]".to_string(),
        ]
    );
}

#[test]
fn unterminated_block_is_an_error() {
    let e = tokenize("a : osc(1;\n").unwrap_err();
    assert_eq!(e.kind, TokenErrorKind::ExpectedToken(')'));
    assert_eq!(e.pos, (1, 0));
    let e = tokenize("[(]").unwrap_err();
    assert_eq!(e.kind, TokenErrorKind::UnexpectedToken(']'));
    assert_eq!(e.pos, (0, 2));
}

#[test]
fn stray_closing_character_is_an_error() {
    let e = tokenize("a ) b").unwrap_err();
    assert_eq!(e.kind, TokenErrorKind::UnexpectedToken(')'));
    assert_eq!(e.pos, (0, 2));
}

#[test]
fn unexpected_character_is_an_error() {
    let e = tokenize("a : 1;\n  @").unwrap_err();
    assert_eq!(e.kind, TokenErrorKind::UnexpectedToken('@'));
    assert_eq!(e.pos, (1, 2));
}

#[test]
fn lone_point_is_an_invalid_float() {
    let e = tokenize("x : .;").unwrap_err();
    assert_eq!(e.kind, TokenErrorKind::InvalidFloat);
    assert_eq!(e.pos, (0, 4));
}

#[test]
fn mantissa_past_sixty_four_bits_is_an_invalid_float() {
    assert!(tokenize("18446744073709551615").is_ok());
    let e = tokenize("18446744073709551616").unwrap_err();
    assert_eq!(e.kind, TokenErrorKind::InvalidFloat);
}

#[test]
fn identifiers_take_letters_digits_and_underscores() {
    let ts = tokenize("_a1b \u{e9}t\u{e9}").unwrap();
    assert!(matches!(&ts[0].kind, TokenKind::Identifier(s) if s == "_a1b"));
    assert!(matches!(&ts[1].kind, TokenKind::Identifier(s) if s == "\u{e9}t\u{e9}"));
    assert_eq!(ts[1].pos, (0, 5));
}

#[test]
fn empty_text_has_no_tokens() {
    assert_eq!(tokenize("").unwrap().len(), 0);
    assert_eq!(tokenize("  # only a comment").unwrap().len(), 0);
}

#[test]
fn canonical_text_tokenizes_the_same() {
    let source = "# synth\nout : +(osc[off: 0.250](440), delay[max: 2](0.5, *($out, 0.5)));\nx:007.5;y : - 1 $x;";
    let ts = tokenize(source).unwrap();
    let text = tokens_to_text(&ts);
    assert_eq!(
        text,
        "out : + (osc [off : 0.25] (440) , delay [max : 2] (0.5 , * ($ out , 0.5))) ; x : 7.5 ; y : - 1 $ x ;"
    );
    let again = tokenize(&text).unwrap();
    assert_eq!(kinds(&again), kinds(&ts));
}

#[test]
fn canonical_numbers_pad_with_zeros() {
    let n = |m: u64, s: usize| Number { negative: false, mantissa: m, scale: s };
    let text = |n: Number| number_to_chars(n).into_iter().collect::<String>();
    assert_eq!(text(n(5, 3)), "0.005");
    assert_eq!(text(n(1234, 2)), "12.34");
    assert_eq!(text(n(0, 0)), "0");
    assert_eq!(text(n(120, 0)), "120");
    let ts = tokenize("0.005 .5").unwrap();
    assert_eq!(tokens_to_text(&ts), "0.005 0.5");
    let ts = tokenize("f(1, $a)[]").unwrap();
    assert_eq!(tokens_to_text(&ts), "f (1 , $ a) []");
}
