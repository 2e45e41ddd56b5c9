use vstd::prelude::*;
use crate::number::Number;
use crate::operator::operator_symbol;
use crate::lang::tokenize::{
    Token, TokenKind, Word, Lexeme, BlockKind, flat_token, flat_tokens, open_char, close_char,
    lemma_flat_tokens_push, string_from_chars, is_digit, digits_value, fraction_len, has_dot, has_digit,
    numeral_end, numeral_value, two_points, lex, skip, is_space, starts_identifier, in_identifier, identifier_end,
    word_at, at, prepend, lemma_skip_bounds, lemma_identifier_end, lemma_run_ends, lemma_word_at,
};
use crate::number::normalize;

verus! {

// ---------------------------------------------------------------- canonical text

pub open spec fn digit_char(d: nat) -> char {
    (('0' as nat) + d) as char
}

/// The decimal digits of `m`, without leading zeros.
pub open spec fn digits_of(m: nat) -> Seq<char>
    decreases m,
{
    if m < 10 {
        seq![digit_char(m)]
    } else {
        digits_of(m / 10).push(digit_char(m % 10))
    }
}

pub open spec fn zeros(k: nat) -> Seq<char> {
    Seq::new(k, |i: int| '0')
}

/// The digits of `m`, with zeros before them so that at least `s + 1`
/// digits stand.
pub open spec fn padded_digits(m: nat, s: nat) -> Seq<char> {
    let d = digits_of(m);
    if s >= d.len() {
        zeros((s - d.len() + 1) as nat) + d
    } else {
        d
    }
}

/// A number written in decimal, its last `scale` digits after the point.
pub open spec fn number_text(n: Number) -> Seq<char> {
    if n.scale == 0 {
        digits_of(n.mantissa as nat)
    } else {
        let p = padded_digits(n.mantissa as nat, n.scale as nat);
        let cut = p.len() - n.scale;
        p.take(cut) + seq!['.'] + p.skip(cut)
    }
}

pub open spec fn word_text(w: Word) -> Seq<char> {
    match w {
        Word::Operator(op) => seq![operator_symbol(op)],
        Word::Assignment => seq![':'],
        Word::Separator(c) => seq![c],
        Word::Identifier(s) => s,
        Word::Float(n) => number_text(n),
        Word::Variable => seq!['$'],
        Word::CommandTerminator => seq![';'],
    }
}

pub open spec fn lexeme_text(l: Lexeme) -> Seq<char> {
    match l {
        Lexeme::Item(w, _) => word_text(w),
        Lexeme::Open(k, _) => seq![open_char(k)],
        Lexeme::Close(k) => seq![close_char(k)],
    }
}

/// Whether a space stands between neighbouring lexemes `a` and `b`: one
/// does, but not after an opening character nor before a closing one.
pub open spec fn spaced(a: Lexeme, b: Lexeme) -> bool {
    !(a is Open) && !(b is Close)
}

pub open spec fn gap(a: Lexeme, b: Lexeme) -> Seq<char> {
    if spaced(a, b) {
        seq![' ']
    } else {
        Seq::empty()
    }
}

/// The canonical text of a lexeme sequence: the lexemes' texts, with one
/// space between neighbours that `spaced` allows.
pub open spec fn text_of(ls: Seq<Lexeme>) -> Seq<char>
    decreases ls.len(),
{
    if ls.len() == 0 {
        Seq::empty()
    } else if ls.len() == 1 {
        lexeme_text(ls[0])
    } else {
        lexeme_text(ls[0]) + gap(ls[0], ls[1]) + text_of(ls.drop_first())
    }
}

pub proof fn lemma_text_of_concat(a: Seq<Lexeme>, b: Seq<Lexeme>)
    requires
        a.len() > 0,
        b.len() > 0,
    ensures
        text_of(a + b) == text_of(a) + gap(a.last(), b[0]) + text_of(b),
    decreases a.len(),
{
    let ab = a + b;
    if a.len() == 1 {
        assert(ab.drop_first() =~= b);
        assert(ab[1] == b[0]);
        assert(text_of(ab) =~= text_of(a) + gap(a.last(), b[0]) + text_of(b));
    } else {
        assert(ab.drop_first() =~= a.drop_first() + b);
        assert(ab[1] == a[1]);
        lemma_text_of_concat(a.drop_first(), b);
        assert(a.drop_first().last() == a.last());
        assert(text_of(ab) =~= text_of(a) + gap(a.last(), b[0]) + text_of(b));
    }
}

// ---------------------------------------------------------------- printing

fn digits_exec(m: u64) -> (r: Vec<char>)
    ensures
        r@ == digits_of(m as nat),
    decreases m,
{
    let d = ((m % 10) as u8 + 48u8) as char;
    proof {
        assert(d == digit_char((m % 10) as nat));
    }
    if m < 10 {
        vec![d]
    } else {
        let mut v = digits_exec(m / 10);
        v.push(d);
        v
    }
}

/// The canonical text of a number: its digits, with the point before the
/// last `scale` of them.
pub fn number_to_chars(n: Number) -> (r: Vec<char>)
    ensures
        r@ == number_text(n),
{
    let d = digits_exec(n.mantissa);
    if n.scale == 0 {
        return d;
    }
    let mut p: Vec<char> = Vec::new();
    if n.scale >= d.len() {
        let z = n.scale - d.len() + 1;
        while p.len() < z
            invariant
                p.len() <= z,
                p@ == zeros(p.len() as nat),
            decreases z - p.len(),
        {
            p.push('0');
            proof {
                assert(p@ =~= zeros(p.len() as nat));
            }
        }
    }
    let ghost z = p@;
    let mut k: usize = 0;
    while k < d.len()
        invariant
            k <= d.len(),
            p@ == z + d@.take(k as int),
        decreases d.len() - k,
    {
        p.push(d[k]);
        k = k + 1;
        proof {
            assert(p@ =~= z + d@.take(k as int));
        }
    }
    proof {
        assert(d@.take(d.len() as int) =~= d@);
        assert(p@ =~= padded_digits(n.mantissa as nat, n.scale as nat));
    }
    let cut = p.len() - n.scale;
    let mut out: Vec<char> = Vec::new();
    let mut j: usize = 0;
    while j < p.len()
        invariant
            j <= p.len(),
            cut <= p.len(),
            out@ == if j <= cut {
                p@.take(j as int)
            } else {
                p@.take(cut as int) + seq!['.'] + p@.subrange(cut as int, j as int)
            },
        decreases p.len() - j,
    {
        if j == cut {
            out.push('.');
        }
        out.push(p[j]);
        j = j + 1;
        proof {
            if j <= cut {
                assert(out@ =~= p@.take(j as int));
            } else {
                assert(out@ =~= p@.take(cut as int) + seq!['.'] + p@.subrange(cut as int, j as int));
            }
        }
    }
    proof {
        assert(p@.subrange(cut as int, p.len() as int) =~= p@.skip(cut as int));
        if cut == p.len() {
            assert(false);
        }
    }
    out
}

fn append(out: &mut Vec<char>, s: &Vec<char>)
    ensures
        final(out)@ == old(out)@ + s@,
{
    let mut k: usize = 0;
    while k < s.len()
        invariant
            k <= s.len(),
            out@ == old(out)@ + s@.take(k as int),
        decreases s.len() - k,
    {
        out.push(s[k]);
        k = k + 1;
        proof {
            assert(out@ =~= old(out)@ + s@.take(k as int));
        }
    }
    proof {
        assert(s@.take(s.len() as int) =~= s@);
    }
}

fn chars_of_string(s: &String) -> (r: Vec<char>)
    ensures
        r@ == s@,
{
    crate::lang::tokenize::chars_of(s.as_str())
}

/// The flat form of a token starts with no closing mark and ends with no
/// opening one.
proof fn lemma_flat_token_ends(t: Token)
    ensures
        flat_token(t).len() > 0,
        !(flat_token(t)[0] is Close),
        !(flat_token(t).last() is Open),
{
}

proof fn lemma_flat_tokens_ends(s: Seq<Token>)
    ensures
        s.len() > 0 ==> flat_tokens(s).len() > 0 && !(flat_tokens(s).last() is Open) && !(
        flat_tokens(s)[0] is Close),
    decreases s.len(),
{
    if s.len() > 0 {
        assert(s =~= s.drop_last().push(s.last()));
        lemma_flat_tokens_push(s.drop_last(), s.last());
        lemma_flat_token_ends(s.last());
        lemma_flat_tokens_ends(s.drop_last());
        if s.len() > 1 {
            assert((flat_tokens(s.drop_last()) + flat_token(s.last()))[0] == flat_tokens(
                s.drop_last(),
            )[0]);
        } else {
            assert(s.drop_last() =~= Seq::<Token>::empty());
            assert(flat_tokens(s.drop_last()) =~= Seq::<Lexeme>::empty());
        }
    }
}

proof fn lemma_block_text(k: BlockKind, pos: (usize, usize), inside: Seq<Lexeme>)
    ensures
        text_of(seq![Lexeme::Open(k, pos)] + inside + seq![Lexeme::Close(k)]) == seq![open_char(k)]
            + text_of(inside) + seq![close_char(k)],
{
    let open = seq![Lexeme::Open(k, pos)];
    let close = seq![Lexeme::Close(k)];
    assert(text_of(open) =~= seq![open_char(k)]);
    assert(text_of(close) =~= seq![close_char(k)]);
    if inside.len() > 0 {
        lemma_text_of_concat(open, inside);
        lemma_text_of_concat(open + inside, close);
        assert((open + inside).last() == inside.last());
        assert((open + inside)[0] == open[0]);
    } else {
        assert(open + inside =~= open);
        lemma_text_of_concat(open, close);
    }
    assert(text_of(open + inside + close) =~= seq![open_char(k)] + text_of(inside) + seq![close_char(k)]);
}

/// A token after others at its level is set off by one space.
proof fn lemma_level_step(done: Seq<Lexeme>, piece: Seq<Lexeme>, more: bool)
    requires
        piece.len() > 0,
        !(piece[0] is Close),
        more ==> done.len() > 0 && !(done.last() is Open),
        !more ==> done.len() == 0,
    ensures
        text_of(done + piece) == text_of(done) + (if more {
            seq![' ']
        } else {
            Seq::<char>::empty()
        }) + text_of(piece),
{
    if more {
        lemma_text_of_concat(done, piece);
    } else {
        assert(done + piece =~= piece);
        assert(text_of(done) =~= Seq::<char>::empty());
    }
    assert(text_of(done + piece) =~= text_of(done) + (if more {
        seq![' ']
    } else {
        Seq::<char>::empty()
    }) + text_of(piece));
}

#[verifier::rlimit(80)]
fn append_tokens(ts: &Vec<Token>, out: &mut Vec<char>)
    ensures
        final(out)@ == old(out)@ + text_of(flat_tokens(ts@)),
    decreases ts@,
{
    let mut k: usize = 0;
    proof {
        assert(ts@.take(0) =~= seq![]);
        assert(flat_tokens(seq![]) =~= seq![]);
        assert(old(out)@ + text_of(seq![]) =~= old(out)@);
    }
    while k < ts.len()
        invariant
            k <= ts.len(),
            out@ == old(out)@ + text_of(flat_tokens(ts@.take(k as int))),
        decreases ts.len() - k,
    {
        let t = &ts[k];
        let ghost done = flat_tokens(ts@.take(k as int));
        let ghost piece = flat_token(*t);
        proof {
            assert(ts@.take(k + 1) =~= ts@.take(k as int).push(*t));
            lemma_flat_tokens_push(ts@.take(k as int), *t);
            lemma_flat_token_ends(*t);
            lemma_flat_tokens_ends(ts@.take(k as int));
        }
        if k > 0 {
            out.push(' ');
        }
        let ghost before = out@;
        match &t.kind {
            TokenKind::Block(kind, inner) => {
                let (o, c) = match kind {
                    BlockKind::Parenthesis => ('(', ')'),
                    BlockKind::Bracket => ('[', ']'),
                };
                out.push(o);
                append_tokens(inner, out);
                out.push(c);
                proof {
                    lemma_block_text(*kind, t.pos, flat_tokens(inner@));
                    assert(o == open_char(*kind) && c == close_char(*kind));
                    assert(out@ =~= before + text_of(piece));
                }
            },
            _ => {
                let w = match &t.kind {
                    TokenKind::Operator(op) => vec![op.symbol()],
                    TokenKind::Assignment => vec![':'],
                    TokenKind::Separator(c) => vec![*c],
                    TokenKind::Identifier(s) => chars_of_string(s),
                    TokenKind::Float(n) => number_to_chars(*n),
                    TokenKind::Variable => vec!['$'],
                    _ => vec![';'],
                };
                append(out, &w);
                proof {
                    assert(lexeme_text(piece[0]) == w@);
                    assert(text_of(piece) =~= w@);
                    assert(out@ =~= before + text_of(piece));
                }
            },
        }
        k = k + 1;
        proof {
            lemma_level_step(done, piece, k > 1);
            assert(out@ =~= old(out)@ + text_of(flat_tokens(ts@.take(k as int))));
        }
    }
    proof {
        assert(ts@.take(ts.len() as int) =~= ts@);
    }
}

/// The canonical text of a token tree: the tokens of each level joined by
/// single spaces, a block written as its opening character, its tokens and
/// its closing character; numbers in lowest terms.
pub fn tokens_to_text(ts: &Vec<Token>) -> (r: String)
    ensures
        r@ == text_of(flat_tokens(ts@)),
{
    let mut out: Vec<char> = Vec::new();
    append_tokens(ts, &mut out);
    proof {
        assert(out@ =~= text_of(flat_tokens(ts@)));
    }
    string_from_chars(&out)
}

} // verus!

verus! {

// ---------------------------------------------------------------- numbers read back

proof fn lemma_digits_of(m: nat)
    ensures
        digits_of(m).len() >= 1,
        forall|k: int| 0 <= k < digits_of(m).len() ==> is_digit(#[trigger] digits_of(m)[k]),
        digits_value(digits_of(m)) == m,
    decreases m,
{
    if m < 10 {
        let t = digits_of(m);
        assert(t.drop_last() =~= Seq::<char>::empty());
        assert(digit_char(m) as nat == '0' as nat + m);
        assert(t.last() == digit_char(m));
        assert(digits_value(Seq::<char>::empty()) == 0);
    } else {
        lemma_digits_of(m / 10);
        let t = digits_of(m);
        assert(t.drop_last() =~= digits_of(m / 10));
        assert(digit_char(m % 10) as nat == '0' as nat + m % 10);
        assert(t.last() == digit_char(m % 10));
        vstd::arithmetic::div_mod::lemma_fundamental_div_mod(m as int, 10);
        assert(digits_value(t) == digits_value(digits_of(m / 10)) * 10 + m % 10);
        assert forall|k: int| 0 <= k < t.len() implies is_digit(#[trigger] t[k]) by {
            if k < t.len() - 1 {
                assert(t[k] == digits_of(m / 10)[k]);
            }
        }
    }
}

proof fn lemma_zeros_value(k: nat)
    ensures
        digits_value(zeros(k)) == 0,
    decreases k,
{
    if k > 0 {
        assert(zeros(k).drop_last() =~= zeros((k - 1) as nat));
        lemma_zeros_value((k - 1) as nat);
    }
}

proof fn lemma_value_after_zeros(k: nat, t: Seq<char>)
    ensures
        digits_value(zeros(k) + t) == digits_value(t),
    decreases t.len(),
{
    if t.len() == 0 {
        assert(zeros(k) + t =~= zeros(k));
        lemma_zeros_value(k);
    } else {
        assert((zeros(k) + t).drop_last() =~= zeros(k) + t.drop_last());
        lemma_value_after_zeros(k, t.drop_last());
    }
}

proof fn lemma_value_across_point(a: Seq<char>, b: Seq<char>)
    ensures
        digits_value(a + seq!['.'] + b) == digits_value(a + b),
    decreases b.len(),
{
    if b.len() == 0 {
        assert((a + seq!['.'] + b).drop_last() =~= a);
        assert(a + b =~= a);
    } else {
        assert((a + seq!['.'] + b).drop_last() =~= a + seq!['.'] + b.drop_last());
        assert((a + b).drop_last() =~= a + b.drop_last());
        lemma_value_across_point(a, b.drop_last());
    }
}

proof fn lemma_fraction_after_point(a: Seq<char>, b: Seq<char>)
    requires
        forall|k: int| 0 <= k < b.len() ==> #[trigger] b[k] != '.',
    ensures
        fraction_len(a + seq!['.'] + b) == b.len(),
    decreases b.len(),
{
    let t = a + seq!['.'] + b;
    if b.len() == 0 {
        assert(t.last() == '.');
    } else {
        assert(t.drop_last() =~= a + seq!['.'] + b.drop_last());
        assert(t.drop_last()[a.len() as int] == '.');
        assert(has_dot(t.drop_last()));
        assert(t.last() == b.last());
        lemma_fraction_after_point(a, b.drop_last());
    }
}

proof fn lemma_no_point_no_fraction(t: Seq<char>)
    requires
        forall|k: int| 0 <= k < t.len() ==> #[trigger] t[k] != '.',
    ensures
        fraction_len(t) == 0,
        !has_dot(t),
{
    if t.len() > 0 {
        assert(t.last() == t[t.len() - 1]);
        if has_dot(t.drop_last()) {
            let k = choose|k: int| 0 <= k < t.drop_last().len() && t.drop_last()[k] == '.';
            assert(t[k] == '.');
        }
    }
}

/// A run of digits does not stop a numeral.
proof fn lemma_digit_run(cs: Seq<char>, i: int, n: int)
    requires
        0 <= i,
        0 <= n,
        i + n <= cs.len(),
        forall|k: int| i <= k < i + n ==> is_digit(#[trigger] cs[k]),
    ensures
        numeral_end(cs, i) == numeral_end(cs, i + n),
    decreases n,
{
    if n > 0 {
        lemma_digit_run(cs, i + 1, n - 1);
    }
}

proof fn lemma_padded_digits(m: nat, s: nat)
    ensures
        forall|k: int| 0 <= k < padded_digits(m, s).len() ==> is_digit(#[trigger] padded_digits(m, s)[k]),
        padded_digits(m, s).len() >= s + 1,
{
    let d = digits_of(m);
    let p = padded_digits(m, s);
    lemma_digits_of(m);
    assert forall|k: int| 0 <= k < p.len() implies is_digit(#[trigger] p[k]) by {
        if s >= d.len() {
            let z = zeros((s - d.len() + 1) as nat);
            if k >= z.len() {
                assert(p[k] == d[k - z.len()]);
            }
        }
    }
}

/// The canonical text of a number is a numeral of that number.
proof fn lemma_number_text(n: Number)
    requires
        n.wf(),
        !n.negative,
    ensures
        ({
            let t = number_text(n);
            &&& t.len() >= 1
            &&& is_digit(t[0])
            &&& forall|k: int| 0 <= k < t.len() ==> is_digit(#[trigger] t[k]) || t[k] == '.'
            &&& forall|k1: int, k2: int|
                0 <= k1 < t.len() && 0 <= k2 < t.len() && #[trigger] t[k1] == '.' && #[trigger] t[k2]
                    == '.' ==> k1 == k2
            &&& numeral_value(t) == Some(n)
        }),
{
    let m = n.mantissa as nat;
    let s = n.scale as nat;
    let d = digits_of(m);
    lemma_digits_of(m);
    let t = number_text(n);
    assert(normalize(m, s) == (m, s));
    assert(!two_points(t)) by {
        if two_points(t) {
            let (a, b) = choose|a: int, b: int| 0 <= a < b < t.len() && t[a] == '.' && t[b] == '.';
            if s == 0 {
                assert(is_digit(d[a]));
            } else {
                let p = padded_digits(m, s);
                let cut = p.len() - s;
                assert(t == p.take(cut) + seq!['.'] + p.skip(cut));
                if a != cut {
                    assert(false) by {
                        if a < cut {
                            assert(t[a] == p[a]);
                        } else {
                            assert(t[a] == p[a - 1]);
                        }
                        lemma_padded_digits(m, s);
                    }
                } else {
                    assert(t[b] == p[b - 1]);
                    lemma_padded_digits(m, s);
                }
            }
        }
    }
    if s == 0 {
        lemma_no_point_no_fraction(t);
        assert(has_digit(t)) by {
            assert(is_digit(t[0]));
        }
    } else {
        let p = padded_digits(m, s);
        assert(digits_value(p) == m) by {
            if s >= d.len() {
                lemma_value_after_zeros((s - d.len() + 1) as nat, d);
            }
        }
        assert forall|k: int| 0 <= k < p.len() implies is_digit(#[trigger] p[k]) by {
            if s >= d.len() {
                let z = zeros((s - d.len() + 1) as nat);
                if k >= z.len() {
                    assert(p[k] == d[k - z.len()]);
                }
            }
        }
        let cut = p.len() - s;
        let a = p.take(cut);
        let b = p.skip(cut);
        assert(a + b =~= p);
        assert(t == a + seq!['.'] + b);
        lemma_value_across_point(a, b);
        assert forall|k: int| 0 <= k < b.len() implies #[trigger] b[k] != '.' by {
            assert(b[k] == p[cut + k]);
        }
        lemma_fraction_after_point(a, b);
        assert(t[0] == p[0]);
        assert(has_digit(t)) by {
            assert(is_digit(t[0]));
        }
        assert forall|k: int| 0 <= k < t.len() implies is_digit(#[trigger] t[k]) || t[k] == '.' by {
            if k < cut {
                assert(t[k] == p[k]);
            } else if k > cut {
                assert(t[k] == p[k - 1]);
            }
        }
        assert forall|k: int| 0 <= k < t.len() && #[trigger] t[k] == '.' implies k == cut by {
            if k < cut {
                assert(t[k] == p[k]);
            } else if k > cut {
                assert(t[k] == p[k - 1]);
            }
        }
    }
}

} // verus!

verus! {

// ---------------------------------------------------------------- reading the text back

/// A lexeme without its position.
pub enum Shape {
    Word(Word),
    Open(BlockKind),
    Close(BlockKind),
}

pub open spec fn shape(l: Lexeme) -> Shape {
    match l {
        Lexeme::Item(w, _) => Shape::Word(w),
        Lexeme::Open(k, _) => Shape::Open(k),
        Lexeme::Close(k) => Shape::Close(k),
    }
}

pub open spec fn shapes(ls: Seq<Lexeme>) -> Seq<Shape> {
    ls.map_values(|l: Lexeme| shape(l))
}

/// A word as scanning text can give it.
pub open spec fn word_ok(w: Word) -> bool {
    match w {
        Word::Identifier(s) => {
            &&& s.len() > 0
            &&& starts_identifier(s[0])
            &&& !is_space(s[0])
            &&& s[0] != '#'
            &&& forall|k: int| 0 <= k < s.len() ==> in_identifier(#[trigger] s[k])
        },
        Word::Float(n) => n.wf() && !n.negative,
        Word::Separator(c) => c == ',',
        _ => true,
    }
}

/// Every word is one that scanning gives, and the blocks close in order,
/// from the open blocks `stack`.
pub open spec fn well_nested(ls: Seq<Lexeme>, stack: Seq<BlockKind>) -> bool
    decreases ls.len(),
{
    if ls.len() == 0 {
        stack.len() == 0
    } else {
        match ls[0] {
            Lexeme::Item(w, _) => word_ok(w) && well_nested(ls.drop_first(), stack),
            Lexeme::Open(k, _) => well_nested(ls.drop_first(), stack.push(k)),
            Lexeme::Close(k) => stack.len() > 0 && stack.last() == k && well_nested(
                ls.drop_first(),
                stack.drop_last(),
            ),
        }
    }
}

proof fn lemma_normalize_wf(m: nat, s: nat)
    ensures
        normalize(m, s).1 == 0 || normalize(m, s).0 % 10 != 0,
        normalize(m, s).0 <= m,
    decreases s,
{
    if s > 0 && m % 10 == 0 {
        lemma_normalize_wf(m / 10, (s - 1) as nat);
    }
}

proof fn lemma_prepend_one(x: Lexeme, r: Result<Seq<Lexeme>, crate::lang::tokenize::TokenError>)
    requires
        prepend(seq![x], r) is Ok,
    ensures
        r is Ok,
        (seq![x] + r->Ok_0).drop_first() == r->Ok_0,
        (seq![x] + r->Ok_0)[0] == x,
{
    assert((seq![x] + r->Ok_0).drop_first() =~= r->Ok_0);
}

/// Scanning gives only well-nested lexeme sequences.
pub proof fn lemma_lex_well_nested(cs: Seq<char>, i: int, stack: Seq<BlockKind>)
    requires
        lex(cs, i, stack) is Ok,
    ensures
        well_nested(lex(cs, i, stack)->Ok_0, stack),
    decreases cs.len() - i,
{
    let j = skip(cs, i, false);
    lemma_skip_bounds(cs, i, false);
    lemma_word_at(cs, j);
    if !(0 <= j < cs.len()) {
        assert(lex(cs, i, stack)->Ok_0 =~= Seq::<Lexeme>::empty());
    } else {
        let c = cs[j];
        let ls = lex(cs, i, stack)->Ok_0;
        if stack.len() > 0 && c == close_char(stack.last()) {
            let x = Lexeme::Close(stack.last());
            lemma_prepend_one(x, lex(cs, j + 1, stack.drop_last()));
            lemma_lex_well_nested(cs, j + 1, stack.drop_last());
        } else if c == '(' || c == '[' {
            let k = if c == '(' {
                BlockKind::Parenthesis
            } else {
                BlockKind::Bracket
            };
            let x = Lexeme::Open(k, at(cs, j));
            lemma_prepend_one(x, lex(cs, j + 1, stack.push(k)));
            lemma_lex_well_nested(cs, j + 1, stack.push(k));
        } else {
            let (w, e) = word_at(cs, j)->Ok_0;
            let x = Lexeme::Item(w, at(cs, j));
            lemma_prepend_one(x, lex(cs, e, stack));
            lemma_lex_well_nested(cs, e, stack);
            if is_digit(c) || c == '.' {
                let t = cs.subrange(j, numeral_end(cs, j));
                lemma_normalize_wf(digits_value(t), fraction_len(t));
            } else if starts_identifier(c) {
                lemma_identifier_end(cs, j);
                lemma_run_ends(cs, j);
                let s = cs.subrange(j, e);
                assert forall|k: int| 0 <= k < s.len() implies in_identifier(#[trigger] s[k]) by {
                    assert(s[k] == cs[j + k]);
                }
            }
        }
    }
}

} // verus!

verus! {

proof fn lemma_lex_space(cs: Seq<char>, e: int, stack: Seq<BlockKind>)
    requires
        0 <= e < cs.len(),
        cs[e] == ' ',
    ensures
        lex(cs, e, stack) == lex(cs, e + 1, stack),
{
    assert(skip(cs, e, false) == skip(cs, e + 1, false));
}

/// A word can end at `e`: the text ends there, or a space or a closing
/// character stands there.
pub open spec fn word_can_end(cs: Seq<char>, e: int) -> bool {
    e == cs.len() || (0 <= e < cs.len() && (cs[e] == ' ' || cs[e] == ')' || cs[e] == ']'))
}

proof fn lemma_identifier_run(cs: Seq<char>, i: int, n: int)
    requires
        0 <= i,
        0 <= n,
        i + n <= cs.len(),
        forall|k: int| i <= k < i + n ==> in_identifier(#[trigger] cs[k]),
        i + n == cs.len() || !in_identifier(cs[i + n]),
    ensures
        identifier_end(cs, i) == i + n,
    decreases n,
{
    if n > 0 {
        lemma_identifier_run(cs, i + 1, n - 1);
    }
}

proof fn lemma_numeral_over(cs: Seq<char>, i: int, t: Seq<char>)
    requires
        0 <= i,
        i + t.len() <= cs.len(),
        cs.subrange(i, i + t.len()) == t,
        forall|k: int| 0 <= k < t.len() ==> is_digit(#[trigger] t[k]) || t[k] == '.',
        i + t.len() == cs.len() || (!is_digit(cs[i + t.len()]) && cs[i + t.len()] != '.'),
    ensures
        numeral_end(cs, i) == i + t.len(),
    decreases t.len(),
{
    if t.len() > 0 {
        let u = t.drop_first();
        assert(cs[i] == t[0]);
        assert(cs.subrange(i + 1, i + 1 + u.len()) =~= u);
        assert forall|k: int| 0 <= k < u.len() implies is_digit(#[trigger] u[k]) || u[k] == '.' by {
            assert(u[k] == t[k + 1]);
        }
        lemma_numeral_over(cs, i + 1, u);
    }
}

/// The next open blocks after lexeme `l`.
pub open spec fn after(l: Lexeme, stack: Seq<BlockKind>) -> Seq<BlockKind> {
    match l {
        Lexeme::Open(k, _) => stack.push(k),
        Lexeme::Close(_) => stack.drop_last(),
        _ => stack,
    }
}

/// `l` read back at index `i`.
pub open spec fn relexed(cs: Seq<char>, i: int, l: Lexeme) -> Lexeme {
    match l {
        Lexeme::Item(w, _) => Lexeme::Item(w, at(cs, i)),
        Lexeme::Open(k, _) => Lexeme::Open(k, at(cs, i)),
        Lexeme::Close(k) => Lexeme::Close(k),
    }
}

pub open spec fn fits(l: Lexeme, stack: Seq<BlockKind>) -> bool {
    match l {
        Lexeme::Item(w, _) => word_ok(w),
        Lexeme::Open(_, _) => true,
        Lexeme::Close(k) => stack.len() > 0 && stack.last() == k,
    }
}

proof fn lemma_word_back(cs: Seq<char>, i: int, w: Word)
    requires
        0 <= i,
        word_ok(w),
        i + word_text(w).len() <= cs.len(),
        cs.subrange(i, i + word_text(w).len()) == word_text(w),
        word_can_end(cs, i + word_text(w).len()),
    ensures
        word_text(w).len() >= 1,
        word_at(cs, i) == Ok::<(Word, int), crate::lang::tokenize::TokenError>((w, i + word_text(w).len())),
{
    let t = word_text(w);
    let n = t.len() as int;
    if w is Float {
        lemma_number_text(w->Float_0);
        lemma_numeral_over(cs, i, t);
    }
    if w is Identifier {
        assert forall|k: int| i <= k < i + n implies in_identifier(#[trigger] cs[k]) by {
            assert(cs[k] == t[k - i]);
        }
        lemma_identifier_run(cs, i, n);
    }
    assert(cs[i] == t[0]);
}

proof fn lemma_relex_step(cs: Seq<char>, i: int, l: Lexeme, stack: Seq<BlockKind>)
    requires
        0 <= i,
        fits(l, stack),
        i + lexeme_text(l).len() <= cs.len(),
        cs.subrange(i, i + lexeme_text(l).len()) == lexeme_text(l),
        l is Item ==> word_can_end(cs, i + lexeme_text(l).len()),
    ensures
        lexeme_text(l).len() >= 1,
        lex(cs, i, stack) == prepend(
            seq![relexed(cs, i, l)],
            lex(cs, i + lexeme_text(l).len(), after(l, stack)),
        ),
{
    let t = lexeme_text(l);
    match l {
        Lexeme::Item(w, _) => {
            lemma_word_back(cs, i, w);
        },
        _ => {},
    }
    assert(cs[i] == cs.subrange(i, i + t.len())[0]);
    assert(skip(cs, i, false) == i);
}

proof fn lemma_shapes_cons(x: Lexeme, s: Seq<Lexeme>)
    ensures
        shapes(seq![x] + s) == seq![shape(x)] + shapes(s),
{
    assert(shapes(seq![x] + s) =~= seq![shape(x)] + shapes(s));
}

/// Scanning the canonical text of a well-nested lexeme sequence gives the
/// same lexemes, positions aside.
pub proof fn lemma_relex(cs: Seq<char>, i: int, ls: Seq<Lexeme>, stack: Seq<BlockKind>)
    requires
        0 <= i <= cs.len(),
        well_nested(ls, stack),
        cs.subrange(i, cs.len() as int) == text_of(ls),
    ensures
        lex(cs, i, stack) is Ok,
        shapes(lex(cs, i, stack)->Ok_0) == shapes(ls),
    decreases ls.len(),
{
    if ls.len() == 0 {
        assert(cs.subrange(i, cs.len() as int).len() == 0);
        assert(shapes(lex(cs, i, stack)->Ok_0) =~= shapes(ls));
    } else {
        let l = ls[0];
        let rest = ls.drop_first();
        assert(ls =~= seq![l] + rest);
        let t = lexeme_text(l);
        let n = t.len() as int;
        let whole = cs.subrange(i, cs.len() as int);
        let after_text = if rest.len() == 0 {
            0
        } else if spaced(l, rest[0]) {
            1int
        } else {
            0
        };
        if rest.len() == 0 {
            assert(whole =~= t);
        } else {
            assert(rest[0] == ls[1]);
            assert(whole =~= t + gap(l, rest[0]) + text_of(rest));
        }
        assert(cs.subrange(i, i + n) =~= t) by {
            assert(cs.subrange(i, i + n) =~= whole.subrange(0, n));
        }
        assert(cs.subrange(i + n + after_text, cs.len() as int) =~= text_of(rest)) by {
            assert(cs.subrange(i + n + after_text, cs.len() as int) =~= whole.subrange(
                n + after_text,
                whole.len() as int,
            ));
        }
        if after_text == 1 {
            assert(cs[i + n] == whole[n]);
        }
        if l is Item {
            if rest.len() > 0 && !spaced(l, rest[0]) {
                assert(rest[0] is Close);
                assert(text_of(rest)[0] == lexeme_text(rest[0])[0]);
                assert(cs[i + n] == whole[n]);
            }
        }
        lemma_relex_step(cs, i, l, stack);
        lemma_relex(cs, i + n + after_text, rest, after(l, stack));
        if after_text == 1 {
            lemma_lex_space(cs, i + n, after(l, stack));
        }
        let tail = lex(cs, i + n, after(l, stack))->Ok_0;
        lemma_shapes_cons(relexed(cs, i, l), tail);
        lemma_shapes_cons(l, rest);
    }
}

} // verus!

verus! {

/// Tokenizing text, writing the token tree out in canonical text and
/// tokenizing that again gives the same tokens, positions aside.
pub proof fn lemma_retokenize(code: Seq<char>, ts: Seq<Token>)
    requires
        lex(code, 0, seq![]) == Ok::<Seq<Lexeme>, crate::lang::tokenize::TokenError>(flat_tokens(ts)),
    ensures
        lex(text_of(flat_tokens(ts)), 0, seq![]) is Ok,
        shapes(lex(text_of(flat_tokens(ts)), 0, seq![])->Ok_0) == shapes(flat_tokens(ts)),
{
    lemma_lex_well_nested(code, 0, seq![]);
    let cs = text_of(flat_tokens(ts));
    assert(cs.subrange(0, cs.len() as int) =~= cs);
    lemma_relex(cs, 0, flat_tokens(ts), seq![]);
}

} // verus!
