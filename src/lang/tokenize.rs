use vstd::prelude::*;
use crate::number::Number;
use crate::operator::{Operator, operator_of};

verus! {

#[derive(PartialEq, Eq, Structural, Debug, Clone, Copy)]
pub enum TokenErrorKind {
    ExpectedToken(char),
    UnexpectedEndOfFile,
    UnexpectedToken(char),
    EmptyIdentifier,
    InvalidFloat,
    InvalidOperator,
}

/// A tokenizing failure, at the (line, column) of the offending character.
#[derive(PartialEq, Eq, Debug, Clone, Copy)]
pub struct TokenError {
    pub kind: TokenErrorKind,
    pub pos: (usize, usize),
}

#[derive(PartialEq, Eq, Structural, Debug, Clone, Copy)]
pub enum BlockKind {
    Parenthesis,
    Bracket,
}

#[derive(Debug)]
pub enum TokenKind {
    Operator(Operator),
    Assignment,
    Separator(char),
    Identifier(String),
    Float(Number),
    Block(BlockKind, Vec<Token>),
    Variable,
    CommandTerminator,
}

/// A token with the (line, column) of its first character, both from zero.
#[derive(Debug)]
pub struct Token {
    pub pos: (usize, usize),
    pub kind: TokenKind,
}

/// A token that is not a block, with its text as a sequence of characters.
pub enum Word {
    Operator(Operator),
    Assignment,
    Separator(char),
    Identifier(Seq<char>),
    Float(Number),
    Variable,
    CommandTerminator,
}

/// One element of a token tree written out flat: blocks become an opening
/// and a closing mark around their contents.
pub enum Lexeme {
    Item(Word, (usize, usize)),
    Open(BlockKind, (usize, usize)),
    Close(BlockKind),
}

pub open spec fn open_char(k: BlockKind) -> char {
    match k {
        BlockKind::Parenthesis => '(',
        BlockKind::Bracket => '[',
    }
}

pub open spec fn close_char(k: BlockKind) -> char {
    match k {
        BlockKind::Parenthesis => ')',
        BlockKind::Bracket => ']',
    }
}

/// The flat form of a token.
pub open spec fn flat_token(t: Token) -> Seq<Lexeme>
    decreases t, 0int,
{
    match t.kind {
        TokenKind::Block(k, v) => seq![Lexeme::Open(k, t.pos)] + flat_prefix(v@, v@.len() as int)
            + seq![Lexeme::Close(k)],
        TokenKind::Operator(op) => seq![Lexeme::Item(Word::Operator(op), t.pos)],
        TokenKind::Assignment => seq![Lexeme::Item(Word::Assignment, t.pos)],
        TokenKind::Separator(c) => seq![Lexeme::Item(Word::Separator(c), t.pos)],
        TokenKind::Identifier(s) => seq![Lexeme::Item(Word::Identifier(s@), t.pos)],
        TokenKind::Float(n) => seq![Lexeme::Item(Word::Float(n), t.pos)],
        TokenKind::Variable => seq![Lexeme::Item(Word::Variable, t.pos)],
        TokenKind::CommandTerminator => seq![Lexeme::Item(Word::CommandTerminator, t.pos)],
    }
}

/// The flat form of the first `n` tokens of `s`.
pub open spec fn flat_prefix(s: Seq<Token>, n: int) -> Seq<Lexeme>
    decreases s, n,
{
    if n <= 0 || n > s.len() {
        Seq::empty()
    } else {
        flat_prefix(s, n - 1) + flat_token(s[n - 1])
    }
}

/// The flat form of a token list.
pub open spec fn flat_tokens(s: Seq<Token>) -> Seq<Lexeme> {
    flat_prefix(s, s.len() as int)
}

// ---------------------------------------------------------------- characters

pub open spec fn is_digit(c: char) -> bool {
    '0' <= c && c <= '9'
}

/// Unicode's White_Space characters.
pub open spec fn is_space(c: char) -> bool {
    ||| ('\u{9}' <= c && c <= '\u{d}')
    ||| c == ' '
    ||| c == '\u{85}'
    ||| c == '\u{a0}'
    ||| c == '\u{1680}'
    ||| ('\u{2000}' <= c && c <= '\u{200a}')
    ||| c == '\u{2028}'
    ||| c == '\u{2029}'
    ||| c == '\u{202f}'
    ||| c == '\u{205f}'
    ||| c == '\u{3000}'
}

/// Whether a character beyond ASCII has Unicode's Alphabetic property.
pub uninterp spec fn unicode_alphabetic(c: char) -> bool;

pub open spec fn ascii_letter(c: char) -> bool {
    ('a' <= c && c <= 'z') || ('A' <= c && c <= 'Z')
}

/// Whether `c` has Unicode's Alphabetic property: within ASCII, exactly the
/// letters.
pub open spec fn alphabetic(c: char) -> bool {
    if c <= '\u{7f}' {
        ascii_letter(c)
    } else {
        unicode_alphabetic(c)
    }
}

pub open spec fn starts_identifier(c: char) -> bool {
    alphabetic(c) || c == '_'
}

pub open spec fn in_identifier(c: char) -> bool {
    is_digit(c) || alphabetic(c) || c == '_'
}

/// Relies on `char::is_alphabetic`, which tests the Alphabetic property;
/// the ASCII characters that have it are the letters `a`-`z` and `A`-`Z`.
#[verifier::external_body]
fn char_is_alphabetic(c: char) -> (r: bool)
    ensures
        c <= '\u{7f}' ==> r == ascii_letter(c),
        c > '\u{7f}' ==> r == unicode_alphabetic(c),
{
    c.is_alphabetic()
}

/// Relies on `String`'s `FromIterator<char>`: the characters in order.
#[verifier::external_body]
pub(crate) fn string_from_chars(v: &Vec<char>) -> (r: String)
    ensures
        r@ == v@,
{
    v.iter().collect()
}

fn char_is_digit(c: char) -> (r: bool)
    ensures
        r == is_digit(c),
{
    '0' <= c && c <= '9'
}

fn char_is_space(c: char) -> (r: bool)
    ensures
        r == is_space(c),
{
    ('\u{9}' <= c && c <= '\u{d}') || c == ' ' || c == '\u{85}' || c == '\u{a0}' || c
        == '\u{1680}' || ('\u{2000}' <= c && c <= '\u{200a}') || c == '\u{2028}' || c
        == '\u{2029}' || c == '\u{202f}' || c == '\u{205f}' || c == '\u{3000}'
}

// ---------------------------------------------------------------- positions

/// (line, column) of character `i`: lines are counted by '\n', columns by
/// characters since the last '\n'.
pub open spec fn pos_of(cs: Seq<char>, i: int) -> (int, int)
    decreases i,
{
    if i <= 0 {
        (0, 0)
    } else if cs[i - 1] == '\n' {
        (pos_of(cs, i - 1).0 + 1, 0)
    } else {
        (pos_of(cs, i - 1).0, pos_of(cs, i - 1).1 + 1)
    }
}

pub open spec fn at(cs: Seq<char>, i: int) -> (usize, usize) {
    (pos_of(cs, i).0 as usize, pos_of(cs, i).1 as usize)
}

proof fn lemma_pos_bounds(cs: Seq<char>, i: int)
    requires
        0 <= i,
    ensures
        0 <= pos_of(cs, i).0 <= i,
        0 <= pos_of(cs, i).1 <= i,
    decreases i,
{
    if i > 0 {
        lemma_pos_bounds(cs, i - 1);
    }
}

// ---------------------------------------------------------------- scanning

/// The index of the first character at or after `i` that is neither
/// whitespace nor inside a `#` comment (`in_comment`: `i` is inside one).
pub open spec fn skip(cs: Seq<char>, i: int, in_comment: bool) -> int
    decreases cs.len() - i,
{
    if i < 0 || i >= cs.len() {
        i
    } else if in_comment {
        skip(cs, i + 1, cs[i] != '\n')
    } else if cs[i] == '#' {
        skip(cs, i + 1, true)
    } else if is_space(cs[i]) {
        skip(cs, i + 1, false)
    } else {
        i
    }
}

/// The end of the identifier run that continues at `i`.
pub open spec fn identifier_end(cs: Seq<char>, i: int) -> int
    decreases cs.len() - i,
{
    if 0 <= i < cs.len() && in_identifier(cs[i]) {
        identifier_end(cs, i + 1)
    } else {
        i
    }
}

/// The end of the numeral run of digits and points that continues at `i`.
pub open spec fn numeral_end(cs: Seq<char>, i: int) -> int
    decreases cs.len() - i,
{
    if 0 <= i < cs.len() && (is_digit(cs[i]) || cs[i] == '.') {
        numeral_end(cs, i + 1)
    } else {
        i
    }
}

/// The digits of a numeral read as one whole number, the point ignored.
pub open spec fn digits_value(t: Seq<char>) -> nat
    decreases t.len(),
{
    if t.len() == 0 {
        0
    } else if t.last() == '.' {
        digits_value(t.drop_last())
    } else {
        digits_value(t.drop_last()) * 10 + (t.last() as nat - '0' as nat) as nat
    }
}

pub open spec fn has_dot(t: Seq<char>) -> bool {
    exists|k: int| 0 <= k < t.len() && t[k] == '.'
}

pub open spec fn two_points(t: Seq<char>) -> bool {
    exists|a: int, b: int| 0 <= a < b < t.len() && t[a] == '.' && t[b] == '.'
}

pub open spec fn has_digit(t: Seq<char>) -> bool {
    exists|k: int| 0 <= k < t.len() && is_digit(t[k])
}

/// How many digits of a numeral stand after its point.
pub open spec fn fraction_len(t: Seq<char>) -> nat
    decreases t.len(),
{
    if t.len() == 0 || t.last() == '.' {
        0
    } else if has_dot(t.drop_last()) {
        fraction_len(t.drop_last()) + 1
    } else {
        0
    }
}

/// The number that a numeral run writes: it needs a digit and at most one
/// point, and its digits must fit in a 64-bit mantissa.
pub open spec fn numeral_value(t: Seq<char>) -> Option<Number> {
    if has_digit(t) && !two_points(t) && digits_value(t) < 0x1_0000_0000_0000_0000 {
        Some(Number::decimal(digits_value(t), fraction_len(t)))
    } else {
        None
    }
}

pub proof fn lemma_skip_bounds(cs: Seq<char>, i: int, in_comment: bool)
    ensures
        skip(cs, i, in_comment) >= i,
        0 <= i ==> skip(cs, i, in_comment) >= 0,
        0 <= i <= cs.len() ==> skip(cs, i, in_comment) <= cs.len(),
        0 <= skip(cs, i, in_comment) < cs.len() ==> !is_space(cs[skip(cs, i, in_comment)])
            && cs[skip(cs, i, in_comment)] != '#',
    decreases cs.len() - i,
{
    if 0 <= i < cs.len() {
        lemma_skip_bounds(cs, i + 1, cs[i] != '\n');
        lemma_skip_bounds(cs, i + 1, true);
        lemma_skip_bounds(cs, i + 1, false);
    }
}

pub proof fn lemma_identifier_end(cs: Seq<char>, i: int)
    requires
        0 <= i <= cs.len(),
    ensures
        i <= identifier_end(cs, i) <= cs.len(),
        forall|k: int| i <= k < identifier_end(cs, i) ==> in_identifier(cs[k]),
    decreases cs.len() - i,
{
    if i < cs.len() && in_identifier(cs[i]) {
        lemma_identifier_end(cs, i + 1);
    }
}

pub proof fn lemma_numeral_end(cs: Seq<char>, i: int)
    requires
        0 <= i <= cs.len(),
    ensures
        i <= numeral_end(cs, i) <= cs.len(),
    decreases cs.len() - i,
{
    if i < cs.len() && (is_digit(cs[i]) || cs[i] == '.') {
        lemma_numeral_end(cs, i + 1);
    }
}

/// The runs that start at `j` take at least the character there.
pub proof fn lemma_run_ends(cs: Seq<char>, j: int)
    ensures
        0 <= j < cs.len() && (is_digit(cs[j]) || cs[j] == '.') ==> j < numeral_end(cs, j) <= cs.len(),
        0 <= j < cs.len() && starts_identifier(cs[j]) ==> j < identifier_end(cs, j) <= cs.len(),
{
    if 0 <= j < cs.len() {
        lemma_numeral_end(cs, j + 1);
        lemma_identifier_end(cs, j + 1);
    }
}

/// The token other than a block that starts at `j`, and where it ends.
pub open spec fn word_at(cs: Seq<char>, j: int) -> Result<(Word, int), TokenError> {
    let c = cs[j];
    if c == '$' {
        Ok((Word::Variable, j + 1))
    } else if c == ':' {
        Ok((Word::Assignment, j + 1))
    } else if c == ',' {
        Ok((Word::Separator(','), j + 1))
    } else if c == ';' {
        Ok((Word::CommandTerminator, j + 1))
    } else if is_digit(c) || c == '.' {
        let e = numeral_end(cs, j);
        match numeral_value(cs.subrange(j, e)) {
            Some(n) => Ok((Word::Float(n), e)),
            None => Err(TokenError { kind: TokenErrorKind::InvalidFloat, pos: at(cs, j) }),
        }
    } else if starts_identifier(c) {
        let e = identifier_end(cs, j);
        Ok((Word::Identifier(cs.subrange(j, e)), e))
    } else {
        match operator_of(c) {
            Some(op) => Ok((Word::Operator(op), j + 1)),
            None => Err(TokenError { kind: TokenErrorKind::UnexpectedToken(c), pos: at(cs, j) }),
        }
    }
}

pub proof fn lemma_word_at(cs: Seq<char>, j: int)
    ensures
        0 <= j < cs.len() ==> match word_at(cs, j) {
            Ok((w, e)) => j < e <= cs.len(),
            Err(_) => true,
        },
{
    lemma_run_ends(cs, j);
}

pub open spec fn prepend(p: Seq<Lexeme>, r: Result<Seq<Lexeme>, TokenError>) -> Result<
    Seq<Lexeme>,
    TokenError,
> {
    match r {
        Ok(s) => Ok(p + s),
        Err(e) => Err(e),
    }
}

/// The flat lexeme sequence of `cs` from index `i`, inside the open blocks
/// `stack` (innermost last), or the first error.
pub open spec fn lex(cs: Seq<char>, i: int, stack: Seq<BlockKind>) -> Result<
    Seq<Lexeme>,
    TokenError,
>
    decreases cs.len() - i,
{
    let j = skip(cs, i, false);
    proof {
        lemma_skip_bounds(cs, i, false);
        lemma_word_at(cs, j);
    }
    if !(0 <= j < cs.len()) {
        if stack.len() == 0 {
            Ok(Seq::empty())
        } else {
            Err(TokenError { kind: TokenErrorKind::ExpectedToken(close_char(stack.last())), pos: at(cs, j) })
        }
    } else {
        let c = cs[j];
        if stack.len() > 0 && c == close_char(stack.last()) {
            prepend(seq![Lexeme::Close(stack.last())], lex(cs, j + 1, stack.drop_last()))
        } else if c == '(' {
            prepend(
                seq![Lexeme::Open(BlockKind::Parenthesis, at(cs, j))],
                lex(cs, j + 1, stack.push(BlockKind::Parenthesis)),
            )
        } else if c == '[' {
            prepend(
                seq![Lexeme::Open(BlockKind::Bracket, at(cs, j))],
                lex(cs, j + 1, stack.push(BlockKind::Bracket)),
            )
        } else {
            match word_at(cs, j) {
                Ok((w, e)) => prepend(seq![Lexeme::Item(w, at(cs, j))], lex(cs, e, stack)),
                Err(err) => Err(err),
            }
        }
    }
}

} // verus!

verus! {

// ---------------------------------------------------------------- lemmas

pub proof fn lemma_flat_prefix_push(s: Seq<Token>, t: Token, n: int)
    requires
        0 <= n <= s.len(),
    ensures
        flat_prefix(s.push(t), n) == flat_prefix(s, n),
    decreases n,
{
    if n > 0 {
        lemma_flat_prefix_push(s, t, n - 1);
        assert(s.push(t)[n - 1] == s[n - 1]);
    }
}

pub proof fn lemma_flat_tokens_push(s: Seq<Token>, t: Token)
    ensures
        flat_tokens(s.push(t)) == flat_tokens(s) + flat_token(t),
{
    lemma_flat_prefix_push(s, t, s.len() as int);
    assert(s.push(t)[s.len() as int] == t);
}

pub proof fn lemma_numeral_push(t: Seq<char>, c: char)
    requires
        is_digit(c) || c == '.',
    ensures
        has_dot(t.push(c)) == (has_dot(t) || c == '.'),
        two_points(t.push(c)) == (two_points(t) || (c == '.' && has_dot(t))),
        has_digit(t.push(c)) == (has_digit(t) || is_digit(c)),
        c == '.' ==> digits_value(t.push(c)) == digits_value(t),
        c != '.' ==> digits_value(t.push(c)) == digits_value(t) * 10 + (c as nat - '0' as nat),
        c == '.' ==> fraction_len(t.push(c)) == 0,
        c != '.' ==> fraction_len(t.push(c)) == if has_dot(t) {
            fraction_len(t) + 1
        } else {
            0
        },
{
    let u = t.push(c);
    assert(u.drop_last() =~= t);
    assert(u.last() == c);
    if has_dot(t) {
        let k = choose|k: int| 0 <= k < t.len() && t[k] == '.';
        assert(u[k] == '.');
    }
    if has_dot(u) && c != '.' {
        let k = choose|k: int| 0 <= k < u.len() && u[k] == '.';
        assert(t[k] == '.');
    }
    if c == '.' {
        assert(u[t.len() as int] == '.');
    }
    if has_digit(t) {
        let k = choose|k: int| 0 <= k < t.len() && is_digit(t[k]);
        assert(is_digit(u[k]));
    }
    if has_digit(u) && !is_digit(c) {
        let k = choose|k: int| 0 <= k < u.len() && is_digit(u[k]);
        assert(is_digit(t[k]));
    }
    if is_digit(c) {
        assert(is_digit(u[t.len() as int]));
    }
    if two_points(t) {
        let (a, b) = choose|a: int, b: int| 0 <= a < b < t.len() && t[a] == '.' && t[b] == '.';
        assert(u[a] == '.' && u[b] == '.');
    }
    if c == '.' && has_dot(t) {
        let k = choose|k: int| 0 <= k < t.len() && t[k] == '.';
        assert(u[k] == '.' && u[t.len() as int] == '.');
    }
    if two_points(u) {
        let (a, b) = choose|a: int, b: int| 0 <= a < b < u.len() && u[a] == '.' && u[b] == '.';
        if b < t.len() {
            assert(t[a] == '.' && t[b] == '.');
        } else {
            assert(t[a] == '.');
        }
    }
}

// ---------------------------------------------------------------- scanning code

/// The position after character `i`, from the position of character `i`.
fn advance(cs: &Vec<char>, i: usize, pos: (usize, usize)) -> (r: (usize, usize))
    requires
        i < cs.len(),
        pos == at(cs@, i as int),
    ensures
        r == at(cs@, i + 1),
{
    proof {
        lemma_pos_bounds(cs@, i as int);
        lemma_pos_bounds(cs@, i + 1);
    }
    if cs[i] == '\n' {
        (pos.0 + 1, 0)
    } else {
        (pos.0, pos.1 + 1)
    }
}

/// Skips whitespace and `#` comments from `i`; returns the index of the
/// next significant character and its position.
pub fn skip_whitespace(cs: &Vec<char>, i: usize, pos: (usize, usize)) -> (r: (usize, (usize, usize)))
    requires
        i <= cs.len(),
        pos == at(cs@, i as int),
    ensures
        r.0 == skip(cs@, i as int, false),
        i <= r.0 <= cs.len(),
        r.1 == at(cs@, r.0 as int),
{
    let mut k: usize = i;
    let mut p = pos;
    let mut in_comment = false;
    while k < cs.len()
        invariant
            i <= k <= cs.len(),
            skip(cs@, k as int, in_comment) == skip(cs@, i as int, false),
            p == at(cs@, k as int),
        ensures
            i <= k <= cs.len(),
            k == skip(cs@, i as int, false),
            p == at(cs@, k as int),
        decreases cs.len() - k,
    {
        let c = cs[k];
        if in_comment {
            in_comment = c != '\n';
        } else if c == '#' {
            in_comment = true;
        } else if !char_is_space(c) {
            break;
        }
        p = advance(cs, k, p);
        k = k + 1;
    }
    (k, p)
}

/// Reads the operator that `c` writes.
pub fn read_operator(c: char, pos: (usize, usize)) -> (r: Result<Operator, TokenError>)
    ensures
        r == match operator_of(c) {
            Some(op) => Ok(op),
            None => Err(TokenError { kind: TokenErrorKind::InvalidOperator, pos }),
        },
{
    match Operator::from_char(c) {
        Some(op) => Ok(op),
        None => Err(TokenError { kind: TokenErrorKind::InvalidOperator, pos }),
    }
}

/// Reads the numeral run that starts at `i`; returns its number and where
/// it ends.
pub fn read_float(cs: &Vec<char>, i: usize, pos: (usize, usize)) -> (r: Result<(Number, usize), TokenError>)
    requires
        i <= cs.len(),
    ensures
        match r {
            Ok((n, e)) => e == numeral_end(cs@, i as int) && numeral_value(
                cs@.subrange(i as int, e as int),
            ) == Some(n),
            Err(err) => err == TokenError { kind: TokenErrorKind::InvalidFloat, pos } && numeral_value(
                cs@.subrange(i as int, numeral_end(cs@, i as int)),
            ) is None,
        },
{
    let mut k: usize = i;
    let mut dot = false;
    let mut twice = false;
    let mut digit = false;
    let mut big = false;
    let mut m: u64 = 0;
    let mut frac: usize = 0;
    proof {
        assert(cs@.subrange(i as int, i as int) =~= Seq::<char>::empty());
    }
    while k < cs.len() && (char_is_digit(cs[k]) || cs[k] == '.')
        invariant
            i <= k <= cs.len(),
            numeral_end(cs@, k as int) == numeral_end(cs@, i as int),
            dot == has_dot(cs@.subrange(i as int, k as int)),
            twice == two_points(cs@.subrange(i as int, k as int)),
            digit == has_digit(cs@.subrange(i as int, k as int)),
            big == (digits_value(cs@.subrange(i as int, k as int)) >= 0x1_0000_0000_0000_0000),
            !big ==> m == digits_value(cs@.subrange(i as int, k as int)),
            frac == fraction_len(cs@.subrange(i as int, k as int)),
            frac <= k - i,
        decreases cs.len() - k,
    {
        let c = cs[k];
        let ghost t = cs@.subrange(i as int, k as int);
        proof {
            assert(cs@.subrange(i as int, k + 1) =~= t.push(c));
            lemma_numeral_push(t, c);
        }
        if c == '.' {
            twice = twice || dot;
            dot = true;
            frac = 0;
        } else {
            let d = (c as u64) - ('0' as u64);
            digit = true;
            if dot {
                frac = frac + 1;
            } else {
                frac = 0;
            }
            if !big {
                if m <= (0xffff_ffff_ffff_ffffu64 - d) / 10 {
                    proof {
                        assert(m * 10 + d <= 0xffff_ffff_ffff_ffff) by (nonlinear_arith)
                            requires
                                m <= (0xffff_ffff_ffff_ffffu64 - d) / 10,
                                d <= 9,
                        ;
                    }
                    m = m * 10 + d;
                } else {
                    proof {
                        assert(m * 10 + d >= 0x1_0000_0000_0000_0000) by (nonlinear_arith)
                            requires
                                m > (0xffff_ffff_ffff_ffffu64 - d) / 10,
                                d <= 9,
                        ;
                    }
                    big = true;
                }
            } else {
                proof {
                    let v = digits_value(t);
                    assert(v * 10 + d >= 0x1_0000_0000_0000_0000) by (nonlinear_arith)
                        requires
                            v >= 0x1_0000_0000_0000_0000,
                    ;
                }
            }
        }
        k = k + 1;
    }
    if digit && !big && !twice {
        Ok((Number::from_decimal(m, frac), k))
    } else {
        Err(TokenError { kind: TokenErrorKind::InvalidFloat, pos })
    }
}

/// Reads the identifier run that starts at `i`; returns its text and where
/// it ends.
pub fn read_identifier(cs: &Vec<char>, i: usize, pos: (usize, usize)) -> (r: Result<(String, usize), TokenError>)
    requires
        i <= cs.len(),
    ensures
        match r {
            Ok((s, e)) => e == identifier_end(cs@, i as int) && i < e && s@ == cs@.subrange(
                i as int,
                e as int,
            ),
            Err(err) => err == TokenError { kind: TokenErrorKind::EmptyIdentifier, pos }
                && identifier_end(cs@, i as int) == i,
        },
{
    let mut k: usize = i;
    let mut text: Vec<char> = Vec::new();
    while k < cs.len() && (char_is_digit(cs[k]) || char_is_alphabetic(cs[k]) || cs[k] == '_')
        invariant
            i <= k <= cs.len(),
            identifier_end(cs@, k as int) == identifier_end(cs@, i as int),
            text@ == cs@.subrange(i as int, k as int),
        decreases cs.len() - k,
    {
        text.push(cs[k]);
        k = k + 1;
        proof {
            assert(text@ =~= cs@.subrange(i as int, k as int));
        }
    }
    if k == i {
        Err(TokenError { kind: TokenErrorKind::EmptyIdentifier, pos })
    } else {
        Ok((string_from_chars(&text), k))
    }
}

} // verus!

verus! {

/// The word that a token other than a block stands for.
pub open spec fn word_of(k: TokenKind) -> Word {
    match k {
        TokenKind::Operator(op) => Word::Operator(op),
        TokenKind::Assignment => Word::Assignment,
        TokenKind::Separator(c) => Word::Separator(c),
        TokenKind::Identifier(s) => Word::Identifier(s@),
        TokenKind::Float(n) => Word::Float(n),
        TokenKind::Variable => Word::Variable,
        // a block stands for no word; only `CommandTerminator` is left
        _ => Word::CommandTerminator,
    }
}

/// Reads the token other than a block that starts at `j`.
fn read_word(cs: &Vec<char>, j: usize, p: (usize, usize)) -> (r: Result<(TokenKind, usize), TokenError>)
    requires
        j < cs.len(),
        p == at(cs@, j as int),
    ensures
        match r {
            Ok((k, e)) => word_at(cs@, j as int) == Ok::<(Word, int), TokenError>((word_of(k), e as int))
                && !(k is Block) && e <= cs.len(),
            Err(err) => word_at(cs@, j as int) == Err::<(Word, int), TokenError>(err),
        },
{
    proof {
        lemma_run_ends(cs@, j as int);
    }
    let c = cs[j];
    if c == '$' {
        Ok((TokenKind::Variable, j + 1))
    } else if c == ':' {
        Ok((TokenKind::Assignment, j + 1))
    } else if c == ',' {
        Ok((TokenKind::Separator(','), j + 1))
    } else if c == ';' {
        Ok((TokenKind::CommandTerminator, j + 1))
    } else if char_is_digit(c) || c == '.' {
        match read_float(cs, j, p) {
            Ok((n, e)) => Ok((TokenKind::Float(n), e)),
            Err(e) => Err(e),
        }
    } else if char_is_alphabetic(c) || c == '_' {
        match read_identifier(cs, j, p) {
            Ok((s, e)) => Ok((TokenKind::Identifier(s), e)),
            Err(e) => Err(e),
        }
    } else {
        match read_operator(c, p) {
            Ok(op) => Ok((TokenKind::Operator(op), j + 1)),
            Err(_) => Err(TokenError { kind: TokenErrorKind::UnexpectedToken(c), pos: p }),
        }
    }
}

/// A block whose closing character has not been read yet, with the tokens
/// of the enclosing level read before it.
struct Frame {
    kind: BlockKind,
    pos: (usize, usize),
    saved: Vec<Token>,
}

spec fn frame_kinds(fs: Seq<Frame>) -> Seq<BlockKind> {
    fs.map_values(|f: Frame| f.kind)
}

/// The lexemes that the open frames account for.
spec fn frames_flat(fs: Seq<Frame>) -> Seq<Lexeme>
    decreases fs.len(),
{
    if fs.len() == 0 {
        Seq::empty()
    } else {
        frames_flat(fs.drop_last()) + flat_tokens(fs.last().saved@) + seq![
            Lexeme::Open(fs.last().kind, fs.last().pos),
        ]
    }
}

/// Relies on `str::chars`: the characters of the text in order.
#[verifier::external_body]
pub(crate) fn chars_of(s: &str) -> (r: Vec<char>)
    ensures
        r@ == s@,
{
    s.chars().collect()
}

fn close_of(k: BlockKind) -> (r: char)
    ensures
        r == close_char(k),
{
    match k {
        BlockKind::Parenthesis => ')',
        BlockKind::Bracket => ']',
    }
}

/// Tokenizes program text into a token tree: a block's tokens stand inside
/// the block token. The tree written out flat is exactly the lexeme
/// sequence of the text; the first error of that scan is the result
/// otherwise.
pub fn tokenize(code: &str) -> (r: Result<Vec<Token>, TokenError>)
    ensures
        match r {
            Ok(ts) => lex(code@, 0, seq![]) == Ok::<Seq<Lexeme>, TokenError>(flat_tokens(ts@)),
            Err(e) => lex(code@, 0, seq![]) == Err::<Seq<Lexeme>, TokenError>(e),
        },
{
    let cs = chars_of(code);
    tokenize_chars(&cs)
}

/// Tokenizes a sequence of characters; see `tokenize`.
#[verifier::rlimit(60)]
pub fn tokenize_chars(cs: &Vec<char>) -> (r: Result<Vec<Token>, TokenError>)
    ensures
        match r {
            Ok(ts) => lex(cs@, 0, seq![]) == Ok::<Seq<Lexeme>, TokenError>(flat_tokens(ts@)),
            Err(e) => lex(cs@, 0, seq![]) == Err::<Seq<Lexeme>, TokenError>(e),
        },
{
    let mut i: usize = 0;
    let mut pos: (usize, usize) = (0, 0);
    let mut cur: Vec<Token> = Vec::new();
    let mut frames: Vec<Frame> = Vec::new();
    proof {
        assert(frame_kinds(frames@) =~= seq![]);
        assert(flat_tokens(cur@) =~= seq![]);
        assert(frames_flat(frames@) + flat_tokens(cur@) =~= seq![]);
        assert(prepend(seq![], lex(cs@, 0, seq![])) == lex(cs@, 0, seq![])) by {
            match lex(cs@, 0, seq![]) {
                Ok(s) => {
                    assert(Seq::<Lexeme>::empty() + s =~= s);
                },
                Err(_) => {},
            }
        }
    }
    loop
        invariant
            i <= cs.len(),
            pos == at(cs@, i as int),
            lex(cs@, 0, seq![]) == prepend(
                frames_flat(frames@) + flat_tokens(cur@),
                lex(cs@, i as int, frame_kinds(frames@)),
            ),
        decreases cs.len() - i,
    {
        let ghost done = frames_flat(frames@) + flat_tokens(cur@);
        let ghost stack = frame_kinds(frames@);
        let (j, p) = skip_whitespace(cs, i, pos);
        proof {
            lemma_run_ends(cs@, j as int);
        }
        if j >= cs.len() {
            if frames.len() == 0 {
                proof {
                    assert(done + Seq::<Lexeme>::empty() =~= flat_tokens(cur@));
                }
                return Ok(cur);
            } else {
                let k = frames[frames.len() - 1].kind;
                return Err(TokenError { kind: TokenErrorKind::ExpectedToken(close_of(k)), pos: p });
            }
        }
        let c = cs[j];
        let ghost step: Seq<Lexeme>;
        let ghost next_stack: Seq<BlockKind>;
        let next: usize;
        if frames.len() > 0 && c == close_of(frames[frames.len() - 1].kind) {
            let ghost fs = frames@;
            let f = frames.pop().unwrap();
            proof {
                assert(fs.drop_last() =~= frames@);
                assert(frame_kinds(frames@) =~= stack.drop_last());
            }
            let block = Token { pos: f.pos, kind: TokenKind::Block(f.kind, cur) };
            cur = f.saved;
            proof {
                lemma_flat_tokens_push(cur@, block);
            }
            cur.push(block);
            proof {
                step = seq![Lexeme::Close(f.kind)];
                next_stack = stack.drop_last();
                assert(frames_flat(frames@) + flat_tokens(cur@) =~= done + step);
            }
            next = j + 1;
        } else if c == '(' || c == '[' {
            let k = if c == '(' {
                BlockKind::Parenthesis
            } else {
                BlockKind::Bracket
            };
            let ghost old_cur = cur@;
            let ghost old_frames = frames@;
            frames.push(Frame { kind: k, pos: p, saved: cur });
            cur = Vec::new();
            proof {
                step = seq![Lexeme::Open(k, p)];
                next_stack = stack.push(k);
                assert(frame_kinds(frames@) =~= next_stack);
                assert(frames@.drop_last() =~= old_frames);
                assert(frames_flat(frames@) == frames_flat(old_frames) + flat_tokens(old_cur) + step);
                assert(flat_tokens(cur@) =~= seq![]);
                assert(frames_flat(frames@) + flat_tokens(cur@) =~= done + step);
            }
            next = j + 1;
        } else {
            let kind: TokenKind;
            match read_word(cs, j, p) {
                Ok((w, e)) => {
                    kind = w;
                    next = e;
                },
                Err(e) => {
                    return Err(e);
                },
            }
            let t = Token { pos: p, kind };
            proof {
                lemma_flat_tokens_push(cur@, t);
                step = flat_token(t);
                next_stack = stack;
            }
            cur.push(t);
            proof {
                assert(frames_flat(frames@) + flat_tokens(cur@) =~= done + step);
            }
        }
        proof {
            assert(lex(cs@, i as int, stack) == prepend(step, lex(cs@, next as int, next_stack)));
            match lex(cs@, next as int, next_stack) {
                Ok(s) => {
                    assert(done + (step + s) =~= (done + step) + s);
                },
                Err(_) => {},
            }
        }
        let mut q = p;
        let mut k: usize = j;
        while k < next
            invariant
                j <= k <= next <= cs.len(),
                q == at(cs@, k as int),
            decreases next - k,
        {
            q = advance(cs, k, q);
            k = k + 1;
        }
        i = next;
        pos = q;
    }
}

} // verus!
