//! The tokenizer: source text to position-tagged tokens.
//!
//! The lexical grammar is written down once, as the specification functions
//! `sp_skip`, `sp_comment` and `sp_tokens` over the character sequence, and
//! `tokenize` is proved to compute exactly that. Whitespace and `//`-to-end-
//! of-line comments are skipped interleaved; identifiers are maximal runs of
//! letters, digits and underscores starting with a letter or underscore, and
//! are keywords only on exact match; integer literals are maximal digit runs
//! kept as raw text for the parser to range-check; any other character is a
//! lexical error carrying its 1-based line and column.
use crate::strutil::chars_to_string;
use vstd::prelude::*;

verus! {

#[derive(Debug, Clone, PartialEq, Eq)]
pub enum Token {
    Let,
    Print,
    Ident(String),
    IntLit(String),
    Plus,
    Minus,
    Star,
    Slash,
    Percent,
    Eq,
    Semi,
    LParen,
    RParen,
    Eof,
}

#[derive(Debug, Clone)]
pub struct SpannedToken {
    pub token: Token,
    pub line: usize,
    pub col: usize,
}

/// An unrecognized character, with its 1-based position.
#[derive(Debug, Clone, PartialEq, Eq)]
pub struct LexError {
    pub line: usize,
    pub col: usize,
    pub ch: char,
}

/// The mathematical image of a token: name and literal text as character
/// sequences.
pub enum Tok {
    Let,
    Print,
    Ident(Seq<char>),
    IntLit(Seq<char>),
    Plus,
    Minus,
    Star,
    Slash,
    Percent,
    Eq,
    Semi,
    LParen,
    RParen,
    Eof,
}

pub struct STok {
    pub token: Tok,
    pub line: int,
    pub col: int,
}

impl View for Token {
    type V = Tok;

    open spec fn view(&self) -> Tok {
        match self {
            Token::Let => Tok::Let,
            Token::Print => Tok::Print,
            Token::Ident(s) => Tok::Ident(s@),
            Token::IntLit(s) => Tok::IntLit(s@),
            Token::Plus => Tok::Plus,
            Token::Minus => Tok::Minus,
            Token::Star => Tok::Star,
            Token::Slash => Tok::Slash,
            Token::Percent => Tok::Percent,
            Token::Eq => Tok::Eq,
            Token::Semi => Tok::Semi,
            Token::LParen => Tok::LParen,
            Token::RParen => Tok::RParen,
            Token::Eof => Tok::Eof,
        }
    }
}

impl View for SpannedToken {
    type V = STok;

    open spec fn view(&self) -> STok {
        STok { token: self.token@, line: self.line as int, col: self.col as int }
    }
}

pub open spec fn tokens_view(v: Seq<SpannedToken>) -> Seq<STok> {
    v.map_values(|t: SpannedToken| t@)
}

pub open spec fn is_ws(c: char) -> bool {
    c == ' ' || c == '\t' || c == '\n' || c == '\r' || c == '\x0c'
}

pub open spec fn is_digit(c: char) -> bool {
    48 <= c as u32 <= 57
}

pub open spec fn is_ident_start(c: char) -> bool {
    (65 <= c as u32 <= 90) || (97 <= c as u32 <= 122) || c == '_'
}

pub open spec fn is_ident_char(c: char) -> bool {
    is_ident_start(c) || is_digit(c)
}

pub open spec fn let_kw() -> Seq<char> {
    seq!['l', 'e', 't']
}

pub open spec fn print_kw() -> Seq<char> {
    seq!['p', 'r', 'i', 'n', 't']
}

pub open spec fn advanced_line(c: char, line: int) -> int {
    if c == '\n' {
        line + 1
    } else {
        line
    }
}

pub open spec fn advanced_col(c: char, col: int) -> int {
    if c == '\n' {
        1
    } else {
        col + 1
    }
}

/// The cursor after skipping whitespace and comments, interleaved.
pub open spec fn sp_skip(s: Seq<char>, pos: int, line: int, col: int) -> (int, int, int)
    decreases s.len() - pos, 0int,
{
    if pos < s.len() && is_ws(s[pos]) {
        sp_skip(s, pos + 1, advanced_line(s[pos], line), advanced_col(s[pos], col))
    } else if pos + 1 < s.len() && s[pos] == '/' && s[pos + 1] == '/' {
        sp_comment(s, pos + 2, line, col + 2)
    } else {
        (pos, line, col)
    }
}

/// The cursor after running to the end of a comment (its newline is left for
/// `sp_skip` to consume).
pub open spec fn sp_comment(s: Seq<char>, pos: int, line: int, col: int) -> (int, int, int)
    decreases s.len() - pos, 1int,
{
    if pos < s.len() && s[pos] != '\n' {
        sp_comment(s, pos + 1, line, col + 1)
    } else {
        sp_skip(s, pos, line, col)
    }
}

/// The end of the digit run starting at `pos`.
pub open spec fn digit_end(s: Seq<char>, pos: int) -> int
    decreases s.len() - pos,
{
    if pos < s.len() && is_digit(s[pos]) {
        digit_end(s, pos + 1)
    } else {
        pos
    }
}

/// The end of the identifier run starting at `pos`.
pub open spec fn ident_end(s: Seq<char>, pos: int) -> int
    decreases s.len() - pos,
{
    if pos < s.len() && is_ident_char(s[pos]) {
        ident_end(s, pos + 1)
    } else {
        pos
    }
}

pub proof fn lemma_skip_bounds(s: Seq<char>, pos: int, line: int, col: int)
    requires
        0 <= pos <= s.len(),
    ensures
        pos <= sp_skip(s, pos, line, col).0 <= s.len(),
    decreases s.len() - pos, 0int,
{
    if pos < s.len() && is_ws(s[pos]) {
        lemma_skip_bounds(s, pos + 1, advanced_line(s[pos], line), advanced_col(s[pos], col));
    } else if pos + 1 < s.len() && s[pos] == '/' && s[pos + 1] == '/' {
        lemma_comment_bounds(s, pos + 2, line, col + 2);
    }
}

pub proof fn lemma_comment_bounds(s: Seq<char>, pos: int, line: int, col: int)
    requires
        0 <= pos <= s.len(),
    ensures
        pos <= sp_comment(s, pos, line, col).0 <= s.len(),
    decreases s.len() - pos, 1int,
{
    if pos < s.len() && s[pos] != '\n' {
        lemma_comment_bounds(s, pos + 1, line, col + 1);
    } else {
        lemma_skip_bounds(s, pos, line, col);
    }
}

pub proof fn lemma_digit_end_bounds(s: Seq<char>, pos: int)
    requires
        0 <= pos <= s.len(),
    ensures
        pos <= digit_end(s, pos) <= s.len(),
    decreases s.len() - pos,
{
    if pos < s.len() && is_digit(s[pos]) {
        lemma_digit_end_bounds(s, pos + 1);
    }
}

pub proof fn lemma_ident_end_bounds(s: Seq<char>, pos: int)
    requires
        0 <= pos <= s.len(),
    ensures
        pos <= ident_end(s, pos) <= s.len(),
    decreases s.len() - pos,
{
    if pos < s.len() && is_ident_char(s[pos]) {
        lemma_ident_end_bounds(s, pos + 1);
    }
}


/// The identifier run is maximal: it holds identifier characters only, and
/// the character after it (if any) is not one — so a keyword is recognized
/// only when it is the identifier's entire text.
pub proof fn lemma_ident_run_maximal(s: Seq<char>, pos: int)
    requires
        0 <= pos <= s.len(),
    ensures
        forall|k: int| pos <= k < ident_end(s, pos) ==> is_ident_char(s[k]),
        ident_end(s, pos) == s.len() || !is_ident_char(s[ident_end(s, pos)]),
    decreases s.len() - pos,
{
    if pos < s.len() && is_ident_char(s[pos]) {
        lemma_ident_run_maximal(s, pos + 1);
        lemma_ident_end_bounds(s, pos + 1);
    }
}

/// The digit run is maximal in the same sense.
pub proof fn lemma_digit_run_maximal(s: Seq<char>, pos: int)
    requires
        0 <= pos <= s.len(),
    ensures
        forall|k: int| pos <= k < digit_end(s, pos) ==> is_digit(s[k]),
        digit_end(s, pos) == s.len() || !is_digit(s[digit_end(s, pos)]),
    decreases s.len() - pos,
{
    if pos < s.len() && is_digit(s[pos]) {
        lemma_digit_run_maximal(s, pos + 1);
        lemma_digit_end_bounds(s, pos + 1);
    }
}


/// Skipping is position-local: under a prefix, the skip lands shifted by
/// the prefix's length, wherever the line and column counters stand.
pub proof fn lemma_skip_shift(p: Seq<char>, s: Seq<char>, pos: int, l1: int, c1: int, l2: int, c2: int)
    requires
        0 <= pos <= s.len(),
    ensures
        sp_skip(p + s, p.len() + pos, l1, c1).0 == p.len() + sp_skip(s, pos, l2, c2).0,
    decreases s.len() - pos, 0int,
{
    let t = p + s;
    let q = p.len() + pos;
    assert(t.len() == p.len() + s.len());
    if pos < s.len() {
        assert(t[q] == s[pos]);
        if pos + 1 < s.len() {
            assert(t[q + 1] == s[pos + 1]);
        }
    }
    if pos < s.len() && is_ws(s[pos]) {
        lemma_skip_shift(
            p,
            s,
            pos + 1,
            advanced_line(s[pos], l1),
            advanced_col(s[pos], c1),
            advanced_line(s[pos], l2),
            advanced_col(s[pos], c2),
        );
    } else if pos + 1 < s.len() && s[pos] == '/' && s[pos + 1] == '/' {
        lemma_comment_shift(p, s, pos + 2, l1, c1 + 2, l2, c2 + 2);
    }
}

pub proof fn lemma_comment_shift(p: Seq<char>, s: Seq<char>, pos: int, l1: int, c1: int, l2: int, c2: int)
    requires
        0 <= pos <= s.len(),
    ensures
        sp_comment(p + s, p.len() + pos, l1, c1).0 == p.len() + sp_comment(s, pos, l2, c2).0,
    decreases s.len() - pos, 1int,
{
    let t = p + s;
    let q = p.len() + pos;
    assert(t.len() == p.len() + s.len());
    if pos < s.len() {
        assert(t[q] == s[pos]);
    }
    if pos < s.len() && s[pos] != '\n' {
        lemma_comment_shift(p, s, pos + 1, l1, c1 + 1, l2, c2 + 1);
    } else {
        lemma_skip_shift(p, s, pos, l1, c1, l2, c2);
    }
}

/// Digit and identifier runs are position-local in the same way.
pub proof fn lemma_digit_end_shift(p: Seq<char>, s: Seq<char>, pos: int)
    requires
        0 <= pos <= s.len(),
    ensures
        digit_end(p + s, p.len() + pos) == p.len() + digit_end(s, pos),
    decreases s.len() - pos,
{
    let t = p + s;
    let q = p.len() + pos;
    assert(t.len() == p.len() + s.len());
    if pos < s.len() {
        assert(t[q] == s[pos]);
    }
    if pos < s.len() && is_digit(s[pos]) {
        lemma_digit_end_shift(p, s, pos + 1);
    }
}

pub proof fn lemma_ident_end_shift(p: Seq<char>, s: Seq<char>, pos: int)
    requires
        0 <= pos <= s.len(),
    ensures
        ident_end(p + s, p.len() + pos) == p.len() + ident_end(s, pos),
    decreases s.len() - pos,
{
    let t = p + s;
    let q = p.len() + pos;
    assert(t.len() == p.len() + s.len());
    if pos < s.len() {
        assert(t[q] == s[pos]);
    }
    if pos < s.len() && is_ident_char(s[pos]) {
        lemma_ident_end_shift(p, s, pos + 1);
    }
}

/// The token starting at a trivia-free cursor position, with the cursor
/// after it: the token's mathematical image, end position, line and column.
pub open spec fn sp_token_at(s: Seq<char>, pos: int, line: int, col: int) -> Result<
    (Tok, int, int, int),
    LexError,
>
    recommends
        0 <= pos < s.len(),
{
    let c = s[pos];
    if c == '+' {
        Ok((Tok::Plus, pos + 1, line, col + 1))
    } else if c == '-' {
        Ok((Tok::Minus, pos + 1, line, col + 1))
    } else if c == '*' {
        Ok((Tok::Star, pos + 1, line, col + 1))
    } else if c == '/' {
        Ok((Tok::Slash, pos + 1, line, col + 1))
    } else if c == '%' {
        Ok((Tok::Percent, pos + 1, line, col + 1))
    } else if c == '=' {
        Ok((Tok::Eq, pos + 1, line, col + 1))
    } else if c == ';' {
        Ok((Tok::Semi, pos + 1, line, col + 1))
    } else if c == '(' {
        Ok((Tok::LParen, pos + 1, line, col + 1))
    } else if c == ')' {
        Ok((Tok::RParen, pos + 1, line, col + 1))
    } else if is_digit(c) {
        let e = digit_end(s, pos);
        Ok((Tok::IntLit(s.subrange(pos, e)), e, line, col + (e - pos)))
    } else if is_ident_start(c) {
        let e = ident_end(s, pos);
        let txt = s.subrange(pos, e);
        let tok = if txt == let_kw() {
            Tok::Let
        } else if txt == print_kw() {
            Tok::Print
        } else {
            Tok::Ident(txt)
        };
        Ok((tok, e, line, col + (e - pos)))
    } else {
        Err(LexError { line: line as usize, col: col as usize, ch: c })
    }
}

/// The whole token sequence from a cursor: skip trivia, read one token,
/// repeat; ends with the end-of-input marker, which every token sequence
/// carries.
pub open spec fn sp_tokens(s: Seq<char>, pos: int, line: int, col: int) -> Result<
    Seq<STok>,
    LexError,
>
    decreases s.len() - pos,
    when 0 <= pos <= s.len()
    via sp_tokens_decreases
{
    let (p, l, c) = sp_skip(s, pos, line, col);
    if p >= s.len() {
        Ok(seq![STok { token: Tok::Eof, line: l, col: c }])
    } else {
        match sp_token_at(s, p, l, c) {
            Ok((tok, p2, l2, c2)) => match sp_tokens(s, p2, l2, c2) {
                Ok(rest) => Ok(seq![STok { token: tok, line: l, col: c }] + rest),
                Err(e) => Err(e),
            },
            Err(e) => Err(e),
        }
    }
}

#[via_fn]
proof fn sp_tokens_decreases(s: Seq<char>, pos: int, line: int, col: int) {
    lemma_skip_bounds(s, pos, line, col);
    let (p, l, c) = sp_skip(s, pos, line, col);
    if p < s.len() {
        lemma_digit_end_bounds(s, p + 1);
        lemma_ident_end_bounds(s, p + 1);
    }
}

/// Whether two token sequences agree token for token. Streams produced
/// from sources that differ only in whitespace, comments and layout agree
/// in this sense: trivia moves the positions but never the tokens.
pub open spec fn same_tokens(t1: Seq<STok>, t2: Seq<STok>) -> bool {
    t1.len() == t2.len() && forall|i: int| 0 <= i < t1.len() ==> t1[i].token == t2[i].token
}

/// Tokens produced at a trivia-free position are position-local: under a
/// prefix, and whatever the line and column counters hold, the same token
/// comes out and its end shifts by the prefix's length.
proof fn lemma_token_at_shift(
    p: Seq<char>,
    s: Seq<char>,
    pos: int,
    l1: int,
    c1: int,
    l2: int,
    c2: int,
)
    requires
        0 <= pos < s.len(),
    ensures
        ({
            let r1 = sp_token_at(p + s, p.len() + pos, l1, c1);
            let r2 = sp_token_at(s, pos, l2, c2);
            &&& (r1 is Ok <==> r2 is Ok)
            &&& (r1 matches Ok((tok1, e1, la, ca)) ==> r2 matches Ok((tok2, e2, lb, cb))
                && tok1 == tok2 && e1 == p.len() + e2 && pos < e2 <= s.len())
        }),
{
    let t = p + s;
    let q = p.len() + pos;
    assert(t.len() == p.len() + s.len());
    assert(t[q] == s[pos]);
    let c = s[pos];
    if is_digit(c) {
        lemma_digit_end_shift(p, s, pos);
        lemma_digit_end_bounds(s, pos + 1);
        let e = digit_end(s, pos);
        assert(t.subrange(q, p.len() + e) =~= s.subrange(pos, e));
    } else if is_ident_start(c) {
        lemma_ident_end_shift(p, s, pos);
        lemma_ident_end_bounds(s, pos + 1);
        let e = ident_end(s, pos);
        assert(t.subrange(q, p.len() + e) =~= s.subrange(pos, e));
    }
}

/// The whole token stream is position-local: under any prefix, and from any
/// line and column seeds, lexing the suffix succeeds or fails the same way
/// and yields the same tokens, positions aside.
pub proof fn lemma_tokens_shift(
    p: Seq<char>,
    s: Seq<char>,
    pos: int,
    l1: int,
    c1: int,
    l2: int,
    c2: int,
)
    requires
        0 <= pos <= s.len(),
    ensures
        ({
            let r1 = sp_tokens(p + s, p.len() + pos, l1, c1);
            let r2 = sp_tokens(s, pos, l2, c2);
            &&& (r1 is Ok <==> r2 is Ok)
            &&& (r1 matches Ok(a) ==> r2 matches Ok(b) && same_tokens(a, b))
        }),
    decreases s.len() - pos,
{
    let t = p + s;
    assert(t.len() == p.len() + s.len());
    lemma_skip_shift(p, s, pos, l1, c1, l2, c2);
    lemma_skip_bounds(s, pos, l2, c2);
    let (q2, m2, d2) = sp_skip(s, pos, l2, c2);
    let (q1, m1, d1) = sp_skip(t, p.len() + pos, l1, c1);
    assert(q1 == p.len() + q2);
    if q2 >= s.len() {
        let a = seq![STok { token: Tok::Eof, line: m1, col: d1 }];
        let b = seq![STok { token: Tok::Eof, line: m2, col: d2 }];
        assert(sp_tokens(t, p.len() + pos, l1, c1) == Ok::<Seq<STok>, LexError>(a));
        assert(sp_tokens(s, pos, l2, c2) == Ok::<Seq<STok>, LexError>(b));
        assert(same_tokens(a, b));
    } else {
        lemma_token_at_shift(p, s, q2, m1, d1, m2, d2);
        match sp_token_at(s, q2, m2, d2) {
            Ok((tok2, e2, lb, cb)) => {
                let r1at = sp_token_at(t, q1, m1, d1);
                let (tok1, e1, la, ca) = r1at->Ok_0;
                lemma_tokens_shift(p, s, e2, la, ca, lb, cb);
                match sp_tokens(s, e2, lb, cb) {
                    Ok(restb) => {
                        let resta = sp_tokens(t, e1, la, ca)->Ok_0;
                        let a = seq![STok { token: tok1, line: m1, col: d1 }] + resta;
                        let b = seq![STok { token: tok2, line: m2, col: d2 }] + restb;
                        assert(sp_tokens(t, p.len() + pos, l1, c1) == Ok::<Seq<STok>, LexError>(
                            a,
                        ));
                        assert(sp_tokens(s, pos, l2, c2) == Ok::<Seq<STok>, LexError>(b));
                        assert forall|i: int| 0 <= i < a.len() implies a[i].token
                            == b[i].token by {
                            if i > 0 {
                                assert(a[i] == resta[i - 1] && b[i] == restb[i - 1]);
                            }
                        }
                        assert(same_tokens(a, b));
                    },
                    Err(_) => {},
                }
            },
            Err(_) => {},
        }
    }
}

/// A leading run of whitespace changes nothing but positions: the source
/// with the run prepended lexes to the same tokens (or fails the same way)
/// as the source without it. Together with the parser's indifference to
/// positions, leading trivia cannot change what a program means.
pub proof fn lemma_whitespace_prefix_same_tokens(p: Seq<char>, s: Seq<char>)
    requires
        forall|i: int| 0 <= i < p.len() ==> is_ws(p[i]),
    ensures
        ({
            let r1 = sp_tokens(p + s, 0, 1, 1);
            let r2 = sp_tokens(s, 0, 1, 1);
            &&& (r1 is Ok <==> r2 is Ok)
            &&& (r1 matches Ok(a) ==> r2 matches Ok(b) && same_tokens(a, b))
        }),
{
    let t = p + s;
    assert(t.len() == p.len() + s.len());
    lemma_ws_run_skip(p, s, 0, 1, 1);
    let (l2, c2) = choose|l2: int, c2: int|
        sp_skip(t, 0, 1, 1) == sp_skip(t, p.len() as int, l2, c2);
    assert(sp_tokens(t, 0, 1, 1) == sp_tokens(t, p.len() as int, l2, c2)) by {
        lemma_tokens_same_skip(t, 0, 1, 1, p.len() as int, l2, c2);
    }
    lemma_tokens_shift(p, s, 0, l2, c2, 1, 1);
}

/// Skipping from inside a whitespace run reaches the same state as
/// skipping from its end, for some line and column.
proof fn lemma_ws_run_skip(p: Seq<char>, s: Seq<char>, i: int, l: int, c: int)
    requires
        forall|k: int| 0 <= k < p.len() ==> is_ws(p[k]),
        0 <= i <= p.len(),
    ensures
        exists|l2: int, c2: int|
            sp_skip(p + s, i, l, c) == sp_skip(p + s, p.len() as int, l2, c2),
    decreases p.len() - i,
{
    let t = p + s;
    if i == p.len() {
        assert(sp_skip(t, i, l, c) == sp_skip(t, p.len() as int, l, c));
    } else {
        assert(t[i] == p[i] && is_ws(t[i]));
        assert(sp_skip(t, i, l, c) == sp_skip(
            t,
            i + 1,
            advanced_line(t[i], l),
            advanced_col(t[i], c),
        ));
        lemma_ws_run_skip(p, s, i + 1, advanced_line(t[i], l), advanced_col(t[i], c));
    }
}

/// Two cursors whose skips agree see the same token stream.
proof fn lemma_tokens_same_skip(t: Seq<char>, pos1: int, l1: int, c1: int, pos2: int, l2: int, c2: int)
    requires
        0 <= pos1 <= t.len(),
        0 <= pos2 <= t.len(),
        sp_skip(t, pos1, l1, c1) == sp_skip(t, pos2, l2, c2),
    ensures
        sp_tokens(t, pos1, l1, c1) == sp_tokens(t, pos2, l2, c2),
{
}

/// Walking a comment body (no newline until its terminator) reaches the
/// state just past the terminating newline, for some line and column.
proof fn lemma_comment_body_skip(p: Seq<char>, s: Seq<char>, i: int, l: int, c: int)
    requires
        p.len() >= 3,
        p.last() == '\n',
        forall|k: int| 2 <= k < p.len() - 1 ==> p[k] != '\n',
        2 <= i <= p.len() - 1,
    ensures
        exists|l2: int, c2: int|
            sp_comment(p + s, i, l, c) == sp_skip(p + s, p.len() as int, l2, c2),
    decreases p.len() - i,
{
    let t = p + s;
    assert(t.len() == p.len() + s.len());
    if i == p.len() - 1 {
        assert(t[i] == p[i] && p[i] == '\n');
        assert(sp_comment(t, i, l, c) == sp_skip(t, i, l, c));
        assert(is_ws(t[i]));
        assert(sp_skip(t, i, l, c) == sp_skip(t, i + 1, l + 1, 1));
    } else {
        assert(t[i] == p[i] && p[i] != '\n');
        assert(sp_comment(t, i, l, c) == sp_comment(t, i + 1, l, c + 1));
        lemma_comment_body_skip(p, s, i + 1, l, c + 1);
    }
}

/// A leading comment line — two slashes, any newline-free text, and the
/// terminating newline — changes nothing but positions: the source with it
/// prepended lexes to the same tokens (or fails the same way) as the source
/// without it.
pub proof fn lemma_comment_prefix_same_tokens(p: Seq<char>, s: Seq<char>)
    requires
        p.len() >= 3,
        p[0] == '/',
        p[1] == '/',
        p.last() == '\n',
        forall|k: int| 2 <= k < p.len() - 1 ==> p[k] != '\n',
    ensures
        ({
            let r1 = sp_tokens(p + s, 0, 1, 1);
            let r2 = sp_tokens(s, 0, 1, 1);
            &&& (r1 is Ok <==> r2 is Ok)
            &&& (r1 matches Ok(a) ==> r2 matches Ok(b) && same_tokens(a, b))
        }),
{
    let t = p + s;
    assert(t.len() == p.len() + s.len());
    assert(t[0] == '/' && t[1] == '/');
    assert(!is_ws(t[0]));
    assert(sp_skip(t, 0, 1, 1) == sp_comment(t, 2, 1, 3));
    lemma_comment_body_skip(p, s, 2, 1, 3);
    let (l2, c2) = choose|l2: int, c2: int|
        sp_comment(t, 2, 1, 3) == sp_skip(t, p.len() as int, l2, c2);
    assert(sp_tokens(t, 0, 1, 1) == sp_tokens(t, p.len() as int, l2, c2)) by {
        lemma_tokens_same_skip(t, 0, 1, 1, p.len() as int, l2, c2);
    }
    lemma_tokens_shift(p, s, 0, l2, c2, 1, 1);
}

pub struct Lexer {
    input: Vec<char>,
    pos: usize,
    line: usize,
    col: usize,
}

impl Lexer {
    pub closed spec fn src(self) -> Seq<char> {
        self.input@
    }

    pub closed spec fn cursor(self) -> (int, int, int) {
        (self.pos as int, self.line as int, self.col as int)
    }

    /// The cursor stays inside the text, and 1-based line and column counts
    /// never outrun the characters consumed (so they cannot overflow).
    pub closed spec fn wf(self) -> bool {
        &&& self.pos <= self.input@.len()
        &&& self.input@.len() < usize::MAX
        &&& 1 <= self.line <= self.pos + 1
        &&& 1 <= self.col <= self.pos + 1
    }

    pub fn new(input: &str) -> (l: Lexer)
        requires
            input@.len() < usize::MAX,
        ensures
            l.wf(),
            l.src() == input@,
            l.cursor() == (0int, 1int, 1int),
    {
        broadcast use vstd::string::axiom_spec_iter;

        let mut v: Vec<char> = Vec::new();
        for c in it: input.chars()
            invariant
                it.seq() == input@,
                v@ == it.seq().take(it.index() as int),
        {
            v.push(c);
            proof {
                assert(v@ =~= it.seq().take(it.index() as int + 1));
            }
        }
        proof {
            assert(v@ =~= input@);
        }
        Lexer { input: v, pos: 0, line: 1, col: 1 }
    }

    fn peek(&self) -> (r: Option<char>)
        ensures
            r == (if self.cursor().0 < self.src().len() {
                Some(self.src()[self.cursor().0])
            } else {
                None::<char>
            }),
    {
        if self.pos < self.input.len() {
            Some(self.input[self.pos])
        } else {
            None
        }
    }

    fn advance(&mut self) -> (r: Option<char>)
        requires
            old(self).wf(),
        ensures
            final(self).wf(),
            final(self).src() == old(self).src(),
            old(self).cursor().0 < old(self).src().len() ==> {
                let c = old(self).src()[old(self).cursor().0];
                &&& r == Some(c)
                &&& final(self).cursor().0 == old(self).cursor().0 + 1
                &&& final(self).cursor().1 == advanced_line(c, old(self).cursor().1)
                &&& final(self).cursor().2 == advanced_col(c, old(self).cursor().2)
            },
            old(self).cursor().0 >= old(self).src().len() ==> r is None && final(self).cursor()
                == old(self).cursor(),
    {
        if self.pos < self.input.len() {
            let ch = self.input[self.pos];
            self.pos = self.pos + 1;
            if ch == '\n' {
                self.line = self.line + 1;
                self.col = 1;
            } else {
                self.col = self.col + 1;
            }
            Some(ch)
        } else {
            None
        }
    }

    /// Skips interleaved whitespace and `//` comments, landing the cursor on
    /// the next token (or the end of input): exactly `sp_skip`.
    fn skip_whitespace_and_comments(&mut self)
        requires
            old(self).wf(),
        ensures
            final(self).wf(),
            final(self).src() == old(self).src(),
            final(self).cursor() == sp_skip(
                old(self).src(),
                old(self).cursor().0,
                old(self).cursor().1,
                old(self).cursor().2,
            ),
    {
        let ghost s = self.input@;
        let ghost start = self.cursor();
        loop
            invariant
                self.wf(),
                self.src() == s,
                sp_skip(s, start.0, start.1, start.2) == sp_skip(
                    s,
                    self.cursor().0,
                    self.cursor().1,
                    self.cursor().2,
                ),
            ensures
                self.wf(),
                self.src() == s,
                self.cursor() == sp_skip(s, start.0, start.1, start.2),
            decreases s.len() - self.cursor().0,
        {
            let ghost round = self.cursor().0;
            // Whitespace run.
            loop
                invariant
                    self.wf(),
                    self.src() == s,
                    self.cursor().0 >= round,
                    sp_skip(s, start.0, start.1, start.2) == sp_skip(
                        s,
                        self.cursor().0,
                        self.cursor().1,
                        self.cursor().2,
                    ),
                ensures
                    self.wf(),
                    self.src() == s,
                    self.cursor().0 >= round,
                    sp_skip(s, start.0, start.1, start.2) == sp_skip(
                        s,
                        self.cursor().0,
                        self.cursor().1,
                        self.cursor().2,
                    ),
                    self.cursor().0 >= s.len() || !is_ws(s[self.cursor().0]),
                decreases s.len() - self.cursor().0,
            {
                match self.peek() {
                    Some(c) => {
                        if ws_char(c) {
                            self.advance();
                        } else {
                            break;
                        }
                    },
                    None => {
                        break;
                    },
                }
            }
            // A comment runs to the end of the line; its newline is left for
            // the next whitespace round.
            let two_slashes = match self.peek() {
                Some(c) => {
                    if c == '/' && self.pos + 1 < self.input.len() {
                        self.input[self.pos + 1] == '/'
                    } else {
                        false
                    }
                },
                None => false,
            };
            if two_slashes {
                let ghost entry = self.cursor();
                self.advance();
                self.advance();
                proof {
                    assert(sp_skip(s, entry.0, entry.1, entry.2) == sp_comment(
                        s,
                        entry.0 + 2,
                        entry.1,
                        entry.2 + 2,
                    ));
                }
                loop
                    invariant
                        self.wf(),
                        self.src() == s,
                        self.cursor().0 >= round + 2,
                        sp_skip(s, start.0, start.1, start.2) == sp_comment(
                            s,
                            self.cursor().0,
                            self.cursor().1,
                            self.cursor().2,
                        ),
                    ensures
                        self.wf(),
                        self.src() == s,
                        self.cursor().0 >= round + 2,
                        sp_skip(s, start.0, start.1, start.2) == sp_comment(
                            s,
                            self.cursor().0,
                            self.cursor().1,
                            self.cursor().2,
                        ),
                        self.cursor().0 >= s.len() || s[self.cursor().0] == '\n',
                    decreases s.len() - self.cursor().0,
                {
                    match self.peek() {
                        Some(c) => {
                            if c == '\n' {
                                break;
                            }
                            self.advance();
                        },
                        None => {
                            break;
                        },
                    }
                }
            } else {
                break;
            }
        }
    }

    /// Produces the token sequence of the remaining input: exactly
    /// `sp_tokens`. A successful result is never empty and always ends with
    /// the end-of-input marker.
    pub fn tokenize(&mut self) -> (r: Result<Vec<SpannedToken>, LexError>)
        requires
            old(self).wf(),
        ensures
            match r {
                Ok(v) => sp_tokens(
                    old(self).src(),
                    old(self).cursor().0,
                    old(self).cursor().1,
                    old(self).cursor().2,
                ) == Ok::<_, LexError>(tokens_view(v@)) && v@.len() > 0 && v@.last().token is Eof,
                Err(e) => sp_tokens(
                    old(self).src(),
                    old(self).cursor().0,
                    old(self).cursor().1,
                    old(self).cursor().2,
                ) == Err::<Seq<STok>, _>(e),
            },
    {
        let ghost s = self.input@;
        let ghost start = self.cursor();
        let mut tokens: Vec<SpannedToken> = Vec::new();
        proof {
            assert forall|ts: Seq<STok>| tokens_view(tokens@) + ts =~= ts by {}
        }
        loop
            invariant
                self.wf(),
                self.src() == s,
                s == old(self).src(),
                start == old(self).cursor(),
                0 <= start.0 <= s.len(),
                sp_tokens(s, start.0, start.1, start.2) == (match sp_tokens(
                    s,
                    self.cursor().0,
                    self.cursor().1,
                    self.cursor().2,
                ) {
                    Ok(ts) => Ok::<Seq<STok>, LexError>(tokens_view(tokens@) + ts),
                    Err(e) => Err(e),
                }),
            decreases s.len() - self.cursor().0,
        {
            let ghost iter_start = self.cursor();
            self.skip_whitespace_and_comments();
            proof {
                lemma_skip_bounds(s, iter_start.0, iter_start.1, iter_start.2);
            }
            let line = self.line;
            let col = self.col;
            let ghost toks_pre = tokens@;
            let ch = match self.peek() {
                Some(ch) => ch,
                None => {
                    tokens.push(SpannedToken { token: Token::Eof, line, col });
                    proof {
                        let stok = STok { token: Tok::Eof, line: line as int, col: col as int };
                        assert(sp_tokens(s, iter_start.0, iter_start.1, iter_start.2) == Ok::<
                            Seq<STok>,
                            LexError,
                        >(seq![stok]));
                        assert(tokens_view(tokens@) =~= tokens_view(toks_pre).push(stok));
                        assert(tokens_view(toks_pre) + seq![stok] =~= tokens_view(tokens@));
                    }
                    return Ok(tokens);
                },
            };
            let ghost p = self.cursor().0;
            let token: Token = if ch == '+' {
                self.advance();
                Token::Plus
            } else if ch == '-' {
                self.advance();
                Token::Minus
            } else if ch == '*' {
                self.advance();
                Token::Star
            } else if ch == '/' {
                self.advance();
                Token::Slash
            } else if ch == '%' {
                self.advance();
                Token::Percent
            } else if ch == '=' {
                self.advance();
                Token::Eq
            } else if ch == ';' {
                self.advance();
                Token::Semi
            } else if ch == '(' {
                self.advance();
                Token::LParen
            } else if ch == ')' {
                self.advance();
                Token::RParen
            } else if digit_char(ch) {
                let mut buf: Vec<char> = Vec::new();
                loop
                    invariant
                        self.wf(),
                        self.src() == s,
                        0 <= p <= self.cursor().0 <= s.len(),
                        digit_end(s, p) == digit_end(s, self.cursor().0),
                        buf@ =~= s.subrange(p, self.cursor().0),
                        self.cursor().1 == line as int,
                        self.cursor().2 == col + (self.cursor().0 - p),
                    ensures
                        self.wf(),
                        self.src() == s,
                        0 <= p <= self.cursor().0 <= s.len(),
                        digit_end(s, p) == digit_end(s, self.cursor().0),
                        buf@ =~= s.subrange(p, self.cursor().0),
                        self.cursor().1 == line as int,
                        self.cursor().2 == col + (self.cursor().0 - p),
                        self.cursor().0 >= s.len() || !is_digit(s[self.cursor().0]),
                    decreases s.len() - self.cursor().0,
                {
                    match self.peek() {
                        Some(c) => {
                            if digit_char(c) {
                                buf.push(c);
                                self.advance();
                                proof {
                                    assert(buf@ =~= s.subrange(p, self.cursor().0));
                                }
                            } else {
                                break;
                            }
                        },
                        None => {
                            break;
                        },
                    }
                }
                proof {
                    assert(digit_end(s, self.cursor().0) == self.cursor().0);
                    assert(digit_end(s, p) == self.cursor().0);
                    lemma_digit_end_bounds(s, p + 1);
                }
                Token::IntLit(chars_to_string(&buf))
            } else if ident_start_char(ch) {
                let mut buf: Vec<char> = Vec::new();
                loop
                    invariant
                        self.wf(),
                        self.src() == s,
                        0 <= p <= self.cursor().0 <= s.len(),
                        ident_end(s, p) == ident_end(s, self.cursor().0),
                        buf@ =~= s.subrange(p, self.cursor().0),
                        self.cursor().1 == line as int,
                        self.cursor().2 == col + (self.cursor().0 - p),
                    ensures
                        self.wf(),
                        self.src() == s,
                        0 <= p <= self.cursor().0 <= s.len(),
                        ident_end(s, p) == ident_end(s, self.cursor().0),
                        buf@ =~= s.subrange(p, self.cursor().0),
                        self.cursor().1 == line as int,
                        self.cursor().2 == col + (self.cursor().0 - p),
                        self.cursor().0 >= s.len() || !is_ident_char(s[self.cursor().0]),
                    decreases s.len() - self.cursor().0,
                {
                    match self.peek() {
                        Some(c) => {
                            if ident_char(c) {
                                buf.push(c);
                                self.advance();
                                proof {
                                    assert(buf@ =~= s.subrange(p, self.cursor().0));
                                }
                            } else {
                                break;
                            }
                        },
                        None => {
                            break;
                        },
                    }
                }
                proof {
                    assert(ident_end(s, self.cursor().0) == self.cursor().0);
                    assert(ident_end(s, p) == self.cursor().0);
                    lemma_ident_end_bounds(s, p + 1);
                }
                if is_let_text(&buf) {
                    Token::Let
                } else if is_print_text(&buf) {
                    Token::Print
                } else {
                    Token::Ident(chars_to_string(&buf))
                }
            } else {
                proof {
                    assert(sp_token_at(s, p, line as int, col as int) == Err::<
                        (Tok, int, int, int),
                        _,
                    >(LexError { line, col, ch }));
                }
                return Err(LexError { line, col, ch });
            };
            tokens.push(SpannedToken { token, line, col });
            proof {
                let stok = STok { token: token@, line: line as int, col: col as int };
                assert(sp_token_at(s, p, line as int, col as int) matches Ok((tok, p2, l2, c2))
                    && tok == token@ && p2 == self.cursor().0 && l2 == self.cursor().1 && c2
                    == self.cursor().2);
                assert(tokens_view(tokens@) =~= tokens_view(toks_pre).push(stok));
                assert forall|rest: Seq<STok>|
                    tokens_view(toks_pre) + (seq![stok] + rest) =~= tokens_view(tokens@)
                        + rest by {}
            }
        }
    }
}

fn ws_char(c: char) -> (b: bool)
    ensures
        b == is_ws(c),
{
    c == ' ' || c == '\t' || c == '\n' || c == '\r' || c == '\x0c'
}

fn digit_char(c: char) -> (b: bool)
    ensures
        b == is_digit(c),
{
    let u = c as u32;
    48 <= u && u <= 57
}

fn ident_start_char(c: char) -> (b: bool)
    ensures
        b == is_ident_start(c),
{
    let u = c as u32;
    (65 <= u && u <= 90) || (97 <= u && u <= 122) || c == '_'
}

fn ident_char(c: char) -> (b: bool)
    ensures
        b == is_ident_char(c),
{
    ident_start_char(c) || digit_char(c)
}

fn is_let_text(buf: &Vec<char>) -> (b: bool)
    ensures
        b == (buf@ == let_kw()),
{
    let r = buf.len() == 3 && buf[0] == 'l' && buf[1] == 'e' && buf[2] == 't';
    proof {
        if r {
            assert(buf@ =~= let_kw());
        }
        if buf@ == let_kw() {
            assert(buf@.len() == 3);
            assert(buf@[0] == 'l' && buf@[1] == 'e' && buf@[2] == 't');
        }
    }
    r
}

fn is_print_text(buf: &Vec<char>) -> (b: bool)
    ensures
        b == (buf@ == print_kw()),
{
    let r = buf.len() == 5 && buf[0] == 'p' && buf[1] == 'r' && buf[2] == 'i' && buf[3] == 'n'
        && buf[4] == 't';
    proof {
        if r {
            assert(buf@ =~= print_kw());
        }
        if buf@ == print_kw() {
            assert(buf@.len() == 5);
            assert(buf@[0] == 'p' && buf@[1] == 'r' && buf@[2] == 'i' && buf@[3] == 'n' && buf@[4]
                == 't');
        }
    }
    r
}

} // verus!
