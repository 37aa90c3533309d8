//! The parser: tokens to an abstract syntax tree by recursive descent.
//!
//! The grammar is written down once, as the specification functions
//! `sp_atom`, `sp_unary`, `sp_term`, `sp_expr`, `sp_stmt` and `sp_program`,
//! and the parser is proved to compute exactly that. Multiplication,
//! division and remainder bind tighter than addition and subtraction; all
//! binary operators at one level associate left-to-right; unary minus binds
//! tighter than every binary operator and chains right-recursively;
//! parentheses override precedence. Integer literals are range-checked here,
//! and nesting of parentheses and unary minus is bounded by an explicit
//! depth counter so that pathological input fails as a parse error instead
//! of exhausting the call stack.
use crate::ast::{expr_view, stmt_view, stmts_view, BinOp, Expr, ExprS, Stmt, StmtS};
use crate::lexer::{is_digit, same_tokens, tokens_view, SpannedToken, STok, Tok, Token};
use vstd::pervasive::unreached;
use vstd::prelude::*;

verus! {

/// The deepest nesting of parenthesized expressions and unary minus signs,
/// combined, that the parser accepts.
pub const MAX_NESTING_DEPTH: usize = 256;

/// What the parser was looking for when it stopped.
#[derive(Debug, Clone, Copy, PartialEq, Eq)]
pub enum Expectation {
    Statement,
    Identifier,
    Eq,
    Semi,
    RParen,
    Expression,
    LiteralInRange,
    NestingDepth,
}

/// The shape of a token, without its text: what the parser found instead.
#[derive(Debug, Clone, Copy, PartialEq, Eq)]
pub enum TokenKind {
    Let,
    Print,
    Ident,
    IntLit,
    Plus,
    Minus,
    Star,
    Slash,
    Percent,
    Eq,
    Semi,
    LParen,
    RParen,
    Eof,
}

pub open spec fn tok_kind(t: Tok) -> TokenKind {
    match t {
        Tok::Let => TokenKind::Let,
        Tok::Print => TokenKind::Print,
        Tok::Ident(_) => TokenKind::Ident,
        Tok::IntLit(_) => TokenKind::IntLit,
        Tok::Plus => TokenKind::Plus,
        Tok::Minus => TokenKind::Minus,
        Tok::Star => TokenKind::Star,
        Tok::Slash => TokenKind::Slash,
        Tok::Percent => TokenKind::Percent,
        Tok::Eq => TokenKind::Eq,
        Tok::Semi => TokenKind::Semi,
        Tok::LParen => TokenKind::LParen,
        Tok::RParen => TokenKind::RParen,
        Tok::Eof => TokenKind::Eof,
    }
}

/// A token sequence that does not match the grammar, or an integer literal
/// outside the 64-bit signed range; positioned at the offending token, with
/// what was expected there and what was found.
#[derive(Debug, Clone, PartialEq, Eq)]
pub struct ParseError {
    pub line: usize,
    pub col: usize,
    pub expected: Expectation,
    pub found: TokenKind,
}

pub open spec fn perr(t: STok, expected: Expectation) -> ParseError {
    ParseError {
        line: t.line as usize,
        col: t.col as usize,
        expected,
        found: tok_kind(t.token),
    }
}

/// A placeholder error for positions past the end of the token sequence,
/// which a well-formed sequence (ending in the end-of-input marker) never
/// reaches.
pub open spec fn perr_oob() -> ParseError {
    ParseError { line: 0, col: 0, expected: Expectation::Statement, found: TokenKind::Eof }
}

pub open spec fn digit_char_val(c: char) -> int {
    c as u32 - 48
}

/// The numeric value of a digit string.
pub open spec fn digits_val(text: Seq<char>) -> int
    decreases text.len(),
{
    if text.len() == 0 {
        0
    } else {
        digits_val(text.drop_last()) * 10 + digit_char_val(text.last())
    }
}

pub open spec fn all_digits(text: Seq<char>) -> bool {
    forall|k: int| 0 <= k < text.len() ==> is_digit(text[k])
}

/// The 64-bit value of an integer literal's text: defined exactly when the
/// text is a non-empty digit string whose value fits the positive signed
/// range.
pub open spec fn lit_val(text: Seq<char>) -> Option<i64> {
    if text.len() > 0 && all_digits(text) && digits_val(text) <= i64::MAX {
        Some(digits_val(text) as i64)
    } else {
        None
    }
}

/// A digit string's value only grows as digits are appended.
pub proof fn lemma_digits_val_monotonic(text: Seq<char>, i: int)
    requires
        0 <= i <= text.len(),
        all_digits(text),
    ensures
        digits_val(text.take(i)) <= digits_val(text),
        digits_val(text) >= 0,
    decreases text.len() - i,
{
    if i == text.len() {
        assert(text.take(i) =~= text);
        lemma_digits_val_nonneg(text);
    } else {
        lemma_digits_val_monotonic(text, i + 1);
        assert(text.take(i + 1).drop_last() =~= text.take(i));
        assert(text.take(i + 1).last() == text[i]);
        lemma_digits_val_nonneg(text.take(i));
        assert(digits_val(text.take(i + 1)) == digits_val(text.take(i)) * 10 + digit_char_val(
            text[i],
        ));
        assert(digits_val(text.take(i)) * 10 >= digits_val(text.take(i))) by (nonlinear_arith)
            requires
                digits_val(text.take(i)) >= 0,
        ;
    }
}

pub proof fn lemma_digits_val_nonneg(text: Seq<char>)
    requires
        all_digits(text),
    ensures
        digits_val(text) >= 0,
    decreases text.len(),
{
    if text.len() > 0 {
        assert(all_digits(text.drop_last())) by {
            assert(forall|k: int|
                0 <= k < text.len() - 1 ==> text.drop_last()[k] == text[k] && is_digit(text[k]));
        }
        lemma_digits_val_nonneg(text.drop_last());
        assert(is_digit(text.last()));
        assert(digits_val(text.drop_last()) * 10 >= 0) by (nonlinear_arith)
            requires
                digits_val(text.drop_last()) >= 0,
        ;
    }
}

/// An atom: an integer literal, a variable reference, or a parenthesized
/// expression (entering one more nesting level).
pub open spec fn sp_atom(toks: Seq<STok>, pos: int, depth: int) -> Result<(ExprS, int), ParseError>
    decreases toks.len() - pos, 0int,
    when 0 <= pos <= toks.len()
{
    if pos >= toks.len() {
        Err(perr_oob())
    } else {
        let t = toks[pos];
        match t.token {
            Tok::IntLit(text) => match lit_val(text) {
                Some(v) => Ok((ExprS::IntLit(v), pos + 1)),
                None => Err(perr(t, Expectation::LiteralInRange)),
            },
            Tok::Ident(name) => Ok((ExprS::Var(name), pos + 1)),
            Tok::LParen => if depth >= MAX_NESTING_DEPTH {
                Err(perr(t, Expectation::NestingDepth))
            } else {
                match sp_expr(toks, pos + 1, depth + 1) {
                    Ok((e, pos2)) => if 0 <= pos2 < toks.len() {
                        if toks[pos2].token is RParen {
                            Ok((e, pos2 + 1))
                        } else {
                            Err(perr(toks[pos2], Expectation::RParen))
                        }
                    } else {
                        Err(perr_oob())
                    },
                    Err(e) => Err(e),
                }
            },
            _ => Err(perr(t, Expectation::Expression)),
        }
    }
}

/// Unary: zero or more prefix minus signs, each wrapping the operand in one
/// negation node and entering one more nesting level.
pub open spec fn sp_unary(toks: Seq<STok>, pos: int, depth: int) -> Result<(ExprS, int), ParseError>
    decreases toks.len() - pos, 1int,
    when 0 <= pos <= toks.len()
{
    if pos >= toks.len() {
        Err(perr_oob())
    } else if toks[pos].token is Minus {
        if depth >= MAX_NESTING_DEPTH {
            Err(perr(toks[pos], Expectation::NestingDepth))
        } else {
            match sp_unary(toks, pos + 1, depth + 1) {
                Ok((e, p2)) => Ok((ExprS::UnaryMinus(Box::new(e)), p2)),
                Err(e) => Err(e),
            }
        }
    } else {
        sp_atom(toks, pos, depth)
    }
}

/// Term: a left-associative chain of unary results combined by `*`, `/`,
/// `%`.
pub open spec fn sp_term(toks: Seq<STok>, pos: int, depth: int) -> Result<(ExprS, int), ParseError>
    decreases toks.len() - pos, 2int,
    when 0 <= pos <= toks.len()
{
    if pos >= toks.len() {
        Err(perr_oob())
    } else {
        match sp_unary(toks, pos, depth) {
            Ok((e, p1)) => sp_term_more(
                toks,
                e,
                if pos < p1 && p1 <= toks.len() {
                    p1
                } else {
                    pos + 1
                },
                depth,
            ),
            Err(e) => Err(e),
        }
    }
}

pub open spec fn sp_term_more(toks: Seq<STok>, acc: ExprS, pos: int, depth: int) -> Result<
    (ExprS, int),
    ParseError,
>
    decreases toks.len() - pos, 3int,
    when 0 <= pos <= toks.len()
{
    if 0 <= pos < toks.len() && (toks[pos].token is Star || toks[pos].token is Slash
        || toks[pos].token is Percent) {
        let op = if toks[pos].token is Star {
            BinOp::Mul
        } else if toks[pos].token is Slash {
            BinOp::Div
        } else {
            BinOp::Mod
        };
        match sp_unary(toks, pos + 1, depth) {
            Ok((r, p2)) => sp_term_more(
                toks,
                ExprS::BinOp(op, Box::new(acc), Box::new(r)),
                if pos + 1 < p2 && p2 <= toks.len() {
                    p2
                } else {
                    pos + 1
                },
                depth,
            ),
            Err(e) => Err(e),
        }
    } else {
        Ok((acc, pos))
    }
}

/// Expression: a left-associative chain of terms combined by `+`, `-`.
pub open spec fn sp_expr(toks: Seq<STok>, pos: int, depth: int) -> Result<(ExprS, int), ParseError>
    decreases toks.len() - pos, 4int,
    when 0 <= pos <= toks.len()
{
    if pos >= toks.len() {
        Err(perr_oob())
    } else {
        match sp_term(toks, pos, depth) {
            Ok((e, p1)) => sp_expr_more(
                toks,
                e,
                if pos < p1 && p1 <= toks.len() {
                    p1
                } else {
                    pos + 1
                },
                depth,
            ),
            Err(e) => Err(e),
        }
    }
}

pub open spec fn sp_expr_more(toks: Seq<STok>, acc: ExprS, pos: int, depth: int) -> Result<
    (ExprS, int),
    ParseError,
>
    decreases toks.len() - pos, 5int,
    when 0 <= pos <= toks.len()
{
    if 0 <= pos < toks.len() && (toks[pos].token is Plus || toks[pos].token is Minus) {
        let op = if toks[pos].token is Plus {
            BinOp::Add
        } else {
            BinOp::Sub
        };
        match sp_term(toks, pos + 1, depth) {
            Ok((r, p2)) => sp_expr_more(
                toks,
                ExprS::BinOp(op, Box::new(acc), Box::new(r)),
                if pos + 1 < p2 && p2 <= toks.len() {
                    p2
                } else {
                    pos + 1
                },
                depth,
            ),
            Err(e) => Err(e),
        }
    } else {
        Ok((acc, pos))
    }
}


/// A statement: `let IDENT = Expr ;`, `IDENT = Expr ;`, or `print Expr ;`;
/// any other leading token is a syntax error.
pub open spec fn sp_stmt(toks: Seq<STok>, pos: int) -> Result<(StmtS, int), ParseError>
    decreases toks.len() - pos, 6int,
    when 0 <= pos <= toks.len()
{
    if pos >= toks.len() {
        Err(perr_oob())
    } else {
        match toks[pos].token {
            Tok::Let => if pos + 1 >= toks.len() {
                Err(perr_oob())
            } else {
                match toks[pos + 1].token {
                    Tok::Ident(name) => if pos + 2 >= toks.len() {
                        Err(perr_oob())
                    } else if !(toks[pos + 2].token is Eq) {
                        Err(perr(toks[pos + 2], Expectation::Eq))
                    } else {
                        match sp_expr(toks, pos + 3, 0) {
                            Ok((e, p)) => if !(0 <= p < toks.len()) {
                                Err(perr_oob())
                            } else if toks[p].token is Semi {
                                Ok((StmtS::Let(name, e), p + 1))
                            } else {
                                Err(perr(toks[p], Expectation::Semi))
                            },
                            Err(e) => Err(e),
                        }
                    },
                    _ => Err(perr(toks[pos + 1], Expectation::Identifier)),
                }
            },
            Tok::Print => {
                match sp_expr(toks, pos + 1, 0) {
                    Ok((e, p)) => if !(0 <= p < toks.len()) {
                        Err(perr_oob())
                    } else if toks[p].token is Semi {
                        Ok((StmtS::Print(e), p + 1))
                    } else {
                        Err(perr(toks[p], Expectation::Semi))
                    },
                    Err(e) => Err(e),
                }
            },
            Tok::Ident(name) => if pos + 1 >= toks.len() {
                Err(perr_oob())
            } else if !(toks[pos + 1].token is Eq) {
                Err(perr(toks[pos + 1], Expectation::Eq))
            } else {
                match sp_expr(toks, pos + 2, 0) {
                    Ok((e, p)) => if !(0 <= p < toks.len()) {
                        Err(perr_oob())
                    } else if toks[p].token is Semi {
                        Ok((StmtS::Assign(name, e), p + 1))
                    } else {
                        Err(perr(toks[p], Expectation::Semi))
                    },
                    Err(e) => Err(e),
                }
            },
            _ => Err(perr(toks[pos], Expectation::Statement)),
        }
    }
}

/// A program: statements until the end-of-input marker.
pub open spec fn sp_program(toks: Seq<STok>, pos: int) -> Result<(Seq<StmtS>, int), ParseError>
    decreases toks.len() - pos, 7int,
    when 0 <= pos <= toks.len()
{
    if pos >= toks.len() {
        Err(perr_oob())
    } else if toks[pos].token is Eof {
        Ok((Seq::empty(), pos))
    } else {
        match sp_stmt(toks, pos) {
            Ok((st, p)) => match sp_program(
                toks,
                if pos < p && p <= toks.len() {
                    p
                } else {
                    pos + 1
                },
            ) {
                Ok((rest, p2)) => Ok((seq![st] + rest, p2)),
                Err(e) => Err(e),
            },
            Err(e) => Err(e),
        }
    }
}


/// A token sequence holding only the end-of-input marker — what a source of
/// nothing but whitespace and comments lexes to — parses to the empty
/// program, and the empty program prints nothing.
pub proof fn lemma_empty_program(toks: Seq<STok>)
    requires
        toks.len() > 0,
        toks[0].token is Eof,
    ensures
        sp_program(toks, 0) == Ok::<(Seq<StmtS>, int), ParseError>((Seq::empty(), 0int)),
        crate::ast::program_output(Seq::<Stmt>::empty()) == Some(Seq::<i64>::empty()),
{
    assert(crate::ast::run_stmts(Seq::<Stmt>::empty(), Map::<Seq<char>, i64>::empty()) == Some(
        (Map::<Seq<char>, i64>::empty(), Seq::<i64>::empty()),
    ));
}


proof fn lemma_atom_spans(t1: Seq<STok>, t2: Seq<STok>, pos: int, depth: int)
    requires
        same_tokens(t1, t2),
        0 <= pos <= t1.len(),
    ensures
        sp_atom(t1, pos, depth) is Ok <==> sp_atom(t2, pos, depth) is Ok,
        sp_atom(t1, pos, depth) matches Ok(v) ==> sp_atom(t2, pos, depth) == Ok::<
            (ExprS, int),
            ParseError,
        >(v),
    decreases t1.len() - pos, 0int,
{
    if pos < t1.len() {
        assert(t1[pos].token == t2[pos].token);
        match t1[pos].token {
            Tok::LParen => {
                if depth < MAX_NESTING_DEPTH {
                    lemma_expr_spans(t1, t2, pos + 1, depth + 1);
                    match sp_expr(t1, pos + 1, depth + 1) {
                        Ok((e, pos2)) => {
                            if 0 <= pos2 < t1.len() {
                                assert(t1[pos2].token == t2[pos2].token);
                            }
                        },
                        Err(_) => {},
                    }
                }
            },
            _ => {},
        }
    }
}

proof fn lemma_unary_spans(t1: Seq<STok>, t2: Seq<STok>, pos: int, depth: int)
    requires
        same_tokens(t1, t2),
        0 <= pos <= t1.len(),
    ensures
        sp_unary(t1, pos, depth) is Ok <==> sp_unary(t2, pos, depth) is Ok,
        sp_unary(t1, pos, depth) matches Ok(v) ==> sp_unary(t2, pos, depth) == Ok::<
            (ExprS, int),
            ParseError,
        >(v),
    decreases t1.len() - pos, 1int,
{
    if pos < t1.len() {
        assert(t1[pos].token == t2[pos].token);
        if t1[pos].token is Minus {
            if depth < MAX_NESTING_DEPTH {
                lemma_unary_spans(t1, t2, pos + 1, depth + 1);
            }
        } else {
            lemma_atom_spans(t1, t2, pos, depth);
        }
    }
}

proof fn lemma_term_spans(t1: Seq<STok>, t2: Seq<STok>, pos: int, depth: int)
    requires
        same_tokens(t1, t2),
        0 <= pos <= t1.len(),
    ensures
        sp_term(t1, pos, depth) is Ok <==> sp_term(t2, pos, depth) is Ok,
        sp_term(t1, pos, depth) matches Ok(v) ==> sp_term(t2, pos, depth) == Ok::<
            (ExprS, int),
            ParseError,
        >(v),
    decreases t1.len() - pos, 2int,
{
    if pos < t1.len() {
        lemma_unary_spans(t1, t2, pos, depth);
        match sp_unary(t1, pos, depth) {
            Ok((e, p1)) => {
                let p = if pos < p1 && p1 <= t1.len() {
                    p1
                } else {
                    pos + 1
                };
                lemma_term_more_spans(t1, t2, e, p, depth);
            },
            Err(_) => {},
        }
    }
}

proof fn lemma_term_more_spans(t1: Seq<STok>, t2: Seq<STok>, acc: ExprS, pos: int, depth: int)
    requires
        same_tokens(t1, t2),
        0 <= pos <= t1.len(),
    ensures
        sp_term_more(t1, acc, pos, depth) is Ok <==> sp_term_more(t2, acc, pos, depth) is Ok,
        sp_term_more(t1, acc, pos, depth) matches Ok(v) ==> sp_term_more(t2, acc, pos, depth)
            == Ok::<(ExprS, int), ParseError>(v),
    decreases t1.len() - pos, 3int,
{
    if pos < t1.len() {
        assert(t1[pos].token == t2[pos].token);
        if t1[pos].token is Star || t1[pos].token is Slash || t1[pos].token is Percent {
            let op = if t1[pos].token is Star {
                BinOp::Mul
            } else if t1[pos].token is Slash {
                BinOp::Div
            } else {
                BinOp::Mod
            };
            lemma_unary_spans(t1, t2, pos + 1, depth);
            match sp_unary(t1, pos + 1, depth) {
                Ok((r, p2)) => {
                    let p = if pos + 1 < p2 && p2 <= t1.len() {
                        p2
                    } else {
                        pos + 1
                    };
                    lemma_term_more_spans(
                        t1,
                        t2,
                        ExprS::BinOp(op, Box::new(acc), Box::new(r)),
                        p,
                        depth,
                    );
                },
                Err(_) => {},
            }
        }
    }
}

proof fn lemma_expr_spans(t1: Seq<STok>, t2: Seq<STok>, pos: int, depth: int)
    requires
        same_tokens(t1, t2),
        0 <= pos <= t1.len(),
    ensures
        sp_expr(t1, pos, depth) is Ok <==> sp_expr(t2, pos, depth) is Ok,
        sp_expr(t1, pos, depth) matches Ok(v) ==> sp_expr(t2, pos, depth) == Ok::<
            (ExprS, int),
            ParseError,
        >(v),
    decreases t1.len() - pos, 4int,
{
    if pos < t1.len() {
        lemma_term_spans(t1, t2, pos, depth);
        match sp_term(t1, pos, depth) {
            Ok((e, p1)) => {
                let p = if pos < p1 && p1 <= t1.len() {
                    p1
                } else {
                    pos + 1
                };
                lemma_expr_more_spans(t1, t2, e, p, depth);
            },
            Err(_) => {},
        }
    }
}

proof fn lemma_expr_more_spans(t1: Seq<STok>, t2: Seq<STok>, acc: ExprS, pos: int, depth: int)
    requires
        same_tokens(t1, t2),
        0 <= pos <= t1.len(),
    ensures
        sp_expr_more(t1, acc, pos, depth) is Ok <==> sp_expr_more(t2, acc, pos, depth) is Ok,
        sp_expr_more(t1, acc, pos, depth) matches Ok(v) ==> sp_expr_more(t2, acc, pos, depth)
            == Ok::<(ExprS, int), ParseError>(v),
    decreases t1.len() - pos, 5int,
{
    if pos < t1.len() {
        assert(t1[pos].token == t2[pos].token);
        if t1[pos].token is Plus || t1[pos].token is Minus {
            let op = if t1[pos].token is Plus {
                BinOp::Add
            } else {
                BinOp::Sub
            };
            lemma_term_spans(t1, t2, pos + 1, depth);
            match sp_term(t1, pos + 1, depth) {
                Ok((r, p2)) => {
                    let p = if pos + 1 < p2 && p2 <= t1.len() {
                        p2
                    } else {
                        pos + 1
                    };
                    lemma_expr_more_spans(
                        t1,
                        t2,
                        ExprS::BinOp(op, Box::new(acc), Box::new(r)),
                        p,
                        depth,
                    );
                },
                Err(_) => {},
            }
        }
    }
}

proof fn lemma_stmt_spans(t1: Seq<STok>, t2: Seq<STok>, pos: int)
    requires
        same_tokens(t1, t2),
        0 <= pos <= t1.len(),
    ensures
        sp_stmt(t1, pos) is Ok <==> sp_stmt(t2, pos) is Ok,
        sp_stmt(t1, pos) matches Ok(v) ==> sp_stmt(t2, pos) == Ok::<(StmtS, int), ParseError>(v),
    decreases t1.len() - pos, 6int,
{
    if pos < t1.len() {
        assert(t1[pos].token == t2[pos].token);
        match t1[pos].token {
            Tok::Let => {
                if pos + 1 < t1.len() {
                    assert(t1[pos + 1].token == t2[pos + 1].token);
                    match t1[pos + 1].token {
                        Tok::Ident(name) => {
                            if pos + 2 < t1.len() {
                                assert(t1[pos + 2].token == t2[pos + 2].token);
                                if t1[pos + 2].token is Eq {
                                    lemma_expr_spans(t1, t2, pos + 3, 0);
                                    match sp_expr(t1, pos + 3, 0) {
                                        Ok((e, p)) => {
                                            if 0 <= p < t1.len() {
                                                assert(t1[p].token == t2[p].token);
                                            }
                                        },
                                        Err(_) => {},
                                    }
                                }
                            }
                        },
                        _ => {},
                    }
                }
            },
            Tok::Print => {
                lemma_expr_spans(t1, t2, pos + 1, 0);
                match sp_expr(t1, pos + 1, 0) {
                    Ok((e, p)) => {
                        if 0 <= p < t1.len() {
                            assert(t1[p].token == t2[p].token);
                        }
                    },
                    Err(_) => {},
                }
            },
            Tok::Ident(name) => {
                if pos + 1 < t1.len() {
                    assert(t1[pos + 1].token == t2[pos + 1].token);
                    if t1[pos + 1].token is Eq {
                        lemma_expr_spans(t1, t2, pos + 2, 0);
                        match sp_expr(t1, pos + 2, 0) {
                            Ok((e, p)) => {
                                if 0 <= p < t1.len() {
                                    assert(t1[p].token == t2[p].token);
                                }
                            },
                            Err(_) => {},
                        }
                    }
                }
            },
            _ => {},
        }
    }
}

/// Two token sequences that agree token for token parse to the same
/// program, or both fail to parse. Since whitespace, comments and layout
/// influence only the tokens' recorded positions, never the tokens
/// themselves, trivia between tokens cannot change what a source means —
/// positions feed diagnostics alone.
pub proof fn lemma_layout_does_not_change_parse(t1: Seq<STok>, t2: Seq<STok>, pos: int)
    requires
        same_tokens(t1, t2),
        0 <= pos <= t1.len(),
    ensures
        sp_program(t1, pos) is Ok <==> sp_program(t2, pos) is Ok,
        sp_program(t1, pos) matches Ok(v) ==> sp_program(t2, pos) == Ok::<
            (Seq<StmtS>, int),
            ParseError,
        >(v),
    decreases t1.len() - pos, 7int,
{
    if pos < t1.len() {
        assert(t1[pos].token == t2[pos].token);
        if !(t1[pos].token is Eof) {
            lemma_stmt_spans(t1, t2, pos);
            match sp_stmt(t1, pos) {
                Ok((st, p)) => {
                    let p2 = if pos < p && p <= t1.len() {
                        p
                    } else {
                        pos + 1
                    };
                    lemma_layout_does_not_change_parse(t1, t2, p2);
                },
                Err(_) => {},
            }
        }
    }
}


pub open spec fn low_op(t: Tok) -> BinOp {
    if t is Plus {
        BinOp::Add
    } else {
        BinOp::Sub
    }
}

pub open spec fn high_op(t: Tok) -> BinOp {
    if t is Star {
        BinOp::Mul
    } else if t is Slash {
        BinOp::Div
    } else {
        BinOp::Mod
    }
}

/// Multiplication, division and remainder bind tighter than addition and
/// subtraction: for all literal values and operator choices, `a lo b hi c`
/// parses with the high-precedence operation grouped on the right.
pub proof fn lemma_high_ops_bind_tighter(
    toks: Seq<STok>,
    ta: Seq<char>,
    tb: Seq<char>,
    tc: Seq<char>,
    va: i64,
    vb: i64,
    vc: i64,
)
    requires
        toks.len() == 6,
        toks[0].token == Tok::IntLit(ta) && lit_val(ta) == Some(va),
        toks[1].token is Plus || toks[1].token is Minus,
        toks[2].token == Tok::IntLit(tb) && lit_val(tb) == Some(vb),
        toks[3].token is Star || toks[3].token is Slash || toks[3].token is Percent,
        toks[4].token == Tok::IntLit(tc) && lit_val(tc) == Some(vc),
        toks[5].token is Eof,
    ensures
        sp_expr(toks, 0, 0) == Ok::<(ExprS, int), ParseError>(
            (
                ExprS::BinOp(
                    low_op(toks[1].token),
                    Box::new(ExprS::IntLit(va)),
                    Box::new(
                        ExprS::BinOp(
                            high_op(toks[3].token),
                            Box::new(ExprS::IntLit(vb)),
                            Box::new(ExprS::IntLit(vc)),
                        ),
                    ),
                ),
                5int,
            ),
        ),
{
    let ea = ExprS::IntLit(va);
    let eb = ExprS::IntLit(vb);
    let ec = ExprS::IntLit(vc);
    let hi = ExprS::BinOp(high_op(toks[3].token), Box::new(eb), Box::new(ec));
    assert(sp_atom(toks, 0, 0) == Ok::<(ExprS, int), ParseError>((ea, 1int)));
    assert(sp_unary(toks, 0, 0) == Ok::<(ExprS, int), ParseError>((ea, 1int)));
    assert(sp_term_more(toks, ea, 1, 0) == Ok::<(ExprS, int), ParseError>((ea, 1int)));
    assert(sp_term(toks, 0, 0) == Ok::<(ExprS, int), ParseError>((ea, 1int)));
    assert(sp_atom(toks, 2, 0) == Ok::<(ExprS, int), ParseError>((eb, 3int)));
    assert(sp_unary(toks, 2, 0) == Ok::<(ExprS, int), ParseError>((eb, 3int)));
    assert(sp_atom(toks, 4, 0) == Ok::<(ExprS, int), ParseError>((ec, 5int)));
    assert(sp_unary(toks, 4, 0) == Ok::<(ExprS, int), ParseError>((ec, 5int)));
    assert(sp_term_more(toks, hi, 5, 0) == Ok::<(ExprS, int), ParseError>((hi, 5int)));
    assert(sp_term_more(toks, eb, 3, 0) == Ok::<(ExprS, int), ParseError>((hi, 5int)));
    assert(sp_term(toks, 2, 0) == Ok::<(ExprS, int), ParseError>((hi, 5int)));
    let top = ExprS::BinOp(low_op(toks[1].token), Box::new(ea), Box::new(hi));
    assert(sp_expr_more(toks, top, 5, 0) == Ok::<(ExprS, int), ParseError>((top, 5int)));
    assert(sp_expr_more(toks, ea, 1, 0) == Ok::<(ExprS, int), ParseError>((top, 5int)));
    assert(sp_expr(toks, 0, 0) == Ok::<(ExprS, int), ParseError>((top, 5int)));
}

/// Operators of one precedence level associate left-to-right: for all
/// literal values and same-level operator choices, `a op1 b op2 c` parses
/// with the first operation grouped on the left.
pub proof fn lemma_low_ops_associate_left(
    toks: Seq<STok>,
    ta: Seq<char>,
    tb: Seq<char>,
    tc: Seq<char>,
    va: i64,
    vb: i64,
    vc: i64,
)
    requires
        toks.len() == 6,
        toks[0].token == Tok::IntLit(ta) && lit_val(ta) == Some(va),
        toks[1].token is Plus || toks[1].token is Minus,
        toks[2].token == Tok::IntLit(tb) && lit_val(tb) == Some(vb),
        toks[3].token is Plus || toks[3].token is Minus,
        toks[4].token == Tok::IntLit(tc) && lit_val(tc) == Some(vc),
        toks[5].token is Eof,
    ensures
        sp_expr(toks, 0, 0) == Ok::<(ExprS, int), ParseError>(
            (
                ExprS::BinOp(
                    low_op(toks[3].token),
                    Box::new(
                        ExprS::BinOp(
                            low_op(toks[1].token),
                            Box::new(ExprS::IntLit(va)),
                            Box::new(ExprS::IntLit(vb)),
                        ),
                    ),
                    Box::new(ExprS::IntLit(vc)),
                ),
                5int,
            ),
        ),
{
    let ea = ExprS::IntLit(va);
    let eb = ExprS::IntLit(vb);
    let ec = ExprS::IntLit(vc);
    assert(sp_atom(toks, 0, 0) == Ok::<(ExprS, int), ParseError>((ea, 1int)));
    assert(sp_unary(toks, 0, 0) == Ok::<(ExprS, int), ParseError>((ea, 1int)));
    assert(sp_term_more(toks, ea, 1, 0) == Ok::<(ExprS, int), ParseError>((ea, 1int)));
    assert(sp_term(toks, 0, 0) == Ok::<(ExprS, int), ParseError>((ea, 1int)));
    assert(sp_atom(toks, 2, 0) == Ok::<(ExprS, int), ParseError>((eb, 3int)));
    assert(sp_unary(toks, 2, 0) == Ok::<(ExprS, int), ParseError>((eb, 3int)));
    assert(sp_term_more(toks, eb, 3, 0) == Ok::<(ExprS, int), ParseError>((eb, 3int)));
    assert(sp_term(toks, 2, 0) == Ok::<(ExprS, int), ParseError>((eb, 3int)));
    assert(sp_atom(toks, 4, 0) == Ok::<(ExprS, int), ParseError>((ec, 5int)));
    assert(sp_unary(toks, 4, 0) == Ok::<(ExprS, int), ParseError>((ec, 5int)));
    assert(sp_term_more(toks, ec, 5, 0) == Ok::<(ExprS, int), ParseError>((ec, 5int)));
    assert(sp_term(toks, 4, 0) == Ok::<(ExprS, int), ParseError>((ec, 5int)));
    let left = ExprS::BinOp(low_op(toks[1].token), Box::new(ea), Box::new(eb));
    let top = ExprS::BinOp(low_op(toks[3].token), Box::new(left), Box::new(ec));
    assert(sp_expr_more(toks, top, 5, 0) == Ok::<(ExprS, int), ParseError>((top, 5int)));
    assert(sp_expr_more(toks, left, 3, 0) == Ok::<(ExprS, int), ParseError>((top, 5int)));
    assert(sp_expr_more(toks, ea, 1, 0) == Ok::<(ExprS, int), ParseError>((top, 5int)));
    assert(sp_expr(toks, 0, 0) == Ok::<(ExprS, int), ParseError>((top, 5int)));
}

/// Unary minus binds tighter than every binary operator, and chains
/// right-recursively: for all literal values, `- - a hi b` parses as the
/// doubly negated left operand combined with the right operand.
pub proof fn lemma_unary_minus_binds_tightest(
    toks: Seq<STok>,
    ta: Seq<char>,
    tb: Seq<char>,
    va: i64,
    vb: i64,
)
    requires
        toks.len() == 6,
        toks[0].token is Minus,
        toks[1].token is Minus,
        toks[2].token == Tok::IntLit(ta) && lit_val(ta) == Some(va),
        toks[3].token is Star || toks[3].token is Slash || toks[3].token is Percent,
        toks[4].token == Tok::IntLit(tb) && lit_val(tb) == Some(vb),
        toks[5].token is Eof,
    ensures
        sp_expr(toks, 0, 0) == Ok::<(ExprS, int), ParseError>(
            (
                ExprS::BinOp(
                    high_op(toks[3].token),
                    Box::new(
                        ExprS::UnaryMinus(
                            Box::new(ExprS::UnaryMinus(Box::new(ExprS::IntLit(va)))),
                        ),
                    ),
                    Box::new(ExprS::IntLit(vb)),
                ),
                5int,
            ),
        ),
{
    let ea = ExprS::IntLit(va);
    let eb = ExprS::IntLit(vb);
    assert(sp_atom(toks, 2, 2) == Ok::<(ExprS, int), ParseError>((ea, 3int)));
    assert(sp_unary(toks, 2, 2) == Ok::<(ExprS, int), ParseError>((ea, 3int)));
    let n1 = ExprS::UnaryMinus(Box::new(ea));
    let n2 = ExprS::UnaryMinus(Box::new(n1));
    assert(sp_unary(toks, 1, 1) == Ok::<(ExprS, int), ParseError>((n1, 3int)));
    assert(sp_unary(toks, 0, 0) == Ok::<(ExprS, int), ParseError>((n2, 3int)));
    assert(sp_atom(toks, 4, 0) == Ok::<(ExprS, int), ParseError>((eb, 5int)));
    assert(sp_unary(toks, 4, 0) == Ok::<(ExprS, int), ParseError>((eb, 5int)));
    let top = ExprS::BinOp(high_op(toks[3].token), Box::new(n2), Box::new(eb));
    assert(sp_term_more(toks, top, 5, 0) == Ok::<(ExprS, int), ParseError>((top, 5int)));
    assert(sp_term_more(toks, n2, 3, 0) == Ok::<(ExprS, int), ParseError>((top, 5int)));
    assert(sp_term(toks, 0, 0) == Ok::<(ExprS, int), ParseError>((top, 5int)));
    assert(sp_expr_more(toks, top, 5, 0) == Ok::<(ExprS, int), ParseError>((top, 5int)));
    assert(sp_expr(toks, 0, 0) == Ok::<(ExprS, int), ParseError>((top, 5int)));
}

/// Parentheses override precedence: for all literal values and operator
/// choices, `( a lo b ) hi c` parses with the low-precedence operation
/// grouped first.
pub proof fn lemma_parentheses_override_precedence(
    toks: Seq<STok>,
    ta: Seq<char>,
    tb: Seq<char>,
    tc: Seq<char>,
    va: i64,
    vb: i64,
    vc: i64,
)
    requires
        toks.len() == 8,
        toks[0].token is LParen,
        toks[1].token == Tok::IntLit(ta) && lit_val(ta) == Some(va),
        toks[2].token is Plus || toks[2].token is Minus,
        toks[3].token == Tok::IntLit(tb) && lit_val(tb) == Some(vb),
        toks[4].token is RParen,
        toks[5].token is Star || toks[5].token is Slash || toks[5].token is Percent,
        toks[6].token == Tok::IntLit(tc) && lit_val(tc) == Some(vc),
        toks[7].token is Eof,
    ensures
        sp_expr(toks, 0, 0) == Ok::<(ExprS, int), ParseError>(
            (
                ExprS::BinOp(
                    high_op(toks[5].token),
                    Box::new(
                        ExprS::BinOp(
                            low_op(toks[2].token),
                            Box::new(ExprS::IntLit(va)),
                            Box::new(ExprS::IntLit(vb)),
                        ),
                    ),
                    Box::new(ExprS::IntLit(vc)),
                ),
                7int,
            ),
        ),
{
    let ea = ExprS::IntLit(va);
    let eb = ExprS::IntLit(vb);
    let ec = ExprS::IntLit(vc);
    // The parenthesized expression: `a lo b` up to the closing parenthesis.
    assert(sp_atom(toks, 1, 1) == Ok::<(ExprS, int), ParseError>((ea, 2int)));
    assert(sp_unary(toks, 1, 1) == Ok::<(ExprS, int), ParseError>((ea, 2int)));
    assert(sp_term_more(toks, ea, 2, 1) == Ok::<(ExprS, int), ParseError>((ea, 2int)));
    assert(sp_term(toks, 1, 1) == Ok::<(ExprS, int), ParseError>((ea, 2int)));
    assert(sp_atom(toks, 3, 1) == Ok::<(ExprS, int), ParseError>((eb, 4int)));
    assert(sp_unary(toks, 3, 1) == Ok::<(ExprS, int), ParseError>((eb, 4int)));
    assert(sp_term_more(toks, eb, 4, 1) == Ok::<(ExprS, int), ParseError>((eb, 4int)));
    assert(sp_term(toks, 3, 1) == Ok::<(ExprS, int), ParseError>((eb, 4int)));
    let inner = ExprS::BinOp(low_op(toks[2].token), Box::new(ea), Box::new(eb));
    assert(sp_expr_more(toks, inner, 4, 1) == Ok::<(ExprS, int), ParseError>((inner, 4int)));
    assert(sp_expr_more(toks, ea, 2, 1) == Ok::<(ExprS, int), ParseError>((inner, 4int)));
    assert(sp_expr(toks, 1, 1) == Ok::<(ExprS, int), ParseError>((inner, 4int)));
    assert(sp_atom(toks, 0, 0) == Ok::<(ExprS, int), ParseError>((inner, 5int)));
    assert(sp_unary(toks, 0, 0) == Ok::<(ExprS, int), ParseError>((inner, 5int)));
    // The surrounding term applies the high-precedence operator to it.
    assert(sp_atom(toks, 6, 0) == Ok::<(ExprS, int), ParseError>((ec, 7int)));
    assert(sp_unary(toks, 6, 0) == Ok::<(ExprS, int), ParseError>((ec, 7int)));
    let top = ExprS::BinOp(high_op(toks[5].token), Box::new(inner), Box::new(ec));
    assert(sp_term_more(toks, top, 7, 0) == Ok::<(ExprS, int), ParseError>((top, 7int)));
    assert(sp_term_more(toks, inner, 5, 0) == Ok::<(ExprS, int), ParseError>((top, 7int)));
    assert(sp_term(toks, 0, 0) == Ok::<(ExprS, int), ParseError>((top, 7int)));
    assert(sp_expr_more(toks, top, 7, 0) == Ok::<(ExprS, int), ParseError>((top, 7int)));
    assert(sp_expr(toks, 0, 0) == Ok::<(ExprS, int), ParseError>((top, 7int)));
}

pub struct Parser {
    tokens: Vec<SpannedToken>,
    pos: usize,
}

impl Parser {
    pub closed spec fn toks(self) -> Seq<STok> {
        tokens_view(self.tokens@)
    }

    pub closed spec fn posn(self) -> int {
        self.pos as int
    }

    /// The cursor stays on a token, and the sequence ends with the
    /// end-of-input marker, which is never consumed.
    pub closed spec fn wf(self) -> bool {
        &&& self.pos < self.tokens@.len()
        &&& self.tokens@.len() > 0
        &&& self.toks().last().token is Eof
    }

    pub fn new(tokens: Vec<SpannedToken>) -> (p: Parser)
        requires
            tokens@.len() > 0,
            tokens@.last().token is Eof,
        ensures
            p.wf(),
            p.toks() == tokens_view(tokens@),
            p.posn() == 0,
    {
        let p = Parser { tokens, pos: 0 };
        proof {
            assert(p.toks().last() == p.tokens@.last()@);
        }
        p
    }

    fn peek(&self) -> (r: &Token)
        requires
            self.wf(),
        ensures
            r@ == self.toks()[self.posn()].token,
    {
        &self.tokens[self.pos].token
    }

    fn current_span(&self) -> (r: (usize, usize))
        requires
            self.wf(),
        ensures
            r.0 as int == self.toks()[self.posn()].line,
            r.1 as int == self.toks()[self.posn()].col,
    {
        let t = &self.tokens[self.pos];
        (t.line, t.col)
    }

    /// The parse error positioned at the current token, recording what was
    /// expected there and what stands there instead.
    fn error_here(&self, expected: Expectation) -> (r: ParseError)
        requires
            self.wf(),
        ensures
            r == perr(self.toks()[self.posn()], expected),
    {
        let (line, col) = self.current_span();
        let found = kind_of(self.peek());
        ParseError { line, col, expected, found }
    }

    fn advance(&mut self)
        requires
            old(self).wf(),
            !(old(self).toks()[old(self).posn()].token is Eof),
        ensures
            final(self).wf(),
            final(self).toks() == old(self).toks(),
            final(self).posn() == old(self).posn() + 1,
    {
        proof {
            assert(self.toks()[self.posn()] == self.tokens@[self.pos as int]@);
            assert(self.toks().last() == self.tokens@.last()@);
            assert(self.pos as int != self.tokens@.len() - 1);
        }
        let n = self.tokens.len();
        proof {
            assert(self.pos < n);
        }
        self.pos = self.pos + 1;
    }

    fn parse_atom(&mut self, depth: usize) -> (r: Result<Expr, ParseError>)
        requires
            old(self).wf(),
        ensures
            final(self).wf(),
            final(self).toks() == old(self).toks(),
            final(self).posn() >= old(self).posn(),
            match r {
                Ok(e) => sp_atom(old(self).toks(), old(self).posn(), depth as int) == Ok::<
                    _,
                    ParseError,
                >((expr_view(e), final(self).posn())) && final(self).posn() > old(self).posn(),
                Err(pe) => sp_atom(old(self).toks(), old(self).posn(), depth as int) == Err::<
                    (ExprS, int),
                    _,
                >(pe),
            },
        decreases old(self).toks().len() - old(self).posn(), 0nat,
    {
        let err_range = self.error_here(Expectation::LiteralInRange);
        let err_depth = self.error_here(Expectation::NestingDepth);
        let err_expr = self.error_here(Expectation::Expression);
        match self.peek() {
            Token::IntLit(_) => {
                let text = match self.peek() {
                    Token::IntLit(s) => s.clone(),
                    _ => unreached(),
                };
                match parse_literal(&text) {
                    Some(v) => {
                        self.advance();
                        Ok(Expr::IntLit(v))
                    },
                    None => Err(err_range),
                }
            },
            Token::Ident(_) => {
                let name = match self.peek() {
                    Token::Ident(s) => s.clone(),
                    _ => unreached(),
                };
                self.advance();
                Ok(Expr::Var(name))
            },
            Token::LParen => {
                if depth >= MAX_NESTING_DEPTH {
                    return Err(err_depth);
                }
                self.advance();
                let inner = match self.parse_expr(depth + 1) {
                    Ok(e) => e,
                    Err(pe) => {
                        return Err(pe);
                    },
                };
                let close_err = self.error_here(Expectation::RParen);
                match self.peek() {
                    Token::RParen => {
                        self.advance();
                        Ok(inner)
                    },
                    _ => Err(close_err),
                }
            },
            _ => Err(err_expr),
        }
    }

    fn parse_unary(&mut self, depth: usize) -> (r: Result<Expr, ParseError>)
        requires
            old(self).wf(),
        ensures
            final(self).wf(),
            final(self).toks() == old(self).toks(),
            final(self).posn() >= old(self).posn(),
            match r {
                Ok(e) => sp_unary(old(self).toks(), old(self).posn(), depth as int) == Ok::<
                    _,
                    ParseError,
                >((expr_view(e), final(self).posn())) && final(self).posn() > old(self).posn(),
                Err(pe) => sp_unary(old(self).toks(), old(self).posn(), depth as int) == Err::<
                    (ExprS, int),
                    _,
                >(pe),
            },
        decreases old(self).toks().len() - old(self).posn(), 1nat,
    {
        let is_minus = matches!(self.peek(), Token::Minus);
        if is_minus {
            if depth >= MAX_NESTING_DEPTH {
                return Err(self.error_here(Expectation::NestingDepth));
            }
            self.advance();
            match self.parse_unary(depth + 1) {
                Ok(e) => Ok(Expr::UnaryMinus(Box::new(e))),
                Err(pe) => Err(pe),
            }
        } else {
            self.parse_atom(depth)
        }
    }

    fn parse_term(&mut self, depth: usize) -> (r: Result<Expr, ParseError>)
        requires
            old(self).wf(),
        ensures
            final(self).wf(),
            final(self).toks() == old(self).toks(),
            final(self).posn() >= old(self).posn(),
            match r {
                Ok(e) => sp_term(old(self).toks(), old(self).posn(), depth as int) == Ok::<
                    _,
                    ParseError,
                >((expr_view(e), final(self).posn())) && final(self).posn() > old(self).posn(),
                Err(pe) => sp_term(old(self).toks(), old(self).posn(), depth as int) == Err::<
                    (ExprS, int),
                    _,
                >(pe),
            },
        decreases old(self).toks().len() - old(self).posn(), 2nat,
    {
        let ghost toks = self.toks();
        let ghost pos0 = self.posn();
        let mut left = match self.parse_unary(depth) {
            Ok(e) => e,
            Err(pe) => {
                return Err(pe);
            },
        };
        loop
            invariant
                self.wf(),
                self.toks() == toks,
                toks == old(self).toks(),
                pos0 == old(self).posn(),
                self.posn() > pos0,
                sp_term(toks, pos0, depth as int) == sp_term_more(
                    toks,
                    expr_view(left),
                    self.posn(),
                    depth as int,
                ),
            ensures
                self.wf(),
                self.toks() == toks,
                self.posn() > pos0,
                sp_term(toks, pos0, depth as int) == Ok::<_, ParseError>(
                    (expr_view(left), self.posn()),
                ),
            decreases toks.len() - self.posn(),
        {
            let op = match self.peek() {
                Token::Star => BinOp::Mul,
                Token::Slash => BinOp::Div,
                Token::Percent => BinOp::Mod,
                _ => {
                    break;
                },
            };
            self.advance();
            let right = match self.parse_unary(depth) {
                Ok(e) => e,
                Err(pe) => {
                    return Err(pe);
                },
            };
            left = Expr::BinOp { op, left: Box::new(left), right: Box::new(right) };
        }
        Ok(left)
    }

    fn parse_expr(&mut self, depth: usize) -> (r: Result<Expr, ParseError>)
        requires
            old(self).wf(),
        ensures
            final(self).wf(),
            final(self).toks() == old(self).toks(),
            final(self).posn() >= old(self).posn(),
            match r {
                Ok(e) => sp_expr(old(self).toks(), old(self).posn(), depth as int) == Ok::<
                    _,
                    ParseError,
                >((expr_view(e), final(self).posn())) && final(self).posn() > old(self).posn(),
                Err(pe) => sp_expr(old(self).toks(), old(self).posn(), depth as int) == Err::<
                    (ExprS, int),
                    _,
                >(pe),
            },
        decreases old(self).toks().len() - old(self).posn(), 4nat,
    {
        let ghost toks = self.toks();
        let ghost pos0 = self.posn();
        let mut left = match self.parse_term(depth) {
            Ok(e) => e,
            Err(pe) => {
                return Err(pe);
            },
        };
        loop
            invariant
                self.wf(),
                self.toks() == toks,
                toks == old(self).toks(),
                pos0 == old(self).posn(),
                self.posn() > pos0,
                sp_expr(toks, pos0, depth as int) == sp_expr_more(
                    toks,
                    expr_view(left),
                    self.posn(),
                    depth as int,
                ),
            ensures
                self.wf(),
                self.toks() == toks,
                self.posn() > pos0,
                sp_expr(toks, pos0, depth as int) == Ok::<_, ParseError>(
                    (expr_view(left), self.posn()),
                ),
            decreases toks.len() - self.posn(),
        {
            let op = match self.peek() {
                Token::Plus => BinOp::Add,
                Token::Minus => BinOp::Sub,
                _ => {
                    break;
                },
            };
            self.advance();
            let right = match self.parse_term(depth) {
                Ok(e) => e,
                Err(pe) => {
                    return Err(pe);
                },
            };
            left = Expr::BinOp { op, left: Box::new(left), right: Box::new(right) };
        }
        Ok(left)
    }

    fn parse_stmt(&mut self) -> (r: Result<Stmt, ParseError>)
        requires
            old(self).wf(),
        ensures
            final(self).wf(),
            final(self).toks() == old(self).toks(),
            final(self).posn() >= old(self).posn(),
            match r {
                Ok(st) => sp_stmt(old(self).toks(), old(self).posn()) == Ok::<_, ParseError>(
                    (stmt_view(st), final(self).posn()),
                ) && final(self).posn() > old(self).posn(),
                Err(pe) => sp_stmt(old(self).toks(), old(self).posn()) == Err::<(StmtS, int), _>(
                    pe,
                ),
            },
    {
        let kind: u8 = match self.peek() {
            Token::Let => 0,
            Token::Print => 1,
            Token::Ident(_) => 2,
            _ => 3,
        };
        if kind == 0 {
            self.parse_let()
        } else if kind == 1 {
            self.parse_print()
        } else if kind == 2 {
            self.parse_assign()
        } else {
            Err(self.error_here(Expectation::Statement))
        }
    }

    fn parse_let(&mut self) -> (r: Result<Stmt, ParseError>)
        requires
            old(self).wf(),
            old(self).toks()[old(self).posn()].token is Let,
        ensures
            final(self).wf(),
            final(self).toks() == old(self).toks(),
            final(self).posn() >= old(self).posn(),
            match r {
                Ok(st) => sp_stmt(old(self).toks(), old(self).posn()) == Ok::<_, ParseError>(
                    (stmt_view(st), final(self).posn()),
                ) && final(self).posn() > old(self).posn(),
                Err(pe) => sp_stmt(old(self).toks(), old(self).posn()) == Err::<(StmtS, int), _>(
                    pe,
                ),
            },
    {
        self.advance();
        let ident_err = self.error_here(Expectation::Identifier);
        let name = match self.peek() {
            Token::Ident(_) => {
                match self.peek() {
                    Token::Ident(s) => s.clone(),
                    _ => unreached(),
                }
            },
            _ => {
                return Err(ident_err);
            },
        };
        self.advance();
        let eq_err = self.error_here(Expectation::Eq);
        match self.peek() {
            Token::Eq => {
                self.advance();
            },
            _ => {
                return Err(eq_err);
            },
        }
        let expr = match self.parse_expr(0) {
            Ok(e) => e,
            Err(pe) => {
                return Err(pe);
            },
        };
        let semi_err = self.error_here(Expectation::Semi);
        match self.peek() {
            Token::Semi => {
                self.advance();
            },
            _ => {
                return Err(semi_err);
            },
        }
        Ok(Stmt::Let { name, expr })
    }

    fn parse_assign(&mut self) -> (r: Result<Stmt, ParseError>)
        requires
            old(self).wf(),
            old(self).toks()[old(self).posn()].token is Ident,
        ensures
            final(self).wf(),
            final(self).toks() == old(self).toks(),
            final(self).posn() >= old(self).posn(),
            match r {
                Ok(st) => sp_stmt(old(self).toks(), old(self).posn()) == Ok::<_, ParseError>(
                    (stmt_view(st), final(self).posn()),
                ) && final(self).posn() > old(self).posn(),
                Err(pe) => sp_stmt(old(self).toks(), old(self).posn()) == Err::<(StmtS, int), _>(
                    pe,
                ),
            },
    {
        let name = match self.peek() {
            Token::Ident(s) => s.clone(),
            _ => unreached(),
        };
        self.advance();
        let eq_err = self.error_here(Expectation::Eq);
        match self.peek() {
            Token::Eq => {
                self.advance();
            },
            _ => {
                return Err(eq_err);
            },
        }
        let expr = match self.parse_expr(0) {
            Ok(e) => e,
            Err(pe) => {
                return Err(pe);
            },
        };
        let semi_err = self.error_here(Expectation::Semi);
        match self.peek() {
            Token::Semi => {
                self.advance();
            },
            _ => {
                return Err(semi_err);
            },
        }
        Ok(Stmt::Assign { name, expr })
    }

    fn parse_print(&mut self) -> (r: Result<Stmt, ParseError>)
        requires
            old(self).wf(),
            old(self).toks()[old(self).posn()].token is Print,
        ensures
            final(self).wf(),
            final(self).toks() == old(self).toks(),
            final(self).posn() >= old(self).posn(),
            match r {
                Ok(st) => sp_stmt(old(self).toks(), old(self).posn()) == Ok::<_, ParseError>(
                    (stmt_view(st), final(self).posn()),
                ) && final(self).posn() > old(self).posn(),
                Err(pe) => sp_stmt(old(self).toks(), old(self).posn()) == Err::<(StmtS, int), _>(
                    pe,
                ),
            },
    {
        self.advance();
        let expr = match self.parse_expr(0) {
            Ok(e) => e,
            Err(pe) => {
                return Err(pe);
            },
        };
        let semi_err = self.error_here(Expectation::Semi);
        match self.peek() {
            Token::Semi => {
                self.advance();
            },
            _ => {
                return Err(semi_err);
            },
        }
        Ok(Stmt::Print { expr })
    }

    /// Parses a sequence of statements terminated by the end-of-input
    /// marker: exactly `sp_program`. An empty token stream (only the marker)
    /// yields an empty program, which is valid.
    #[verifier::rlimit(100)]
    #[verifier::spinoff_prover]
    pub fn parse_program(&mut self) -> (r: Result<Vec<Stmt>, ParseError>)
        requires
            old(self).wf(),
        ensures
            match r {
                Ok(v) => sp_program(old(self).toks(), old(self).posn()) matches Ok((ss, _))
                    && ss == stmts_view(v@),
                Err(pe) => sp_program(old(self).toks(), old(self).posn()) == Err::<
                    (Seq<StmtS>, int),
                    _,
                >(pe),
            },
    {
        let ghost toks = self.toks();
        let ghost pos0 = self.posn();
        let mut stmts: Vec<Stmt> = Vec::new();
        proof {
            assert forall|rest: Seq<StmtS>| stmts_view(stmts@) + rest =~= rest by {}
        }
        loop
            invariant
                self.wf(),
                self.toks() == toks,
                toks == old(self).toks(),
                pos0 == old(self).posn(),
                0 <= pos0,
                self.posn() >= pos0,
                sp_program(toks, pos0) == (match sp_program(toks, self.posn()) {
                    Ok((rest, p2)) => Ok::<(Seq<StmtS>, int), ParseError>(
                        (stmts_view(stmts@) + rest, p2),
                    ),
                    Err(e) => Err(e),
                }),
            ensures
                self.wf(),
                sp_program(toks, pos0) matches Ok((ss, _)) && ss == stmts_view(stmts@),
            decreases toks.len() - self.posn(),
        {
            let at_eof = matches!(self.peek(), Token::Eof);
            if at_eof {
                proof {
                    assert(sp_program(toks, self.posn()) == Ok::<(Seq<StmtS>, int), ParseError>(
                        (Seq::empty(), self.posn()),
                    ));
                    assert(stmts_view(stmts@) + Seq::<StmtS>::empty() =~= stmts_view(stmts@));
                }
                break;
            }
            let ghost toks_pre = stmts@;
            let ghost p_pre = self.posn();
            let st = match self.parse_stmt() {
                Ok(st) => st,
                Err(pe) => {
                    return Err(pe);
                },
            };
            stmts.push(st);
            proof {
                assert(stmts_view(stmts@) =~= stmts_view(toks_pre).push(stmt_view(st)));
                assert forall|rest: Seq<StmtS>|
                    stmts_view(toks_pre) + (seq![stmt_view(st)] + rest) =~= stmts_view(stmts@)
                        + rest by {}
            }
        }
        Ok(stmts)
    }
}


/// The shape of a token, for diagnostics.
fn kind_of(t: &Token) -> (r: TokenKind)
    ensures
        r == tok_kind(t@),
{
    match t {
        Token::Let => TokenKind::Let,
        Token::Print => TokenKind::Print,
        Token::Ident(_) => TokenKind::Ident,
        Token::IntLit(_) => TokenKind::IntLit,
        Token::Plus => TokenKind::Plus,
        Token::Minus => TokenKind::Minus,
        Token::Star => TokenKind::Star,
        Token::Slash => TokenKind::Slash,
        Token::Percent => TokenKind::Percent,
        Token::Eq => TokenKind::Eq,
        Token::Semi => TokenKind::Semi,
        Token::LParen => TokenKind::LParen,
        Token::RParen => TokenKind::RParen,
        Token::Eof => TokenKind::Eof,
    }
}

/// The 64-bit signed value of a literal's digit text: exactly `lit_val`,
/// with `None` for text that is not a non-empty digit run or whose value
/// does not fit.
fn parse_literal(text: &String) -> (r: Option<i64>)
    ensures
        r == lit_val(text@),
{
    broadcast use vstd::string::axiom_spec_iter;

    if text.as_str().is_empty() {
        return None;
    }
    let mut acc: u64 = 0;
    for c in it: text.as_str().chars()
        invariant
            it.seq() == text@,
            0 <= it.index() <= text@.len(),
            all_digits(text@.take(it.index() as int)),
            acc as int == digits_val(text@.take(it.index() as int)),
    {
        let u = c as u32;
        if !(48 <= u && u <= 57) {
            proof {
                assert(text@[it.index() as int] == c);
                assert(!is_digit(c));
            }
            return None;
        }
        let d = (u - 48) as u64;
        let next = match acc.checked_mul(10) {
            Some(m) => m.checked_add(d),
            None => None,
        };
        proof {
            assert(text@.take(it.index() as int + 1).drop_last() =~= text@.take(it.index() as int));
            assert(text@.take(it.index() as int + 1).last() == c);
            assert(digits_val(text@.take(it.index() as int + 1)) == acc as int * 10 + d);
        }
        match next {
            Some(n) => {
                acc = n;
            },
            None => {
                proof {
                    assert(digits_val(text@.take(it.index() as int + 1)) > u64::MAX);
                    lemma_digits_val_monotonic_from(text@, it.index() as int + 1);
                }
                return None;
            },
        }
    }
    proof {
        assert(text@.take(text@.len() as int) =~= text@);
    }
    if acc <= 0x7FFF_FFFF_FFFF_FFFFu64 {
        Some(acc as i64)
    } else {
        None
    }
}

/// From any prefix on, appending digits can only grow the value.
proof fn lemma_digits_val_monotonic_from(text: Seq<char>, i: int)
    requires
        0 <= i <= text.len(),
        all_digits(text.take(i)),
    ensures
        all_digits(text) ==> digits_val(text) >= digits_val(text.take(i)),
{
    if all_digits(text) {
        lemma_digits_val_monotonic(text, i);
    }
}

} // verus!
