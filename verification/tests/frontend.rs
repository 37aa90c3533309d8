//! Tests of the tokenizer's and parser's observable results: token
//! payloads, spans, tree shapes for precedence and associativity, error
//! positions, and the rendered instruction text.
use toy_compiler::ast::{BinOp, Expr};
use toy_compiler::codegen::Codegen;
use toy_compiler::lexer::{Lexer, Token};
use toy_compiler::parser::{Expectation, Parser, TokenKind};

fn tokens_of(source: &str) -> Vec<Token> {
    let mut lexer = Lexer::new(source);
    let spanned = lexer.tokenize().expect("tokenize failed");
    let mut out = Vec::new();
    for t in spanned {
        out.push(t.token);
    }
    out
}

fn parse_expression(source: &str) -> Expr {
    // Wrap the expression in a print statement and take it back out.
    let full = format!("print {};", source);
    let mut lexer = Lexer::new(&full);
    let tokens = lexer.tokenize().expect("tokenize failed");
    let mut parser = Parser::new(tokens);
    let mut stmts = parser.parse_program().expect("parse failed");
    assert_eq!(stmts.len(), 1);
    match stmts.remove(0) {
        toy_compiler::ast::Stmt::Print { expr } => expr,
        _ => panic!("expected a print statement"),
    }
}

#[test]
fn token_payloads_carry_exact_text() {
    let toks = tokens_of("let abc = 42;");
    assert_eq!(
        toks,
        vec![
            Token::Let,
            Token::Ident(String::from("abc")),
            Token::Eq,
            Token::IntLit(String::from("42")),
            Token::Semi,
            Token::Eof,
        ]
    );
}

#[test]
fn keyword_requires_exact_match() {
    let toks = tokens_of("letx printing print3");
    assert_eq!(
        toks,
        vec![
            Token::Ident(String::from("letx")),
            Token::Ident(String::from("printing")),
            Token::Ident(String::from("print3")),
            Token::Eof,
        ]
    );
}

#[test]
fn spans_are_one_based() {
    let mut lexer = Lexer::new("a\n  b");
    let spanned = lexer.tokenize().expect("tokenize failed");
    assert_eq!((spanned[0].line, spanned[0].col), (1, 1));
    assert_eq!((spanned[1].line, spanned[1].col), (2, 3));
}

#[test]
fn lex_error_position_and_character() {
    let mut lexer = Lexer::new("print 1 @ 2;");
    match lexer.tokenize() {
        Err(e) => {
            assert_eq!((e.line, e.col, e.ch), (1, 9, '@'));
        },
        Ok(_) => panic!("expected a lexical error"),
    }
}

#[test]
fn parse_error_position_at_missing_semicolon() {
    let mut lexer = Lexer::new("print 42");
    let tokens = lexer.tokenize().expect("tokenize failed");
    let mut parser = Parser::new(tokens);
    match parser.parse_program() {
        Err(e) => {
            // The end-of-input marker after the literal is the offender.
            assert_eq!((e.line, e.col), (1, 9));
            assert_eq!(e.expected, Expectation::Semi);
            assert_eq!(e.found, TokenKind::Eof);
        },
        Ok(_) => panic!("expected a parse error"),
    }
}

#[test]
fn parse_error_reports_expected_and_found() {
    let cases: Vec<(&str, Expectation, TokenKind)> = vec![
        ("42;", Expectation::Statement, TokenKind::IntLit),
        ("let = 1;", Expectation::Identifier, TokenKind::Eq),
        ("let x 1;", Expectation::Eq, TokenKind::IntLit),
        ("x 5;", Expectation::Eq, TokenKind::IntLit),
        ("print (1;", Expectation::RParen, TokenKind::Semi),
        ("print ;", Expectation::Expression, TokenKind::Semi),
        ("print 9223372036854775808;", Expectation::LiteralInRange, TokenKind::IntLit),
    ];
    for (source, expected, found) in cases {
        let mut lexer = Lexer::new(source);
        let tokens = lexer.tokenize().expect("tokenize failed");
        let mut parser = Parser::new(tokens);
        match parser.parse_program() {
            Err(e) => {
                assert_eq!(e.expected, expected, "source: {}", source);
                assert_eq!(e.found, found, "source: {}", source);
            },
            Ok(_) => panic!("expected a parse error for: {}", source),
        }
    }
}

#[test]
fn precedence_shapes_the_tree() {
    // 2 + 3 * 4 parses as 2 + (3 * 4).
    let e = parse_expression("2 + 3 * 4");
    assert!(matches!(
        e,
        Expr::BinOp { op: BinOp::Add, ref left, ref right }
            if matches!(**left, Expr::IntLit(2))
                && matches!(**right, Expr::BinOp { op: BinOp::Mul, .. })
    ));
}

#[test]
fn subtraction_associates_left() {
    // 10 - 3 - 2 parses as (10 - 3) - 2.
    let e = parse_expression("10 - 3 - 2");
    assert!(matches!(
        e,
        Expr::BinOp { op: BinOp::Sub, ref left, ref right }
            if matches!(**left, Expr::BinOp { op: BinOp::Sub, .. })
                && matches!(**right, Expr::IntLit(2))
    ));
}

#[test]
fn unary_minus_binds_tighter_than_multiplication() {
    // -2 * 3 parses as (-2) * 3.
    let e = parse_expression("-2 * 3");
    assert!(matches!(
        e,
        Expr::BinOp { op: BinOp::Mul, ref left, .. }
            if matches!(**left, Expr::UnaryMinus(_))
    ));
}

#[test]
fn chained_negation_nests() {
    let e = parse_expression("--5");
    assert!(matches!(
        e,
        Expr::UnaryMinus(ref inner) if matches!(**inner, Expr::UnaryMinus(_))
    ));
}

#[test]
fn rendered_text_holds_the_program() {
    let mut lexer = Lexer::new("let x = 42;\nprint x;");
    let tokens = lexer.tokenize().expect("tokenize failed");
    let mut parser = Parser::new(tokens);
    let stmts = parser.parse_program().expect("parse failed");
    let text = Codegen::new().generate(&stmts).expect("codegen failed");
    assert!(text.contains("_main:"));
    assert!(text.contains(".asciz \"%lld\\n\""));
    assert!(text.contains("    mov x0, #42\n"));
    assert!(text.contains("    str x0, [x29, #-8]\n"));
    assert!(text.contains("    ldr x0, [x29, #-8]\n"));
    assert!(text.contains("    bl _printf\n"));
    assert!(text.contains("    ret\n"));
}

#[test]
fn rendered_frame_is_aligned() {
    // Three variables: 16 link bytes + 24 slot bytes, rounded up to 48.
    let mut lexer = Lexer::new("let a = 1;\nlet b = 2;\nlet c = 3;");
    let tokens = lexer.tokenize().expect("tokenize failed");
    let mut parser = Parser::new(tokens);
    let stmts = parser.parse_program().expect("parse failed");
    let text = Codegen::new().generate(&stmts).expect("codegen failed");
    assert!(text.contains("    sub sp, sp, #48\n"));
    assert!(text.contains("    stp x29, x30, [sp, #32]\n"));
}

#[test]
fn rendered_remainder_uses_multiply_subtract() {
    let mut lexer = Lexer::new("print 10 % 3;");
    let tokens = lexer.tokenize().expect("tokenize failed");
    let mut parser = Parser::new(tokens);
    let stmts = parser.parse_program().expect("parse failed");
    let text = Codegen::new().generate(&stmts).expect("codegen failed");
    assert!(text.contains("    sdiv x2, x1, x0\n    msub x0, x2, x0, x1\n"));
}

#[test]
fn large_literal_renders_all_chunks() {
    let mut lexer = Lexer::new("print 9223372036854775807;");
    let tokens = lexer.tokenize().expect("tokenize failed");
    let mut parser = Parser::new(tokens);
    let stmts = parser.parse_program().expect("parse failed");
    let text = Codegen::new().generate(&stmts).expect("codegen failed");
    assert!(text.contains("    movz x0, #65535\n"));
    assert!(text.contains("    movk x0, #65535, lsl #16\n"));
    assert!(text.contains("    movk x0, #65535, lsl #32\n"));
    assert!(text.contains("    movk x0, #32767, lsl #48\n"));
}

#[test]
fn rendered_text_is_exact_for_print_one() {
    let mut lexer = Lexer::new("print 1;");
    let tokens = lexer.tokenize().expect("tokenize failed");
    let mut parser = Parser::new(tokens);
    let stmts = parser.parse_program().expect("parse failed");
    let text = Codegen::new().generate(&stmts).expect("codegen failed");
    let expected = "\
.section __DATA,__data
_fmt:
    .asciz \"%lld\\n\"

.section __TEXT,__text
.globl _main
.p2align 2
_main:
    sub sp, sp, #16
    stp x29, x30, [sp, #0]
    add x29, sp, #0
    mov x0, #1
    str x0, [sp, #-16]!
    adrp x0, _fmt@PAGE
    add x0, x0, _fmt@PAGEOFF
    bl _printf
    add sp, sp, #16
    mov x0, #0
    ldp x29, x30, [sp, #0]
    add sp, sp, #16
    ret
";
    assert_eq!(text, expected);
}

#[test]
fn boundary_literal_takes_two_moves() {
    // 65536 is the first value past the single-move range: only chunk 1 of
    // its bit pattern is non-zero, so it takes a zeroing low move and one
    // chunk insertion.
    let mut lexer = Lexer::new("print 65536;");
    let tokens = lexer.tokenize().expect("tokenize failed");
    let mut parser = Parser::new(tokens);
    let stmts = parser.parse_program().expect("parse failed");
    let text = Codegen::new().generate(&stmts).expect("codegen failed");
    assert!(text.contains("    movz x0, #0\n    movk x0, #1, lsl #16\n"));
    assert!(!text.contains("movk x0, #0"));
}

#[test]
fn independent_compilations_agree_byte_for_byte() {
    let source = "let x = 5;\nlet x = x + 1;\nprint x * -70000;";
    let compile = |src: &str| -> String {
        let mut lexer = Lexer::new(src);
        let tokens = lexer.tokenize().expect("tokenize failed");
        let mut parser = Parser::new(tokens);
        let stmts = parser.parse_program().expect("parse failed");
        Codegen::new().generate(&stmts).expect("codegen failed")
    };
    assert_eq!(compile(source), compile(source));
}
