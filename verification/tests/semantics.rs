//! Tests of the shared arithmetic semantics and of code generation for
//! syntax trees built directly, including immediate encodings the surface
//! grammar alone cannot reach.
use toy_compiler::arith::{neg64, sdiv64, smod64};
use toy_compiler::ast::{BinOp, Expr, Stmt};
use toy_compiler::codegen::Codegen;
use toy_compiler::machine::run_program;

fn print_value(expr: Expr) -> i64 {
    let stmts = vec![Stmt::Print { expr }];
    let (instrs, var_count) = Codegen::new().generate_instrs(&stmts).expect("codegen failed");
    let values = run_program(&instrs, var_count).expect("execution faulted");
    assert_eq!(values.len(), 1);
    values[0]
}

#[test]
fn division_truncates_in_both_signs() {
    assert_eq!(sdiv64(7, 2), 3);
    assert_eq!(sdiv64(-7, 2), -3);
    assert_eq!(sdiv64(7, -2), -3);
    assert_eq!(sdiv64(-7, -2), 3);
}

#[test]
fn remainder_sign_matches_dividend() {
    assert_eq!(smod64(-7, 3), -1);
    assert_eq!(smod64(7, -3), 1);
    assert_eq!(smod64(-7, -3), -1);
    assert_eq!(smod64(7, 3), 1);
}

#[test]
fn division_edge_cases_do_not_trap() {
    assert_eq!(sdiv64(i64::MIN, -1), i64::MIN);
    assert_eq!(smod64(i64::MIN, -1), 0);
    assert_eq!(sdiv64(5, 0), 0);
    assert_eq!(smod64(5, 0), 5);
    assert_eq!(sdiv64(1, i64::MIN), 0);
    assert_eq!(smod64(1, i64::MIN), 1);
}

#[test]
fn negation_wraps_minimum() {
    assert_eq!(neg64(i64::MIN), i64::MIN);
    assert_eq!(neg64(5), -5);
    assert_eq!(neg64(-5), 5);
}

#[test]
fn literal_small_negative_encoding() {
    // A negative literal in the tree itself takes the inverted-move path.
    assert_eq!(print_value(Expr::IntLit(-5)), -5);
    assert_eq!(print_value(Expr::IntLit(-1)), -1);
    assert_eq!(print_value(Expr::IntLit(-65536)), -65536);
}

#[test]
fn literal_negative_multi_chunk_encoding() {
    // Below -65536 every 16-bit chunk of the two's-complement pattern is
    // populated through the chunk-insertion path.
    assert_eq!(print_value(Expr::IntLit(-65537)), -65537);
    assert_eq!(print_value(Expr::IntLit(i64::MIN)), i64::MIN);
    assert_eq!(print_value(Expr::IntLit(-1234567890123456789)), -1234567890123456789);
}

#[test]
fn literal_boundary_encodings() {
    assert_eq!(print_value(Expr::IntLit(0)), 0);
    assert_eq!(print_value(Expr::IntLit(65535)), 65535);
    assert_eq!(print_value(Expr::IntLit(65536)), 65536);
    assert_eq!(print_value(Expr::IntLit(i64::MAX)), i64::MAX);
}

#[test]
fn direct_tree_division_by_zero() {
    // The surface language can build this program; its runtime meaning is
    // the machine's defined quotient of zero.
    let expr = Expr::BinOp {
        op: BinOp::Div,
        left: Box::new(Expr::IntLit(5)),
        right: Box::new(Expr::IntLit(0)),
    };
    assert_eq!(print_value(expr), 0);
}

#[test]
fn direct_tree_remainder_by_zero() {
    let expr = Expr::BinOp {
        op: BinOp::Mod,
        left: Box::new(Expr::IntLit(5)),
        right: Box::new(Expr::IntLit(0)),
    };
    assert_eq!(print_value(expr), 5);
}

#[test]
fn undefined_variable_error_carries_name() {
    let stmts = vec![Stmt::Print { expr: Expr::Var(String::from("missing")) }];
    match Codegen::new().generate_instrs(&stmts) {
        Err(toy_compiler::codegen::CodegenError::UndefinedVariable(name)) => {
            assert_eq!(name, "missing");
        },
        _ => panic!("expected an undefined-variable error"),
    }
}

#[test]
fn slot_budget_error_variant() {
    let mut stmts = Vec::new();
    for i in 0..33 {
        stmts.push(Stmt::Let { name: format!("v{}", i), expr: Expr::IntLit(0) });
    }
    match Codegen::new().generate_instrs(&stmts) {
        Err(toy_compiler::codegen::CodegenError::TooManyVariables) => {},
        _ => panic!("expected a slot-budget error"),
    }
}

#[test]
fn assignment_error_reports_assigned_name_first() {
    // `a = b;` with neither bound reports `a`, the assignment target.
    let stmts = vec![
        Stmt::Assign { name: String::from("a"), expr: Expr::Var(String::from("b")) },
    ];
    match Codegen::new().generate_instrs(&stmts) {
        Err(toy_compiler::codegen::CodegenError::UndefinedVariable(name)) => {
            assert_eq!(name, "a");
        },
        _ => panic!("expected an undefined-variable error"),
    }
}
