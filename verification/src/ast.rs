//! Abstract syntax of the source language, and its meaning: a mathematical
//! interpreter that maps a program to the sequence of values it prints.
//!
//! An environment maps variable names to 64-bit values. Evaluation yields
//! `None` exactly when a statement reads or assigns a name with no current
//! binding; that is the one semantic error the language has.
use crate::arith::{sdiv, smod, wrap_add, wrap_mul, wrap_neg, wrap_sub};
use vstd::prelude::*;

verus! {

#[derive(Debug, Clone, Copy, PartialEq, Eq)]
pub enum BinOp {
    Add,
    Sub,
    Mul,
    Div,
    Mod,
}

#[derive(Debug)]
pub enum Expr {
    IntLit(i64),
    Var(String),
    UnaryMinus(Box<Expr>),
    BinOp { op: BinOp, left: Box<Expr>, right: Box<Expr> },
}

#[derive(Debug)]
pub enum Stmt {
    Let { name: String, expr: Expr },
    Assign { name: String, expr: Expr },
    Print { expr: Expr },
}


/// The mathematical image of an expression: names as character sequences.
pub enum ExprS {
    IntLit(i64),
    Var(Seq<char>),
    UnaryMinus(Box<ExprS>),
    BinOp(BinOp, Box<ExprS>, Box<ExprS>),
}

/// The mathematical image of a statement.
pub enum StmtS {
    Let(Seq<char>, ExprS),
    Assign(Seq<char>, ExprS),
    Print(ExprS),
}

pub open spec fn expr_view(e: Expr) -> ExprS
    decreases e,
{
    match e {
        Expr::IntLit(v) => ExprS::IntLit(v),
        Expr::Var(name) => ExprS::Var(name@),
        Expr::UnaryMinus(inner) => ExprS::UnaryMinus(Box::new(expr_view(*inner))),
        Expr::BinOp { op, left, right } => ExprS::BinOp(
            op,
            Box::new(expr_view(*left)),
            Box::new(expr_view(*right)),
        ),
    }
}

pub open spec fn stmt_view(st: Stmt) -> StmtS {
    match st {
        Stmt::Let { name, expr } => StmtS::Let(name@, expr_view(expr)),
        Stmt::Assign { name, expr } => StmtS::Assign(name@, expr_view(expr)),
        Stmt::Print { expr } => StmtS::Print(expr_view(expr)),
    }
}

pub open spec fn stmts_view(v: Seq<Stmt>) -> Seq<StmtS> {
    v.map_values(|st: Stmt| stmt_view(st))
}

impl View for Expr {
    type V = ExprS;

    open spec fn view(&self) -> ExprS {
        expr_view(*self)
    }
}

impl View for Stmt {
    type V = StmtS;

    open spec fn view(&self) -> StmtS {
        stmt_view(*self)
    }
}

pub open spec fn apply_binop(op: BinOp, a: i64, b: i64) -> i64 {
    match op {
        BinOp::Add => wrap_add(a, b),
        BinOp::Sub => wrap_sub(a, b),
        BinOp::Mul => wrap_mul(a, b),
        BinOp::Div => sdiv(a, b),
        BinOp::Mod => smod(a, b),
    }
}

/// The value of an expression under an environment, or `None` if it reads an
/// unbound variable.
pub open spec fn eval_expr(e: Expr, env: Map<Seq<char>, i64>) -> Option<i64>
    decreases e,
{
    match e {
        Expr::IntLit(v) => Some(v),
        Expr::Var(name) => if env.dom().contains(name@) {
            Some(env[name@])
        } else {
            None
        },
        Expr::UnaryMinus(inner) => match eval_expr(*inner, env) {
            Some(v) => Some(wrap_neg(v)),
            None => None,
        },
        Expr::BinOp { op, left, right } => match (eval_expr(*left, env), eval_expr(*right, env)) {
            (Some(a), Some(b)) => Some(apply_binop(op, a, b)),
            _ => None,
        },
    }
}

/// Whether every variable the expression reads is in the given set of bound
/// names.
pub open spec fn expr_vars_ok(e: Expr, dom: Set<Seq<char>>) -> bool
    decreases e,
{
    match e {
        Expr::IntLit(_) => true,
        Expr::Var(name) => dom.contains(name@),
        Expr::UnaryMinus(inner) => expr_vars_ok(*inner, dom),
        Expr::BinOp { op, left, right } => expr_vars_ok(*left, dom) && expr_vars_ok(*right, dom),
    }
}

/// The first unbound variable an evaluation in lowering order would meet
/// (left operand before right). Meaningful only when `expr_vars_ok` fails.
pub open spec fn first_undef_expr(e: Expr, dom: Set<Seq<char>>) -> Seq<char>
    decreases e,
{
    match e {
        Expr::IntLit(_) => Seq::empty(),
        Expr::Var(name) => name@,
        Expr::UnaryMinus(inner) => first_undef_expr(*inner, dom),
        Expr::BinOp { op, left, right } => if !expr_vars_ok(*left, dom) {
            first_undef_expr(*left, dom)
        } else {
            first_undef_expr(*right, dom)
        },
    }
}

/// Evaluation succeeds exactly when every variable read is bound.
pub proof fn lemma_eval_some_iff_vars_ok(e: Expr, env: Map<Seq<char>, i64>)
    ensures
        eval_expr(e, env) is Some <==> expr_vars_ok(e, env.dom()),
    decreases e,
{
    match e {
        Expr::IntLit(_) => {},
        Expr::Var(_) => {},
        Expr::UnaryMinus(inner) => {
            lemma_eval_some_iff_vars_ok(*inner, env);
        },
        Expr::BinOp { op, left, right } => {
            lemma_eval_some_iff_vars_ok(*left, env);
            lemma_eval_some_iff_vars_ok(*right, env);
        },
    }
}

/// The effect of one statement: the environment afterwards and the values it
/// prints. A declaration always rebinds its name; an assignment requires an
/// existing binding; both print nothing.
pub open spec fn step_stmt(st: Stmt, env: Map<Seq<char>, i64>) -> Option<
    (Map<Seq<char>, i64>, Seq<i64>),
> {
    match st {
        Stmt::Let { name, expr } => match eval_expr(expr, env) {
            Some(v) => Some((env.insert(name@, v), Seq::empty())),
            None => None,
        },
        Stmt::Assign { name, expr } => if env.dom().contains(name@) {
            match eval_expr(expr, env) {
                Some(v) => Some((env.insert(name@, v), Seq::empty())),
                None => None,
            }
        } else {
            None
        },
        Stmt::Print { expr } => match eval_expr(expr, env) {
            Some(v) => Some((env, seq![v])),
            None => None,
        },
    }
}

/// Running a statement sequence in order, concatenating everything printed.
pub open spec fn run_stmts(stmts: Seq<Stmt>, env: Map<Seq<char>, i64>) -> Option<
    (Map<Seq<char>, i64>, Seq<i64>),
>
    decreases stmts.len(),
{
    if stmts.len() == 0 {
        Some((env, Seq::empty()))
    } else {
        match step_stmt(stmts[0], env) {
            Some((env1, out1)) => match run_stmts(stmts.drop_first(), env1) {
                Some((env2, out2)) => Some((env2, out1 + out2)),
                None => None,
            },
            None => None,
        }
    }
}

/// What a whole program prints, starting from no bindings; `None` if any
/// statement touches an unbound name.
pub open spec fn program_output(stmts: Seq<Stmt>) -> Option<Seq<i64>> {
    match run_stmts(stmts, Map::empty()) {
        Some((env, out)) => Some(out),
        None => None,
    }
}

pub open spec fn stmt_vars_ok(st: Stmt, dom: Set<Seq<char>>) -> bool {
    match st {
        Stmt::Let { name, expr } => expr_vars_ok(expr, dom),
        Stmt::Assign { name, expr } => dom.contains(name@) && expr_vars_ok(expr, dom),
        Stmt::Print { expr } => expr_vars_ok(expr, dom),
    }
}

/// The set of bound names after a statement runs.
pub open spec fn dom_after(st: Stmt, dom: Set<Seq<char>>) -> Set<Seq<char>> {
    match st {
        Stmt::Let { name, expr } => dom.insert(name@),
        Stmt::Assign { name, expr } => dom,
        Stmt::Print { expr } => dom,
    }
}

/// The unbound name a failing statement reports: an assignment to an unbound
/// name reports that name before looking into its expression.
pub open spec fn first_undef_stmt(st: Stmt, dom: Set<Seq<char>>) -> Seq<char> {
    match st {
        Stmt::Let { name, expr } => first_undef_expr(expr, dom),
        Stmt::Assign { name, expr } => if !dom.contains(name@) {
            name@
        } else {
            first_undef_expr(expr, dom)
        },
        Stmt::Print { expr } => first_undef_expr(expr, dom),
    }
}

pub open spec fn stmts_vars_ok(stmts: Seq<Stmt>, dom: Set<Seq<char>>) -> bool
    decreases stmts.len(),
{
    if stmts.len() == 0 {
        true
    } else {
        stmt_vars_ok(stmts[0], dom) && stmts_vars_ok(stmts.drop_first(), dom_after(stmts[0], dom))
    }
}

/// The unbound name the first failing statement reports.
pub open spec fn first_undef_stmts(stmts: Seq<Stmt>, dom: Set<Seq<char>>) -> Seq<char>
    decreases stmts.len(),
{
    if stmts.len() == 0 {
        Seq::empty()
    } else if !stmt_vars_ok(stmts[0], dom) {
        first_undef_stmt(stmts[0], dom)
    } else {
        first_undef_stmts(stmts.drop_first(), dom_after(stmts[0], dom))
    }
}

/// One statement's run succeeds exactly when its names are bound, and the
/// resulting environment's domain is `dom_after`.
pub proof fn lemma_step_stmt_dom(st: Stmt, env: Map<Seq<char>, i64>)
    ensures
        step_stmt(st, env) is Some <==> stmt_vars_ok(st, env.dom()),
        step_stmt(st, env) matches Some((env1, _)) ==> env1.dom() == dom_after(st, env.dom()),
{
    match st {
        Stmt::Let { name, expr } => {
            lemma_eval_some_iff_vars_ok(expr, env);
            if eval_expr(expr, env) is Some {
                assert(env.insert(name@, eval_expr(expr, env)->Some_0).dom() =~= env.dom().insert(
                    name@,
                ));
            }
        },
        Stmt::Assign { name, expr } => {
            lemma_eval_some_iff_vars_ok(expr, env);
            if env.dom().contains(name@) && eval_expr(expr, env) is Some {
                assert(env.insert(name@, eval_expr(expr, env)->Some_0).dom() =~= env.dom());
            }
        },
        Stmt::Print { expr } => {
            lemma_eval_some_iff_vars_ok(expr, env);
        },
    }
}

/// A statement sequence runs to completion exactly when every statement's
/// names are bound at its turn.
pub proof fn lemma_run_stmts_some_iff_vars_ok(stmts: Seq<Stmt>, env: Map<Seq<char>, i64>)
    ensures
        run_stmts(stmts, env) is Some <==> stmts_vars_ok(stmts, env.dom()),
    decreases stmts.len(),
{
    if stmts.len() != 0 {
        lemma_step_stmt_dom(stmts[0], env);
        match step_stmt(stmts[0], env) {
            Some((env1, out1)) => {
                lemma_run_stmts_some_iff_vars_ok(stmts.drop_first(), env1);
            },
            None => {},
        }
    }
}


/// A declaration always rebinds its name, shadowing any prior binding of
/// the same name, and its initializer is evaluated under the environment
/// from before the declaration (so the old binding, if any, is still
/// visible to it). Plain assignment requires an existing binding.
pub proof fn lemma_let_shadows(name: String, e: Expr, env: Map<Seq<char>, i64>)
    requires
        eval_expr(e, env) is Some,
    ensures
        step_stmt(Stmt::Let { name, expr: e }, env) == Some(
            (env.insert(name@, eval_expr(e, env)->Some_0), Seq::<i64>::empty()),
        ),
        !env.dom().contains(name@) ==> step_stmt(Stmt::Assign { name, expr: e }, env) is None,
{
}

/// A program that prints one literal denotes exactly that literal's value,
/// for every 64-bit value; with the code generator's contract this says
/// every literal round-trips through instruction encoding to the printed
/// output.
pub proof fn lemma_literal_print_output(v: i64)
    ensures
        program_output(seq![Stmt::Print { expr: Expr::IntLit(v) }]) == Some(seq![v]),
{
    let st = Stmt::Print { expr: Expr::IntLit(v) };
    let stmts = seq![st];
    assert(stmts[0] == st);
    assert(step_stmt(st, Map::<Seq<char>, i64>::empty()) == Some(
        (Map::<Seq<char>, i64>::empty(), seq![v]),
    ));
    assert(stmts.drop_first() =~= Seq::<Stmt>::empty());
    assert(run_stmts(stmts.drop_first(), Map::<Seq<char>, i64>::empty()) == Some(
        (Map::<Seq<char>, i64>::empty(), Seq::<i64>::empty()),
    ));
    assert(seq![v] + Seq::<i64>::empty() =~= seq![v]);
}

pub open spec fn count_lets(stmts: Seq<Stmt>) -> nat
    decreases stmts.len(),
{
    if stmts.len() == 0 {
        0
    } else {
        (if stmts[0] is Let {
            1nat
        } else {
            0nat
        }) + count_lets(stmts.drop_first())
    }
}

} // verus!
