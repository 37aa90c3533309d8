//! The code generator: walks the syntax tree once and emits instructions,
//! assigning each `let` a fresh storage slot.
//!
//! Its central contract: if generation succeeds, running the emitted
//! instructions on the machine model from the initial state prints exactly
//! the values the source program denotes, and generation succeeds exactly
//! when the program stays within the slot budget and never touches an
//! unbound name. The lowering itself is also written down once, as the
//! specification functions `encode_imm`, `sp_gen_expr`, `sp_gen_stmt` and
//! `sp_gen_stmts`, and the generator is proved to emit exactly that
//! sequence — so the emitted code, and the rendered text, are functions of
//! the syntax tree alone, and independent compilations of equal input
//! agree byte for byte.
//!
//! The symbol table is the list of declared names in declaration order: the
//! slot of a binding is its position in the list, and a name's current
//! binding is its last occurrence, so shadowed and dead slots stay allocated
//! but unreachable.
use crate::ast::{
    count_lets, eval_expr, expr_vars_ok, first_undef_expr, first_undef_stmt, first_undef_stmts,
    lemma_eval_some_iff_vars_ok, lemma_step_stmt_dom, run_stmts, step_stmt, stmt_vars_ok,
    stmts_vars_ok, dom_after, Expr, Stmt,
};
use crate::machine::{chunk_update, init_state, run, step, Instr, MState};
use vstd::prelude::*;

verus! {

/// The largest number of variable slots a program may declare.
pub const MAX_SLOTS: usize = 32;

#[derive(Debug)]
pub enum CodegenError {
    UndefinedVariable(String),
    TooManyVariables,
}

pub struct Codegen {
    instrs: Vec<Instr>,
    names: Vec<String>,
    var_count: usize,
}

impl Codegen {
    /// The instructions emitted so far.
    pub closed spec fn instructions(self) -> Seq<Instr> {
        self.instrs@
    }

    /// The declared names in declaration order; a binding's slot is its
    /// position here.
    pub closed spec fn bound_names(self) -> Seq<Seq<char>> {
        names_seq(self.names@)
    }

    /// The total number of slots the frame will hold.
    pub closed spec fn slot_count(self) -> int {
        self.var_count as int
    }
}

pub open spec fn names_seq(names: Seq<String>) -> Seq<Seq<char>> {
    names.map_values(|s: String| s@)
}

/// The position of a name's current binding: the last index holding it, or
/// -1 when the name is unbound.
pub open spec fn last_index(names: Seq<Seq<char>>, n: Seq<char>) -> int
    decreases names.len(),
{
    if names.len() == 0 {
        -1
    } else if names.last() == n {
        names.len() - 1
    } else {
        last_index(names.drop_last(), n)
    }
}

/// The set of names that have a binding.
pub open spec fn name_dom(names: Seq<Seq<char>>) -> Set<Seq<char>> {
    Set::new(|n: Seq<char>| names.contains(n))
}

/// The environment a slot frame realizes: each bound name maps to the value
/// stored in its current binding's slot.
pub open spec fn env_of(names: Seq<Seq<char>>, slots: Seq<i64>) -> Map<Seq<char>, i64> {
    Map::new(|n: Seq<char>| names.contains(n), |n: Seq<char>| slots[last_index(names, n)])
}


/// The chunk-insertion step for one 16-bit chunk: present exactly when the
/// chunk is non-zero.
pub open spec fn chunk_instrs(c: u16, k: u8) -> Seq<Instr> {
    if c != 0 {
        seq![Instr::MovChunk(c, k)]
    } else {
        Seq::empty()
    }
}

/// The exact move sequence emitted for an immediate: a single plain move
/// for a value in one nonnegative 16-bit chunk, a single inverted move for
/// a small negative value, and otherwise the low chunk followed by one
/// chunk insertion per non-zero remaining 16-bit chunk — between one and
/// four instructions.
pub open spec fn encode_imm(v: i64) -> Seq<Instr> {
    if 0 <= v < 65536 {
        seq![Instr::MovImm(v as u16)]
    } else if -65536 <= v < 0 {
        seq![Instr::MovInv((-(v + 1)) as u16)]
    } else {
        let uval = v as u64;
        seq![Instr::MovChunk0(uval as u16)] + chunk_instrs((uval >> 16) as u16, 1)
            + chunk_instrs((uval >> 32) as u16, 2) + chunk_instrs((uval >> 48) as u16, 3)
    }
}

/// Every immediate takes at least one and at most four instructions.
pub proof fn lemma_encode_imm_len(v: i64)
    ensures
        1 <= encode_imm(v).len() <= 4,
{
    if !(0 <= v < 65536) && !(-65536 <= v < 0) {
        let uval = v as u64;
        assert(chunk_instrs((uval >> 16) as u16, 1).len() <= 1);
        assert(chunk_instrs((uval >> 32) as u16, 2).len() <= 1);
        assert(chunk_instrs((uval >> 48) as u16, 3).len() <= 1);
    }
}

/// The exact instruction sequence lowered for an expression under a symbol
/// table: post-order, the left operand saved on the stack around the right
/// operand. Meaningful when the expression's variables are all bound.
pub open spec fn sp_gen_expr(e: Expr, names: Seq<Seq<char>>) -> Seq<Instr>
    decreases e,
{
    match e {
        Expr::IntLit(v) => encode_imm(v),
        Expr::Var(name) => seq![Instr::Load(last_index(names, name@) as usize)],
        Expr::UnaryMinus(inner) => sp_gen_expr(*inner, names).push(Instr::Neg),
        Expr::BinOp { op, left, right } => sp_gen_expr(*left, names) + seq![Instr::Push]
            + sp_gen_expr(*right, names) + seq![Instr::Pop, Instr::Arith(op)],
    }
}

/// The exact instruction sequence lowered for a statement: a declaration
/// stores the accumulator to the next fresh slot, an assignment stores it
/// to the current binding's slot, a print emits the print step.
pub open spec fn sp_gen_stmt(st: Stmt, names: Seq<Seq<char>>) -> Seq<Instr> {
    match st {
        Stmt::Let { name, expr } => sp_gen_expr(expr, names).push(
            Instr::Store(names.len() as usize),
        ),
        Stmt::Assign { name, expr } => sp_gen_expr(expr, names).push(
            Instr::Store(last_index(names, name@) as usize),
        ),
        Stmt::Print { expr } => sp_gen_expr(expr, names).push(Instr::Print),
    }
}

/// The symbol table after one statement: a declaration appends its name.
pub open spec fn names_after_stmt(st: Stmt, names: Seq<Seq<char>>) -> Seq<Seq<char>> {
    match st {
        Stmt::Let { name, expr } => names.push(name@),
        _ => names,
    }
}

pub open spec fn names_after_stmts(stmts: Seq<Stmt>, names: Seq<Seq<char>>) -> Seq<Seq<char>>
    decreases stmts.len(),
{
    if stmts.len() == 0 {
        names
    } else {
        names_after_stmts(stmts.drop_first(), names_after_stmt(stmts[0], names))
    }
}

/// The exact program body: each statement's code in order, each lowered
/// under the symbol table its predecessors built.
pub open spec fn sp_gen_stmts(stmts: Seq<Stmt>, names: Seq<Seq<char>>) -> Seq<Instr>
    decreases stmts.len(),
{
    if stmts.len() == 0 {
        Seq::empty()
    } else {
        sp_gen_stmt(stmts[0], names) + sp_gen_stmts(
            stmts.drop_first(),
            names_after_stmt(stmts[0], names),
        )
    }
}

pub proof fn lemma_names_after_snoc(p: Seq<Stmt>, st: Stmt, names: Seq<Seq<char>>)
    ensures
        names_after_stmts(p.push(st), names) == names_after_stmt(st, names_after_stmts(p, names)),
    decreases p.len(),
{
    let q = p.push(st);
    if p.len() == 0 {
        assert(q[0] == st);
        assert(q.drop_first() =~= Seq::<Stmt>::empty());
        assert(names_after_stmts(Seq::<Stmt>::empty(), names_after_stmt(st, names))
            == names_after_stmt(st, names));
    } else {
        assert(q[0] == p[0]);
        assert(q.drop_first() =~= p.drop_first().push(st));
        lemma_names_after_snoc(p.drop_first(), st, names_after_stmt(p[0], names));
    }
}

/// Lowering one more statement appends its code, compiled under the symbol
/// table the earlier statements built.
pub proof fn lemma_gen_stmts_snoc(p: Seq<Stmt>, st: Stmt, names: Seq<Seq<char>>)
    ensures
        sp_gen_stmts(p.push(st), names) == sp_gen_stmts(p, names) + sp_gen_stmt(
            st,
            names_after_stmts(p, names),
        ),
    decreases p.len(),
{
    let q = p.push(st);
    if p.len() == 0 {
        assert(q[0] == st);
        assert(q.drop_first() =~= Seq::<Stmt>::empty());
        assert(sp_gen_stmts(Seq::<Stmt>::empty(), names_after_stmt(st, names)) == Seq::<
            Instr,
        >::empty());
        assert(sp_gen_stmt(st, names) + Seq::<Instr>::empty() =~= sp_gen_stmt(st, names));
        assert(Seq::<Instr>::empty() + sp_gen_stmt(st, names) =~= sp_gen_stmt(st, names));
    } else {
        assert(q[0] == p[0]);
        assert(q.drop_first() =~= p.drop_first().push(st));
        lemma_gen_stmts_snoc(p.drop_first(), st, names_after_stmt(p[0], names));
        let a = sp_gen_stmt(p[0], names);
        let b = sp_gen_stmts(p.drop_first(), names_after_stmt(p[0], names));
        let c = sp_gen_stmt(st, names_after_stmts(p.drop_first(), names_after_stmt(p[0], names)));
        assert(a + (b + c) =~= (a + b) + c);
    }
}

pub proof fn lemma_last_index(names: Seq<Seq<char>>, n: Seq<char>)
    ensures
        -1 <= last_index(names, n) < names.len(),
        names.contains(n) <==> 0 <= last_index(names, n),
        names.contains(n) ==> names[last_index(names, n)] == n,
    decreases names.len(),
{
    if names.len() == 0 {
        assert(!names.contains(n));
    } else if names.last() == n {
        assert(names[names.len() - 1] == n);
    } else {
        lemma_last_index(names.drop_last(), n);
        let sub = names.drop_last();
        if names.contains(n) {
            let i = choose|i: int| 0 <= i < names.len() && names[i] == n;
            assert(i < names.len() - 1);
            assert(sub[i] == n);
            assert(sub.contains(n));
        }
        if sub.contains(n) {
            let i = choose|i: int| 0 <= i < sub.len() && sub[i] == n;
            assert(names[i] == n);
            assert(names.contains(n));
            assert(names[last_index(names, n)] == sub[last_index(sub, n)]);
        }
    }
}

/// Any occurrence of a name is at or before its current binding.
pub proof fn lemma_last_index_ge(names: Seq<Seq<char>>, n: Seq<char>, j: int)
    requires
        0 <= j < names.len(),
        names[j] == n,
    ensures
        j <= last_index(names, n),
    decreases names.len(),
{
    if names.last() == n {
    } else {
        assert(j < names.len() - 1);
        assert(names.drop_last()[j] == n);
        lemma_last_index_ge(names.drop_last(), n, j);
    }
}

/// Appending a binding moves only that name's current binding.
pub proof fn lemma_last_index_push(names: Seq<Seq<char>>, m: Seq<char>, n: Seq<char>)
    ensures
        last_index(names.push(m), n) == (if n == m {
            names.len() as int
        } else {
            last_index(names, n)
        }),
        names.push(m).contains(n) <==> (n == m || names.contains(n)),
{
    let p = names.push(m);
    assert(p.last() == m);
    if n != m {
        assert(p.drop_last() =~= names);
        if names.contains(n) {
            let i = choose|i: int| 0 <= i < names.len() && names[i] == n;
            assert(p[i] == n);
        }
        if p.contains(n) {
            let i = choose|i: int| 0 <= i < p.len() && p[i] == n;
            assert(i != names.len());
            assert(names[i] == n);
        }
    } else {
        assert(p[names.len() as int] == m);
    }
}

/// Declaring a name and storing its value in the next fresh slot is exactly
/// a map insertion on the realized environment.
pub proof fn lemma_env_push(names: Seq<Seq<char>>, slots: Seq<i64>, m: Seq<char>, v: i64)
    requires
        names.len() < slots.len(),
    ensures
        env_of(names.push(m), slots.update(names.len() as int, v)) == env_of(names, slots).insert(
            m,
            v,
        ),
{
    let e1 = env_of(names.push(m), slots.update(names.len() as int, v));
    let e2 = env_of(names, slots).insert(m, v);
    assert forall|n: Seq<char>| e1.dom().contains(n) == e2.dom().contains(n) by {
        lemma_last_index_push(names, m, n);
    }
    assert forall|n: Seq<char>| e1.dom().contains(n) implies e1[n] == e2[n] by {
        lemma_last_index_push(names, m, n);
        if n != m {
            lemma_last_index(names, n);
            assert(last_index(names, n) < names.len());
        }
    }
    assert(e1 =~= e2);
}

/// Storing into a bound name's current slot is exactly a map insertion on
/// the realized environment.
pub proof fn lemma_env_assign(names: Seq<Seq<char>>, slots: Seq<i64>, n: Seq<char>, v: i64)
    requires
        names.contains(n),
        names.len() <= slots.len(),
        0 <= last_index(names, n) < slots.len(),
    ensures
        env_of(names, slots.update(last_index(names, n), v)) == env_of(names, slots).insert(n, v),
{
    let idx = last_index(names, n);
    let e1 = env_of(names, slots.update(idx, v));
    let e2 = env_of(names, slots).insert(n, v);
    lemma_last_index(names, n);
    assert forall|m: Seq<char>| e1.dom().contains(m) == e2.dom().contains(m) by {
        assert(e2.dom().contains(m) == (m == n || names.contains(m)));
    }
    assert forall|m: Seq<char>| e1.dom().contains(m) implies e1[m] == e2[m] by {
        lemma_last_index(names, m);
        if m == n {
            assert(e1[m] == slots.update(idx, v)[idx]);
            assert(e1[m] == v);
            assert(e2[m] == v);
        } else {
            assert(names[last_index(names, m)] == m && names[idx] == n);
            assert(last_index(names, m) != idx);
            assert(0 <= last_index(names, m) < slots.len());
            assert(e1[m] == slots.update(idx, v)[last_index(names, m)]);
            assert(e1[m] == slots[last_index(names, m)]);
            assert(e2[m] == env_of(names, slots)[m]);
        }
    }
    assert(e1 =~= e2);
}

/// Running a single instruction is one step.
pub proof fn lemma_run_one(i: Instr, s: MState)
    ensures
        run(seq![i], s) == step(i, s),
{
    let a = seq![i];
    assert(a[0] == i);
    match step(i, s) {
        Some(s1) => {
            assert(a.drop_first() =~= Seq::<Instr>::empty());
            assert(run(a.drop_first(), s1) == Some(s1));
        },
        None => {},
    }
}

/// Running `a` then one more instruction.
pub proof fn lemma_run_snoc(a: Seq<Instr>, i: Instr, s: MState)
    ensures
        run(a.push(i), s) == (match run(a, s) {
            Some(s1) => step(i, s1),
            None => None,
        }),
{
    crate::machine::lemma_run_app(a, seq![i], s);
    assert(a + seq![i] =~= a.push(i));
    match run(a, s) {
        Some(s1) => {
            lemma_run_one(i, s1);
        },
        None => {},
    }
}


/// The realized environment's domain is exactly the set of bound names.
pub proof fn lemma_env_dom(names: Seq<Seq<char>>, slots: Seq<i64>)
    ensures
        env_of(names, slots).dom() == name_dom(names),
{
    assert(env_of(names, slots).dom() =~= name_dom(names));
}

/// Prefix order on instruction sequences is transitive.
pub proof fn lemma_prefix_trans(a: Seq<Instr>, b: Seq<Instr>, c: Seq<Instr>)
    requires
        a.is_prefix_of(b),
        b.is_prefix_of(c),
    ensures
        a.is_prefix_of(c),
{
    assert forall|i: int| 0 <= i < a.len() implies a[i] == c[i] by {
        assert(a[i] == b.subrange(0, a.len() as int)[i]);
        assert(b[i] == c.subrange(0, b.len() as int)[i]);
    }
    assert(a =~= c.subrange(0, a.len() as int));
}

/// Counting declarations distributes over concatenation.
pub proof fn lemma_count_lets_cat(a: Seq<Stmt>, b: Seq<Stmt>)
    ensures
        count_lets(a + b) == count_lets(a) + count_lets(b),
    decreases a.len(),
{
    if a.len() == 0 {
        assert(a + b =~= b);
    } else {
        assert((a + b)[0] == a[0]);
        assert((a + b).drop_first() =~= a.drop_first() + b);
        lemma_count_lets_cat(a.drop_first(), b);
    }
}

/// Running one more statement after a sequence.
pub proof fn lemma_run_stmts_snoc(p: Seq<Stmt>, st: Stmt, env: Map<Seq<char>, i64>)
    ensures
        run_stmts(p.push(st), env) == (match run_stmts(p, env) {
            Some((env1, out1)) => match step_stmt(st, env1) {
                Some((env2, out2)) => Some((env2, out1 + out2)),
                None => None::<(Map<Seq<char>, i64>, Seq<i64>)>,
            },
            None => None,
        }),
    decreases p.len(),
{
    let q = p.push(st);
    if p.len() == 0 {
        assert(q[0] == st);
        assert(q.drop_first() =~= Seq::<Stmt>::empty());
        match step_stmt(st, env) {
            Some((env2, out2)) => {
                assert(run_stmts(q.drop_first(), env2) == Some(
                    (env2, Seq::<i64>::empty()),
                ));
                assert(out2 + Seq::<i64>::empty() =~= out2);
                assert(Seq::<i64>::empty() + out2 =~= out2);
            },
            None => {},
        }
    } else {
        assert(q[0] == p[0]);
        assert(q.drop_first() =~= p.drop_first().push(st));
        match step_stmt(p[0], env) {
            Some((env1, out1)) => {
                lemma_run_stmts_snoc(p.drop_first(), st, env1);
                match run_stmts(p.drop_first(), env1) {
                    Some((enva, outa)) => {
                        match step_stmt(st, enva) {
                            Some((envb, outb)) => {
                                assert(out1 + (outa + outb) =~= (out1 + outa) + outb);
                            },
                            None => {},
                        }
                    },
                    None => {},
                }
            },
            None => {},
        }
    }
}

/// Binding one more name inserts exactly that name into the bound set.
pub proof fn lemma_name_dom_push(names: Seq<Seq<char>>, m: Seq<char>)
    ensures
        name_dom(names.push(m)) == name_dom(names).insert(m),
{
    assert forall|n: Seq<char>|
        name_dom(names.push(m)).contains(n) == name_dom(names).insert(m).contains(n) by {
        lemma_last_index_push(names, m, n);
    }
    assert(name_dom(names.push(m)) =~= name_dom(names).insert(m));
}

impl Codegen {
    pub fn new() -> (c: Codegen)
        ensures
            c.instructions() == Seq::<Instr>::empty(),
            c.bound_names() == Seq::<Seq<char>>::empty(),
            c.slot_count() == 0,
    {
        let c = Codegen { instrs: Vec::new(), names: Vec::new(), var_count: 0 };
        proof {
            assert(c.instructions() =~= Seq::<Instr>::empty());
            assert(c.bound_names() =~= Seq::<Seq<char>>::empty());
        }
        c
    }

    fn emit(&mut self, ins: Instr)
        ensures
            final(self).instructions() == old(self).instructions().push(ins),
            final(self).bound_names() == old(self).bound_names(),
            final(self).slot_count() == old(self).slot_count(),
            old(self).instructions().is_prefix_of(final(self).instructions()),
    {
        self.instrs.push(ins);
        proof {
            assert(old(self).instructions() =~= self.instructions().subrange(
                0,
                old(self).instructions().len() as int,
            ));
        }
    }

    /// The slot of a name's current binding, if any.
    fn lookup(&self, name: &String) -> (r: Option<usize>)
        ensures
            match r {
                Some(idx) => self.bound_names().contains(name@) && idx == last_index(
                    self.bound_names(),
                    name@,
                ),
                None => !self.bound_names().contains(name@),
            },
    {
        let ghost ns = names_seq(self.names@);
        proof {
            lemma_last_index(ns, name@);
        }
        let mut i: usize = self.names.len();
        while i > 0
            invariant
                i <= self.names.len(),
                ns == names_seq(self.names@),
                last_index(ns, name@) < i,
                -1 <= last_index(ns, name@) < ns.len(),
                ns.contains(name@) <==> 0 <= last_index(ns, name@),
                ns.contains(name@) ==> ns[last_index(ns, name@)] == name@,
            decreases i,
        {
            i -= 1;
            if name.eq(&self.names[i]) {
                proof {
                    assert(ns[i as int] == name@);
                    lemma_last_index_ge(ns, name@, i as int);
                }
                return Some(i);
            }
            proof {
                if ns.contains(name@) && last_index(ns, name@) == i {
                    assert(ns[i as int] == name@);
                    assert(false);
                }
            }
        }
        proof {
            // The loop ran the index down to zero, so the invariant leaves a
            // bound name's position nowhere to be.
            if ns.contains(name@) {
                assert(0 <= last_index(ns, name@) < 0);
            }
        }
        None
    }



    /// Lowers a whole program to an instruction sequence, returning it with
    /// the number of variable slots the frame must hold.
    ///
    /// On success the slot count is exactly the number of `let` statements,
    /// the budget is respected, and running the instructions on the machine
    /// from the initial state succeeds and prints exactly the values the
    /// source program denotes. Generation fails with `TooManyVariables`
    /// exactly when the program declares more than `MAX_SLOTS` variables,
    /// and otherwise with `UndefinedVariable` naming the first unbound name,
    /// exactly when some statement touches a name with no current binding.
    pub fn generate_instrs(self, stmts: &[Stmt]) -> (r: Result<
        (Vec<Instr>, usize),
        CodegenError,
    >)
        requires
            self.instructions() == Seq::<Instr>::empty(),
            self.bound_names() == Seq::<Seq<char>>::empty(),
            self.slot_count() == 0,
        ensures
            match r {
                Ok((prog, vc)) => {
                    &&& vc == count_lets(stmts@)
                    &&& vc <= MAX_SLOTS
                    &&& prog@ == sp_gen_stmts(stmts@, Seq::empty())
                    &&& stmts_vars_ok(stmts@, Set::empty())
                    &&& crate::ast::program_output(stmts@) is Some
                    &&& run(prog@, init_state(vc as nat)) matches Some(end)
                        && end.out == crate::ast::program_output(stmts@)->Some_0
                },
                Err(e) => match e {
                    CodegenError::TooManyVariables => count_lets(stmts@) > MAX_SLOTS,
                    CodegenError::UndefinedVariable(nm) => {
                        &&& count_lets(stmts@) <= MAX_SLOTS
                        &&& !stmts_vars_ok(stmts@, Set::empty())
                        &&& crate::ast::program_output(stmts@) is None
                        &&& nm@ == first_undef_stmts(stmts@, Set::empty())
                    },
                },
            },
    {
        // Layout pass: one slot per declaration, checked against the budget
        // before any instruction is emitted.
        let mut vc: usize = 0;
        let mut i: usize = 0;
        while i < stmts.len()
            invariant
                i <= stmts@.len(),
                vc <= i,
                vc == count_lets(stmts@.take(i as int)),
            decreases stmts@.len() - i,
        {
            let ghost pre = stmts@.take(i as int);
            proof {
                assert(stmts@.take(i as int + 1) =~= pre.push(stmts@[i as int]));
                lemma_count_lets_cat(pre, seq![stmts@[i as int]]);
                assert(pre.push(stmts@[i as int]) =~= pre + seq![stmts@[i as int]]);
                assert(seq![stmts@[i as int]].drop_first() =~= Seq::<Stmt>::empty());
                assert(count_lets(Seq::<Stmt>::empty()) == 0);
                assert(seq![stmts@[i as int]][0] == stmts@[i as int]);
                assert(count_lets(seq![stmts@[i as int]]) == (if stmts@[i as int] is Let {
                    1nat
                } else {
                    0nat
                }));
            }
            if matches!(&stmts[i], Stmt::Let { .. }) {
                vc += 1;
            }
            i += 1;
        }
        proof {
            assert(stmts@.take(stmts@.len() as int) =~= stmts@);
        }
        if vc > MAX_SLOTS {
            return Err(CodegenError::TooManyVariables);
        }
        let mut this = self;
        this.var_count = vc;
        let ghost mut cur: MState = init_state(vc as nat);
        proof {
            assert(Map::<Seq<char>, i64>::empty().dom() =~= Set::<Seq<char>>::empty());
            assert(stmts@.take(0) =~= Seq::<Stmt>::empty());
            assert(stmts@.skip(0) =~= stmts@);
            assert(env_of(this.bound_names(), cur.slots) =~= Map::<Seq<char>, i64>::empty());
            assert(name_dom(this.bound_names()) =~= Set::<Seq<char>>::empty());
            assert(run(this.instructions(), init_state(vc as nat)) == Some(cur));
            assert(names_after_stmts(Seq::<Stmt>::empty(), Seq::<Seq<char>>::empty()) == Seq::<
                Seq<char>,
            >::empty());
            assert(sp_gen_stmts(Seq::<Stmt>::empty(), Seq::<Seq<char>>::empty()) == Seq::<
                Instr,
            >::empty());
        }
        let mut j: usize = 0;
        while j < stmts.len()
            invariant
                j <= stmts@.len(),
                vc == count_lets(stmts@),
                vc <= MAX_SLOTS,
                this.slot_count() == vc as int,
                this.bound_names().len() == count_lets(stmts@.take(j as int)),
                this.bound_names() == names_after_stmts(
                    stmts@.take(j as int),
                    Seq::<Seq<char>>::empty(),
                ),
                this.instructions() == sp_gen_stmts(stmts@.take(j as int), Seq::<Seq<char>>::empty()),
                run_stmts(stmts@.take(j as int), Map::empty()) is Some,
                env_of(this.bound_names(), cur.slots) == run_stmts(
                    stmts@.take(j as int),
                    Map::empty(),
                )->Some_0.0,
                cur.out == run_stmts(stmts@.take(j as int), Map::empty())->Some_0.1,
                run(this.instructions(), init_state(vc as nat)) == Some(cur),
                cur.slots.len() == vc as nat,
                cur.stack == Seq::<i64>::empty(),
                name_dom(this.bound_names()) == run_stmts(
                    stmts@.take(j as int),
                    Map::empty(),
                )->Some_0.0.dom(),
                stmts_vars_ok(stmts@, Set::empty()) <==> stmts_vars_ok(
                    stmts@.skip(j as int),
                    name_dom(this.bound_names()),
                ),
                !stmts_vars_ok(stmts@, Set::empty()) ==> first_undef_stmts(stmts@, Set::empty())
                    == first_undef_stmts(stmts@.skip(j as int), name_dom(this.bound_names())),
            decreases stmts@.len() - j,
        {
            let ghost names = this.bound_names();
            let ghost dom = name_dom(names);
            let ghost pre = stmts@.take(j as int);
            let ghost st = stmts@[j as int];
            let ghost envj = run_stmts(pre, Map::empty())->Some_0.0;
            let ghost outj = run_stmts(pre, Map::empty())->Some_0.1;
            let ghost prev_ins = this.instructions();
            proof {
                // The slot budget admits this statement.
                assert(stmts@ =~= stmts@.take(j as int) + stmts@.skip(j as int));
                lemma_count_lets_cat(stmts@.take(j as int), stmts@.skip(j as int));
                assert(stmts@.skip(j as int)[0] == st);
                assert(stmts@.skip(j as int).drop_first() =~= stmts@.skip(j as int + 1));
                if st is Let {
                    assert(count_lets(stmts@.skip(j as int)) >= 1);
                }
            }
            match this.gen_stmt(&stmts[j]) {
                Err(ce) => {
                    proof {
                        // The failing statement is the program's first
                        // failure, and its report is the program's report.
                        assert(!stmt_vars_ok(st, dom));
                        assert(!stmts_vars_ok(stmts@.skip(j as int), dom));
                        assert(first_undef_stmts(stmts@.skip(j as int), dom) == first_undef_stmt(
                            st,
                            dom,
                        ));
                        crate::ast::lemma_run_stmts_some_iff_vars_ok(stmts@, Map::empty());
                        assert(Map::<Seq<char>, i64>::empty().dom() =~= Set::<Seq<char>>::empty());
                    }
                    return Err(ce);
                },
                Ok(()) => {},
            }
            proof {
                let delta = this.instructions().skip(prev_ins.len() as int);
                assert(this.instructions() =~= prev_ins + delta);
                // Instantiate the statement contract at the tracked state.
                assert(names.len() <= cur.slots.len() && this.bound_names().len()
                    <= cur.slots.len());
                assert(run(delta, cur) matches Some(s2) && step_stmt(st, env_of(names, cur.slots))
                    matches Some((env2, outs)) && s2.slots.len() == cur.slots.len() && env_of(
                    this.bound_names(),
                    s2.slots,
                ) == env2 && s2.stack == cur.stack && s2.out == cur.out + outs);
                let s2 = run(delta, cur)->Some_0;
                let (env2, outs) = step_stmt(st, envj)->Some_0;
                crate::machine::lemma_run_app(prev_ins, delta, init_state(vc as nat));
                assert(run(this.instructions(), init_state(vc as nat)) == Some(s2));
                assert(stmts@.take(j as int + 1) =~= pre.push(st));
                lemma_run_stmts_snoc(pre, st, Map::empty());
                assert(run_stmts(stmts@.take(j as int + 1), Map::empty()) == Some(
                    (env2, outj + outs),
                ));
                lemma_count_lets_cat(pre, seq![st]);
                assert(pre.push(st) =~= pre + seq![st]);
                assert(seq![st].drop_first() =~= Seq::<Stmt>::empty());
                assert(count_lets(Seq::<Stmt>::empty()) == 0);
                assert(seq![st][0] == st);
                assert(count_lets(seq![st]) == (if st is Let {
                    1nat
                } else {
                    0nat
                }));
                // The emitted code and symbol table track the lowering spec.
                lemma_gen_stmts_snoc(pre, st, Seq::<Seq<char>>::empty());
                lemma_names_after_snoc(pre, st, Seq::<Seq<char>>::empty());
                assert(delta == sp_gen_stmt(st, names));
                assert(this.instructions() =~= sp_gen_stmts(
                    stmts@.take(j as int + 1),
                    Seq::<Seq<char>>::empty(),
                ));
                assert(this.bound_names() == names_after_stmt(st, names));
                // The bound-name set evolves exactly as the semantics' domain.
                lemma_step_stmt_dom(st, envj);
                match st {
                    Stmt::Let { name, .. } => {
                        lemma_name_dom_push(names, name@);
                    },
                    _ => {},
                }
                assert(name_dom(this.bound_names()) == dom_after(st, dom));
                cur = s2;
            }
            j += 1;
        }
        proof {
            assert(stmts@.take(stmts@.len() as int) =~= stmts@);
            assert(stmts@.skip(stmts@.len() as int) =~= Seq::<Stmt>::empty());
            crate::ast::lemma_run_stmts_some_iff_vars_ok(stmts@, Map::empty());
            assert(Map::<Seq<char>, i64>::empty().dom() =~= Set::<Seq<char>>::empty());
        }
        let Codegen { instrs, names: _, var_count: _ } = this;
        Ok((instrs, vc))
    }


    /// Lowers a whole program and renders it as the target assembler's
    /// text. The text is a function of the syntax tree alone — the exact
    /// rendering of the exact lowering — so independent compilations of
    /// equal input produce identical bytes; its machine-level run prints
    /// exactly the values the source program denotes; failure cases are
    /// exactly those of `generate_instrs`.
    pub fn generate(self, stmts: &[Stmt]) -> (r: Result<String, CodegenError>)
        requires
            self.instructions() == Seq::<Instr>::empty(),
            self.bound_names() == Seq::<Seq<char>>::empty(),
            self.slot_count() == 0,
        ensures
            match r {
                Ok(text) => {
                    let prog = sp_gen_stmts(stmts@, Seq::empty());
                    let vc = count_lets(stmts@) as int;
                    &&& text@ == crate::render::render_program(prog, vc)
                    &&& vc <= MAX_SLOTS
                    &&& stmts_vars_ok(stmts@, Set::empty())
                    &&& crate::ast::program_output(stmts@) is Some
                    &&& run(prog, init_state(vc as nat)) matches Some(end) && end.out
                        == crate::ast::program_output(stmts@)->Some_0
                },
                Err(e) => match e {
                    CodegenError::TooManyVariables => count_lets(stmts@) > MAX_SLOTS,
                    CodegenError::UndefinedVariable(nm) => {
                        &&& count_lets(stmts@) <= MAX_SLOTS
                        &&& !stmts_vars_ok(stmts@, Set::empty())
                        &&& crate::ast::program_output(stmts@) is None
                        &&& nm@ == first_undef_stmts(stmts@, Set::empty())
                    },
                },
            },
    {
        match self.generate_instrs(stmts) {
            Ok((prog, vc)) => {
                let text = crate::render::render(&prog, vc);
                proof {
                    assert(crate::render::render_program(prog@, vc as int) == text@);
                }
                Ok(text)
            },
            Err(e) => Err(e),
        }
    }

    /// Lowers an expression: the emitted instructions leave the expression's
    /// value in the accumulator and everything else as it was. Lowering
    /// succeeds exactly when every variable the expression reads is bound;
    /// otherwise it reports the first unbound name in evaluation order.
    fn gen_expr(&mut self, e: &Expr) -> (r: Result<(), CodegenError>)
        ensures
            final(self).bound_names() == old(self).bound_names(),
            final(self).slot_count() == old(self).slot_count(),
            old(self).instructions().is_prefix_of(final(self).instructions()),
            ({
                let delta = final(self).instructions().skip(old(self).instructions().len() as int);
                let names = old(self).bound_names();
                match r {
                    Ok(_) => expr_vars_ok(*e, name_dom(names)) && delta == sp_gen_expr(*e, names)
                        && forall|s: MState|
                        #![trigger run(delta, s)]
                        names.len() <= s.slots.len() ==> (run(delta, s) matches Some(s2)
                            && s2.x0 == eval_expr(*e, env_of(names, s.slots))->Some_0
                            && s2.slots == s.slots
                            && s2.stack == s.stack
                            && s2.out == s.out),
                    Err(ce) => !expr_vars_ok(*e, name_dom(names)) && (
                        ce matches CodegenError::UndefinedVariable(nm)
                            && nm@ == first_undef_expr(*e, name_dom(names))),
                }
            }),
        decreases *e,
    {
        let ghost base = self.instrs@.len() as int;
        let ghost names = names_seq(self.names@);
        match e {
            Expr::IntLit(val) => {
                self.gen_load_immediate(*val);
                proof {
                    let delta = self.instrs@.skip(base);
                    assert(delta =~= encode_imm(*val));
                    assert forall|s: MState| names.len() <= s.slots.len() implies (run(delta, s)
                        matches Some(s2) && s2.x0 == eval_expr(*e, env_of(names, s.slots))->Some_0
                        && s2.slots == s.slots && s2.stack == s.stack && s2.out == s.out) by {
                        assert(run(delta, s) == Some(MState { x0: *val, ..s }));
                    }
                }
                Ok(())
            },
            Expr::Var(name) => {
                match self.lookup(name) {
                    Some(idx) => {
                        self.emit(Instr::Load(idx));
                        proof {
                            let delta = self.instrs@.skip(base);
                            assert(delta =~= seq![Instr::Load(idx)]);
                            lemma_last_index(names, name@);
                            assert(last_index(names, name@) as usize == idx);
                            assert(delta =~= sp_gen_expr(*e, names));
                            assert forall|s: MState| names.len() <= s.slots.len() implies (run(
                                delta,
                                s,
                            ) matches Some(s2) && s2.x0 == eval_expr(
                                *e,
                                env_of(names, s.slots),
                            )->Some_0 && s2.slots == s.slots && s2.stack == s.stack && s2.out
                                == s.out) by {
                                lemma_run_one(Instr::Load(idx), s);
                                let env = env_of(names, s.slots);
                                assert(env.dom().contains(name@));
                                assert(env[name@] == s.slots[idx as int]);
                            }
                        }
                        Ok(())
                    },
                    None => {
                        proof {
                            assert(!name_dom(names).contains(name@));
                            assert(self.instrs@.skip(base) =~= self.instrs@.subrange(
                                base,
                                self.instrs@.len() as int,
                            ));
                            assert(self.instrs@.is_prefix_of(self.instrs@));
                        }
                        Err(CodegenError::UndefinedVariable(name.clone()))
                    },
                }
            },
            Expr::UnaryMinus(inner) => {
                match self.gen_expr(&**inner) {
                    Err(ce) => Err(ce),
                    Ok(()) => {
                        let ghost d_in = self.instrs@.skip(base);
                        let ghost ins1 = self.instructions();
                        self.emit(Instr::Neg);
                        proof {
                            lemma_prefix_trans(
                                old(self).instructions(),
                                ins1,
                                self.instructions(),
                            );
                            let delta = self.instrs@.skip(base);
                            assert(delta =~= d_in.push(Instr::Neg));
                            assert(delta =~= sp_gen_expr(*e, names));
                            assert forall|s: MState| names.len() <= s.slots.len() implies (run(
                                delta,
                                s,
                            ) matches Some(s2) && s2.x0 == eval_expr(
                                *e,
                                env_of(names, s.slots),
                            )->Some_0 && s2.slots == s.slots && s2.stack == s.stack && s2.out
                                == s.out) by {
                                lemma_run_snoc(d_in, Instr::Neg, s);
                                lemma_env_dom(names, s.slots);
                                lemma_eval_some_iff_vars_ok(**inner, env_of(names, s.slots));
                                assert(run(d_in, s) matches Some(s1) && s1.x0 == eval_expr(
                                    **inner,
                                    env_of(names, s.slots),
                                )->Some_0 && s1.slots == s.slots && s1.stack == s.stack && s1.out
                                    == s.out);
                            }
                        }
                        Ok(())
                    },
                }
            },
            Expr::BinOp { op, left, right } => {
                match self.gen_expr(&**left) {
                    Err(ce) => {
                        return Err(ce);
                    },
                    Ok(()) => {},
                }
                let ghost d_l = self.instrs@.skip(base);
                let ghost ins_a = self.instructions();
                self.emit(Instr::Push);
                let ghost ins_b = self.instructions();
                let ghost mid = self.instrs@.skip(base);
                let ghost base_r = self.instrs@.len() as int;
                proof {
                    lemma_prefix_trans(old(self).instructions(), ins_a, ins_b);
                }
                match self.gen_expr(&**right) {
                    Err(ce) => {
                        proof {
                            lemma_prefix_trans(
                                old(self).instructions(),
                                ins_b,
                                self.instructions(),
                            );
                        }
                        return Err(ce);
                    },
                    Ok(()) => {},
                }
                let ghost d_r = self.instrs@.skip(base_r);
                let ghost mid2 = self.instrs@.skip(base);
                let ghost ins_c = self.instructions();
                self.emit(Instr::Pop);
                let ghost ins_d = self.instructions();
                self.emit(Instr::Arith(*op));
                proof {
                    lemma_prefix_trans(old(self).instructions(), ins_b, ins_c);
                    lemma_prefix_trans(old(self).instructions(), ins_c, ins_d);
                    lemma_prefix_trans(old(self).instructions(), ins_d, self.instructions());
                    let delta = self.instrs@.skip(base);
                    assert(mid =~= d_l.push(Instr::Push));
                    assert(mid =~= d_l + seq![Instr::Push]);
                    assert(mid2 =~= mid + d_r);
                    assert(delta =~= mid2 + seq![Instr::Pop, Instr::Arith(*op)]);
                    assert(delta =~= sp_gen_expr(*e, names));
                    assert forall|s: MState| names.len() <= s.slots.len() implies (run(delta, s)
                        matches Some(s2) && s2.x0 == eval_expr(*e, env_of(names, s.slots))->Some_0
                        && s2.slots == s.slots && s2.stack == s.stack && s2.out == s.out) by {
                        let env = env_of(names, s.slots);
                        lemma_env_dom(names, s.slots);
                        lemma_eval_some_iff_vars_ok(**left, env);
                        lemma_eval_some_iff_vars_ok(**right, env);
                        let vl = eval_expr(**left, env)->Some_0;
                        let vr = eval_expr(**right, env)->Some_0;
                        assert(run(d_l, s) matches Some(s1) && s1.x0 == vl && s1.slots == s.slots
                            && s1.stack == s.stack && s1.out == s.out);
                        let s1 = run(d_l, s)->Some_0;
                        lemma_run_snoc(d_l, Instr::Push, s);
                        let s2p = MState { stack: s1.stack.push(vl), ..s1 };
                        assert(run(mid, s) == Some(s2p));
                        assert(s2p.slots == s.slots && names.len() <= s2p.slots.len());
                        assert(env_of(names, s2p.slots) == env);
                        assert(run(d_r, s2p) matches Some(s3) && s3.x0 == vr && s3.slots
                            == s2p.slots && s3.stack == s2p.stack && s3.out == s2p.out);
                        let s3 = run(d_r, s2p)->Some_0;
                        crate::machine::lemma_run_app(mid, d_r, s);
                        assert(run(mid2, s) == Some(s3));
                        let tail = seq![Instr::Pop, Instr::Arith(*op)];
                        assert(s3.stack.len() > 0 && s3.stack.last() == vl);
                        assert(s3.stack.drop_last() =~= s.stack);
                        let s4 = MState { x1: vl, stack: s.stack, ..s3 };
                        assert(step(Instr::Pop, s3) == Some(s4));
                        let s5 = step(Instr::Arith(*op), s4)->Some_0;
                        assert(tail.drop_first() =~= seq![Instr::Arith(*op)]);
                        lemma_run_one(Instr::Arith(*op), s4);
                        assert(run(tail, s3) == Some(s5));
                        crate::machine::lemma_run_app(mid2, tail, s);
                        assert(run(delta, s) == Some(s5));
                        assert(s5.x0 == crate::ast::apply_binop(*op, vl, vr));
                    }
                }
                Ok(())
            },
        }
    }


    /// Lowers one statement. On success, running the emitted instructions
    /// from a state whose frame realizes the current environment performs
    /// exactly the statement's effect: the new frame realizes the updated
    /// environment and the output grows by what the statement prints. On
    /// failure nothing is bound and the first unbound name is reported.
    fn gen_stmt(&mut self, st: &Stmt) -> (r: Result<(), CodegenError>)
        requires
            old(self).bound_names().len() <= old(self).slot_count(),
            *st is Let ==> old(self).bound_names().len() < old(self).slot_count(),
        ensures
            final(self).slot_count() == old(self).slot_count(),
            old(self).instructions().is_prefix_of(final(self).instructions()),
            ({
                let delta = final(self).instructions().skip(old(self).instructions().len() as int);
                let names = old(self).bound_names();
                let dom = name_dom(names);
                match r {
                    Ok(_) => {
                        &&& stmt_vars_ok(*st, dom)
                        &&& delta == sp_gen_stmt(*st, names)
                        &&& final(self).bound_names() == (match *st {
                            Stmt::Let { name, .. } => names.push(name@),
                            _ => names,
                        })
                        &&& forall|s: MState|
                            #![trigger run(delta, s)]
                            (names.len() <= s.slots.len() && final(self).bound_names().len()
                                <= s.slots.len()) ==> {
                                let stepped = step_stmt(*st, env_of(names, s.slots));
                                run(delta, s) matches Some(s2) && stepped matches Some((env2, outs))
                                    && s2.slots.len() == s.slots.len()
                                    && env_of(final(self).bound_names(), s2.slots) == env2
                                    && s2.stack == s.stack
                                    && s2.out == s.out + outs
                            }
                    },
                    Err(ce) => {
                        &&& !stmt_vars_ok(*st, dom)
                        &&& final(self).bound_names() == names
                        &&& (ce matches CodegenError::UndefinedVariable(nm) && nm@
                            == first_undef_stmt(*st, dom))
                    },
                }
            }),
    {
        let ghost base = self.instrs@.len() as int;
        let ghost names = names_seq(self.names@);
        match st {
            Stmt::Let { name, expr } => {
                match self.gen_expr(expr) {
                    Err(ce) => {
                        return Err(ce);
                    },
                    Ok(()) => {},
                }
                let ghost d_e = self.instrs@.skip(base);
                let ghost ins1 = self.instructions();
                let idx = self.names.len();
                self.names.push(name.clone());
                proof {
                    assert(names_seq(self.names@) =~= names.push(name@));
                }
                self.emit(Instr::Store(idx));
                proof {
                    lemma_prefix_trans(old(self).instructions(), ins1, self.instructions());
                    let delta = self.instrs@.skip(base);
                    assert(delta =~= d_e.push(Instr::Store(idx)));
                    assert(idx == names.len() as usize);
                    assert(delta =~= sp_gen_stmt(*st, names));
                    let new_names = names.push(name@);
                    assert forall|s: MState|
                        (names.len() <= s.slots.len() && new_names.len() <= s.slots.len())
                            implies {
                            let stepped = step_stmt(*st, env_of(names, s.slots));
                            run(delta, s) matches Some(s2) && stepped matches Some((env2, outs))
                                && s2.slots.len() == s.slots.len()
                                && env_of(new_names, s2.slots) == env2
                                && s2.stack == s.stack
                                && s2.out == s.out + outs
                        } by {
                        let env = env_of(names, s.slots);
                        lemma_env_dom(names, s.slots);
                        lemma_eval_some_iff_vars_ok(*expr, env);
                        let v = eval_expr(*expr, env)->Some_0;
                        lemma_run_snoc(d_e, Instr::Store(idx), s);
                        assert(run(d_e, s) matches Some(s1) && s1.x0 == v && s1.slots == s.slots
                            && s1.stack == s.stack && s1.out == s.out);
                        let s1 = run(d_e, s)->Some_0;
                        assert(idx < s1.slots.len());
                        let s2 = MState { slots: s1.slots.update(idx as int, v), ..s1 };
                        assert(step(Instr::Store(idx), s1) == Some(s2));
                        lemma_env_push(names, s.slots, name@, v);
                        assert(env_of(new_names, s2.slots) == env.insert(name@, v));
                        assert(s2.out =~= s.out + Seq::<i64>::empty());
                    }
                }
                Ok(())
            },
            Stmt::Assign { name, expr } => {
                let idx = match self.lookup(name) {
                    Some(i) => i,
                    None => {
                        proof {
                            assert(self.instrs@.is_prefix_of(self.instrs@));
                            assert(self.instructions().is_prefix_of(self.instructions()));
                        }
                        return Err(CodegenError::UndefinedVariable(name.clone()));
                    },
                };
                match self.gen_expr(expr) {
                    Err(ce) => {
                        return Err(ce);
                    },
                    Ok(()) => {},
                }
                let ghost d_e = self.instrs@.skip(base);
                let ghost ins1 = self.instructions();
                self.emit(Instr::Store(idx));
                proof {
                    lemma_prefix_trans(old(self).instructions(), ins1, self.instructions());
                    let delta = self.instrs@.skip(base);
                    assert(delta =~= d_e.push(Instr::Store(idx)));
                    lemma_last_index(names, name@);
                    assert(last_index(names, name@) as usize == idx);
                    assert(delta =~= sp_gen_stmt(*st, names));
                    assert forall|s: MState|
                        (names.len() <= s.slots.len() && names.len() <= s.slots.len()) implies {
                            let stepped = step_stmt(*st, env_of(names, s.slots));
                            run(delta, s) matches Some(s2) && stepped matches Some((env2, outs))
                                && s2.slots.len() == s.slots.len()
                                && env_of(names, s2.slots) == env2
                                && s2.stack == s.stack
                                && s2.out == s.out + outs
                        } by {
                        let env = env_of(names, s.slots);
                        lemma_env_dom(names, s.slots);
                        lemma_eval_some_iff_vars_ok(*expr, env);
                        let v = eval_expr(*expr, env)->Some_0;
                        lemma_run_snoc(d_e, Instr::Store(idx), s);
                        assert(run(d_e, s) matches Some(s1) && s1.x0 == v && s1.slots == s.slots
                            && s1.stack == s.stack && s1.out == s.out);
                        let s1 = run(d_e, s)->Some_0;
                        assert(idx < s1.slots.len());
                        let s2 = MState { slots: s1.slots.update(idx as int, v), ..s1 };
                        assert(step(Instr::Store(idx), s1) == Some(s2));
                        lemma_env_assign(names, s.slots, name@, v);
                        assert(env_of(names, s2.slots) == env.insert(name@, v));
                        assert(s2.out =~= s.out + Seq::<i64>::empty());
                    }
                }
                Ok(())
            },
            Stmt::Print { expr } => {
                match self.gen_expr(expr) {
                    Err(ce) => {
                        return Err(ce);
                    },
                    Ok(()) => {},
                }
                let ghost d_e = self.instrs@.skip(base);
                let ghost ins1 = self.instructions();
                self.emit(Instr::Print);
                proof {
                    lemma_prefix_trans(old(self).instructions(), ins1, self.instructions());
                    let delta = self.instrs@.skip(base);
                    assert(delta =~= d_e.push(Instr::Print));
                    assert(delta =~= sp_gen_stmt(*st, names));
                    assert forall|s: MState|
                        (names.len() <= s.slots.len() && names.len() <= s.slots.len()) implies {
                            let stepped = step_stmt(*st, env_of(names, s.slots));
                            run(delta, s) matches Some(s2) && stepped matches Some((env2, outs))
                                && s2.slots.len() == s.slots.len()
                                && env_of(names, s2.slots) == env2
                                && s2.stack == s.stack
                                && s2.out == s.out + outs
                        } by {
                        let env = env_of(names, s.slots);
                        lemma_env_dom(names, s.slots);
                        lemma_eval_some_iff_vars_ok(*expr, env);
                        let v = eval_expr(*expr, env)->Some_0;
                        lemma_run_snoc(d_e, Instr::Print, s);
                        assert(run(d_e, s) matches Some(s1) && s1.x0 == v && s1.slots == s.slots
                            && s1.stack == s.stack && s1.out == s.out);
                        let s1 = run(d_e, s)->Some_0;
                        let s2 = MState { out: s1.out.push(v), ..s1 };
                        assert(step(Instr::Print, s1) == Some(s2));
                        assert(s2.out =~= s.out + seq![v]);
                    }
                }
                Ok(())
            },
        }
    }

    /// Emits exactly the move sequence `encode_imm` writes down for `v`:
    /// one plain move for small nonnegative values, one inverted move for
    /// small negatives, otherwise a low-chunk move followed by one chunk
    /// insertion per remaining non-zero 16-bit chunk. Running the emitted
    /// sequence from any state sets the accumulator to exactly `v` and
    /// changes nothing else.
    fn gen_load_immediate(&mut self, v: i64)
        ensures
            final(self).bound_names() == old(self).bound_names(),
            final(self).slot_count() == old(self).slot_count(),
            old(self).instructions().is_prefix_of(final(self).instructions()),
            final(self).instructions() == old(self).instructions() + encode_imm(v),
            forall|s: MState|
                #![trigger run(final(self).instructions().skip(old(self).instructions().len() as int), s)]
                run(final(self).instructions().skip(old(self).instructions().len() as int), s)
                    == Some(MState { x0: v, ..s }),
    {
        let ghost base = self.instrs@.len() as int;
        if v >= 0 && v < 65536 {
            let m: u16 = v as u16;
            self.emit(Instr::MovImm(m));
            let ghost d = self.instrs@.skip(base);
            proof {
                assert forall|s: MState| #![trigger run(d, s)]
                    run(d, s) == Some(MState { x0: v, ..s }) by {
                    assert(d =~= seq![Instr::MovImm(m)]);
                    lemma_run_one(Instr::MovImm(m), s);
                    assert(m as i64 == v);
                }
                assert(d =~= encode_imm(v));
                assert(final(self).instructions() =~= old(self).instructions() + d);
                assert(final(self).instructions().skip(old(self).instructions().len() as int) == d);
            }
        } else if v < 0 && v >= -65536 {
            let m: u16 = (-(v + 1)) as u16;
            self.emit(Instr::MovInv(m));
            let ghost d = self.instrs@.skip(base);
            proof {
                assert((!(m as u64)) as i64 == v) by (bit_vector)
                    requires
                        m == (-(v + 1)) as u16,
                        -65536 <= v < 0,
                ;
                assert forall|s: MState| #![trigger run(d, s)]
                    run(d, s) == Some(MState { x0: v, ..s }) by {
                    assert(d =~= seq![Instr::MovInv(m)]);
                    lemma_run_one(Instr::MovInv(m), s);
                }
                assert(d =~= encode_imm(v));
                assert(final(self).instructions() =~= old(self).instructions() + d);
                assert(final(self).instructions().skip(old(self).instructions().len() as int) == d);
            }
        } else {
            let uval: u64 = #[verifier::truncate] (v as u64);
            let c0: u16 = #[verifier::truncate] (uval as u16);
            let c1: u16 = #[verifier::truncate] ((uval >> 16) as u16);
            let c2: u16 = #[verifier::truncate] ((uval >> 32) as u16);
            let c3: u16 = #[verifier::truncate] ((uval >> 48) as u16);
            let ghost x_0: i64 = c0 as i64;
            let ghost x_1: i64 = if c1 != 0 { chunk_update(x_0, c1, 1) } else { x_0 };
            let ghost x_2: i64 = if c2 != 0 { chunk_update(x_1, c2, 2) } else { x_1 };
            let ghost x_3: i64 = if c3 != 0 { chunk_update(x_2, c3, 3) } else { x_2 };
            self.emit(Instr::MovChunk0(c0));
            let ghost d0 = self.instrs@.skip(base);
            proof {
                assert forall|s: MState| #![trigger run(d0, s)]
                    run(d0, s) == Some(MState { x0: x_0, ..s }) by {
                    assert(d0 =~= seq![Instr::MovChunk0(c0)]);
                    lemma_run_one(Instr::MovChunk0(c0), s);
                }
            }
            if c1 != 0 {
                self.emit(Instr::MovChunk(c1, 1));
            }
            let ghost d1 = self.instrs@.skip(base);
            proof {
                assert forall|s: MState| #![trigger run(d1, s)]
                    run(d1, s) == Some(MState { x0: x_1, ..s }) by {
                    if c1 != 0 {
                        assert(d1 =~= d0.push(Instr::MovChunk(c1, 1)));
                        lemma_run_snoc(d0, Instr::MovChunk(c1, 1), s);
                        assert(run(d0, s) == Some(MState { x0: x_0, ..s }));
                    } else {
                        assert(d1 =~= d0);
                        assert(run(d0, s) == Some(MState { x0: x_0, ..s }));
                    }
                }
                assert(d1 =~= d0 + chunk_instrs(c1, 1));
            }
            if c2 != 0 {
                self.emit(Instr::MovChunk(c2, 2));
            }
            let ghost d2 = self.instrs@.skip(base);
            proof {
                assert forall|s: MState| #![trigger run(d2, s)]
                    run(d2, s) == Some(MState { x0: x_2, ..s }) by {
                    if c2 != 0 {
                        assert(d2 =~= d1.push(Instr::MovChunk(c2, 2)));
                        lemma_run_snoc(d1, Instr::MovChunk(c2, 2), s);
                        assert(run(d1, s) == Some(MState { x0: x_1, ..s }));
                    } else {
                        assert(d2 =~= d1);
                        assert(run(d1, s) == Some(MState { x0: x_1, ..s }));
                    }
                }
                assert(d2 =~= d1 + chunk_instrs(c2, 2));
            }
            if c3 != 0 {
                self.emit(Instr::MovChunk(c3, 3));
            }
            let ghost d3 = self.instrs@.skip(base);
            proof {
                assert forall|s: MState| #![trigger run(d3, s)]
                    run(d3, s) == Some(MState { x0: x_3, ..s }) by {
                    if c3 != 0 {
                        assert(d3 =~= d2.push(Instr::MovChunk(c3, 3)));
                        lemma_run_snoc(d2, Instr::MovChunk(c3, 3), s);
                        assert(run(d2, s) == Some(MState { x0: x_2, ..s }));
                    } else {
                        assert(d3 =~= d2);
                        assert(run(d2, s) == Some(MState { x0: x_2, ..s }));
                    }
                }
                // The chunks reassemble the original bit pattern.
                assert(x_3 == v) by (bit_vector)
                    requires
                        uval == v as u64,
                        c0 == uval as u16,
                        c1 == (uval >> 16) as u16,
                        c2 == (uval >> 32) as u16,
                        c3 == (uval >> 48) as u16,
                        x_0 == c0 as i64,
                        x_1 == (if c1 != 0 {
                            ((((x_0 as u64) & !(0xFFFFu64 << 16)) | ((c1 as u64) << 16)) as i64)
                        } else {
                            x_0
                        }),
                        x_2 == (if c2 != 0 {
                            ((((x_1 as u64) & !(0xFFFFu64 << 32)) | ((c2 as u64) << 32)) as i64)
                        } else {
                            x_1
                        }),
                        x_3 == (if c3 != 0 {
                            ((((x_2 as u64) & !(0xFFFFu64 << 48)) | ((c3 as u64) << 48)) as i64)
                        } else {
                            x_2
                        }),
                ;
                assert(d3 =~= d2 + chunk_instrs(c3, 3));
                assert(d0 =~= seq![Instr::MovChunk0(c0)]);
                assert(c0 == uval as u16 && c1 == (uval >> 16) as u16 && c2 == (uval >> 32) as u16
                    && c3 == (uval >> 48) as u16);
                assert(d3 =~= encode_imm(v));
                assert(final(self).instructions() =~= old(self).instructions() + d3);
                assert(final(self).instructions().skip(old(self).instructions().len() as int) == d3);
            }
        }
    }
}

} // verus!
