//! The target machine, abstracted: the instructions the code generator emits,
//! a small-step semantics over a machine state, and a verified interpreter.
//!
//! The state has an accumulator `x0`, a second operand register `x1`, a
//! scratch register `x2`, a frame of variable slots, an expression stack, and
//! the output printed so far. An execution faults (yields `None`) on a slot
//! index outside the frame, a pop from an empty stack, or a malformed chunk
//! position; generated programs are proved never to fault.
use crate::arith::{sdiv, smod64, sdiv64, wrap_neg, neg64};
use crate::ast::{apply_binop, BinOp};
use vstd::prelude::*;

verus! {

/// One emitted instruction. The first four materialize an immediate into the
/// accumulator: a small nonnegative value, the bitwise complement of a small
/// value (for small negatives), the low 16-bit chunk (zeroing the rest), and
/// an insertion of a 16-bit chunk at position 1, 2 or 3.
#[derive(Debug, Clone, Copy, PartialEq, Eq)]
pub enum Instr {
    MovImm(u16),
    MovInv(u16),
    MovChunk0(u16),
    MovChunk(u16, u8),
    Load(usize),
    Store(usize),
    Push,
    Pop,
    Neg,
    Arith(BinOp),
    Print,
}

pub struct MState {
    pub x0: i64,
    pub x1: i64,
    pub x2: i64,
    pub slots: Seq<i64>,
    pub stack: Seq<i64>,
    pub out: Seq<i64>,
}

/// The accumulator's bit pattern with the 16-bit chunk at position `k`
/// replaced by `m`.
pub open spec fn chunk_update(x: i64, m: u16, k: u8) -> i64 {
    ((((x as u64) & !(0xFFFFu64 << (16 * k as u64))) | ((m as u64) << (16 * k as u64))) as i64)
}

pub open spec fn step(i: Instr, s: MState) -> Option<MState> {
    match i {
        Instr::MovImm(m) => Some(MState { x0: m as i64, ..s }),
        Instr::MovInv(m) => Some(MState { x0: (!(m as u64)) as i64, ..s }),
        Instr::MovChunk0(m) => Some(MState { x0: m as i64, ..s }),
        Instr::MovChunk(m, k) => if 1 <= k && k <= 3 {
            Some(MState { x0: chunk_update(s.x0, m, k), ..s })
        } else {
            None
        },
        Instr::Load(i) => if i < s.slots.len() {
            Some(MState { x0: s.slots[i as int], ..s })
        } else {
            None
        },
        Instr::Store(i) => if i < s.slots.len() {
            Some(MState { slots: s.slots.update(i as int, s.x0), ..s })
        } else {
            None
        },
        Instr::Push => Some(MState { stack: s.stack.push(s.x0), ..s }),
        Instr::Pop => if s.stack.len() > 0 {
            Some(MState { x1: s.stack.last(), stack: s.stack.drop_last(), ..s })
        } else {
            None
        },
        Instr::Neg => Some(MState { x0: wrap_neg(s.x0), ..s }),
        Instr::Arith(op) => Some(
            MState {
                x0: apply_binop(op, s.x1, s.x0),
                x2: if op is Mod {
                    sdiv(s.x1, s.x0)
                } else {
                    s.x2
                },
                ..s
            },
        ),
        Instr::Print => Some(MState { out: s.out.push(s.x0), ..s }),
    }
}

/// Running a sequence of instructions from a state, faulting if any step
/// faults.
pub open spec fn run(prog: Seq<Instr>, s: MState) -> Option<MState>
    decreases prog.len(),
{
    if prog.len() == 0 {
        Some(s)
    } else {
        match step(prog[0], s) {
            Some(s1) => run(prog.drop_first(), s1),
            None => None,
        }
    }
}

/// Running a concatenation is running the parts in order.
pub proof fn lemma_run_app(a: Seq<Instr>, b: Seq<Instr>, s: MState)
    ensures
        run(a + b, s) == (match run(a, s) {
            Some(s1) => run(b, s1),
            None => None,
        }),
    decreases a.len(),
{
    if a.len() == 0 {
        assert(a + b =~= b);
    } else {
        assert((a + b)[0] == a[0]);
        match step(a[0], s) {
            Some(s1) => {
                assert((a + b).drop_first() =~= a.drop_first() + b);
                lemma_run_app(a.drop_first(), b, s1);
            },
            None => {},
        }
    }
}

/// The state a generated program starts in: cleared registers, one zeroed
/// slot per variable, empty stack, nothing printed.
pub open spec fn init_state(var_count: nat) -> MState {
    MState {
        x0: 0,
        x1: 0,
        x2: 0,
        slots: Seq::new(var_count, |i| 0i64),
        stack: Seq::empty(),
        out: Seq::empty(),
    }
}

/// Executable interpreter for the machine: returns the printed values, or
/// `None` if execution faults.
pub fn run_program(prog: &Vec<Instr>, var_count: usize) -> (r: Option<Vec<i64>>)
    ensures
        match run(prog@, init_state(var_count as nat)) {
            Some(s) => r matches Some(out) && out@ == s.out,
            None => r is None,
        },
{
    let mut x0: i64 = 0;
    let mut x1: i64 = 0;
    let mut x2: i64 = 0;
    let mut slots: Vec<i64> = Vec::new();
    let mut stack: Vec<i64> = Vec::new();
    let mut out: Vec<i64> = Vec::new();
    let mut j: usize = 0;
    while j < var_count
        invariant
            j <= var_count,
            slots@ =~= Seq::new(j as nat, |i| 0i64),
        decreases var_count - j,
    {
        slots.push(0);
        j += 1;
    }
    let ghost s0 = init_state(var_count as nat);
    proof {
        assert(slots@ =~= s0.slots);
        assert(stack@ =~= s0.stack);
        assert(out@ =~= s0.out);
        assert(prog@.skip(0) =~= prog@);
        assert(MState { x0: x0, x1: x1, x2: x2, slots: slots@, stack: stack@, out: out@ } == s0);
    }
    let mut i: usize = 0;
    while i < prog.len()
        invariant
            i <= prog.len(),
            s0 == init_state(var_count as nat),
            run(prog@, s0) == run(
                prog@.skip(i as int),
                MState { x0: x0, x1: x1, x2: x2, slots: slots@, stack: stack@, out: out@ },
            ),
        decreases prog.len() - i,
    {
        let ghost cur = MState { x0: x0, x1: x1, x2: x2, slots: slots@, stack: stack@, out: out@ };
        let ghost rest = prog@.skip(i as int);
        proof {
            assert(rest.len() > 0 && rest[0] == prog@[i as int]);
            assert(rest.drop_first() =~= prog@.skip(i as int + 1));
        }
        let ins = prog[i];
        match ins {
            Instr::MovImm(m) => {
                x0 = m as i64;
            },
            Instr::MovInv(m) => {
                x0 = #[verifier::truncate] ((!(m as u64)) as i64);
            },
            Instr::MovChunk0(m) => {
                x0 = m as i64;
            },
            Instr::MovChunk(m, k) => {
                if 1 <= k && k <= 3 {
                    let sh: u64 = 16 * (k as u64);
                    let bits: u64 = #[verifier::truncate] (x0 as u64);
                    let merged: u64 = (bits & !(0xFFFFu64 << sh)) | ((m as u64) << sh);
                    x0 = #[verifier::truncate] (merged as i64);
                } else {
                    proof {
                        assert(step(rest[0], cur) is None);
                        assert(run(rest, cur) is None);
                    }
                    return None;
                }
            },
            Instr::Load(idx) => {
                if idx < slots.len() {
                    x0 = slots[idx];
                } else {
                    proof {
                        assert(step(rest[0], cur) is None);
                        assert(run(rest, cur) is None);
                    }
                    return None;
                }
            },
            Instr::Store(idx) => {
                if idx < slots.len() {
                    slots.set(idx, x0);
                } else {
                    proof {
                        assert(step(rest[0], cur) is None);
                        assert(run(rest, cur) is None);
                    }
                    return None;
                }
            },
            Instr::Push => {
                stack.push(x0);
            },
            Instr::Pop => {
                match stack.pop() {
                    Some(v) => {
                        x1 = v;
                    },
                    None => {
                        proof {
                            assert(step(rest[0], cur) is None);
                            assert(run(rest, cur) is None);
                        }
                        return None;
                    },
                }
            },
            Instr::Neg => {
                x0 = neg64(x0);
            },
            Instr::Arith(op) => {
                match op {
                    BinOp::Add => {
                        x0 = x1.wrapping_add(x0);
                    },
                    BinOp::Sub => {
                        x0 = x1.wrapping_sub(x0);
                    },
                    BinOp::Mul => {
                        x0 = x1.wrapping_mul(x0);
                    },
                    BinOp::Div => {
                        x0 = sdiv64(x1, x0);
                    },
                    BinOp::Mod => {
                        x2 = sdiv64(x1, x0);
                        x0 = smod64(x1, x0);
                    },
                }
            },
            Instr::Print => {
                out.push(x0);
            },
        }
        proof {
            let next = MState { x0: x0, x1: x1, x2: x2, slots: slots@, stack: stack@, out: out@ };
            assert(step(rest[0], cur) == Some(next));
        }
        i += 1;
    }
    assert(prog@.skip(prog@.len() as int) =~= Seq::<Instr>::empty());
    Some(out)
}

} // verus!
