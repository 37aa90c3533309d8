//! Rendering the instruction sequence as the target assembler's text.
//!
//! The exact text is written down once, as the specification functions
//! `render_program`, `render_instr` and `dec`, and the executable renderer
//! is proved to produce exactly that. The text holds a read-only data
//! section with the one format string, an entry point that reserves a frame
//! sized for the saved link words plus one eight-byte slot per variable
//! (rounded up to sixteen-byte alignment), the body, and an epilogue that
//! returns status zero.
use crate::ast::BinOp;
use crate::machine::Instr;
use vstd::prelude::*;

verus! {

pub open spec fn digit_char(d: int) -> char {
    if d == 0 {
        '0'
    } else if d == 1 {
        '1'
    } else if d == 2 {
        '2'
    } else if d == 3 {
        '3'
    } else if d == 4 {
        '4'
    } else if d == 5 {
        '5'
    } else if d == 6 {
        '6'
    } else if d == 7 {
        '7'
    } else if d == 8 {
        '8'
    } else {
        '9'
    }
}

/// The decimal digits of a nonnegative number.
pub open spec fn dec(n: int) -> Seq<char>
    recommends
        n >= 0,
    decreases n,
{
    if n < 10 {
        seq![digit_char(n)]
    } else {
        dec(n / 10).push(digit_char(n % 10))
    }
}

/// The frame covers the two saved link words and one eight-byte slot per
/// variable, rounded up to sixteen-byte alignment.
pub open spec fn frame_size(vc: int) -> int {
    ((16 + 8 * vc + 15) / 16) * 16
}

pub open spec fn render_instr(i: Instr) -> Seq<char> {
    match i {
        Instr::MovImm(m) => "    mov x0, #"@ + dec(m as int) + "\n"@,
        Instr::MovInv(m) => "    movn x0, #"@ + dec(m as int) + "\n"@,
        Instr::MovChunk0(m) => "    movz x0, #"@ + dec(m as int) + "\n"@,
        Instr::MovChunk(m, k) => "    movk x0, #"@ + dec(m as int) + ", lsl #"@ + dec(
            16 * k as int,
        ) + "\n"@,
        Instr::Load(i) => "    ldr x0, [x29, #-"@ + dec(8 * (i + 1) as int) + "]\n"@,
        Instr::Store(i) => "    str x0, [x29, #-"@ + dec(8 * (i + 1) as int) + "]\n"@,
        Instr::Push => "    str x0, [sp, #-16]!\n"@,
        Instr::Pop => "    ldr x1, [sp], #16\n"@,
        Instr::Neg => "    neg x0, x0\n"@,
        Instr::Arith(op) => match op {
            BinOp::Add => "    add x0, x1, x0\n"@,
            BinOp::Sub => "    sub x0, x1, x0\n"@,
            BinOp::Mul => "    mul x0, x1, x0\n"@,
            BinOp::Div => "    sdiv x0, x1, x0\n"@,
            BinOp::Mod => "    sdiv x2, x1, x0\n    msub x0, x2, x0, x1\n"@,
        },
        Instr::Print => "    str x0, [sp, #-16]!\n    adrp x0, _fmt@PAGE\n    add x0, x0, _fmt@PAGEOFF\n    bl _printf\n    add sp, sp, #16\n"@,
    }
}

pub open spec fn render_instrs(instrs: Seq<Instr>) -> Seq<char>
    decreases instrs.len(),
{
    if instrs.len() == 0 {
        Seq::empty()
    } else {
        render_instr(instrs[0]) + render_instrs(instrs.drop_first())
    }
}

pub open spec fn prologue(vc: int) -> Seq<char> {
    let fs = frame_size(vc);
    ".section __DATA,__data\n_fmt:\n    .asciz \"%lld\\n\"\n\n.section __TEXT,__text\n.globl _main\n.p2align 2\n_main:\n    sub sp, sp, #"@
        + dec(fs) + "\n    stp x29, x30, [sp, #"@ + dec(fs - 16) + "]\n    add x29, sp, #"@ + dec(
        fs - 16,
    ) + "\n"@
}

pub open spec fn epilogue(vc: int) -> Seq<char> {
    let fs = frame_size(vc);
    "    mov x0, #0\n    ldp x29, x30, [sp, #"@ + dec(fs - 16) + "]\n    add sp, sp, #"@ + dec(fs)
        + "\n    ret\n"@
}

/// The complete instruction stream text for a program body and slot count.
pub open spec fn render_program(instrs: Seq<Instr>, vc: int) -> Seq<char> {
    prologue(vc) + render_instrs(instrs) + epilogue(vc)
}

pub proof fn lemma_render_instrs_snoc(instrs: Seq<Instr>, i: Instr)
    ensures
        render_instrs(instrs.push(i)) == render_instrs(instrs) + render_instr(i),
    decreases instrs.len(),
{
    let q = instrs.push(i);
    if instrs.len() == 0 {
        assert(q[0] == i);
        assert(q.drop_first() =~= Seq::<Instr>::empty());
        assert(render_instrs(Seq::<Instr>::empty()) == Seq::<char>::empty());
        assert(render_instrs(q) == render_instr(i) + Seq::<char>::empty());
        assert(render_instr(i) + Seq::<char>::empty() =~= render_instr(i));
        assert(Seq::<char>::empty() + render_instr(i) =~= render_instr(i));
    } else {
        assert(q[0] == instrs[0]);
        assert(q.drop_first() =~= instrs.drop_first().push(i));
        lemma_render_instrs_snoc(instrs.drop_first(), i);
        assert(render_instrs(q) == render_instr(instrs[0]) + render_instrs(q.drop_first()));
        assert(render_instrs(instrs) == render_instr(instrs[0]) + render_instrs(
            instrs.drop_first(),
        ));
        assert(render_instr(instrs[0]) + (render_instrs(instrs.drop_first()) + render_instr(i))
            =~= (render_instr(instrs[0]) + render_instrs(instrs.drop_first())) + render_instr(i));
    }
}

/// Appends the decimal digits of `n`.
fn push_dec(out: &mut String, n: u128)
    ensures
        final(out)@ == old(out)@ + dec(n as int),
    decreases n,
{
    if n >= 10 {
        push_dec(out, n / 10);
        push_digit(out, (n % 10) as u64);
        proof {
            assert(old(out)@ + dec(n as int / 10) + seq![digit_char(n as int % 10)] =~= old(out)@
                + dec(n as int));
        }
    } else {
        push_digit(out, n as u64);
        proof {
            assert(old(out)@ + seq![digit_char(n as int)] =~= old(out)@ + dec(n as int));
        }
    }
}

/// Appends one decimal digit.
fn push_digit(out: &mut String, d: u64)
    requires
        d < 10,
    ensures
        final(out)@ == old(out)@ + seq![digit_char(d as int)],
{
    if d == 0 {
        out.append("0");
        proof {
            reveal_strlit("0");
            assert(old(out)@ + "0"@ =~= old(out)@ + seq![digit_char(0)]);
        }
    } else if d == 1 {
        out.append("1");
        proof {
            reveal_strlit("1");
            assert(old(out)@ + "1"@ =~= old(out)@ + seq![digit_char(1)]);
        }
    } else if d == 2 {
        out.append("2");
        proof {
            reveal_strlit("2");
            assert(old(out)@ + "2"@ =~= old(out)@ + seq![digit_char(2)]);
        }
    } else if d == 3 {
        out.append("3");
        proof {
            reveal_strlit("3");
            assert(old(out)@ + "3"@ =~= old(out)@ + seq![digit_char(3)]);
        }
    } else if d == 4 {
        out.append("4");
        proof {
            reveal_strlit("4");
            assert(old(out)@ + "4"@ =~= old(out)@ + seq![digit_char(4)]);
        }
    } else if d == 5 {
        out.append("5");
        proof {
            reveal_strlit("5");
            assert(old(out)@ + "5"@ =~= old(out)@ + seq![digit_char(5)]);
        }
    } else if d == 6 {
        out.append("6");
        proof {
            reveal_strlit("6");
            assert(old(out)@ + "6"@ =~= old(out)@ + seq![digit_char(6)]);
        }
    } else if d == 7 {
        out.append("7");
        proof {
            reveal_strlit("7");
            assert(old(out)@ + "7"@ =~= old(out)@ + seq![digit_char(7)]);
        }
    } else if d == 8 {
        out.append("8");
        proof {
            reveal_strlit("8");
            assert(old(out)@ + "8"@ =~= old(out)@ + seq![digit_char(8)]);
        }
    } else {
        out.append("9");
        proof {
            reveal_strlit("9");
            assert(old(out)@ + "9"@ =~= old(out)@ + seq![digit_char(9)]);
        }
    }
}

/// Renders one instruction, appending its text.
fn push_instr(out: &mut String, i: &Instr)
    ensures
        final(out)@ == old(out)@ + render_instr(*i),
{
    match i {
        Instr::MovImm(m) => {
            out.append("    mov x0, #");
            push_dec(out, *m as u128);
            out.append("\n");
            proof {
                assert(old(out)@ + "    mov x0, #"@ + dec(*m as int) + "\n"@ =~= old(out)@
                    + render_instr(*i));
            }
        },
        Instr::MovInv(m) => {
            out.append("    movn x0, #");
            push_dec(out, *m as u128);
            out.append("\n");
            proof {
                assert(old(out)@ + "    movn x0, #"@ + dec(*m as int) + "\n"@ =~= old(out)@
                    + render_instr(*i));
            }
        },
        Instr::MovChunk0(m) => {
            out.append("    movz x0, #");
            push_dec(out, *m as u128);
            out.append("\n");
            proof {
                assert(old(out)@ + "    movz x0, #"@ + dec(*m as int) + "\n"@ =~= old(out)@
                    + render_instr(*i));
            }
        },
        Instr::MovChunk(m, k) => {
            out.append("    movk x0, #");
            push_dec(out, *m as u128);
            out.append(", lsl #");
            push_dec(out, 16 * (*k as u128));
            out.append("\n");
            proof {
                assert(old(out)@ + "    movk x0, #"@ + dec(*m as int) + ", lsl #"@ + dec(
                    16 * *k as int,
                ) + "\n"@ =~= old(out)@ + render_instr(*i));
            }
        },
        Instr::Load(idx) => {
            out.append("    ldr x0, [x29, #-");
            let off: u128 = 8 * ((*idx as u128) + 1);
            push_dec(out, off);
            out.append("]\n");
            proof {
                assert(old(out)@ + "    ldr x0, [x29, #-"@ + dec(8 * (*idx + 1) as int) + "]\n"@
                    =~= old(out)@ + render_instr(*i));
            }
        },
        Instr::Store(idx) => {
            out.append("    str x0, [x29, #-");
            let off: u128 = 8 * ((*idx as u128) + 1);
            push_dec(out, off);
            out.append("]\n");
            proof {
                assert(old(out)@ + "    str x0, [x29, #-"@ + dec(8 * (*idx + 1) as int) + "]\n"@
                    =~= old(out)@ + render_instr(*i));
            }
        },
        Instr::Push => {
            out.append("    str x0, [sp, #-16]!\n");
            proof {
                assert(old(out)@ + "    str x0, [sp, #-16]!\n"@ =~= old(out)@ + render_instr(*i));
            }
        },
        Instr::Pop => {
            out.append("    ldr x1, [sp], #16\n");
            proof {
                assert(old(out)@ + "    ldr x1, [sp], #16\n"@ =~= old(out)@ + render_instr(*i));
            }
        },
        Instr::Neg => {
            out.append("    neg x0, x0\n");
            proof {
                assert(old(out)@ + "    neg x0, x0\n"@ =~= old(out)@ + render_instr(*i));
            }
        },
        Instr::Arith(op) => {
            match op {
                BinOp::Add => {
                    out.append("    add x0, x1, x0\n");
                },
                BinOp::Sub => {
                    out.append("    sub x0, x1, x0\n");
                },
                BinOp::Mul => {
                    out.append("    mul x0, x1, x0\n");
                },
                BinOp::Div => {
                    out.append("    sdiv x0, x1, x0\n");
                },
                BinOp::Mod => {
                    out.append("    sdiv x2, x1, x0\n    msub x0, x2, x0, x1\n");
                },
            }
            proof {
                assert(final(out)@ =~= old(out)@ + render_instr(*i));
            }
        },
        Instr::Print => {
            out.append(
                "    str x0, [sp, #-16]!\n    adrp x0, _fmt@PAGE\n    add x0, x0, _fmt@PAGEOFF\n    bl _printf\n    add sp, sp, #16\n",
            );
            proof {
                assert(final(out)@ =~= old(out)@ + render_instr(*i));
            }
        },
    }
}

/// Renders a whole program: exactly `render_program`.
pub fn render(instrs: &Vec<Instr>, var_count: usize) -> (r: String)
    requires
        var_count <= 32,
    ensures
        r@ == render_program(instrs@, var_count as int),
{
    let fs: u64 = (((16 + 8 * (var_count as u64) + 15) / 16) * 16);
    proof {
        assert(fs as int == frame_size(var_count as int));
        assert(fs >= 16);
    }
    let mut out = String::new();
    out.append(
        ".section __DATA,__data\n_fmt:\n    .asciz \"%lld\\n\"\n\n.section __TEXT,__text\n.globl _main\n.p2align 2\n_main:\n    sub sp, sp, #",
    );
    push_dec(&mut out, fs as u128);
    out.append("\n    stp x29, x30, [sp, #");
    push_dec(&mut out, (fs - 16) as u128);
    out.append("]\n    add x29, sp, #");
    push_dec(&mut out, (fs - 16) as u128);
    out.append("\n");
    proof {
        assert(out@ =~= prologue(var_count as int));
    }
    let ghost pro = out@;
    let mut i: usize = 0;
    while i < instrs.len()
        invariant
            i <= instrs@.len(),
            pro == prologue(var_count as int),
            out@ == pro + render_instrs(instrs@.take(i as int)),
        decreases instrs@.len() - i,
    {
        let ghost pre = instrs@.take(i as int);
        push_instr(&mut out, &instrs[i]);
        proof {
            assert(instrs@.take(i as int + 1) =~= pre.push(instrs@[i as int]));
            lemma_render_instrs_snoc(pre, instrs@[i as int]);
            assert(pro + render_instrs(pre) + render_instr(instrs@[i as int]) =~= pro
                + render_instrs(pre.push(instrs@[i as int])));
        }
        i += 1;
    }
    proof {
        assert(instrs@.take(instrs@.len() as int) =~= instrs@);
    }
    out.append("    mov x0, #0\n    ldp x29, x30, [sp, #");
    push_dec(&mut out, (fs - 16) as u128);
    out.append("]\n    add sp, sp, #");
    push_dec(&mut out, fs as u128);
    out.append("\n    ret\n");
    proof {
        assert(out@ =~= prologue(var_count as int) + render_instrs(instrs@) + epilogue(
            var_count as int,
        ));
    }
    out
}

} // verus!
