//! The code generator: optimized tree to x86-64 assembly text.
//!
//! The program shape is fixed: a data section reserving a zero-initialized
//! tape of 30,000 byte cells, and a text section whose single entry point
//! loads the tape's base address into the pointer register `R8`, runs the
//! instruction stream in program order, and exits with status 0.  Byte I/O
//! goes through the platform's read and write syscalls, one byte at a
//! time; when a read finds no byte, the current cell is left unchanged.
//! Pointer movement past either end of the tape is deliberately
//! unchecked, matching the source language's permissive semantics.  Each
//! loop takes the next value of a counter that only ever grows, in
//! pre-order, so its `loop_<n>_start` / `loop_<n>_end` labels are unique
//! within the compiled program.

use vstd::prelude::*;
use vstd::string::StringExecFns;

use crate::optimized_command::{lemma_opts_view_elems, lemma_optvs_size_bounds, opts_view,
    optv_loops, optv_size, optvs_loops, optvs_size, OptimizedCommand, OptimizedCommandView};

verus! {

/// The digit character for one decimal digit.
pub open spec fn digit_char(d: nat) -> char {
    if d == 0 {
        '0'
    } else if d == 1 {
        '1'
    } else if d == 2 {
        '2'
    } else if d == 3 {
        '3'
    } else if d == 4 {
        '4'
    } else if d == 5 {
        '5'
    } else if d == 6 {
        '6'
    } else if d == 7 {
        '7'
    } else if d == 8 {
        '8'
    } else {
        '9'
    }
}

/// The decimal digits of `n`, most significant first, no leading zeros
/// except for `n == 0` itself.
pub open spec fn dec_digits(n: nat) -> Seq<char>
    decreases n,
{
    if n < 10 {
        seq![digit_char(n)]
    } else {
        dec_digits(n / 10).push(digit_char(n % 10))
    }
}

/// The single-character text of one decimal digit.
fn digit_str(d: usize) -> (r: &'static str)
    requires
        d < 10,
    ensures
        r@ == seq![digit_char(d as nat)],
{
    let r: &'static str = if d == 0 {
        "0"
    } else if d == 1 {
        "1"
    } else if d == 2 {
        "2"
    } else if d == 3 {
        "3"
    } else if d == 4 {
        "4"
    } else if d == 5 {
        "5"
    } else if d == 6 {
        "6"
    } else if d == 7 {
        "7"
    } else if d == 8 {
        "8"
    } else {
        "9"
    };
    proof {
        reveal_strlit("0");
        reveal_strlit("1");
        reveal_strlit("2");
        reveal_strlit("3");
        reveal_strlit("4");
        reveal_strlit("5");
        reveal_strlit("6");
        reveal_strlit("7");
        reveal_strlit("8");
        reveal_strlit("9");
        assert(r@ =~= seq![digit_char(d as nat)]);
    }
    r
}

/// Renders a number in decimal, exactly as the emitted assembly shows it.
fn usize_to_string(n: usize) -> (s: String)
    ensures
        s@ == dec_digits(n as nat),
    decreases n,
{
    if n < 10 {
        digit_str(n).to_owned()
    } else {
        let mut s = usize_to_string(n / 10);
        s.append(digit_str(n % 10));
        proof {
            assert(s@ =~= dec_digits(n as nat));
        }
        s
    }
}

/// Appends one instruction fragment: a prefix, a decimal number, and a
/// suffix.
fn push_part(s: &mut String, pre: &str, n: usize, post: &str)
    ensures
        final(s)@ == old(s)@ + pre@ + dec_digits(n as nat) + post@,
{
    s.append(pre);
    let num = usize_to_string(n);
    s.append(num.as_str());
    s.append(post);
}

/// The fixed text before the instruction stream: the tape reservation and
/// the entry point that loads the pointer register.
pub open spec fn header_text() -> Seq<char> {
    "section .bss\n"@ + "\tbuffer: resb 30000\n\n"@ + "section .text\n"@ + "\tglobal _start\n\n"@
        + "_start:\n"@ + "\tmov R8, buffer\n"@
}

/// The fixed text after the instruction stream: the process-exit syscall
/// with status 0.
pub open spec fn exit_text() -> Seq<char> {
    "\tmov rdi, 0\n"@ + "\tmov rax, 60\n"@ + "\tsyscall"@
}

/// The read syscall for one byte from standard input into the current
/// cell.
pub open spec fn input_text() -> Seq<char> {
    "\tmov rdi, 0\n"@ + "\tmov rsi, R8\n"@ + "\tmov rdx, 1\n"@ + "\tmov rax, 0\n"@ + "\tsyscall\n"@
}

/// The write syscall for one byte from the current cell to standard
/// output.
pub open spec fn output_text() -> Seq<char> {
    "\tmov rdi, 1\n"@ + "\tmov rsi, R8\n"@ + "\tmov rdx, 1\n"@ + "\tmov rax, 1\n"@ + "\tsyscall\n"@
}

/// The entry test and start label of loop number `k`.
pub open spec fn loop_head_text(k: nat) -> Seq<char> {
    "\tcmp byte[R8], 0\n"@ + "\tje loop_"@ + dec_digits(k) + "_end\n"@ + "\tloop_"@ + dec_digits(k)
        + "_start:\n"@
}

/// The back-edge test and end label of loop number `k`.
pub open spec fn loop_tail_text(k: nat) -> Seq<char> {
    "\tcmp byte[R8], 0\n"@ + "\tjne loop_"@ + dec_digits(k) + "_start\n"@ + "\tloop_"@ + dec_digits(
        k,
    ) + "_end:\n"@
}

/// The text of one node, given the next free loop number, paired with the
/// loop number left free after it.
pub open spec fn asm_cmd(c: OptimizedCommandView, next: nat) -> (Seq<char>, nat)
    decreases optv_size(c), 0nat,
{
    match c {
        OptimizedCommandView::IncrementCell(n) => (
            "\tadd byte[R8], "@ + dec_digits(n) + "\n"@,
            next,
        ),
        OptimizedCommandView::IncrementCellAtOffset(o, n) => (
            "\tadd byte[R8 + "@ + dec_digits(o) + "], "@ + dec_digits(n) + "\n"@,
            next,
        ),
        OptimizedCommandView::DecrementCell(n) => ("\tsub byte[R8], "@ + dec_digits(n) + "\n"@, next),
        OptimizedCommandView::IncrementPointer(n) => ("\tadd R8, "@ + dec_digits(n) + "\n"@, next),
        OptimizedCommandView::DecrementPointer(n) => ("\tsub R8, "@ + dec_digits(n) + "\n"@, next),
        OptimizedCommandView::Input => (input_text(), next),
        OptimizedCommandView::Output => (output_text(), next),
        OptimizedCommandView::While(body) => {
            let inner = asm_cmds(body, next + 1);
            (loop_head_text(next) + inner.0 + loop_tail_text(next), inner.1)
        },
    }
}

/// The text of a whole sibling sequence, threading the loop counter left
/// to right, paired with the counter's final value.
pub open spec fn asm_cmds(s: Seq<OptimizedCommandView>, next: nat) -> (Seq<char>, nat)
    decreases optvs_size(s), 1nat,
        via asm_cmds_decreases
{
    if s.len() == 0 {
        (Seq::empty(), next)
    } else {
        let head = asm_cmd(s[0], next);
        let rest = asm_cmds(s.drop_first(), head.1);
        (head.0 + rest.0, rest.1)
    }
}

#[via_fn]
proof fn asm_cmds_decreases(s: Seq<OptimizedCommandView>, next: nat) {
    if s.len() > 0 {
        assert(optv_size(s[0]) >= 1);
    }
}

/// The text of a whole program: header, instruction stream with loop
/// numbers from 0, exit.
pub open spec fn asm_view(s: Seq<OptimizedCommandView>) -> Seq<char> {
    header_text() + asm_cmds(s, 0).0 + exit_text()
}

/// Emitting a sequence advances the loop counter by exactly the number of
/// loop nodes in it.
pub proof fn lemma_asm_counter(s: Seq<OptimizedCommandView>, next: nat)
    ensures
        asm_cmds(s, next).1 == next + optvs_loops(s),
    decreases optvs_size(s), 1nat,
{
    if s.len() > 0 {
        assert(optv_size(s[0]) >= 1);
        lemma_asm_counter_cmd(s[0], next);
        lemma_asm_counter(s.drop_first(), asm_cmd(s[0], next).1);
    }
}

/// Emitting one node advances the loop counter by the number of loop
/// nodes it holds.
pub proof fn lemma_asm_counter_cmd(c: OptimizedCommandView, next: nat)
    ensures
        asm_cmd(c, next).1 == next + optv_loops(c),
    decreases optv_size(c), 0nat,
{
    if let OptimizedCommandView::While(body) = c {
        lemma_asm_counter(body, next + 1);
    }
}

/// Emits the instruction stream of `commands` onto the end of `s`,
/// numbering loops from `next_loop_number` on in pre-order.
#[verifier::loop_isolation(false)]
#[verifier::rlimit(60)]
fn emit_asm_for_commands(s: String, commands: &[OptimizedCommand], next_loop_number: usize) -> (r: (
    String,
    usize,
))
    requires
        next_loop_number + optvs_loops(opts_view(commands@)) <= usize::MAX,
    ensures
        r.0@ == s@ + asm_cmds(opts_view(commands@), next_loop_number as nat).0,
        r.1 == asm_cmds(opts_view(commands@), next_loop_number as nat).1,
    decreases optvs_size(opts_view(commands@)),
{
    let ghost whole = opts_view(commands@);
    let ghost s0 = s@;
    let mut out = s;
    let mut next = next_loop_number;
    let mut i: usize = 0;
    proof {
        lemma_opts_view_elems(commands@);
        assert(whole.skip(0) =~= whole);
        assert(s0 + asm_cmds(whole, next_loop_number as nat).0 == out@ + asm_cmds(
            whole.skip(0),
            next as nat,
        ).0);
    }
    while i < commands.len()
        invariant
            i <= commands@.len(),
            out@ + asm_cmds(whole.skip(i as int), next as nat).0 == s0 + asm_cmds(
                whole,
                next_loop_number as nat,
            ).0,
            asm_cmds(whole.skip(i as int), next as nat).1 == asm_cmds(
                whole,
                next_loop_number as nat,
            ).1,
            next + optvs_loops(whole.skip(i as int)) <= usize::MAX,
        decreases commands@.len() - i,
    {
        let ghost seg = whole.skip(i as int);
        let ghost pre_out = out@;
        let ghost next0 = next as nat;
        proof {
            assert(seg[0] == whole[i as int]);
            assert(seg.drop_first() =~= whole.skip(i as int + 1));
        }
        match &commands[i] {
            OptimizedCommand::IncrementCell(value) => {
                push_part(&mut out, "\tadd byte[R8], ", *value, "\n");
                proof {
                    assert(out@ =~= pre_out + asm_cmd(seg[0], next0).0);
                }
            },
            OptimizedCommand::IncrementCellAtOffset(offset, value) => {
                push_part(&mut out, "\tadd byte[R8 + ", *offset, "], ");
                push_part(&mut out, "", *value, "\n");
                proof {
                    reveal_strlit("");
                    assert(out@ =~= pre_out + asm_cmd(seg[0], next0).0);
                }
            },
            OptimizedCommand::DecrementCell(value) => {
                push_part(&mut out, "\tsub byte[R8], ", *value, "\n");
                proof {
                    assert(out@ =~= pre_out + asm_cmd(seg[0], next0).0);
                }
            },
            OptimizedCommand::IncrementPointer(num) => {
                push_part(&mut out, "\tadd R8, ", *num, "\n");
                proof {
                    assert(out@ =~= pre_out + asm_cmd(seg[0], next0).0);
                }
            },
            OptimizedCommand::DecrementPointer(num) => {
                push_part(&mut out, "\tsub R8, ", *num, "\n");
                proof {
                    assert(out@ =~= pre_out + asm_cmd(seg[0], next0).0);
                }
            },
            OptimizedCommand::Input => {
                out.append("\tmov rdi, 0\n");
                out.append("\tmov rsi, R8\n");
                out.append("\tmov rdx, 1\n");
                out.append("\tmov rax, 0\n");
                out.append("\tsyscall\n");
                proof {
                    assert(out@ =~= pre_out + asm_cmd(seg[0], next0).0);
                }
            },
            OptimizedCommand::Output => {
                out.append("\tmov rdi, 1\n");
                out.append("\tmov rsi, R8\n");
                out.append("\tmov rdx, 1\n");
                out.append("\tmov rax, 1\n");
                out.append("\tsyscall\n");
                proof {
                    assert(out@ =~= pre_out + asm_cmd(seg[0], next0).0);
                }
            },
            OptimizedCommand::While(cmds) => {
                proof {
                    assert(seg[0] == OptimizedCommandView::While(opts_view(cmds@)));
                    assert(optvs_loops(seg) == optv_loops(seg[0]) + optvs_loops(
                        seg.drop_first(),
                    ));
                }
                let this_loop_number = next;
                next = next + 1;
                out.append("\tcmp byte[R8], 0\n");
                push_part(&mut out, "\tje loop_", this_loop_number, "_end\n");
                push_part(&mut out, "\tloop_", this_loop_number, "_start:\n");
                proof {
                    lemma_optvs_size_bounds(whole);
                }
                let res = emit_asm_for_commands(out, cmds.as_slice(), next);
                out = res.0;
                next = res.1;
                out.append("\tcmp byte[R8], 0\n");
                push_part(&mut out, "\tjne loop_", this_loop_number, "_start\n");
                push_part(&mut out, "\tloop_", this_loop_number, "_end:\n");
                proof {
                    lemma_asm_counter(opts_view(cmds@), this_loop_number as nat + 1);
                    assert(out@ =~= pre_out + asm_cmd(seg[0], next0).0);
                }
            },
        }
        proof {
            assert(next == asm_cmd(seg[0], next0).1) by {
                lemma_asm_counter_cmd(seg[0], next0);
            }
            assert(asm_cmds(seg, next0).0 == asm_cmd(seg[0], next0).0 + asm_cmds(
                seg.drop_first(),
                asm_cmd(seg[0], next0).1,
            ).0);
            assert(pre_out + (asm_cmd(seg[0], next0).0 + asm_cmds(
                whole.skip(i as int + 1),
                next as nat,
            ).0) =~= (pre_out + asm_cmd(seg[0], next0).0) + asm_cmds(
                whole.skip(i as int + 1),
                next as nat,
            ).0);
        }
        i = i + 1;
    }
    proof {
        assert(whole.skip(commands@.len() as int) =~= Seq::<OptimizedCommandView>::empty());
        assert(out@ + Seq::<char>::empty() =~= out@);
    }
    (out, next)
}

/// Generates the assembly text of a whole compiled program.
///
/// The requirement that the tree's loop count fit in a `usize` is forced
/// by the label counter's machine width; every tree a source program
/// parses to satisfies it.
pub fn emit_asm(commands: &[OptimizedCommand]) -> (r: String)
    requires
        optvs_loops(opts_view(commands@)) <= usize::MAX,
    ensures
        r@ == asm_view(opts_view(commands@)),
{
    let mut s = String::new();
    s.append("section .bss\n");
    s.append("\tbuffer: resb 30000\n\n");
    s.append("section .text\n");
    s.append("\tglobal _start\n\n");
    s.append("_start:\n");
    s.append("\tmov R8, buffer\n");
    proof {
        assert(s@ =~= header_text());
    }
    let res = emit_asm_for_commands(s, commands, 0);
    let mut s = res.0;
    s.append("\tmov rdi, 0\n");
    s.append("\tmov rax, 60\n");
    s.append("\tsyscall");
    proof {
        assert(s@ =~= asm_view(opts_view(commands@)));
    }
    s
}

} // verus!
