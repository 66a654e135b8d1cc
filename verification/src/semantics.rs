//! The meaning of compiled programs, and the proof that the optimizer
//! preserves it.
//!
//! An abstract machine gives both tree forms their meaning: a fixed-size
//! tape of byte cells, a pointer that must stay on the tape, a stream of
//! input bytes, and the output emitted so far.  Cell arithmetic wraps
//! modulo 256; a read at end of input leaves the current cell unchanged;
//! moving the pointer off either end of the tape has no defined meaning
//! and evaluation reports it as such.  Loops are bounded by a fuel that
//! one loop iteration consumes, so a program's meaning at every fuel is a
//! total function; two programs mean the same thing when they agree at
//! every fuel.

use vstd::arithmetic::div_mod::{lemma_add_mod_noop, lemma_mod_add_multiples_vanish, lemma_small_mod, lemma_sub_mod_noop};
use vstd::pervasive::VecAdditionalExecFns;
use vstd::prelude::*;

use crate::command::{cmdv_size, cmdvs_size, lemma_cmdvs_size_skip, CommandView};
use crate::optimized_command::{counted_node, is_run_kind, lemma_opts_view_elems, lemma_optvs_size_bounds, lemma_take_run_head, opt_view, opts_view, OptimizedCommand,
    lemma_take_run_le_len, optimize_view, optv_size, optvs_size, run_length_view, take_run,
    OptimizedCommandView};
use crate::shift_elision::{elided_triple, elision_triple, shift_elide_view};

verus! {

/// The abstract machine: the tape, the cell pointer, the input not yet
/// read, and the output written so far.
#[verifier::ext_equal]
pub struct MachineState {
    pub tape: Seq<u8>,
    pub ptr: int,
    pub input: Seq<u8>,
    pub output: Seq<u8>,
}

/// The pointer stands on the tape.  Every evaluation step keeps this.
pub open spec fn wf_state(st: MachineState) -> bool {
    0 <= st.ptr < st.tape.len()
}

/// A cell after adding `n`, wrapping modulo 256.
pub open spec fn wrap_add(cell: u8, n: nat) -> u8 {
    ((cell + n) % 256) as u8
}

/// A cell after subtracting `n`, wrapping modulo 256.
pub open spec fn wrap_sub(cell: u8, n: nat) -> u8 {
    ((cell - n) % 256) as u8
}

/// Adds `n` to the cell `off` places past the pointer; the pointer does
/// not move.  Undefined when that cell is off the tape.
pub open spec fn add_at(st: MachineState, off: int, n: nat) -> Option<MachineState> {
    if 0 <= st.ptr + off < st.tape.len() {
        Some(
            MachineState {
                tape: st.tape.update(st.ptr + off, wrap_add(st.tape[st.ptr + off], n)),
                ..st
            },
        )
    } else {
        None
    }
}

/// Subtracts `n` from the cell under the pointer.
pub open spec fn sub_at(st: MachineState, n: nat) -> Option<MachineState> {
    if 0 <= st.ptr < st.tape.len() {
        Some(MachineState { tape: st.tape.update(st.ptr, wrap_sub(st.tape[st.ptr], n)), ..st })
    } else {
        None
    }
}

/// Moves the pointer by `delta` cells.  Undefined when it leaves the
/// tape.
pub open spec fn move_ptr(st: MachineState, delta: int) -> Option<MachineState> {
    if 0 <= st.ptr + delta < st.tape.len() {
        Some(MachineState { ptr: st.ptr + delta, ..st })
    } else {
        None
    }
}

/// Writes the cell under the pointer to the output.
pub open spec fn output_step(st: MachineState) -> Option<MachineState> {
    if 0 <= st.ptr < st.tape.len() {
        Some(MachineState { output: st.output.push(st.tape[st.ptr]), ..st })
    } else {
        None
    }
}

/// Reads one byte into the cell under the pointer; at end of input the
/// cell keeps its value.
pub open spec fn input_step(st: MachineState) -> Option<MachineState> {
    if 0 <= st.ptr < st.tape.len() {
        if st.input.len() == 0 {
            Some(st)
        } else {
            Some(
                MachineState {
                    tape: st.tape.update(st.ptr, st.input[0]),
                    input: st.input.drop_first(),
                    ..st
                },
            )
        }
    } else {
        None
    }
}

/// The meaning of one node of the optimized tree.  `None` when the
/// program runs off the tape or the fuel runs out.
pub open spec fn eval_opt(c: OptimizedCommandView, st: MachineState, fuel: nat) -> Option<
    MachineState,
>
    decreases fuel, optv_size(c), 0nat,
{
    match c {
        OptimizedCommandView::IncrementCell(n) => add_at(st, 0, n),
        OptimizedCommandView::IncrementCellAtOffset(o, n) => add_at(st, o as int, n),
        OptimizedCommandView::DecrementCell(n) => sub_at(st, n),
        OptimizedCommandView::IncrementPointer(n) => move_ptr(st, n as int),
        OptimizedCommandView::DecrementPointer(n) => move_ptr(st, -(n as int)),
        OptimizedCommandView::Output => output_step(st),
        OptimizedCommandView::Input => input_step(st),
        OptimizedCommandView::While(body) => {
            if !(0 <= st.ptr < st.tape.len()) {
                None
            } else if st.tape[st.ptr] == 0 {
                Some(st)
            } else if fuel == 0 {
                None
            } else {
                match eval_opts(body, st, fuel) {
                    None => None,
                    Some(st1) => eval_opt(c, st1, (fuel - 1) as nat),
                }
            }
        },
    }
}

/// The meaning of a sibling sequence of the optimized tree, left to
/// right.
pub open spec fn eval_opts(s: Seq<OptimizedCommandView>, st: MachineState, fuel: nat) -> Option<
    MachineState,
>
    decreases fuel, optvs_size(s), 1nat,
        via eval_opts_decreases
{
    if s.len() == 0 {
        Some(st)
    } else {
        match eval_opt(s[0], st, fuel) {
            None => None,
            Some(st1) => eval_opts(s.drop_first(), st1, fuel),
        }
    }
}

#[via_fn]
proof fn eval_opts_decreases(s: Seq<OptimizedCommandView>, st: MachineState, fuel: nat) {
    if s.len() > 0 {
        assert(optv_size(s[0]) >= 1);
    }
}

/// The meaning of one node of the program tree.
pub open spec fn eval_cmd(c: CommandView, st: MachineState, fuel: nat) -> Option<MachineState>
    decreases fuel, cmdv_size(c), 0nat,
{
    match c {
        CommandView::IncrementCell => add_at(st, 0, 1),
        CommandView::DecrementCell => sub_at(st, 1),
        CommandView::IncrementPointer => move_ptr(st, 1),
        CommandView::DecrementPointer => move_ptr(st, -1),
        CommandView::Output => output_step(st),
        CommandView::Input => input_step(st),
        CommandView::While(body) => {
            if !(0 <= st.ptr < st.tape.len()) {
                None
            } else if st.tape[st.ptr] == 0 {
                Some(st)
            } else if fuel == 0 {
                None
            } else {
                match eval_cmds(body, st, fuel) {
                    None => None,
                    Some(st1) => eval_cmd(c, st1, (fuel - 1) as nat),
                }
            }
        },
    }
}

/// The meaning of a sibling sequence of the program tree, left to right.
pub open spec fn eval_cmds(s: Seq<CommandView>, st: MachineState, fuel: nat) -> Option<MachineState>
    decreases fuel, cmdvs_size(s), 1nat,
        via eval_cmds_decreases
{
    if s.len() == 0 {
        Some(st)
    } else {
        match eval_cmd(s[0], st, fuel) {
            None => None,
            Some(st1) => eval_cmds(s.drop_first(), st1, fuel),
        }
    }
}

#[via_fn]
proof fn eval_cmds_decreases(s: Seq<CommandView>, st: MachineState, fuel: nat) {
    if s.len() > 0 {
        assert(cmdv_size(s[0]) >= 1);
    }
}

/// One optimized node keeps the pointer on the tape and the tape's
/// length fixed.
pub proof fn lemma_eval_opt_wf(c: OptimizedCommandView, st: MachineState, fuel: nat)
    requires
        wf_state(st),
    ensures
        eval_opt(c, st, fuel) matches Some(st2) ==> wf_state(st2) && st2.tape.len()
            == st.tape.len(),
    decreases fuel, optv_size(c), 0nat,
{
    if let OptimizedCommandView::While(body) = c {
        if 0 <= st.ptr < st.tape.len() && st.tape[st.ptr] != 0 && fuel > 0 {
            lemma_eval_opts_wf(body, st, fuel);
            if let Some(st1) = eval_opts(body, st, fuel) {
                lemma_eval_opt_wf(c, st1, (fuel - 1) as nat);
            }
        }
    }
}

/// An optimized sequence keeps the pointer on the tape and the tape's
/// length fixed.
pub proof fn lemma_eval_opts_wf(s: Seq<OptimizedCommandView>, st: MachineState, fuel: nat)
    requires
        wf_state(st),
    ensures
        eval_opts(s, st, fuel) matches Some(st2) ==> wf_state(st2) && st2.tape.len()
            == st.tape.len(),
    decreases fuel, optvs_size(s), 1nat,
{
    if s.len() > 0 {
        assert(optv_size(s[0]) >= 1);
        lemma_eval_opt_wf(s[0], st, fuel);
        if let Some(st1) = eval_opt(s[0], st, fuel) {
            lemma_eval_opts_wf(s.drop_first(), st1, fuel);
        }
    }
}

/// One program-tree node keeps the pointer on the tape and the tape's
/// length fixed.
pub proof fn lemma_eval_cmd_wf(c: CommandView, st: MachineState, fuel: nat)
    requires
        wf_state(st),
    ensures
        eval_cmd(c, st, fuel) matches Some(st2) ==> wf_state(st2) && st2.tape.len()
            == st.tape.len(),
    decreases fuel, cmdv_size(c), 0nat,
{
    if let CommandView::While(body) = c {
        if 0 <= st.ptr < st.tape.len() && st.tape[st.ptr] != 0 && fuel > 0 {
            lemma_eval_cmds_wf(body, st, fuel);
            if let Some(st1) = eval_cmds(body, st, fuel) {
                lemma_eval_cmd_wf(c, st1, (fuel - 1) as nat);
            }
        }
    }
}

/// A program-tree sequence keeps the pointer on the tape and the tape's
/// length fixed.
pub proof fn lemma_eval_cmds_wf(s: Seq<CommandView>, st: MachineState, fuel: nat)
    requires
        wf_state(st),
    ensures
        eval_cmds(s, st, fuel) matches Some(st2) ==> wf_state(st2) && st2.tape.len()
            == st.tape.len(),
    decreases fuel, cmdvs_size(s), 1nat,
{
    if s.len() > 0 {
        assert(cmdv_size(s[0]) >= 1);
        lemma_eval_cmd_wf(s[0], st, fuel);
        if let Some(st1) = eval_cmd(s[0], st, fuel) {
            lemma_eval_cmds_wf(s.drop_first(), st1, fuel);
        }
    }
}

/// Evaluating a concatenation is evaluating its parts in order.
pub proof fn lemma_eval_opts_concat(
    a: Seq<OptimizedCommandView>,
    b: Seq<OptimizedCommandView>,
    st: MachineState,
    fuel: nat,
)
    ensures
        eval_opts(a + b, st, fuel) == (match eval_opts(a, st, fuel) {
            None => None,
            Some(m) => eval_opts(b, m, fuel),
        }),
    decreases a.len(),
{
    if a.len() == 0 {
        assert(a + b =~= b);
    } else {
        assert((a + b)[0] == a[0]);
        assert((a + b).len() > 0);
        match eval_opt(a[0], st, fuel) {
            None => {},
            Some(st1) => {
                assert((a + b).drop_first() =~= a.drop_first() + b);
                lemma_eval_opts_concat(a.drop_first(), b, st1, fuel);
            },
        }
    }
}

/// A one-node sequence means its node.
pub proof fn lemma_eval_opts_single(c: OptimizedCommandView, st: MachineState, fuel: nat)
    ensures
        eval_opts(seq![c], st, fuel) == eval_opt(c, st, fuel),
{
    assert(seq![c][0] == c);
    assert(seq![c].drop_first() =~= Seq::<OptimizedCommandView>::empty());
    if let Some(st1) = eval_opt(c, st, fuel) {
        assert(eval_opts(Seq::<OptimizedCommandView>::empty(), st1, fuel) == Some(st1));
    }
}

/// A one-node sequence means its node.
pub proof fn lemma_eval_cmds_single(c: CommandView, st: MachineState, fuel: nat)
    ensures
        eval_cmds(seq![c], st, fuel) == eval_cmd(c, st, fuel),
{
    assert(seq![c][0] == c);
    assert(seq![c].drop_first() =~= Seq::<CommandView>::empty());
    if let Some(st1) = eval_cmd(c, st, fuel) {
        assert(eval_cmds(Seq::<CommandView>::empty(), st1, fuel) == Some(st1));
    }
}

/// Evaluating a concatenation is evaluating its parts in order.
pub proof fn lemma_eval_cmds_concat(
    a: Seq<CommandView>,
    b: Seq<CommandView>,
    st: MachineState,
    fuel: nat,
)
    ensures
        eval_cmds(a + b, st, fuel) == (match eval_cmds(a, st, fuel) {
            None => None,
            Some(m) => eval_cmds(b, m, fuel),
        }),
    decreases a.len(),
{
    if a.len() == 0 {
        assert(a + b =~= b);
    } else {
        assert((a + b)[0] == a[0]);
        assert((a + b).len() > 0);
        match eval_cmd(a[0], st, fuel) {
            None => {},
            Some(st1) => {
                assert((a + b).drop_first() =~= a.drop_first() + b);
                lemma_eval_cmds_concat(a.drop_first(), b, st1, fuel);
            },
        }
    }
}

/// Adding 1 and then `k - 1` to a cell is adding `k`.
proof fn lemma_wrap_add_chain(t: u8, k: nat)
    requires
        k >= 1,
    ensures
        wrap_add(wrap_add(t, 1), (k - 1) as nat) == wrap_add(t, k),
{
    let a = (t + 1) % 256;
    lemma_small_mod(a as nat, 256);
    lemma_add_mod_noop(t + 1, k - 1, 256);
    lemma_add_mod_noop(a, k - 1, 256);
}

/// Subtracting 1 and then `k - 1` from a cell is subtracting `k`.
proof fn lemma_wrap_sub_chain(t: u8, k: nat)
    requires
        k >= 1,
    ensures
        wrap_sub(wrap_sub(t, 1), (k - 1) as nat) == wrap_sub(t, k),
{
    let b = (t - 1) % 256;
    lemma_small_mod(b as nat, 256);
    lemma_sub_mod_noop(t - 1, k - 1, 256);
    lemma_sub_mod_noop(b, k - 1, 256);
}

/// A run of identical unit commands means the same as the one counted
/// node that stands for it.
proof fn lemma_run_eval(c: CommandView, s: Seq<CommandView>, st: MachineState, fuel: nat)
    requires
        is_run_kind(c),
        s.len() >= 1,
        forall|i: int| 0 <= i < s.len() ==> s[i] == c,
        wf_state(st),
    ensures
        eval_cmds(s, st, fuel) == eval_opt(counted_node(c, s.len() as nat), st, fuel),
    decreases s.len(),
{
    let k = s.len() as nat;
    assert(s[0] == c);
    if s.len() == 1 {
        assert(s =~= seq![c]);
        lemma_eval_cmds_single(c, st, fuel);
        match c {
            CommandView::IncrementCell => {
                assert(counted_node(c, 1) == OptimizedCommandView::IncrementCell(1));
            },
            CommandView::DecrementCell => {
                assert(counted_node(c, 1) == OptimizedCommandView::DecrementCell(1));
            },
            CommandView::IncrementPointer => {
                assert(counted_node(c, 1) == OptimizedCommandView::IncrementPointer(1));
            },
            CommandView::DecrementPointer => {
                assert(counted_node(c, 1) == OptimizedCommandView::DecrementPointer(1));
            },
            _ => {
                assert(false);
            },
        }
    } else {
        assert forall|i: int| 0 <= i < s.drop_first().len() implies s.drop_first()[i] == c by {
            assert(s.drop_first()[i] == s[i + 1]);
        }
        match c {
            CommandView::IncrementCell => {
                let t = st.tape[st.ptr];
                let st1 = MachineState { tape: st.tape.update(st.ptr, wrap_add(t, 1)), ..st };
                assert(eval_cmd(c, st, fuel) == Some(st1));
                lemma_run_eval(c, s.drop_first(), st1, fuel);
                lemma_wrap_add_chain(t, k);
                assert(st.tape.update(st.ptr, wrap_add(t, 1)).update(
                    st.ptr,
                    wrap_add(wrap_add(t, 1), (k - 1) as nat),
                ) =~= st.tape.update(st.ptr, wrap_add(t, k)));
                assert(add_at(st1, 0, (k - 1) as nat)->0 =~= add_at(st, 0, k)->0);
            },
            CommandView::DecrementCell => {
                let t = st.tape[st.ptr];
                let st1 = MachineState { tape: st.tape.update(st.ptr, wrap_sub(t, 1)), ..st };
                assert(eval_cmd(c, st, fuel) == Some(st1));
                lemma_run_eval(c, s.drop_first(), st1, fuel);
                lemma_wrap_sub_chain(t, k);
                assert(st.tape.update(st.ptr, wrap_sub(t, 1)).update(
                    st.ptr,
                    wrap_sub(wrap_sub(t, 1), (k - 1) as nat),
                ) =~= st.tape.update(st.ptr, wrap_sub(t, k)));
                assert(sub_at(st1, (k - 1) as nat)->0 =~= sub_at(st, k)->0);
            },
            CommandView::IncrementPointer => {
                if st.ptr + 1 < st.tape.len() {
                    let st1 = MachineState { ptr: st.ptr + 1, ..st };
                    assert(eval_cmd(c, st, fuel) == Some(st1));
                    lemma_run_eval(c, s.drop_first(), st1, fuel);
                    if st.ptr + k < st.tape.len() {
                        assert(move_ptr(st1, (k - 1) as int)->0 =~= move_ptr(st, k as int)->0);
                    }
                } else {
                    assert(eval_cmd(c, st, fuel) is None);
                    assert(eval_cmds(s, st, fuel) is None);
                    assert(move_ptr(st, k as int) is None);
                }
            },
            CommandView::DecrementPointer => {
                if st.ptr - 1 >= 0 {
                    let st1 = MachineState { ptr: st.ptr - 1, ..st };
                    assert(eval_cmd(c, st, fuel) == Some(st1));
                    lemma_run_eval(c, s.drop_first(), st1, fuel);
                    if st.ptr - k >= 0 {
                        assert(move_ptr(st1, -((k - 1) as int))->0 =~= move_ptr(st, -(k as int))->0);
                    }
                } else {
                    assert(eval_cmd(c, st, fuel) is None);
                    assert(eval_cmds(s, st, fuel) is None);
                    assert(move_ptr(st, -(k as int)) is None);
                }
            },
            _ => {
                assert(false);
            },
        }
    }
}

/// The shift-elision rewrite preserves the meaning of a sequence: the
/// offset-addressed increment with its residual move does exactly what
/// the move, increment, move-back triple did, including where each is
/// undefined.
pub proof fn lemma_shift_elide_preserves(s: Seq<OptimizedCommandView>, st: MachineState, fuel: nat)
    requires
        wf_state(st),
    ensures
        eval_opts(shift_elide_view(s), st, fuel) == eval_opts(s, st, fuel),
    decreases s.len(),
{
    if s.len() == 0 {
    } else if s.len() >= 3 && elision_triple(s[0], s[1], s[2]) {
        let p = s[0]->IncrementPointer_0;
        let c = s[1]->IncrementCell_0;
        let d = s[2]->DecrementPointer_0;
        assert(s.drop_first()[0] == s[1]);
        assert(s.drop_first().drop_first()[0] == s[2]);
        assert(s.drop_first().drop_first().drop_first() =~= s.skip(3));
        lemma_eval_opts_concat(elided_triple(p, c, d), shift_elide_view(s.skip(3)), st, fuel);
        let single = seq![OptimizedCommandView::IncrementCellAtOffset(p, c)];
        if p > d {
            assert(elided_triple(p, c, d) =~= single + seq![
                OptimizedCommandView::IncrementPointer((p - d) as nat),
            ]);
            lemma_eval_opts_concat(
                single,
                seq![OptimizedCommandView::IncrementPointer((p - d) as nat)],
                st,
                fuel,
            );
            lemma_eval_opts_single(OptimizedCommandView::IncrementCellAtOffset(p, c), st, fuel);
        } else if p < d {
            assert(elided_triple(p, c, d) =~= single + seq![
                OptimizedCommandView::DecrementPointer((d - p) as nat),
            ]);
            lemma_eval_opts_concat(
                single,
                seq![OptimizedCommandView::DecrementPointer((d - p) as nat)],
                st,
                fuel,
            );
            lemma_eval_opts_single(OptimizedCommandView::IncrementCellAtOffset(p, c), st, fuel);
        } else {
            assert(elided_triple(p, c, d) =~= single);
            lemma_eval_opts_single(OptimizedCommandView::IncrementCellAtOffset(p, c), st, fuel);
        }
        if 0 <= st.ptr + p < st.tape.len() {
            let st1 = MachineState { ptr: st.ptr + p, ..st };
            assert(eval_opt(s[0], st, fuel) == Some(st1));
            let cell = st.tape[st.ptr + p];
            let st2 = MachineState {
                ptr: st.ptr + p,
                tape: st.tape.update(st.ptr + p, wrap_add(cell, c)),
                ..st
            };
            assert(add_at(st1, 0, c)->0 =~= st2);
            assert(eval_opt(s[1], st1, fuel) == Some(st2));
            let sta = MachineState { tape: st.tape.update(st.ptr + p, wrap_add(cell, c)), ..st };
            assert(add_at(st, p as int, c)->0 =~= sta);
            if 0 <= st.ptr + p - d < st.tape.len() {
                let st3 = MachineState {
                    ptr: st.ptr + p - d,
                    tape: st.tape.update(st.ptr + p, wrap_add(cell, c)),
                    ..st
                };
                assert(eval_opt(s[2], st2, fuel) == Some(st3)) by {
                    assert(move_ptr(st2, -(d as int))->0 =~= st3);
                }
                assert(eval_opts(s, st, fuel) == eval_opts(s.drop_first(), st1, fuel));
                assert(eval_opts(s.drop_first(), st1, fuel) == eval_opts(
                    s.drop_first().drop_first(),
                    st2,
                    fuel,
                ));
                assert(eval_opts(s.drop_first().drop_first(), st2, fuel) == eval_opts(
                    s.skip(3),
                    st3,
                    fuel,
                ));
                assert(eval_opts(s, st, fuel) == eval_opts(s.skip(3), st3, fuel));
                if p > d {
                    assert(move_ptr(sta, (p - d) as int)->0 =~= st3);
                    lemma_eval_opts_single(
                        OptimizedCommandView::IncrementPointer((p - d) as nat),
                        sta,
                        fuel,
                    );
                } else if p < d {
                    assert(move_ptr(sta, -((d - p) as int))->0 =~= st3);
                    lemma_eval_opts_single(
                        OptimizedCommandView::DecrementPointer((d - p) as nat),
                        sta,
                        fuel,
                    );
                } else {
                    assert(sta =~= st3);
                }
                assert(eval_opts(elided_triple(p, c, d), st, fuel) == Some(st3));
                lemma_shift_elide_preserves(s.skip(3), st3, fuel);
            } else {
                assert(eval_opt(s[2], st2, fuel) is None);
                assert(eval_opts(s, st, fuel) == eval_opts(s.drop_first(), st1, fuel));
                assert(eval_opts(s.drop_first(), st1, fuel) == eval_opts(
                    s.drop_first().drop_first(),
                    st2,
                    fuel,
                ));
                assert(eval_opts(s.drop_first().drop_first(), st2, fuel) is None);
                assert(eval_opts(s, st, fuel) is None);
                if p > d {
                    assert(move_ptr(sta, (p - d) as int) is None);
                    lemma_eval_opts_single(
                        OptimizedCommandView::IncrementPointer((p - d) as nat),
                        sta,
                        fuel,
                    );
                } else if p < d {
                    assert(move_ptr(sta, -((d - p) as int)) is None);
                    lemma_eval_opts_single(
                        OptimizedCommandView::DecrementPointer((d - p) as nat),
                        sta,
                        fuel,
                    );
                } else {
                    assert(false);
                }
                assert(eval_opts(elided_triple(p, c, d), st, fuel) is None);
            }
        } else {
            assert(eval_opt(s[0], st, fuel) is None);
            assert(eval_opts(s, st, fuel) is None);
            assert(add_at(st, p as int, c) is None);
            assert(eval_opts(elided_triple(p, c, d), st, fuel) is None);
        }
    } else {
        lemma_eval_opts_concat(seq![s[0]], shift_elide_view(s.drop_first()), st, fuel);
        lemma_eval_opts_single(s[0], st, fuel);
        match eval_opt(s[0], st, fuel) {
            None => {},
            Some(st1) => {
                lemma_eval_opt_wf(s[0], st, fuel);
                lemma_shift_elide_preserves(s.drop_first(), st1, fuel);
            },
        }
    }
}

/// Run-length coalescing, with the whole optimizer inside every loop
/// body, preserves the meaning of a sequence.
proof fn lemma_run_length_preserves(s: Seq<CommandView>, st: MachineState, fuel: nat)
    requires
        wf_state(st),
    ensures
        eval_opts(run_length_view(s), st, fuel) == eval_cmds(s, st, fuel),
    decreases fuel, cmdvs_size(s), 1nat,
{
    if s.len() == 0 {
    } else if is_run_kind(s[0]) {
        let k = take_run(s[0], s) as int;
        assert(k >= 1);
        lemma_take_run_le_len(s[0], s);
        lemma_take_run_head(s[0], s);
        lemma_cmdvs_size_skip(s, k);
        let node = counted_node(s[0], take_run(s[0], s));
        assert(s =~= s.take(k) + s.skip(k));
        lemma_eval_cmds_concat(s.take(k), s.skip(k), st, fuel);
        assert forall|m: int| 0 <= m < k implies s.take(k)[m] == s[0] by {
            assert(s.take(k)[m] == s[m]);
        }
        lemma_run_eval(s[0], s.take(k), st, fuel);
        lemma_eval_opts_concat(seq![node], run_length_view(s.skip(k)), st, fuel);
        lemma_eval_opts_single(node, st, fuel);
        match eval_opt(node, st, fuel) {
            None => {},
            Some(st1) => {
                lemma_eval_opt_wf(node, st, fuel);
                lemma_run_length_preserves(s.skip(k), st1, fuel);
            },
        }
    } else {
        assert(s.skip(1) =~= s.drop_first());
        lemma_cmdvs_size_skip(s, 1);
        let first = match s[0] {
            CommandView::While(body) => OptimizedCommandView::While(optimize_view(body)),
            CommandView::Output => OptimizedCommandView::Output,
            _ => OptimizedCommandView::Input,
        };
        if let CommandView::While(body) = s[0] {
            assert(cmdvs_size(s) == cmdv_size(s[0]) + cmdvs_size(s.drop_first()));
            assert(cmdv_size(s[0]) == 1 + cmdvs_size(body));
            lemma_while_eq(body, st, fuel);
        }
        assert(eval_opt(first, st, fuel) == eval_cmd(s[0], st, fuel));
        lemma_eval_opts_concat(seq![first], run_length_view(s.drop_first()), st, fuel);
        lemma_eval_opts_single(first, st, fuel);
        match eval_cmd(s[0], st, fuel) {
            None => {},
            Some(st1) => {
                lemma_eval_cmd_wf(s[0], st, fuel);
                lemma_run_length_preserves(s.drop_first(), st1, fuel);
            },
        }
    }
}

/// A loop whose body went through the whole optimizer means the same as
/// the loop it came from, iteration for iteration.
proof fn lemma_while_eq(body: Seq<CommandView>, st: MachineState, fuel: nat)
    requires
        wf_state(st),
    ensures
        eval_opt(OptimizedCommandView::While(optimize_view(body)), st, fuel) == eval_cmd(
            CommandView::While(body),
            st,
            fuel,
        ),
    decreases fuel, cmdvs_size(body), 3nat,
{
    if st.tape[st.ptr] == 0 {
    } else if fuel == 0 {
    } else {
        lemma_optimize_preserves(body, st, fuel);
        match eval_cmds(body, st, fuel) {
            None => {},
            Some(st1) => {
                lemma_eval_cmds_wf(body, st, fuel);
                lemma_while_eq(body, st1, (fuel - 1) as nat);
            },
        }
    }
}

/// The optimizer is behavior-preserving: a sibling sequence before
/// optimization and its fully optimized form — run-length coalescing at
/// every nesting level and the shift-elision rewrite over each level's
/// result — mean exactly the same thing, on every well-formed machine
/// state, at every fuel: the same final tape, pointer, remaining input
/// and output, and the same undefined cases.
pub proof fn lemma_optimize_preserves(s: Seq<CommandView>, st: MachineState, fuel: nat)
    requires
        wf_state(st),
    ensures
        eval_opts(optimize_view(s), st, fuel) == eval_cmds(s, st, fuel),
    decreases fuel, cmdvs_size(s), 2nat,
{
    lemma_run_length_preserves(s, st, fuel);
    lemma_shift_elide_preserves(run_length_view(s), st, fuel);
}

/// The machine as executable data: the reference interpreter's state.
/// The input is carried whole, with a cursor for how much is read.
pub struct RunState {
    pub tape: Vec<u8>,
    pub ptr: usize,
    pub input: Vec<u8>,
    pub input_pos: usize,
    pub output: Vec<u8>,
}

impl View for RunState {
    type V = MachineState;

    open spec fn view(&self) -> MachineState {
        MachineState {
            tape: self.tape@,
            ptr: self.ptr as int,
            input: self.input@.skip(self.input_pos as int),
            output: self.output@,
        }
    }
}

impl RunState {
    /// The pointer is on the tape and the cursor inside the input.
    pub open spec fn wf(&self) -> bool {
        self.ptr < self.tape@.len() && self.input_pos <= self.input@.len()
    }
}

/// Runs one node of the optimized tree on the state, `false` exactly
/// where its meaning is undefined or the fuel runs out.
#[verifier::loop_isolation(false)]
fn run_cmd(c: &OptimizedCommand, st: &mut RunState, fuel: u64) -> (ok: bool)
    requires
        old(st).wf(),
    ensures
        eval_opt(opt_view(*c), old(st)@, fuel as nat) matches Some(m) ==> (ok && final(st)@ == m
            && final(st).wf()),
        eval_opt(opt_view(*c), old(st)@, fuel as nat) is None ==> !ok,
    decreases fuel, optv_size(opt_view(*c)), 0nat,
{
    match c {
        OptimizedCommand::IncrementCell(n) => {
            let cur = st.tape[st.ptr];
            let newv = (((cur as u64) + ((*n as u64) % 256)) % 256) as u8;
            proof {
                lemma_small_mod(cur as nat, 256);
                lemma_add_mod_noop(cur as int, *n as int, 256);
                assert(newv == wrap_add(cur, *n as nat));
            }
            st.tape.set(st.ptr, newv);
            proof {
                assert(st@ =~= add_at(old(st)@, 0, *n as nat)->0);
            }
            true
        },
        OptimizedCommand::IncrementCellAtOffset(o, n) => {
            if *o >= st.tape.len() - st.ptr {
                proof {
                    assert(add_at(old(st)@, *o as int, *n as nat) is None);
                }
                false
            } else {
                let cur = st.tape[st.ptr + *o];
                let newv = (((cur as u64) + ((*n as u64) % 256)) % 256) as u8;
                proof {
                    lemma_small_mod(cur as nat, 256);
                    lemma_add_mod_noop(cur as int, *n as int, 256);
                    assert(newv == wrap_add(cur, *n as nat));
                }
                st.tape.set(st.ptr + *o, newv);
                proof {
                    assert(st@ =~= add_at(old(st)@, *o as int, *n as nat)->0);
                }
                true
            }
        },
        OptimizedCommand::DecrementCell(n) => {
            let cur = st.tape[st.ptr];
            let newv = (((cur as u64) + 256 - ((*n as u64) % 256)) % 256) as u8;
            proof {
                lemma_small_mod(cur as nat, 256);
                lemma_sub_mod_noop(cur as int, *n as int, 256);
                lemma_mod_add_multiples_vanish(cur - ((*n as int) % 256), 256);
                assert(newv == wrap_sub(cur, *n as nat));
            }
            st.tape.set(st.ptr, newv);
            proof {
                assert(st@ =~= sub_at(old(st)@, *n as nat)->0);
            }
            true
        },
        OptimizedCommand::IncrementPointer(n) => {
            if *n >= st.tape.len() - st.ptr {
                proof {
                    assert(move_ptr(old(st)@, *n as int) is None);
                }
                false
            } else {
                st.ptr = st.ptr + *n;
                proof {
                    assert(st@ =~= move_ptr(old(st)@, *n as int)->0);
                }
                true
            }
        },
        OptimizedCommand::DecrementPointer(n) => {
            if *n > st.ptr {
                proof {
                    assert(move_ptr(old(st)@, -(*n as int)) is None);
                }
                false
            } else {
                st.ptr = st.ptr - *n;
                proof {
                    assert(st@ =~= move_ptr(old(st)@, -(*n as int))->0);
                }
                true
            }
        },
        OptimizedCommand::Output => {
            let b = st.tape[st.ptr];
            st.output.push(b);
            proof {
                assert(st@ =~= output_step(old(st)@)->0);
            }
            true
        },
        OptimizedCommand::Input => {
            if st.input_pos < st.input.len() {
                let b = st.input[st.input_pos];
                proof {
                    assert(old(st)@.input[0] == b);
                }
                st.tape.set(st.ptr, b);
                st.input_pos = st.input_pos + 1;
                proof {
                    assert(st.input@.skip(st.input_pos as int) =~= old(st)@.input.drop_first());
                    assert(st@ =~= input_step(old(st)@)->0);
                }
            } else {
                proof {
                    assert(old(st)@.input.len() == 0);
                    assert(st@ =~= input_step(old(st)@)->0);
                }
            }
            true
        },
        OptimizedCommand::While(body) => {
            let ghost w = opt_view(*c);
            let mut f = fuel;
            proof {
                assert(eval_opt(w, old(st)@, fuel as nat) == eval_opt(w, st@, f as nat));
            }
            while st.tape[st.ptr] != 0
                invariant
                    st.wf(),
                    f <= fuel,
                    eval_opt(w, old(st)@, fuel as nat) == eval_opt(w, st@, f as nat),
                decreases f,
            {
                if f == 0 {
                    proof {
                        assert(eval_opt(w, st@, 0) is None);
                    }
                    return false;
                }
                let ghost pre = st@;
                let ok = run_cmds(body, st, f);
                if !ok {
                    proof {
                        assert(eval_opts(opts_view(body@), pre, f as nat) is None);
                        assert(eval_opt(w, pre, f as nat) is None);
                    }
                    return false;
                }
                proof {
                    assert(eval_opt(w, pre, f as nat) == eval_opt(w, st@, (f - 1) as nat));
                }
                f = f - 1;
            }
            proof {
                assert(eval_opt(w, st@, f as nat) == Some(st@));
            }
            true
        },
    }
}

/// Runs a sibling sequence of the optimized tree, left to right.
#[verifier::loop_isolation(false)]
fn run_cmds(commands: &Vec<OptimizedCommand>, st: &mut RunState, fuel: u64) -> (ok: bool)
    requires
        old(st).wf(),
    ensures
        eval_opts(opts_view(commands@), old(st)@, fuel as nat) matches Some(m) ==> (ok
            && final(st)@ == m && final(st).wf()),
        eval_opts(opts_view(commands@), old(st)@, fuel as nat) is None ==> !ok,
    decreases fuel, optvs_size(opts_view(commands@)), 1nat,
{
    let ghost whole = opts_view(commands@);
    let mut i: usize = 0;
    proof {
        lemma_opts_view_elems(commands@);
        lemma_optvs_size_bounds(whole);
        assert(whole.skip(0) =~= whole);
    }
    while i < commands.len()
        invariant
            i <= commands@.len(),
            st.wf(),
            eval_opts(whole, old(st)@, fuel as nat) == eval_opts(
                whole.skip(i as int),
                st@,
                fuel as nat,
            ),
        decreases commands@.len() - i,
    {
        let ghost seg = whole.skip(i as int);
        let ghost pre = st@;
        proof {
            assert(seg[0] == whole[i as int]);
            assert(seg.drop_first() =~= whole.skip(i as int + 1));
        }
        let ok = run_cmd(&commands[i], st, fuel);
        if !ok {
            proof {
                assert(eval_opt(seg[0], pre, fuel as nat) is None);
                assert(eval_opts(seg, pre, fuel as nat) is None);
            }
            return false;
        }
        i = i + 1;
    }
    proof {
        assert(whole.skip(commands@.len() as int) =~= Seq::<OptimizedCommandView>::empty());
    }
    true
}

/// The machine a compiled program starts on: a zeroed tape, the pointer
/// on its first cell, the whole input ahead, nothing written yet.
pub open spec fn initial_state(tape_len: nat, input: Seq<u8>) -> MachineState {
    MachineState {
        tape: Seq::new(tape_len, |i: int| 0u8),
        ptr: 0,
        input: input,
        output: Seq::empty(),
    }
}

/// The reference interpreter: runs an optimized tree on a zeroed tape
/// against the given input and returns the machine it halts on, or
/// `None` where the program's meaning is undefined or the fuel does not
/// cover its loop iterations.
#[verifier::loop_isolation(false)]
pub fn run_program(commands: &Vec<OptimizedCommand>, tape_len: usize, input: Vec<u8>, fuel: u64)
    -> (r: Option<RunState>)
    requires
        tape_len >= 1,
    ensures
        eval_opts(opts_view(commands@), initial_state(tape_len as nat, input@), fuel as nat)
            matches Some(m) ==> (r matches Some(fin) && fin@ == m),
        eval_opts(opts_view(commands@), initial_state(tape_len as nat, input@), fuel as nat)
            is None ==> r is None,
{
    let mut tape: Vec<u8> = Vec::new();
    while tape.len() < tape_len
        invariant
            tape@.len() <= tape_len,
            forall|j: int| 0 <= j < tape@.len() ==> tape@[j] == 0u8,
        decreases tape_len - tape@.len(),
    {
        tape.push(0);
    }
    let mut st = RunState { tape, ptr: 0, input, input_pos: 0, output: Vec::new() };
    proof {
        assert(st@.input =~= st.input@);
        assert(st@.tape =~= Seq::new(tape_len as nat, |i: int| 0u8));
        assert(st@ =~= initial_state(tape_len as nat, st.input@));
    }
    let ok = run_cmds(commands, &mut st, fuel);
    if ok {
        Some(st)
    } else {
        None
    }
}

} // verus!
