//! The shift-elision peephole pass.
//!
//! A single left-to-right, non-overlapping scan with a three-node window.
//! Wherever the exact triple `IncrementPointer(p)`, `IncrementCell(c)`,
//! `DecrementPointer(d)` stands, the scan emits
//! `IncrementCellAtOffset(p, c)` followed by one residual pointer move of
//! magnitude `|p - d|` in the direction of the larger side — or no move
//! at all when `p == d` — and advances past all three nodes.  Anything
//! else is emitted unchanged.  The scan never reconsiders a residual move
//! it has just emitted together with the following nodes: one pass, no
//! fixpoint iteration, by design.

use vstd::prelude::*;

use crate::optimized_command::{lemma_opts_view_elems, lemma_optvs_loops_concat,
    lemma_optvs_loops_single, opt_view, opts_view, optv_loops, optvs_loops, OptimizedCommand,
    OptimizedCommandView};

verus! {

/// Whether three adjacent nodes form the pattern the pass rewrites.
pub open spec fn elision_triple(
    a: OptimizedCommandView,
    b: OptimizedCommandView,
    c: OptimizedCommandView,
) -> bool {
    &&& a is IncrementPointer
    &&& b is IncrementCell
    &&& c is DecrementPointer
}

/// What the triple `IncrementPointer(p)`, `IncrementCell(c)`,
/// `DecrementPointer(d)` is rewritten to: the offset-addressed increment
/// and the residual pointer move, if the two moves do not cancel.
pub open spec fn elided_triple(p: nat, c: nat, d: nat) -> Seq<OptimizedCommandView> {
    seq![OptimizedCommandView::IncrementCellAtOffset(p, c)] + if p > d {
        seq![OptimizedCommandView::IncrementPointer((p - d) as nat)]
    } else if p < d {
        seq![OptimizedCommandView::DecrementPointer((d - p) as nat)]
    } else {
        Seq::empty()
    }
}

/// The whole pass over one flat sibling sequence.
pub open spec fn shift_elide_view(s: Seq<OptimizedCommandView>) -> Seq<OptimizedCommandView>
    decreases s.len(),
{
    if s.len() == 0 {
        Seq::empty()
    } else if s.len() >= 3 && elision_triple(s[0], s[1], s[2]) {
        elided_triple(s[0]->IncrementPointer_0, s[1]->IncrementCell_0, s[2]->DecrementPointer_0)
            + shift_elide_view(s.skip(3))
    } else {
        seq![s[0]] + shift_elide_view(s.drop_first())
    }
}

/// The rewrite of the exact triple `IncrementPointer(p)`,
/// `IncrementCell(c)`, `DecrementPointer(d)` is
/// `IncrementCellAtOffset(p, c)` followed by one residual move of
/// magnitude `|p - d|` — toward higher cells when `p > d`, toward lower
/// cells when `p < d`, and no move at all when `p == d`.
pub proof fn lemma_shift_elision_triple(p: nat, c: nat, d: nat)
    ensures
        p > d ==> shift_elide_view(
            seq![
                OptimizedCommandView::IncrementPointer(p),
                OptimizedCommandView::IncrementCell(c),
                OptimizedCommandView::DecrementPointer(d),
            ],
        ) == seq![
            OptimizedCommandView::IncrementCellAtOffset(p, c),
            OptimizedCommandView::IncrementPointer((p - d) as nat),
        ],
        p < d ==> shift_elide_view(
            seq![
                OptimizedCommandView::IncrementPointer(p),
                OptimizedCommandView::IncrementCell(c),
                OptimizedCommandView::DecrementPointer(d),
            ],
        ) == seq![
            OptimizedCommandView::IncrementCellAtOffset(p, c),
            OptimizedCommandView::DecrementPointer((d - p) as nat),
        ],
        p == d ==> shift_elide_view(
            seq![
                OptimizedCommandView::IncrementPointer(p),
                OptimizedCommandView::IncrementCell(c),
                OptimizedCommandView::DecrementPointer(d),
            ],
        ) == seq![OptimizedCommandView::IncrementCellAtOffset(p, c)],
{
    let s = seq![
        OptimizedCommandView::IncrementPointer(p),
        OptimizedCommandView::IncrementCell(c),
        OptimizedCommandView::DecrementPointer(d),
    ];
    assert(elision_triple(s[0], s[1], s[2]));
    assert(s.skip(3) =~= Seq::<OptimizedCommandView>::empty());
    assert(shift_elide_view(Seq::<OptimizedCommandView>::empty())
        == Seq::<OptimizedCommandView>::empty());
    assert(shift_elide_view(s) == elided_triple(p, c, d) + shift_elide_view(s.skip(3)));
    if p > d {
        assert(elided_triple(p, c, d) + Seq::<OptimizedCommandView>::empty() =~= seq![
            OptimizedCommandView::IncrementCellAtOffset(p, c),
            OptimizedCommandView::IncrementPointer((p - d) as nat),
        ]);
    } else if p < d {
        assert(elided_triple(p, c, d) + Seq::<OptimizedCommandView>::empty() =~= seq![
            OptimizedCommandView::IncrementCellAtOffset(p, c),
            OptimizedCommandView::DecrementPointer((d - p) as nat),
        ]);
    } else {
        assert(elided_triple(p, c, d) + Seq::<OptimizedCommandView>::empty() =~= seq![
            OptimizedCommandView::IncrementCellAtOffset(p, c),
        ]);
    }
}

/// The rewrite never adds nor removes a loop node.
pub proof fn lemma_shift_elide_loops(s: Seq<OptimizedCommandView>)
    ensures
        optvs_loops(shift_elide_view(s)) == optvs_loops(s),
    decreases s.len(),
{
    if s.len() == 0 {
    } else if s.len() >= 3 && elision_triple(s[0], s[1], s[2]) {
        let p = s[0]->IncrementPointer_0;
        let c = s[1]->IncrementCell_0;
        let d = s[2]->DecrementPointer_0;
        lemma_shift_elide_loops(s.skip(3));
        lemma_optvs_loops_concat(elided_triple(p, c, d), shift_elide_view(s.skip(3)));
        lemma_optvs_loops_concat(
            seq![OptimizedCommandView::IncrementCellAtOffset(p, c)],
            elided_triple(p, c, d).drop_first(),
        );
        assert(seq![OptimizedCommandView::IncrementCellAtOffset(p, c)] + elided_triple(
            p,
            c,
            d,
        ).drop_first() =~= elided_triple(p, c, d));
        lemma_optvs_loops_single(OptimizedCommandView::IncrementCellAtOffset(p, c));
        if p > d {
            lemma_optvs_loops_single(OptimizedCommandView::IncrementPointer((p - d) as nat));
            assert(elided_triple(p, c, d).drop_first() =~= seq![
                OptimizedCommandView::IncrementPointer((p - d) as nat),
            ]);
        } else if p < d {
            lemma_optvs_loops_single(OptimizedCommandView::DecrementPointer((d - p) as nat));
            assert(elided_triple(p, c, d).drop_first() =~= seq![
                OptimizedCommandView::DecrementPointer((d - p) as nat),
            ]);
        } else {
            assert(elided_triple(p, c, d).drop_first() =~= Seq::<OptimizedCommandView>::empty());
        }
        assert(s.drop_first().drop_first().drop_first() =~= s.skip(3));
        assert(s.drop_first().drop_first()[0] == s[2]);
        assert(s.drop_first()[0] == s[1]);
        assert(optvs_loops(s) == optv_loops(s[0]) + optvs_loops(s.drop_first()));
        assert(optvs_loops(s.drop_first()) == optv_loops(s[1]) + optvs_loops(
            s.drop_first().drop_first(),
        ));
        assert(optvs_loops(s.drop_first().drop_first()) == optv_loops(s[2]) + optvs_loops(
            s.skip(3),
        ));
        assert(optv_loops(s[0]) == 0);
        assert(optv_loops(s[1]) == 0);
        assert(optv_loops(s[2]) == 0);
    } else {
        lemma_shift_elide_loops(s.drop_first());
        lemma_optvs_loops_concat(seq![s[0]], shift_elide_view(s.drop_first()));
        lemma_optvs_loops_single(s[0]);
    }
}

/// Applies the shift-elision rewrite to one sibling sequence.
#[verifier::loop_isolation(false)]
pub fn apply(commands: Vec<OptimizedCommand>) -> (r: Vec<OptimizedCommand>)
    ensures
        opts_view(r@) == shift_elide_view(opts_view(commands@)),
{
    let ghost whole = opts_view(commands@);
    let mut rest = commands;
    let mut optimized_commands: Vec<OptimizedCommand> = Vec::new();
    proof {
        assert(opts_view(optimized_commands@) + shift_elide_view(whole) =~= shift_elide_view(
            whole,
        ));
    }
    while rest.len() > 0
        invariant
            shift_elide_view(whole) == opts_view(optimized_commands@) + shift_elide_view(
                opts_view(rest@),
            ),
        decreases rest@.len(),
    {
        proof {
            lemma_opts_view_elems(rest@);
        }
        let mut matched = false;
        let mut p: usize = 0;
        let mut c: usize = 0;
        let mut d: usize = 0;
        if rest.len() >= 3 {
            if let OptimizedCommand::IncrementPointer(pv) = rest[0] {
                if let OptimizedCommand::IncrementCell(cv) = rest[1] {
                    if let OptimizedCommand::DecrementPointer(dv) = rest[2] {
                        matched = true;
                        p = pv;
                        c = cv;
                        d = dv;
                    }
                }
            }
        }
        if matched {
            let ghost pre = opts_view(rest@);
            let _ = rest.remove(0);
            let _ = rest.remove(0);
            let _ = rest.remove(0);
            proof {
                lemma_opts_view_elems(rest@);
                assert(opts_view(rest@) =~= pre.skip(3));
            }
            let ghost out0 = optimized_commands@;
            let ghost before = opts_view(optimized_commands@);
            optimized_commands.push(OptimizedCommand::IncrementCellAtOffset(p, c));
            if p > d {
                optimized_commands.push(OptimizedCommand::IncrementPointer(p - d));
            } else if p < d {
                optimized_commands.push(OptimizedCommand::DecrementPointer(d - p));
            }
            proof {
                lemma_opts_view_elems(out0);
                lemma_opts_view_elems(optimized_commands@);
                assert(opts_view(optimized_commands@) =~= before + elided_triple(
                    p as nat,
                    c as nat,
                    d as nat,
                ));
                assert(before + (elided_triple(p as nat, c as nat, d as nat) + shift_elide_view(
                    pre.skip(3),
                )) =~= (before + elided_triple(p as nat, c as nat, d as nat)) + shift_elide_view(
                    pre.skip(3),
                ));
            }
        } else {
            let ghost pre = opts_view(rest@);
            let ghost out0 = optimized_commands@;
            let ghost before = opts_view(optimized_commands@);
            let node = rest.remove(0);
            optimized_commands.push(node);
            proof {
                lemma_opts_view_elems(rest@);
                assert(opts_view(rest@) =~= pre.drop_first());
                lemma_opts_view_elems(out0);
                lemma_opts_view_elems(optimized_commands@);
                assert(opts_view(optimized_commands@) =~= before + seq![pre[0]]);
                assert(before + (seq![pre[0]] + shift_elide_view(pre.drop_first())) =~= (before
                    + seq![pre[0]]) + shift_elide_view(pre.drop_first()));
            }
        }
    }
    proof {
        assert(opts_view(rest@) =~= Seq::<OptimizedCommandView>::empty());
        assert(opts_view(optimized_commands@) + Seq::<OptimizedCommandView>::empty()
            =~= opts_view(optimized_commands@));
    }
    optimized_commands
}

} // verus!
