//! The optimized tree and the run-length coalescing pass that builds it.
//!
//! The pass scans every sibling sequence left to right and merges each
//! maximal run of identical movement or arithmetic unit commands into one
//! counted node; `Output` and `Input` pass through unchanged, and a run
//! never crosses a loop or an I/O boundary.  Loop bodies are rewritten by
//! applying the whole optimizer (this pass followed by the shift-elision
//! pass) recursively.  Counts are held in a `usize`, wide enough that a
//! run can never overflow it: a run is never longer than the sibling
//! sequence that holds it.

use vstd::prelude::*;

use crate::command::{cmd_view, cmds_view, cmdv_size, cmdvs_size, lemma_cmds_view_elems,
    lemma_cmdvs_size_bounds, lemma_cmdvs_size_skip, Command, CommandView};
use crate::shift_elision::shift_elide_view;

verus! {

/// One node of the optimized tree: a counted movement or arithmetic
/// operation, an offset-addressed cell increment, a loop, or a byte of
/// I/O.  Counts and offsets are at least 1 by construction of the
/// optimizer passes.
#[derive(Debug, PartialEq)]
pub enum OptimizedCommand {
    IncrementCell(usize),
    IncrementCellAtOffset(usize, usize),
    DecrementCell(usize),
    IncrementPointer(usize),
    DecrementPointer(usize),
    While(Vec<OptimizedCommand>),
    Output,
    Input,
}

/// The mathematical shape of an [`OptimizedCommand`]: the same tree with
/// unbounded counts and ghost sequences in place of vectors.
pub enum OptimizedCommandView {
    IncrementCell(nat),
    IncrementCellAtOffset(nat, nat),
    DecrementCell(nat),
    IncrementPointer(nat),
    DecrementPointer(nat),
    While(Seq<OptimizedCommandView>),
    Output,
    Input,
}

/// The shape of one optimized command.
pub open spec fn opt_view(c: OptimizedCommand) -> OptimizedCommandView
    decreases c,
{
    match c {
        OptimizedCommand::IncrementCell(n) => OptimizedCommandView::IncrementCell(n as nat),
        OptimizedCommand::IncrementCellAtOffset(o, n) => OptimizedCommandView::IncrementCellAtOffset(
            o as nat,
            n as nat,
        ),
        OptimizedCommand::DecrementCell(n) => OptimizedCommandView::DecrementCell(n as nat),
        OptimizedCommand::IncrementPointer(n) => OptimizedCommandView::IncrementPointer(n as nat),
        OptimizedCommand::DecrementPointer(n) => OptimizedCommandView::DecrementPointer(n as nat),
        OptimizedCommand::While(body) => OptimizedCommandView::While(opts_view(body@)),
        OptimizedCommand::Output => OptimizedCommandView::Output,
        OptimizedCommand::Input => OptimizedCommandView::Input,
    }
}

/// The shape of a whole sibling sequence of optimized commands.
pub open spec fn opts_view(s: Seq<OptimizedCommand>) -> Seq<OptimizedCommandView>
    decreases s,
{
    if s.len() == 0 {
        Seq::empty()
    } else {
        seq![opt_view(s[0])] + opts_view(s.drop_first())
    }
}

/// The shape of a sequence is its elements' shapes, in order.
pub proof fn lemma_opts_view_elems(s: Seq<OptimizedCommand>)
    ensures
        opts_view(s).len() == s.len(),
        forall|i: int| 0 <= i < s.len() ==> opts_view(s)[i] == opt_view(s[i]),
    decreases s,
{
    if s.len() > 0 {
        lemma_opts_view_elems(s.drop_first());
    }
}

/// The size of one node of the optimized tree, counting every node of a
/// loop body.
pub open spec fn optv_size(c: OptimizedCommandView) -> nat
    decreases c,
{
    match c {
        OptimizedCommandView::While(body) => 1 + optvs_size(body),
        _ => 1,
    }
}

/// The size of a whole sibling sequence of the optimized tree.
pub open spec fn optvs_size(s: Seq<OptimizedCommandView>) -> nat
    decreases s,
{
    if s.len() == 0 {
        0
    } else {
        optv_size(s[0]) + optvs_size(s.drop_first())
    }
}

/// A sequence is at least as large as its length, and every element fits
/// inside it.
pub proof fn lemma_optvs_size_bounds(s: Seq<OptimizedCommandView>)
    ensures
        optvs_size(s) >= s.len(),
        forall|i: int| 0 <= i < s.len() ==> optv_size(#[trigger] s[i]) <= optvs_size(s),
    decreases s,
{
    if s.len() > 0 {
        assert(optv_size(s[0]) >= 1);
        lemma_optvs_size_bounds(s.drop_first());
        assert forall|i: int| 0 <= i < s.len() implies optv_size(#[trigger] s[i]) <= optvs_size(
            s,
        ) by {
            if i > 0 {
                assert(s.drop_first()[i - 1] == s[i]);
            }
        }
    }
}

/// How many loop nodes one node holds, itself included.
pub open spec fn optv_loops(c: OptimizedCommandView) -> nat
    decreases c,
{
    match c {
        OptimizedCommandView::While(body) => 1 + optvs_loops(body),
        _ => 0,
    }
}

/// How many loop nodes a whole sibling sequence holds.
pub open spec fn optvs_loops(s: Seq<OptimizedCommandView>) -> nat
    decreases s,
{
    if s.len() == 0 {
        0
    } else {
        optv_loops(s[0]) + optvs_loops(s.drop_first())
    }
}

/// Concatenation adds loop counts.
pub proof fn lemma_optvs_loops_concat(a: Seq<OptimizedCommandView>, b: Seq<OptimizedCommandView>)
    ensures
        optvs_loops(a + b) == optvs_loops(a) + optvs_loops(b),
    decreases a,
{
    if a.len() == 0 {
        assert(a + b =~= b);
    } else {
        assert((a + b)[0] == a[0]);
        assert((a + b).drop_first() =~= a.drop_first() + b);
        lemma_optvs_loops_concat(a.drop_first(), b);
    }
}

/// A single node's sequence has that node's loop count.
pub proof fn lemma_optvs_loops_single(c: OptimizedCommandView)
    ensures
        optvs_loops(seq![c]) == optv_loops(c),
{
    assert(seq![c][0] == c);
    assert(seq![c].drop_first() =~= Seq::<OptimizedCommandView>::empty());
    assert(optvs_loops(Seq::<OptimizedCommandView>::empty()) == 0);
}

/// Whether a node is one of the four unit kinds the coalescing pass
/// merges: cell arithmetic and pointer movement.
pub open spec fn is_run_kind(c: CommandView) -> bool {
    ||| c is IncrementCell
    ||| c is DecrementCell
    ||| c is IncrementPointer
    ||| c is DecrementPointer
}

/// How many leading elements of `s` equal `c`: the length of the run the
/// pass consumes at once.
pub open spec fn take_run(c: CommandView, s: Seq<CommandView>) -> nat
    decreases s,
{
    if s.len() > 0 && s[0] == c {
        1 + take_run(c, s.drop_first())
    } else {
        0
    }
}

/// A run never extends past the end of the sequence.
pub proof fn lemma_take_run_le_len(c: CommandView, s: Seq<CommandView>)
    ensures
        take_run(c, s) <= s.len(),
    decreases s,
{
    if s.len() > 0 && s[0] == c {
        lemma_take_run_le_len(c, s.drop_first());
    }
}

/// Every element inside the run equals the run's kind.
pub proof fn lemma_take_run_head(c: CommandView, s: Seq<CommandView>)
    ensures
        forall|m: int| 0 <= m < take_run(c, s) ==> s[m] == c,
    decreases s,
{
    lemma_take_run_le_len(c, s);
    if s.len() > 0 && s[0] == c {
        lemma_take_run_le_len(c, s.drop_first());
        lemma_take_run_head(c, s.drop_first());
        assert forall|m: int| 0 <= m < take_run(c, s) implies s[m] == c by {
            if m > 0 {
                assert(s.drop_first()[m - 1] == s[m]);
            }
        }
    }
}

/// The run length is exactly the position of the first differing
/// element.
pub proof fn lemma_take_run_is(c: CommandView, s: Seq<CommandView>, n: int)
    requires
        0 <= n <= s.len(),
        forall|m: int| 0 <= m < n ==> s[m] == c,
        n == s.len() || s[n] != c,
    ensures
        take_run(c, s) == n,
    decreases n,
{
    if n == 0 {
    } else {
        assert(s[0] == c);
        assert forall|m: int| 0 <= m < n - 1 implies s.drop_first()[m] == c by {
            assert(s.drop_first()[m] == s[m + 1]);
        }
        if n < s.len() {
            assert(s.drop_first()[n - 1] == s[n]);
        }
        lemma_take_run_is(c, s.drop_first(), n - 1);
    }
}

/// The counted node that stands for a run of `n` units of kind `c`.
pub open spec fn counted_node(c: CommandView, n: nat) -> OptimizedCommandView {
    match c {
        CommandView::IncrementCell => OptimizedCommandView::IncrementCell(n),
        CommandView::DecrementCell => OptimizedCommandView::DecrementCell(n),
        CommandView::IncrementPointer => OptimizedCommandView::IncrementPointer(n),
        CommandView::DecrementPointer => OptimizedCommandView::DecrementPointer(n),
        _ => arbitrary(),
    }
}

/// One level of run-length coalescing: each maximal run of identical
/// units becomes one counted node, loops are rewritten by the whole
/// optimizer, and I/O passes through.
pub open spec fn run_length_view(s: Seq<CommandView>) -> Seq<OptimizedCommandView>
    decreases cmdvs_size(s), 0nat,
        via run_length_view_decreases
{
    if s.len() == 0 {
        Seq::empty()
    } else if is_run_kind(s[0]) {
        seq![counted_node(s[0], take_run(s[0], s))] + run_length_view(
            s.skip(take_run(s[0], s) as int),
        )
    } else {
        let first = match s[0] {
            CommandView::While(body) => OptimizedCommandView::While(optimize_view(body)),
            CommandView::Output => OptimizedCommandView::Output,
            _ => OptimizedCommandView::Input,
        };
        seq![first] + run_length_view(s.drop_first())
    }
}

#[via_fn]
proof fn run_length_view_decreases(s: Seq<CommandView>) {
    if s.len() > 0 {
        if is_run_kind(s[0]) {
            let k = take_run(s[0], s) as int;
            assert(k >= 1);
            lemma_take_run_le_len(s[0], s);
            lemma_cmdvs_size_skip(s, k);
        } else {
            assert(s.skip(1) =~= s.drop_first());
            lemma_cmdvs_size_skip(s, 1);
            if s[0] is While {
                assert(cmdvs_size(s) >= cmdv_size(s[0]));
            }
        }
    }
}

/// What the whole optimizer does to one sibling sequence: run-length
/// coalescing, then the shift-elision rewrite over the result.
pub open spec fn optimize_view(s: Seq<CommandView>) -> Seq<OptimizedCommandView>
    decreases cmdvs_size(s), 1nat,
{
    shift_elide_view(run_length_view(s))
}

/// Coalescing is exact: a run of `k` identical unit commands standing
/// before anything that does not continue the run becomes exactly one
/// counted node with count `k`, and the pass goes on behind the run
/// without merging across the boundary.
pub proof fn lemma_coalescing(c: CommandView, run: Seq<CommandView>, rest: Seq<CommandView>)
    requires
        is_run_kind(c),
        run.len() >= 1,
        forall|i: int| 0 <= i < run.len() ==> run[i] == c,
        rest.len() > 0 ==> rest[0] != c,
    ensures
        run_length_view(run + rest) == seq![counted_node(c, run.len() as nat)]
            + run_length_view(rest),
{
    let s = run + rest;
    assert(s[0] == run[0]);
    assert forall|m: int| 0 <= m < run.len() implies s[m] == c by {
        assert(s[m] == run[m]);
    }
    if rest.len() > 0 {
        assert(s[run.len() as int] == rest[0]);
    }
    lemma_take_run_is(c, s, run.len() as int);
    assert(s.skip(run.len() as int) =~= rest);
}

/// The optimized tree of a sequence holds no more loop nodes than the
/// sequence has nodes in all: the bound that keeps the label counter
/// within its machine width.
pub proof fn lemma_run_length_loops(s: Seq<CommandView>)
    ensures
        optvs_loops(run_length_view(s)) <= cmdvs_size(s),
    decreases cmdvs_size(s), 0nat,
{
    if s.len() == 0 {
    } else if is_run_kind(s[0]) {
        let k = take_run(s[0], s) as int;
        assert(k >= 1);
        lemma_take_run_le_len(s[0], s);
        lemma_cmdvs_size_skip(s, k);
        lemma_run_length_loops(s.skip(k));
        lemma_optvs_loops_concat(
            seq![counted_node(s[0], take_run(s[0], s))],
            run_length_view(s.skip(k)),
        );
        lemma_optvs_loops_single(counted_node(s[0], take_run(s[0], s)));
        assert(optv_loops(counted_node(s[0], take_run(s[0], s))) == 0);
    } else {
        assert(s.skip(1) =~= s.drop_first());
        lemma_cmdvs_size_skip(s, 1);
        lemma_run_length_loops(s.drop_first());
        let first = match s[0] {
            CommandView::While(body) => OptimizedCommandView::While(optimize_view(body)),
            CommandView::Output => OptimizedCommandView::Output,
            _ => OptimizedCommandView::Input,
        };
        lemma_optvs_loops_concat(seq![first], run_length_view(s.drop_first()));
        lemma_optvs_loops_single(first);
        if let CommandView::While(body) = s[0] {
            assert(cmdvs_size(s) >= cmdv_size(s[0]));
            lemma_optimize_loops(body);
        }
    }
}

/// The whole optimizer's output holds no more loop nodes than the input
/// sequence has nodes in all.
pub proof fn lemma_optimize_loops(s: Seq<CommandView>)
    ensures
        optvs_loops(optimize_view(s)) <= cmdvs_size(s),
    decreases cmdvs_size(s), 1nat,
{
    lemma_run_length_loops(s);
    crate::shift_elision::lemma_shift_elide_loops(run_length_view(s));
}

/// True when the two commands are the same unit symbol.  A loop never
/// counts as one: a run stops at every loop boundary.
fn same_unit(a: &Command, b: &Command) -> (r: bool)
    requires
        !((*b) is While),
    ensures
        r == (cmd_view(*a) == cmd_view(*b)),
{
    match (a, b) {
        (Command::IncrementCell, Command::IncrementCell) => true,
        (Command::DecrementCell, Command::DecrementCell) => true,
        (Command::IncrementPointer, Command::IncrementPointer) => true,
        (Command::DecrementPointer, Command::DecrementPointer) => true,
        (Command::Output, Command::Output) => true,
        (Command::Input, Command::Input) => true,
        _ => false,
    }
}

/// Counts how many commands from `start` onward repeat the unit symbol
/// `command_type`: the tail of the run its caller coalesces into one
/// counted node.
#[verifier::loop_isolation(false)]
fn consume_commands(command_type: &Command, commands: &[Command], start: usize) -> (n: usize)
    requires
        !((*command_type) is While),
        start <= commands@.len(),
    ensures
        n == take_run(cmd_view(*command_type), cmds_view(commands@).skip(start as int)),
        start + n <= commands@.len(),
{
    proof {
        lemma_cmds_view_elems(commands@);
    }
    let ghost target = cmd_view(*command_type);
    let mut j = start;
    let mut running = true;
    while running && j < commands.len()
        invariant
            start <= j <= commands@.len(),
            forall|m: int| start <= m < j ==> cmd_view(commands@[m]) == target,
            !running ==> j < commands@.len() && cmd_view(commands@[j as int]) != target,
        decreases commands@.len() - j + (if running {
            1int
        } else {
            0int
        }),
    {
        if same_unit(&commands[j], command_type) {
            j = j + 1;
        } else {
            running = false;
        }
    }
    proof {
        let seg = cmds_view(commands@).skip(start as int);
        assert forall|m: int| 0 <= m < j - start implies seg[m] == target by {
            assert(seg[m] == cmds_view(commands@)[start + m]);
        }
        if j < commands@.len() {
            assert(seg[j - start] == cmds_view(commands@)[j as int]);
        }
        lemma_take_run_is(target, seg, j - start);
    }
    j - start
}

/// Optimizes one sibling sequence: run-length coalescing over the
/// sequence itself, the whole optimizer recursively over every loop
/// body, and the shift-elision rewrite over the result.
#[verifier::loop_isolation(false)]
pub fn optimize(commands: &[Command]) -> (r: Vec<OptimizedCommand>)
    ensures
        opts_view(r@) == optimize_view(cmds_view(commands@)),
    decreases cmdvs_size(cmds_view(commands@)),
{
    let ghost whole = cmds_view(commands@);
    let mut optimized_commands: Vec<OptimizedCommand> = Vec::new();
    let mut i: usize = 0;
    proof {
        lemma_cmds_view_elems(commands@);
        assert(whole.skip(0) =~= whole);
        assert(opts_view(optimized_commands@) + run_length_view(whole) =~= run_length_view(
            whole,
        ));
    }
    while i < commands.len()
        invariant
            i <= commands@.len(),
            run_length_view(whole) == opts_view(optimized_commands@) + run_length_view(
                whole.skip(i as int),
            ),
        decreases commands@.len() - i,
    {
        let ghost seg = whole.skip(i as int);
        let ghost out0 = optimized_commands@;
        proof {
            assert(seg[0] == whole[i as int]);
        }
        let advance: usize;
        match &commands[i] {
            Command::IncrementCell => {
                let run = consume_commands(&Command::IncrementCell, commands, i + 1);
                let num = 1 + run;
                optimized_commands.push(OptimizedCommand::IncrementCell(num));
                advance = num;
                proof {
                    assert(seg.drop_first() =~= whole.skip(i + 1));
                    assert(take_run(seg[0], seg) == num);
                }
            },
            Command::DecrementCell => {
                let run = consume_commands(&Command::DecrementCell, commands, i + 1);
                let num = 1 + run;
                optimized_commands.push(OptimizedCommand::DecrementCell(num));
                advance = num;
                proof {
                    assert(seg.drop_first() =~= whole.skip(i + 1));
                    assert(take_run(seg[0], seg) == num);
                }
            },
            Command::IncrementPointer => {
                let run = consume_commands(&Command::IncrementPointer, commands, i + 1);
                let num = 1 + run;
                optimized_commands.push(OptimizedCommand::IncrementPointer(num));
                advance = num;
                proof {
                    assert(seg.drop_first() =~= whole.skip(i + 1));
                    assert(take_run(seg[0], seg) == num);
                }
            },
            Command::DecrementPointer => {
                let run = consume_commands(&Command::DecrementPointer, commands, i + 1);
                let num = 1 + run;
                optimized_commands.push(OptimizedCommand::DecrementPointer(num));
                advance = num;
                proof {
                    assert(seg.drop_first() =~= whole.skip(i + 1));
                    assert(take_run(seg[0], seg) == num);
                }
            },
            Command::While(body) => {
                proof {
                    lemma_cmdvs_size_bounds(whole);
                }
                let optimized_body = optimize(body.as_slice());
                optimized_commands.push(OptimizedCommand::While(optimized_body));
                advance = 1;
                proof {
                    assert(seg.drop_first() =~= whole.skip(i + 1));
                }
            },
            Command::Output => {
                optimized_commands.push(OptimizedCommand::Output);
                advance = 1;
                proof {
                    assert(seg.drop_first() =~= whole.skip(i + 1));
                }
            },
            Command::Input => {
                optimized_commands.push(OptimizedCommand::Input);
                advance = 1;
                proof {
                    assert(seg.drop_first() =~= whole.skip(i + 1));
                }
            },
        }
        proof {
            if is_run_kind(seg[0]) {
                assert(seg.skip(take_run(seg[0], seg) as int) =~= whole.skip(i + advance));
            }
            lemma_opts_view_elems(out0);
            lemma_opts_view_elems(optimized_commands@);
            assert(opts_view(optimized_commands@) =~= opts_view(out0) + run_length_view(
                seg,
            ).take(1));
            assert(run_length_view(seg) =~= run_length_view(seg).take(1) + run_length_view(
                whole.skip(i + advance),
            ));
            assert(opts_view(out0) + (run_length_view(seg).take(1) + run_length_view(
                whole.skip(i + advance),
            )) =~= (opts_view(out0) + run_length_view(seg).take(1)) + run_length_view(
                whole.skip(i + advance),
            ));
        }
        i = i + advance;
    }
    proof {
        assert(whole.skip(commands@.len() as int) =~= Seq::<CommandView>::empty());
        assert(opts_view(optimized_commands@) + Seq::<OptimizedCommandView>::empty()
            =~= opts_view(optimized_commands@));
    }
    crate::shift_elision::apply(optimized_commands)
}

} // verus!
