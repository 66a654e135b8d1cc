//! The program tree and the parser that builds it from source bytes.
//!
//! Only the eight bytes `+ - > < [ ] . ,` carry meaning; every other byte
//! is a comment and is skipped without producing a node.  A `[` opens a
//! loop whose body runs to the matching `]`; parsing of a block stops when
//! it consumes a `]` or runs out of bytes, and hands the position after
//! the consumed part back to its caller.  The whole program parses only if
//! the top-level block consumes every byte; leftover bytes mean a stray
//! `]` and are reported as [`CompilerError::UnmatchedBracket`].  A `[`
//! that is never closed is accepted as if it closed at end of input, and a
//! single `]` standing exactly at the end of the source is accepted as
//! well: both follow from the block rule above and are part of the
//! documented contract.

use vstd::prelude::*;

use crate::error::CompilerError;

verus! {

/// One node of the program tree: a single source symbol, or one matched
/// `[...]` pair owning the commands of its body.
#[derive(Debug, PartialEq)]
pub enum Command {
    IncrementCell,
    DecrementCell,
    IncrementPointer,
    DecrementPointer,
    While(Vec<Command>),
    Output,
    Input,
}

/// The mathematical shape of a [`Command`]: the same tree with ghost
/// sequences in place of vectors.
pub enum CommandView {
    IncrementCell,
    DecrementCell,
    IncrementPointer,
    DecrementPointer,
    While(Seq<CommandView>),
    Output,
    Input,
}

/// The shape of one command, vectors abstracted to sequences.
pub open spec fn cmd_view(c: Command) -> CommandView
    decreases c,
{
    match c {
        Command::IncrementCell => CommandView::IncrementCell,
        Command::DecrementCell => CommandView::DecrementCell,
        Command::IncrementPointer => CommandView::IncrementPointer,
        Command::DecrementPointer => CommandView::DecrementPointer,
        Command::While(body) => CommandView::While(cmds_view(body@)),
        Command::Output => CommandView::Output,
        Command::Input => CommandView::Input,
    }
}

/// The shape of a whole sibling sequence of commands.
pub open spec fn cmds_view(s: Seq<Command>) -> Seq<CommandView>
    decreases s,
{
    if s.len() == 0 {
        Seq::empty()
    } else {
        seq![cmd_view(s[0])] + cmds_view(s.drop_first())
    }
}

/// The shape of a sequence is its elements' shapes, in order.
pub proof fn lemma_cmds_view_elems(s: Seq<Command>)
    ensures
        cmds_view(s).len() == s.len(),
        forall|i: int| 0 <= i < s.len() ==> cmds_view(s)[i] == cmd_view(s[i]),
    decreases s,
{
    if s.len() > 0 {
        lemma_cmds_view_elems(s.drop_first());
    }
}

/// Appending a command to a sequence appends its shape to the sequence's
/// shape.
pub proof fn lemma_cmds_view_push(s: Seq<Command>, c: Command)
    ensures
        cmds_view(s.push(c)) =~= cmds_view(s) + seq![cmd_view(c)],
    decreases s,
{
    if s.len() == 0 {
        assert(s.push(c)[0] == c);
        assert(s.push(c).drop_first() =~= Seq::<Command>::empty());
        assert(cmds_view(Seq::<Command>::empty()) == Seq::<CommandView>::empty());
    } else {
        assert(s.push(c)[0] == s[0]);
        assert(s.push(c).drop_first() =~= s.drop_first().push(c));
        lemma_cmds_view_push(s.drop_first(), c);
    }
}

/// The size of one node of the program tree, counting every node of a
/// loop body; the measure the recursive passes decrease.
pub open spec fn cmdv_size(c: CommandView) -> nat
    decreases c,
{
    match c {
        CommandView::While(body) => 1 + cmdvs_size(body),
        _ => 1,
    }
}

/// The size of a whole sibling sequence of the program tree.
pub open spec fn cmdvs_size(s: Seq<CommandView>) -> nat
    decreases s,
{
    if s.len() == 0 {
        0
    } else {
        cmdv_size(s[0]) + cmdvs_size(s.drop_first())
    }
}

/// A sequence is at least as large as its length, and every element fits
/// inside it.
pub proof fn lemma_cmdvs_size_bounds(s: Seq<CommandView>)
    ensures
        cmdvs_size(s) >= s.len(),
        forall|i: int| 0 <= i < s.len() ==> cmdv_size(#[trigger] s[i]) <= cmdvs_size(s),
    decreases s,
{
    if s.len() > 0 {
        assert(cmdv_size(s[0]) >= 1);
        lemma_cmdvs_size_bounds(s.drop_first());
        assert forall|i: int| 0 <= i < s.len() implies cmdv_size(#[trigger] s[i]) <= cmdvs_size(
            s,
        ) by {
            if i > 0 {
                assert(s.drop_first()[i - 1] == s[i]);
            }
        }
    }
}

/// Dropping `k` elements in front takes at least `k` off the size.
pub proof fn lemma_cmdvs_size_skip(s: Seq<CommandView>, k: int)
    requires
        0 <= k <= s.len(),
    ensures
        cmdvs_size(s.skip(k)) + k <= cmdvs_size(s),
    decreases k,
{
    if k == 0 {
        assert(s.skip(0) =~= s);
    } else {
        assert(s.skip(k) =~= s.drop_first().skip(k - 1));
        assert(cmdv_size(s[0]) >= 1);
        lemma_cmdvs_size_skip(s.drop_first(), k - 1);
    }
}

/// Concatenation adds sizes.
pub proof fn lemma_cmdvs_size_concat(a: Seq<CommandView>, b: Seq<CommandView>)
    ensures
        cmdvs_size(a + b) == cmdvs_size(a) + cmdvs_size(b),
    decreases a,
{
    if a.len() == 0 {
        assert(a + b =~= b);
    } else {
        assert((a + b)[0] == a[0]);
        assert((a + b).drop_first() =~= a.drop_first() + b);
        lemma_cmdvs_size_concat(a.drop_first(), b);
    }
}

/// The byte value of `+`.
pub const PLUS_BYTE: u8 = 43;

/// The byte value of `-`.
pub const MINUS_BYTE: u8 = 45;

/// The byte value of `>`.
pub const GREATER_BYTE: u8 = 62;

/// The byte value of `<`.
pub const LESS_BYTE: u8 = 60;

/// The byte value of `[`.
pub const OPEN_BYTE: u8 = 91;

/// The byte value of `]`.
pub const CLOSE_BYTE: u8 = 93;

/// The byte value of `.`.
pub const DOT_BYTE: u8 = 46;

/// The byte value of `,`.
pub const COMMA_BYTE: u8 = 44;

/// The node, if any, that a single non-bracket source byte stands for.
pub open spec fn unit_cmd_of(b: u8) -> Option<CommandView> {
    if b == PLUS_BYTE {
        Some(CommandView::IncrementCell)
    } else if b == MINUS_BYTE {
        Some(CommandView::DecrementCell)
    } else if b == GREATER_BYTE {
        Some(CommandView::IncrementPointer)
    } else if b == LESS_BYTE {
        Some(CommandView::DecrementPointer)
    } else if b == DOT_BYTE {
        Some(CommandView::Output)
    } else if b == COMMA_BYTE {
        Some(CommandView::Input)
    } else {
        None
    }
}

/// Recursive descent over the source, position `i` onward, bounded by
/// `fuel`; `None` only when the fuel runs out.  The result pairs the
/// commands of the block starting at `i` with the position just past the
/// bytes the block consumed.
pub open spec fn parse_step(s: Seq<u8>, i: int, fuel: nat) -> Option<(Seq<CommandView>, int)>
    decreases fuel,
{
    if fuel == 0 {
        None
    } else if i >= s.len() {
        Some((Seq::empty(), i))
    } else if s[i] == CLOSE_BYTE {
        Some((Seq::empty(), i + 1))
    } else if s[i] == OPEN_BYTE {
        match parse_step(s, i + 1, (fuel - 1) as nat) {
            None => None,
            Some((body, j)) => match parse_step(s, j, (fuel - 1) as nat) {
                None => None,
                Some((rest, k)) => Some((seq![CommandView::While(body)] + rest, k)),
            },
        }
    } else {
        match parse_step(s, i + 1, (fuel - 1) as nat) {
            None => None,
            Some((rest, j)) => match unit_cmd_of(s[i]) {
                Some(c) => Some((seq![c] + rest, j)),
                None => Some((rest, j)),
            },
        }
    }
}

/// A block never consumes bytes before its start nor past the end, and
/// always consumes at least the byte it begins on.
proof fn lemma_parse_step_bounds(s: Seq<u8>, i: int, fuel: nat)
    requires
        0 <= i <= s.len(),
    ensures
        parse_step(s, i, fuel) matches Some(r) ==> {
            &&& i <= r.1 <= s.len()
            &&& i < s.len() ==> i + 1 <= r.1
        },
    decreases fuel,
{
    if fuel > 0 && i < s.len() {
        lemma_parse_step_bounds(s, i + 1, (fuel - 1) as nat);
        if s[i] == OPEN_BYTE {
            if let Some((body, j)) = parse_step(s, i + 1, (fuel - 1) as nat) {
                lemma_parse_step_bounds(s, j, (fuel - 1) as nat);
            }
        }
    }
}

/// When a block beginning on a `[` finishes within its fuel, so do the
/// body and the continuation behind it, each on one unit less.
proof fn lemma_parse_step_inner_open(s: Seq<u8>, i: int, f: nat)
    requires
        0 <= i < s.len(),
        s[i] == OPEN_BYTE,
        parse_step(s, i, f) is Some,
    ensures
        f > 0,
        parse_step(s, i + 1, (f - 1) as nat) is Some,
{
    assert(f > 0);
    assert(parse_step(s, i, f) == (match parse_step(s, i + 1, (f - 1) as nat) {
        None => None,
        Some((body, j)) => match parse_step(s, j, (f - 1) as nat) {
            None => None,
            Some((rest, k)) => Some((seq![CommandView::While(body)] + rest, k)),
        },
    }));
}

/// The same for a block beginning on any byte other than a bracket.
proof fn lemma_parse_step_inner_other(s: Seq<u8>, i: int, f: nat)
    requires
        0 <= i < s.len(),
        s[i] != OPEN_BYTE,
        s[i] != CLOSE_BYTE,
        parse_step(s, i, f) is Some,
    ensures
        f > 0,
        parse_step(s, i + 1, (f - 1) as nat) is Some,
{
    assert(f > 0);
    assert(parse_step(s, i, f) == (match parse_step(s, i + 1, (f - 1) as nat) {
        None => None,
        Some((rest, j)) => match unit_cmd_of(s[i]) {
            Some(c) => Some((seq![c] + rest, j)),
            None => Some((rest, j)),
        },
    }));
}

/// Once the fuel is enough for the recursion to finish, more fuel does
/// not change the result.
proof fn lemma_parse_step_fuel(s: Seq<u8>, i: int, f1: nat, f2: nat)
    requires
        0 <= i <= s.len(),
        f1 <= f2,
        parse_step(s, i, f1) is Some,
    ensures
        parse_step(s, i, f2) == parse_step(s, i, f1),
    decreases f1,
{
    if i < s.len() {
        if s[i] == OPEN_BYTE {
            lemma_parse_step_inner_open(s, i, f1);
            lemma_parse_step_fuel(s, i + 1, (f1 - 1) as nat, (f2 - 1) as nat);
            if let Some((body, j)) = parse_step(s, i + 1, (f1 - 1) as nat) {
                lemma_parse_step_bounds(s, i + 1, (f1 - 1) as nat);
                assert(parse_step(s, j, (f1 - 1) as nat) is Some);
                lemma_parse_step_fuel(s, j, (f1 - 1) as nat, (f2 - 1) as nat);
            }
        } else if s[i] != CLOSE_BYTE {
            lemma_parse_step_inner_other(s, i, f1);
            lemma_parse_step_fuel(s, i + 1, (f1 - 1) as nat, (f2 - 1) as nat);
        }
    }
}

/// One more unit of fuel than there are bytes left always suffices.
proof fn lemma_parse_step_some(s: Seq<u8>, i: int, fuel: nat)
    requires
        0 <= i <= s.len(),
        fuel >= s.len() - i + 1,
    ensures
        parse_step(s, i, fuel) is Some,
    decreases fuel,
{
    if i < s.len() {
        lemma_parse_step_some(s, i + 1, (fuel - 1) as nat);
        if s[i] == OPEN_BYTE {
            if let Some((body, j)) = parse_step(s, i + 1, (fuel - 1) as nat) {
                lemma_parse_step_bounds(s, i + 1, (fuel - 1) as nat);
                lemma_parse_step_some(s, j, (fuel - 1) as nat);
            }
        }
    }
}

/// The commands of the block starting at position `i`, and the position
/// just past the bytes the block consumed.
pub open spec fn parse_rest(s: Seq<u8>, i: int) -> (Seq<CommandView>, int) {
    parse_step(s, i, (s.len() - i + 1) as nat)->0
}

/// The defining equations of [`parse_rest`], stated without fuel: how a
/// block treats the end of input, each bracket, each unit symbol, and a
/// comment byte, together with the bounds on the consumed range.
pub proof fn lemma_parse_rest(s: Seq<u8>, i: int)
    requires
        0 <= i <= s.len(),
    ensures
        i <= parse_rest(s, i).1 <= s.len(),
        i == s.len() ==> parse_rest(s, i) == (Seq::<CommandView>::empty(), i),
        i < s.len() ==> i + 1 <= parse_rest(s, i).1,
        i < s.len() && s[i] == CLOSE_BYTE ==> parse_rest(s, i) == (Seq::<CommandView>::empty(), i + 1),
        i < s.len() && s[i] == OPEN_BYTE ==> {
            &&& parse_rest(s, i).0 == seq![CommandView::While(parse_rest(s, i + 1).0)]
                + parse_rest(s, parse_rest(s, i + 1).1).0
            &&& parse_rest(s, i).1 == parse_rest(s, parse_rest(s, i + 1).1).1
        },
        i < s.len() && unit_cmd_of(s[i]) is Some ==> {
            &&& parse_rest(s, i).0 == seq![unit_cmd_of(s[i])->0] + parse_rest(s, i + 1).0
            &&& parse_rest(s, i).1 == parse_rest(s, i + 1).1
        },
        i < s.len() && s[i] != OPEN_BYTE && s[i] != CLOSE_BYTE && unit_cmd_of(s[i]) is None ==> parse_rest(
            s,
            i,
        ) == parse_rest(s, i + 1),
{
    let fuel = (s.len() - i + 1) as nat;
    lemma_parse_step_some(s, i, fuel);
    lemma_parse_step_bounds(s, i, fuel);
    if i < s.len() {
        let f1 = (fuel - 1) as nat;
        lemma_parse_step_some(s, i + 1, f1);
        lemma_parse_step_bounds(s, i + 1, f1);
        assert(parse_step(s, i + 1, f1)->0 == parse_rest(s, i + 1));
        if s[i] == OPEN_BYTE {
            let (body, j) = parse_rest(s, i + 1);
            let fj = (s.len() - j + 1) as nat;
            lemma_parse_step_some(s, j, fj);
            lemma_parse_step_fuel(s, j, fj, f1);
            lemma_parse_step_bounds(s, j, fj);
        }
    }
}

/// What one byte does to the bracket nesting level.
pub open spec fn bracket_delta(b: u8) -> int {
    if b == OPEN_BYTE {
        1
    } else if b == CLOSE_BYTE {
        -1
    } else {
        0
    }
}

/// The bracket nesting level in front of position `j`: opening brackets
/// minus closing brackets among the first `j` bytes.
pub open spec fn nesting(s: Seq<u8>, j: int) -> int
    decreases j,
{
    if j <= 0 {
        0
    } else {
        nesting(s, j - 1) + bracket_delta(s[j - 1])
    }
}

/// Where a flat scan of the source, starting at `i` inside `depth` open
/// brackets, would end the block that parsing starts at `i`: just past
/// the closing bracket of the outermost open one, or at the end of the
/// source.
pub open spec fn block_end(s: Seq<u8>, i: int, depth: nat) -> int
    decreases s.len() - i,
{
    if i < 0 || i >= s.len() {
        s.len() as int
    } else if s[i] == CLOSE_BYTE {
        if depth == 0 {
            i + 1
        } else {
            block_end(s, i + 1, (depth - 1) as nat)
        }
    } else if s[i] == OPEN_BYTE {
        block_end(s, i + 1, depth + 1)
    } else {
        block_end(s, i + 1, depth)
    }
}

/// The scan stays inside the source and always moves.
proof fn lemma_block_end_bounds(s: Seq<u8>, i: int, depth: nat)
    requires
        0 <= i <= s.len(),
    ensures
        i <= block_end(s, i, depth) <= s.len(),
        i < s.len() ==> i + 1 <= block_end(s, i, depth),
    decreases s.len() - i,
{
    if i < s.len() {
        if s[i] == CLOSE_BYTE {
            if depth > 0 {
                lemma_block_end_bounds(s, i + 1, (depth - 1) as nat);
            }
        } else if s[i] == OPEN_BYTE {
            lemma_block_end_bounds(s, i + 1, depth + 1);
        } else {
            lemma_block_end_bounds(s, i + 1, depth);
        }
    }
}

/// Scanning inside `depth` brackets is scanning the innermost block to
/// its end and then the rest, one level up.
proof fn lemma_block_end_nest(s: Seq<u8>, i: int, depth: nat)
    requires
        0 <= i <= s.len(),
        depth >= 1,
    ensures
        block_end(s, i, depth) == block_end(s, block_end(s, i, 0), (depth - 1) as nat),
    decreases s.len() - i,
{
    if i >= s.len() {
    } else if s[i] == CLOSE_BYTE {
    } else if s[i] == OPEN_BYTE {
        lemma_block_end_bounds(s, i + 1, 0);
        let e1 = block_end(s, i + 1, 0);
        lemma_block_end_nest(s, i + 1, depth + 1);
        lemma_block_end_nest(s, i + 1, 1);
        lemma_block_end_bounds(s, e1, 0);
        lemma_block_end_nest(s, e1, depth);
    } else {
        lemma_block_end_nest(s, i + 1, depth);
    }
}

/// Parsing a block consumes exactly what the flat scan says: up to and
/// including the closing bracket of the block, or the whole rest of the
/// source.
pub proof fn lemma_parse_end(s: Seq<u8>, i: int)
    requires
        0 <= i <= s.len(),
    ensures
        parse_rest(s, i).1 == block_end(s, i, 0),
    decreases s.len() - i,
{
    lemma_parse_rest(s, i);
    if i >= s.len() {
    } else if s[i] == CLOSE_BYTE {
    } else if s[i] == OPEN_BYTE {
        lemma_parse_end(s, i + 1);
        let j = parse_rest(s, i + 1).1;
        lemma_block_end_bounds(s, i + 1, 0);
        lemma_parse_end(s, j);
        lemma_block_end_nest(s, i + 1, 1);
    } else {
        lemma_parse_end(s, i + 1);
    }
}

/// A scan that starts inside `depth` brackets and whose remaining bytes
/// never close more brackets than stand open runs to the end of the
/// source.
proof fn lemma_scan_to_end(s: Seq<u8>, i: int, depth: nat)
    requires
        0 <= i <= s.len(),
        forall|j: int| i <= j <= s.len() ==> nesting(s, j) - nesting(s, i) + depth >= 0,
    ensures
        block_end(s, i, depth) == s.len(),
    decreases s.len() - i,
{
    if i < s.len() {
        assert(nesting(s, i + 1) == nesting(s, i) + bracket_delta(s[i]));
        if s[i] == CLOSE_BYTE {
            assert(nesting(s, i + 1) - nesting(s, i) + depth >= 0);
            assert(depth >= 1);
            lemma_scan_to_end(s, i + 1, (depth - 1) as nat);
        } else if s[i] == OPEN_BYTE {
            lemma_scan_to_end(s, i + 1, depth + 1);
        } else {
            lemma_scan_to_end(s, i + 1, depth);
        }
    }
}

/// A program whose brackets balance — no prefix closes more brackets
/// than it opens, and the whole source opens and closes equally many —
/// parses successfully: the top-level block consumes every byte, so
/// [`parse`] returns the tree.  (A source with bytes left over fails
/// with `UnmatchedBracket`: that is `parse`'s contract.)
pub proof fn lemma_balanced_parses(s: Seq<u8>)
    requires
        forall|j: int| 0 <= j <= s.len() ==> nesting(s, j) >= 0,
        nesting(s, s.len() as int) == 0,
    ensures
        parse_rest(s, 0).1 == s.len(),
{
    assert(nesting(s, 0) == 0);
    lemma_scan_to_end(s, 0, 0);
    lemma_parse_end(s, 0);
}

/// How deeply loops nest inside one node: a loop is one deeper than its
/// body, anything else is flat.
pub open spec fn cmdv_depth(c: CommandView) -> nat
    decreases c,
{
    match c {
        CommandView::While(body) => 1 + cmdvs_depth(body),
        _ => 0,
    }
}

/// How deeply loops nest inside a sibling sequence: the deepest of its
/// nodes.
pub open spec fn cmdvs_depth(s: Seq<CommandView>) -> nat
    decreases s,
{
    if s.len() == 0 {
        0
    } else {
        if cmdv_depth(s[0]) > cmdvs_depth(s.drop_first()) {
            cmdv_depth(s[0])
        } else {
            cmdvs_depth(s.drop_first())
        }
    }
}

/// The depth of a sequence with one node in front is the deeper of the
/// two parts.
proof fn lemma_cmdvs_depth_cons(x: CommandView, r: Seq<CommandView>)
    ensures
        cmdvs_depth(seq![x] + r) == if cmdv_depth(x) > cmdvs_depth(r) {
            cmdv_depth(x)
        } else {
            cmdvs_depth(r)
        },
{
    assert((seq![x] + r)[0] == x);
    assert((seq![x] + r).drop_first() =~= r);
}

/// The highest nesting level among positions `a` through `b`.
pub open spec fn peak_nesting(s: Seq<u8>, a: int, b: int) -> int
    decreases b - a,
{
    if b <= a {
        nesting(s, a)
    } else {
        if peak_nesting(s, a, b - 1) > nesting(s, b) {
            peak_nesting(s, a, b - 1)
        } else {
            nesting(s, b)
        }
    }
}

/// The highest level over a range covers every position in it.
proof fn lemma_peak_nesting_ge(s: Seq<u8>, a: int, b: int, t: int)
    requires
        a <= t <= b,
    ensures
        peak_nesting(s, a, b) >= nesting(s, t),
    decreases b - a,
{
    if b > a && t < b {
        lemma_peak_nesting_ge(s, a, b - 1, t);
    }
}

/// The highest level over a range splits at any position inside it.
proof fn lemma_peak_nesting_split(s: Seq<u8>, a: int, m: int, b: int)
    requires
        a <= m <= b,
    ensures
        peak_nesting(s, a, b) == if peak_nesting(s, a, m) > peak_nesting(s, m, b) {
            peak_nesting(s, a, m)
        } else {
            peak_nesting(s, m, b)
        },
    decreases b - m,
{
    if m == b {
        lemma_peak_nesting_ge(s, a, b, b);
    } else {
        lemma_peak_nesting_split(s, a, m, b - 1);
        lemma_peak_nesting_ge(s, m, b, m);
    }
}

/// Where parsing a block stops, the nesting level has dropped by
/// exactly the block's one closing bracket — unless the block ran to
/// the end of the source.
proof fn lemma_parse_nesting(s: Seq<u8>, i: int)
    requires
        0 <= i <= s.len(),
    ensures
        parse_rest(s, i).1 == s.len() || nesting(s, parse_rest(s, i).1) == nesting(s, i) - 1,
    decreases s.len() - i,
{
    lemma_parse_rest(s, i);
    if i >= s.len() {
    } else if s[i] == CLOSE_BYTE {
        assert(nesting(s, i + 1) == nesting(s, i) + bracket_delta(s[i]));
    } else if s[i] == OPEN_BYTE {
        lemma_parse_nesting(s, i + 1);
        let j1 = parse_rest(s, i + 1).1;
        lemma_parse_rest(s, i + 1);
        if j1 == s.len() {
            lemma_parse_rest(s, j1);
        } else {
            assert(nesting(s, i + 1) == nesting(s, i) + 1);
            lemma_parse_nesting(s, j1);
        }
    } else {
        assert(nesting(s, i + 1) == nesting(s, i));
        lemma_parse_nesting(s, i + 1);
    }
}

/// A block's tree nests exactly as deep as the nesting level rises over
/// the bytes the block consumed.
proof fn lemma_parse_depth(s: Seq<u8>, i: int)
    requires
        0 <= i <= s.len(),
    ensures
        cmdvs_depth(parse_rest(s, i).0) == peak_nesting(s, i, parse_rest(s, i).1) - nesting(s, i),
    decreases s.len() - i,
{
    lemma_parse_rest(s, i);
    let (cmds, j) = parse_rest(s, i);
    if i >= s.len() {
        assert(cmdvs_depth(cmds) == 0);
    } else if s[i] == CLOSE_BYTE {
        assert(nesting(s, i + 1) == nesting(s, i) - 1);
        assert(peak_nesting(s, i, i) == nesting(s, i));
        assert(peak_nesting(s, i, i + 1) == nesting(s, i));
        assert(cmdvs_depth(cmds) == 0);
    } else if s[i] == OPEN_BYTE {
        let (body, j1) = parse_rest(s, i + 1);
        lemma_parse_rest(s, i + 1);
        lemma_parse_rest(s, j1);
        lemma_parse_depth(s, i + 1);
        lemma_parse_nesting(s, i + 1);
        lemma_parse_depth(s, j1);
        lemma_cmdvs_depth_cons(CommandView::While(body), parse_rest(s, j1).0);
        assert(nesting(s, i + 1) == nesting(s, i) + 1);
        assert(cmdv_depth(CommandView::While(body)) == 1 + cmdvs_depth(body));
        lemma_peak_nesting_split(s, i, i + 1, j1);
        lemma_peak_nesting_ge(s, i + 1, j1, i + 1);
        assert(peak_nesting(s, i, i) == nesting(s, i));
        assert(peak_nesting(s, i, i + 1) == if nesting(s, i) > nesting(s, i + 1) {
            nesting(s, i)
        } else {
            nesting(s, i + 1)
        });
        if j1 == s.len() {
            assert(parse_rest(s, j1).0 =~= Seq::<CommandView>::empty());
            assert(cmdvs_depth(parse_rest(s, j1).0) == 0);
            assert(j == j1);
            assert(peak_nesting(s, i, j) == peak_nesting(s, i + 1, j1));
        } else {
            assert(nesting(s, j1) == nesting(s, i));
            lemma_peak_nesting_split(s, i, j1, j);
            lemma_peak_nesting_ge(s, j1, j, j1);
        }
    } else {
        lemma_parse_depth(s, i + 1);
        assert(nesting(s, i + 1) == nesting(s, i));
        lemma_peak_nesting_split(s, i, i + 1, j);
        lemma_peak_nesting_ge(s, i + 1, j, i + 1);
        assert(peak_nesting(s, i, i) == nesting(s, i));
        assert(peak_nesting(s, i, i + 1) == nesting(s, i));
        if unit_cmd_of(s[i]) is Some {
            lemma_cmdvs_depth_cons(unit_cmd_of(s[i])->0, parse_rest(s, i + 1).0);
            assert(cmdv_depth(unit_cmd_of(s[i])->0) == 0);
        }
    }
}

/// A balanced program parses to a tree whose loops nest exactly as deep
/// as the source's brackets do: the tree's depth is the highest nesting
/// level any prefix of the source reaches.
pub proof fn lemma_balanced_depth(s: Seq<u8>)
    requires
        forall|j: int| 0 <= j <= s.len() ==> nesting(s, j) >= 0,
        nesting(s, s.len() as int) == 0,
    ensures
        cmdvs_depth(parse_rest(s, 0).0) == peak_nesting(s, 0, s.len() as int),
{
    lemma_balanced_parses(s);
    lemma_parse_depth(s, 0);
}

/// A block's tree has no more nodes than the bytes the block consumed:
/// every node stands for at least one byte.
proof fn lemma_parse_step_size(s: Seq<u8>, i: int, fuel: nat)
    requires
        0 <= i <= s.len(),
    ensures
        parse_step(s, i, fuel) matches Some(r) ==> cmdvs_size(r.0) <= r.1 - i,
    decreases fuel,
{
    if fuel > 0 && i < s.len() {
        lemma_parse_step_bounds(s, i + 1, (fuel - 1) as nat);
        lemma_parse_step_size(s, i + 1, (fuel - 1) as nat);
        if s[i] == OPEN_BYTE {
            if let Some((body, j)) = parse_step(s, i + 1, (fuel - 1) as nat) {
                lemma_parse_step_bounds(s, j, (fuel - 1) as nat);
                lemma_parse_step_size(s, j, (fuel - 1) as nat);
                if let Some((rest, k)) = parse_step(s, j, (fuel - 1) as nat) {
                    lemma_cmdvs_size_concat(seq![CommandView::While(body)], rest);
                    assert(seq![CommandView::While(body)][0] == CommandView::While(body));
                    assert(seq![CommandView::While(body)].drop_first()
                        =~= Seq::<CommandView>::empty());
                    assert(cmdvs_size(Seq::<CommandView>::empty()) == 0);
                    assert(cmdv_size(CommandView::While(body)) == 1 + cmdvs_size(body));
                    assert(cmdvs_size(seq![CommandView::While(body)]) == 1 + cmdvs_size(body));
                }
            }
        } else if s[i] != CLOSE_BYTE {
            if let Some((rest, j)) = parse_step(s, i + 1, (fuel - 1) as nat) {
                if let Some(c) = unit_cmd_of(s[i]) {
                    lemma_cmdvs_size_concat(seq![c], rest);
                    assert(seq![c][0] == c);
                    assert(seq![c].drop_first() =~= Seq::<CommandView>::empty());
                    assert(cmdvs_size(Seq::<CommandView>::empty()) == 0);
                    assert(cmdv_size(c) == 1);
                }
            }
        }
    }
}

/// A program's tree has no more nodes than the source has bytes.
pub proof fn lemma_parse_rest_size(s: Seq<u8>, i: int)
    requires
        0 <= i <= s.len(),
    ensures
        cmdvs_size(parse_rest(s, i).0) <= parse_rest(s, i).1 - i,
{
    let fuel = (s.len() - i + 1) as nat;
    lemma_parse_step_some(s, i, fuel);
    lemma_parse_step_size(s, i, fuel);
}

/// Parses one block: every byte from `start` up to the `]` that closes
/// the block (or the end of the source), appending a node per meaningful
/// symbol and recursing at each nested `[`.  Returns the block's commands
/// and the position just past what it consumed.
fn parse_block(src: &Vec<u8>, start: usize) -> (r: (Vec<Command>, usize))
    requires
        start <= src@.len(),
    ensures
        cmds_view(r.0@) == parse_rest(src@, start as int).0,
        r.1 == parse_rest(src@, start as int).1,
        start <= r.1 <= src@.len(),
    decreases src@.len() - start,
{
    let mut commands: Vec<Command> = Vec::new();
    let mut i: usize = start;
    let mut done: bool = false;
    proof {
        lemma_parse_rest(src@, start as int);
        assert(cmds_view(commands@) + parse_rest(src@, start as int).0 =~= parse_rest(
            src@,
            start as int,
        ).0);
    }
    while !done && i < src.len()
        invariant
            start <= i <= src@.len(),
            !done ==> parse_rest(src@, start as int).0 == cmds_view(commands@) + parse_rest(
                src@,
                i as int,
            ).0,
            !done ==> parse_rest(src@, start as int).1 == parse_rest(src@, i as int).1,
            done ==> parse_rest(src@, start as int).0 == cmds_view(commands@),
            done ==> parse_rest(src@, start as int).1 == i,
            done ==> start + 1 <= i,
        decreases src@.len() - i + (if done {
            0int
        } else {
            1int
        }),
    {
        proof {
            lemma_parse_rest(src@, i as int);
        }
        let byte = src[i];
        if byte == CLOSE_BYTE {
            i = i + 1;
            done = true;
            proof {
                assert(cmds_view(commands@) + Seq::<CommandView>::empty() =~= cmds_view(
                    commands@,
                ));
            }
        } else if byte == OPEN_BYTE {
            let (body, j) = parse_block(src, i + 1);
            proof {
                let ghost mid = parse_rest(src@, i as int + 1);
                lemma_parse_rest(src@, mid.1);
                lemma_cmds_view_push(commands@, Command::While(body));
                assert(cmds_view(commands@) + (seq![
                    CommandView::While(cmds_view(body@)),
                ] + parse_rest(src@, mid.1).0) =~= (cmds_view(commands@) + seq![
                    CommandView::While(cmds_view(body@)),
                ]) + parse_rest(src@, mid.1).0);
            }
            commands.push(Command::While(body));
            i = j;
        } else {
            let unit: Option<Command> = if byte == PLUS_BYTE {
                Some(Command::IncrementCell)
            } else if byte == MINUS_BYTE {
                Some(Command::DecrementCell)
            } else if byte == GREATER_BYTE {
                Some(Command::IncrementPointer)
            } else if byte == LESS_BYTE {
                Some(Command::DecrementPointer)
            } else if byte == DOT_BYTE {
                Some(Command::Output)
            } else if byte == COMMA_BYTE {
                Some(Command::Input)
            } else {
                None
            };
            if let Some(c) = unit {
                proof {
                    lemma_cmds_view_push(commands@, c);
                    assert(cmds_view(commands@) + (seq![cmd_view(c)] + parse_rest(
                        src@,
                        i as int + 1,
                    ).0) =~= (cmds_view(commands@) + seq![cmd_view(c)]) + parse_rest(
                        src@,
                        i as int + 1,
                    ).0);
                }
                commands.push(c);
            }
            i = i + 1;
        }
    }
    proof {
        if !done {
            lemma_parse_rest(src@, i as int);
            assert(cmds_view(commands@) + Seq::<CommandView>::empty() =~= cmds_view(commands@));
        }
    }
    (commands, i)
}

/// Parses a whole source program into its tree.
///
/// Succeeds exactly when the top-level block consumes every byte; bytes
/// left over behind a consumed `]` are an [`CompilerError::UnmatchedBracket`]
/// failure, and nothing is produced.
pub fn parse(source_code: Vec<u8>) -> (r: Result<Vec<Command>, CompilerError>)
    ensures
        parse_rest(source_code@, 0).1 == source_code@.len() ==> (r matches Ok(commands)
            && cmds_view(commands@) == parse_rest(source_code@, 0).0),
        parse_rest(source_code@, 0).1 != source_code@.len() ==> r == Err::<
            Vec<Command>,
            _,
        >(CompilerError::UnmatchedBracket),
{
    let (commands, end) = parse_block(&source_code, 0);
    if end == source_code.len() {
        Ok(commands)
    } else {
        Err(CompilerError::UnmatchedBracket)
    }
}

} // verus!
