//! The structure of loops in a sequence of operations: how deeply a position is
//! nested, which closing bracket belongs to which opening bracket, and what follows
//! from that for brackets inside one another.
use crate::ir::IR;
use vstd::prelude::*;

verus! {

/// How `op` changes the number of open loops.
pub open spec fn depth_change(op: IR) -> int {
    match op {
        IR::JumpForward => 1,
        IR::JumpBackward => -1,
        _ => 0,
    }
}

/// The number of loops opened minus the number closed among the first `i`
/// operations. It is negative once some loop was closed that had not been opened.
pub open spec fn depth(ops: Seq<IR>, i: int) -> int
    decreases i,
{
    if i <= 0 {
        0
    } else {
        depth(ops, i - 1) + depth_change(ops[i - 1])
    }
}

/// The number of loops opened among the first `i` operations.
pub open spec fn loops_opened(ops: Seq<IR>, i: int) -> nat
    decreases i,
{
    if i <= 0 {
        0
    } else if ops[i - 1] is JumpForward {
        loops_opened(ops, i - 1) + 1
    } else {
        loops_opened(ops, i - 1)
    }
}

/// Somewhere a loop is closed that was not open.
pub open spec fn closes_unopened(ops: Seq<IR>) -> bool {
    exists|k: int| 0 <= k <= ops.len() && #[trigger] depth(ops, k) < 0
}

/// At the end some loop is still open.
pub open spec fn leaves_open(ops: Seq<IR>) -> bool {
    depth(ops, ops.len() as int) > 0
}

/// Every loop that is closed was open, and every loop that is opened gets closed.
pub open spec fn well_nested(ops: Seq<IR>) -> bool {
    !closes_unopened(ops) && !leaves_open(ops)
}

/// The bracket at `close` closes the loop that the bracket at `open` opens: the depth
/// after the one is the depth before the other, and stays above it in between.
pub open spec fn matched(ops: Seq<IR>, open: int, close: int) -> bool {
    &&& 0 <= open < close < ops.len()
    &&& ops[open] is JumpForward
    &&& ops[close] is JumpBackward
    &&& depth(ops, close + 1) == depth(ops, open)
    &&& forall|k: int| open < k <= close ==> #[trigger] depth(ops, k) > depth(ops, open)
}

/// The position of the bracket that opens the loop closed at `close`.
pub open spec fn matching_open(ops: Seq<IR>, close: int) -> int {
    choose|open: int| matched(ops, open, close)
}

/// The position of the bracket that closes the loop opened at `open`.
pub open spec fn matching_close(ops: Seq<IR>, open: int) -> int {
    choose|close: int| matched(ops, open, close)
}

/// A closing bracket belongs to one opening bracket only.
pub proof fn lemma_matched_open_is_unique(ops: Seq<IR>, a: int, b: int, close: int)
    requires
        matched(ops, a, close),
        matched(ops, b, close),
    ensures
        a == b,
{
    if a < b {
        assert(depth(ops, b) > depth(ops, a));
    } else if b < a {
        assert(depth(ops, a) > depth(ops, b));
    }
}

/// An opening bracket belongs to one closing bracket only.
pub proof fn lemma_matched_close_is_unique(ops: Seq<IR>, open: int, a: int, b: int)
    requires
        matched(ops, open, a),
        matched(ops, open, b),
    ensures
        a == b,
{
    if a < b {
        assert(depth(ops, a + 1) > depth(ops, open));
    } else if b < a {
        assert(depth(ops, b + 1) > depth(ops, open));
    }
}

/// Searches backwards from `from` for the bracket that opens the loop closed at `close`.
proof fn lemma_find_open(ops: Seq<IR>, close: int, from: int) -> (open: int)
    requires
        0 <= from < close < ops.len(),
        ops[close] is JumpBackward,
        depth(ops, close + 1) >= 0,
        forall|k: int| from < k <= close ==> #[trigger] depth(ops, k) > depth(ops, close + 1),
    ensures
        matched(ops, open, close),
    decreases from,
{
    assert(depth(ops, from + 1) > depth(ops, close + 1));
    if depth(ops, from) == depth(ops, close + 1) {
        from
    } else {
        lemma_find_open(ops, close, from - 1)
    }
}

/// Searches forwards from `from` for the bracket that closes the loop opened at `open`.
proof fn lemma_find_close(ops: Seq<IR>, open: int, from: int) -> (close: int)
    requires
        0 <= open < from <= ops.len(),
        ops[open] is JumpForward,
        depth(ops, ops.len() as int) <= depth(ops, open),
        forall|k: int| open < k <= from ==> #[trigger] depth(ops, k) > depth(ops, open),
    ensures
        matched(ops, open, close),
    decreases ops.len() - from,
{
    assert(depth(ops, from) > depth(ops, open));
    if depth(ops, from + 1) == depth(ops, open) {
        from
    } else {
        lemma_find_close(ops, open, from + 1)
    }
}

/// A closing bracket has its opening bracket, unless it or a bracket before it closes
/// a loop that was not open.
pub proof fn lemma_close_has_open(ops: Seq<IR>, close: int)
    requires
        0 <= close < ops.len(),
        ops[close] is JumpBackward,
        forall|k: int| 0 <= k <= close + 1 ==> #[trigger] depth(ops, k) >= 0,
    ensures
        matched(ops, matching_open(ops, close), close),
{
    assert(depth(ops, close + 1) >= 0);
    assert(depth(ops, 0) == 0);
    let open = lemma_find_open(ops, close, close - 1);
}

/// Where the loops are well nested, an opening bracket has its closing bracket.
pub proof fn lemma_open_has_close(ops: Seq<IR>, open: int)
    requires
        well_nested(ops),
        0 <= open < ops.len(),
        ops[open] is JumpForward,
    ensures
        matched(ops, open, matching_close(ops, open)),
{
    assert(depth(ops, open) >= 0);
    let close = lemma_find_close(ops, open, open + 1);
}

/// The count of opened loops never falls, and rises across an opening bracket.
pub proof fn lemma_loops_opened_grows(ops: Seq<IR>, i: int, j: int)
    requires
        0 <= i <= j,
    ensures
        loops_opened(ops, i) <= loops_opened(ops, j),
        i < j && ops[i] is JumpForward ==> loops_opened(ops, i) < loops_opened(ops, j),
    decreases j - i,
{
    if i < j {
        lemma_loops_opened_grows(ops, i + 1, j);
    }
}

/// Of two loops, one within the other, the inner is opened later and closed earlier.
pub proof fn lemma_inner_loop_closes_first(
    ops: Seq<IR>,
    outer_open: int,
    outer_close: int,
    inner_open: int,
    inner_close: int,
)
    requires
        matched(ops, outer_open, outer_close),
        matched(ops, inner_open, inner_close),
        outer_open < inner_open < outer_close,
    ensures
        inner_close < outer_close,
        loops_opened(ops, outer_open) < loops_opened(ops, inner_open),
{
    lemma_loops_opened_grows(ops, outer_open, inner_open);
    assert(depth(ops, inner_open) > depth(ops, outer_open));
    if inner_close > outer_close {
        assert(depth(ops, outer_close + 1) > depth(ops, inner_open));
    } else if inner_close == outer_close {
        lemma_matched_open_is_unique(ops, outer_open, inner_open, outer_close);
    }
}

} // verus!
