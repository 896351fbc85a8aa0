//! Code generation: the assembly text for a sequence of operations.
//!
//! The text targets a 64-bit register machine. It reserves a tape of 30000 bytes,
//! keeps the address of the current cell in `rsi`, and ends by leaving the process
//! with status 0. Every loop gets a number when it is opened; the two jump targets of
//! the loop, `loop_start_N` and `loop_end_N`, carry that number.
use crate::decimal::{decimal, lemma_decimal_injective, push_decimal};
use crate::ir::IR;
use crate::nesting::{
    closes_unopened, depth, leaves_open, lemma_close_has_open, lemma_inner_loop_closes_first,
    lemma_loops_opened_grows, lemma_matched_close_is_unique, lemma_matched_open_is_unique,
    lemma_open_has_close, loops_opened, matched, matching_close, matching_open, well_nested,
};
use vstd::prelude::*;
use vstd::string::StringExecFns;

verus! {

/// Why no assembly text can be made of a sequence of operations.
#[derive(Debug, Clone, Copy, PartialEq, Eq)]
pub enum CodegenError {
    /// A `]` closes a loop that was not open.
    UnmatchedLoopClose,
    /// A `[` opens a loop that is never closed.
    UnmatchedLoopOpen,
}

/// Says what is wrong, for the one who wrote the program.
pub const UNMATCHED_CLOSE_MESSAGE: &'static str = "unmatched `]`: no loop is open here";

/// Says what is wrong, for the one who wrote the program.
pub const UNMATCHED_OPEN_MESSAGE: &'static str = "unmatched `[`: a loop is never closed";

impl CodegenError {
    /// The message for this error.
    pub open spec fn message_text(self) -> Seq<char> {
        match self {
            CodegenError::UnmatchedLoopClose => UNMATCHED_CLOSE_MESSAGE@,
            CodegenError::UnmatchedLoopOpen => UNMATCHED_OPEN_MESSAGE@,
        }
    }

    /// A sentence that names the fault.
    pub fn message(&self) -> (text: &'static str)
        ensures
            text@ == self.message_text(),
    {
        match self {
            CodegenError::UnmatchedLoopClose => UNMATCHED_CLOSE_MESSAGE,
            CodegenError::UnmatchedLoopOpen => UNMATCHED_OPEN_MESSAGE,
        }
    }
}

/// Reserves the tape and points `rsi` at its first cell.
pub const PROLOGUE: &'static str =
    "\nformat elf64 executable 3\nentry start\n\nsegment readable writeable\n    mem rb 30000\n\nsegment executable\nstart:\n    mov rsi, mem\n";

/// Leaves the process with status 0.
pub const EPILOGUE: &'static str = "\n    mov rax, 60\n    xor rdi, rdi\n    syscall\n";

/// Start of the line that moves to a cell further right.
pub const MOVE_RIGHT: &'static str = "    add rsi, ";

/// Start of the line that moves to a cell further left.
pub const MOVE_LEFT: &'static str = "    sub rsi, ";

/// Start of the line that adds to the current cell.
pub const ADD_TO_CELL: &'static str = "    add byte [rsi], ";

/// Start of the line that subtracts from the current cell.
pub const SUBTRACT_FROM_CELL: &'static str = "    sub byte [rsi], ";

/// End of a line.
pub const LINE_END: &'static str = "\n";

/// Writes the current cell to standard output.
pub const WRITE_CELL: &'static str =
    "\n    mov rax, 1\n    mov rdi, 1\n    mov rdx, 1\n    ; rsi already points to buffer\n    syscall\n";

/// Reads one byte from standard input into the current cell.
pub const READ_CELL: &'static str =
    "\n    mov rax, 0\n    mov rdi, 0\n    mov rdx, 1\n    ; rsi already points to buffer\n    syscall\n";

/// Compares the current cell with zero and starts the jump taken if it is zero.
pub const JUMP_IF_ZERO: &'static str = "    cmp byte [rsi], 0\n    je ";

/// Compares the current cell with zero and starts the jump taken if it is not zero.
pub const JUMP_IF_NOT_ZERO: &'static str = "    cmp byte [rsi], 0\n    jne ";

/// Indentation of a line.
pub const INDENT: &'static str = "    ";

/// End of a line that defines a label.
pub const LABEL_END: &'static str = ":\n";

/// Start of the name of the label at the top of a loop.
pub const LOOP_START: &'static str = "loop_start_";

/// Start of the name of the label behind a loop.
pub const LOOP_END: &'static str = "loop_end_";

/// The name of the label at the top of the loop with the number `label`.
pub open spec fn loop_start_name(label: nat) -> Seq<char> {
    LOOP_START@ + decimal(label)
}

/// The name of the label behind the loop with the number `label`.
pub open spec fn loop_end_name(label: nat) -> Seq<char> {
    LOOP_END@ + decimal(label)
}

/// A line that begins with `start` and ends with the number `n`.
pub open spec fn counted_line(start: Seq<char>, n: nat) -> Seq<char> {
    start + decimal(n) + LINE_END@
}

/// The text that opens the loop with the number `label`: the loop is skipped if the
/// current cell is zero, and its top is marked.
pub open spec fn loop_open_text(label: nat) -> Seq<char> {
    JUMP_IF_ZERO@ + loop_end_name(label) + LINE_END@ + INDENT@ + loop_start_name(label)
        + LABEL_END@
}

/// The text that closes the loop with the number `label`: the loop is repeated unless
/// the current cell is zero, and the place behind it is marked.
pub open spec fn loop_close_text(label: nat) -> Seq<char> {
    JUMP_IF_NOT_ZERO@ + loop_start_name(label) + LINE_END@ + INDENT@ + loop_end_name(label)
        + LABEL_END@
}

/// The text for one operation; `label` is the number of the loop that a bracket opens
/// or closes, and has no meaning for the other operations.
pub open spec fn emission(op: IR, label: nat) -> Seq<char> {
    match op {
        IR::MovePointerRight(n) => counted_line(MOVE_RIGHT@, n as nat),
        IR::MovePointerLeft(n) => counted_line(MOVE_LEFT@, n as nat),
        IR::Increment(n) => counted_line(ADD_TO_CELL@, n as nat),
        IR::Decrement(n) => counted_line(SUBTRACT_FROM_CELL@, n as nat),
        IR::Output => WRITE_CELL@,
        IR::Input => READ_CELL@,
        IR::JumpForward => loop_open_text(label),
        IR::JumpBackward => loop_close_text(label),
    }
}

/// The number of the loop that the bracket at `i` opens or closes.
///
/// Loops are numbered from 0 in the order in which they are opened; a closing bracket
/// carries the number of the loop that it closes.
pub open spec fn label_at(ops: Seq<IR>, i: int) -> nat {
    if ops[i] is JumpBackward {
        loops_opened(ops, matching_open(ops, i))
    } else {
        loops_opened(ops, i)
    }
}

/// The text for the first `n` operations, one after the other.
pub open spec fn body(ops: Seq<IR>, n: int) -> Seq<char>
    decreases n,
{
    if n <= 0 {
        Seq::empty()
    } else {
        body(ops, n - 1) + emission(ops[n - 1], label_at(ops, n - 1))
    }
}

/// The whole assembly text for `ops`.
pub open spec fn assembly(ops: Seq<IR>) -> Seq<char> {
    PROLOGUE@ + body(ops, ops.len() as int) + EPILOGUE@
}

/// Whether `op` opens or closes a loop.
pub open spec fn is_bracket(op: IR) -> bool {
    op is JumpForward || op is JumpBackward
}

/// Of the brackets of well-nested loops, two carry the same number exactly when the
/// later one closes the loop that the earlier one opens. So every loop has a number
/// of its own, shared by its two brackets and by no other.
pub proof fn lemma_labels_pair_up(ops: Seq<IR>, i: int, j: int)
    requires
        well_nested(ops),
        0 <= i < j < ops.len(),
        is_bracket(ops[i]),
        is_bracket(ops[j]),
    ensures
        label_at(ops, i) == label_at(ops, j) <==> matched(ops, i, j),
{
    assert forall|k: int| 0 <= k <= ops.len() implies #[trigger] depth(ops, k) >= 0 by {}
    let open_i = if ops[i] is JumpBackward {
        matching_open(ops, i)
    } else {
        i
    };
    let open_j = if ops[j] is JumpBackward {
        matching_open(ops, j)
    } else {
        j
    };
    if ops[i] is JumpBackward {
        lemma_close_has_open(ops, i);
    }
    if ops[j] is JumpBackward {
        lemma_close_has_open(ops, j);
    }
    if open_i < open_j {
        lemma_loops_opened_grows(ops, open_i, open_j);
    } else if open_j < open_i {
        lemma_loops_opened_grows(ops, open_j, open_i);
    } else if ops[i] is JumpBackward {
        lemma_matched_close_is_unique(ops, open_i, i, j);
    }
    if matched(ops, i, j) {
        lemma_matched_open_is_unique(ops, i, open_j, j);
    }
}

/// The two brackets of a loop carry the same number.
pub proof fn lemma_matched_brackets_share_label(ops: Seq<IR>, open: int, close: int)
    requires
        matched(ops, open, close),
    ensures
        label_at(ops, close) == label_at(ops, open),
{
    lemma_matched_open_is_unique(ops, open, matching_open(ops, close), close);
}

/// Of two loops, one within the other, the inner one gets the higher number, and its
/// closing bracket comes first: the number given last is the first to be used up.
pub proof fn lemma_inner_loop_is_resolved_first(
    ops: Seq<IR>,
    outer_open: int,
    outer_close: int,
    inner_open: int,
    inner_close: int,
)
    requires
        matched(ops, outer_open, outer_close),
        matched(ops, inner_open, inner_close),
        outer_open < inner_open < outer_close,
    ensures
        label_at(ops, outer_open) < label_at(ops, inner_open),
        label_at(ops, inner_close) == label_at(ops, inner_open),
        label_at(ops, outer_close) == label_at(ops, outer_open),
        inner_close < outer_close,
{
    lemma_inner_loop_closes_first(ops, outer_open, outer_close, inner_open, inner_close);
    lemma_matched_brackets_share_label(ops, outer_open, outer_close);
    lemma_matched_brackets_share_label(ops, inner_open, inner_close);
}

/// Every loop of a well-nested sequence has one pair of brackets and one number: the
/// closing bracket carries the number of the opening one, and no other bracket does.
pub proof fn lemma_one_label_pair_per_loop(ops: Seq<IR>, open: int)
    requires
        well_nested(ops),
        0 <= open < ops.len(),
        ops[open] is JumpForward,
    ensures
        matched(ops, open, matching_close(ops, open)),
        label_at(ops, matching_close(ops, open)) == label_at(ops, open),
        forall|k: int|
            0 <= k < ops.len() && is_bracket(#[trigger] ops[k]) && k != open && k != matching_close(
                ops,
                open,
            ) ==> label_at(ops, k) != label_at(ops, open),
{
    let close = matching_close(ops, open);
    lemma_open_has_close(ops, open);
    lemma_matched_brackets_share_label(ops, open, close);
    assert forall|k: int|
        0 <= k < ops.len() && is_bracket(#[trigger] ops[k]) && k != open && k
            != close implies label_at(ops, k) != label_at(ops, open) by {
        if k < open {
            lemma_labels_pair_up(ops, k, open);
        } else {
            lemma_labels_pair_up(ops, open, k);
            if matched(ops, open, k) {
                lemma_matched_close_is_unique(ops, open, k, close);
            }
        }
    }
}

/// Loops with different numbers have different label names, and no label at the top
/// of a loop has the name of a label behind one.
pub proof fn lemma_label_names_differ(a: nat, b: nat)
    ensures
        a != b ==> loop_start_name(a) != loop_start_name(b),
        a != b ==> loop_end_name(a) != loop_end_name(b),
        loop_start_name(a) != loop_end_name(b),
{
    reveal_strlit("loop_start_");
    reveal_strlit("loop_end_");
    assert(loop_start_name(a)[5] == 's');
    assert(loop_end_name(b)[5] == 'e');
    if a != b {
        if loop_start_name(a) == loop_start_name(b) {
            assert(loop_start_name(a).skip(LOOP_START@.len() as int) =~= decimal(a));
            assert(loop_start_name(b).skip(LOOP_START@.len() as int) =~= decimal(b));
            lemma_decimal_injective(a, b);
        }
        if loop_end_name(a) == loop_end_name(b) {
            assert(loop_end_name(a).skip(LOOP_END@.len() as int) =~= decimal(a));
            assert(loop_end_name(b).skip(LOOP_END@.len() as int) =~= decimal(b));
            lemma_decimal_injective(a, b);
        }
    }
}

/// The loop opened at `open` is still open after `until` operations, with `level`
/// loops open around it.
spec fn still_open(ops: Seq<IR>, until: int, open: int, level: int) -> bool {
    &&& 0 <= open < until
    &&& ops[open] is JumpForward
    &&& depth(ops, open) == level
    &&& forall|k: int| open < k <= until ==> #[trigger] depth(ops, k) > level
}

/// The stack of labels holds, from the outermost to the innermost, the numbers of the
/// loops that are open after `until` operations; `opens` are their positions.
spec fn tracks_open_loops(ops: Seq<IR>, until: int, opens: Seq<int>, labels: Seq<usize>) -> bool {
    &&& 0 <= until <= ops.len()
    &&& opens.len() == labels.len()
    &&& depth(ops, until) == opens.len()
    &&& forall|k: int| 0 <= k <= until ==> #[trigger] depth(ops, k) >= 0
    &&& forall|t: int| 0 <= t < opens.len() ==> #[trigger] still_open(ops, until, opens[t], t)
    &&& forall|t: int|
        0 <= t < opens.len() ==> #[trigger] labels[t] == loops_opened(ops, opens[t])
}

/// An operation that is no bracket leaves the open loops as they are.
proof fn lemma_track_plain(ops: Seq<IR>, i: int, opens: Seq<int>, labels: Seq<usize>)
    requires
        tracks_open_loops(ops, i, opens, labels),
        i < ops.len(),
        !(ops[i] is JumpForward),
        !(ops[i] is JumpBackward),
    ensures
        tracks_open_loops(ops, i + 1, opens, labels),
{
    assert(depth(ops, i + 1) == depth(ops, i));
    assert forall|t: int| 0 <= t < opens.len() implies #[trigger] still_open(
        ops,
        i + 1,
        opens[t],
        t,
    ) by {
        assert(still_open(ops, i, opens[t], t));
    }
}

/// An opening bracket adds its loop as the innermost open one.
proof fn lemma_track_open(ops: Seq<IR>, i: int, opens: Seq<int>, labels: Seq<usize>, label: usize)
    requires
        tracks_open_loops(ops, i, opens, labels),
        i < ops.len(),
        ops[i] is JumpForward,
        label == loops_opened(ops, i),
    ensures
        tracks_open_loops(ops, i + 1, opens.push(i), labels.push(label)),
{
    assert(depth(ops, i + 1) == depth(ops, i) + 1);
    let opens2 = opens.push(i);
    assert forall|t: int| 0 <= t < opens2.len() implies #[trigger] still_open(
        ops,
        i + 1,
        opens2[t],
        t,
    ) by {
        if t < opens.len() {
            assert(still_open(ops, i, opens[t], t));
        }
    }
}

/// A closing bracket closes the innermost open loop, if there is one.
proof fn lemma_track_close(ops: Seq<IR>, i: int, opens: Seq<int>, labels: Seq<usize>)
    requires
        tracks_open_loops(ops, i, opens, labels),
        i < ops.len(),
        ops[i] is JumpBackward,
        opens.len() > 0,
    ensures
        tracks_open_loops(ops, i + 1, opens.drop_last(), labels.drop_last()),
        matched(ops, opens.last(), i),
        label_at(ops, i) == labels.last(),
{
    assert(depth(ops, i + 1) == depth(ops, i) - 1);
    let top = opens.len() - 1;
    assert(still_open(ops, i, opens[top], top));
    assert(matched(ops, opens.last(), i));
    lemma_matched_open_is_unique(ops, opens.last(), matching_open(ops, i), i);
    assert(labels[top] == loops_opened(ops, opens[top]));
    let opens2 = opens.drop_last();
    assert forall|t: int| 0 <= t < opens2.len() implies #[trigger] still_open(
        ops,
        i + 1,
        opens2[t],
        t,
    ) by {
        assert(still_open(ops, i, opens[t], t));
    }
    assert forall|t: int| 0 <= t < opens2.len() implies #[trigger] labels.drop_last()[t]
        == loops_opened(ops, opens2[t]) by {
        assert(labels[t] == loops_opened(ops, opens[t]));
    }
}

/// Appends a line that begins with `start` and ends with the number `n`.
fn push_counted_line(out: &mut String, start: &str, n: usize)
    ensures
        final(out)@ == old(out)@ + counted_line(start@, n as nat),
{
    out.append(start);
    push_decimal(out, n);
    out.append(LINE_END);
    assert(out@ =~= old(out)@ + counted_line(start@, n as nat));
}

/// Appends the text that opens the loop with the number `label`.
fn push_loop_open(out: &mut String, label: usize)
    ensures
        final(out)@ == old(out)@ + loop_open_text(label as nat),
{
    out.append(JUMP_IF_ZERO);
    out.append(LOOP_END);
    push_decimal(out, label);
    out.append(LINE_END);
    out.append(INDENT);
    out.append(LOOP_START);
    push_decimal(out, label);
    out.append(LABEL_END);
    assert(out@ =~= old(out)@ + loop_open_text(label as nat));
}

/// Appends the text that closes the loop with the number `label`.
fn push_loop_close(out: &mut String, label: usize)
    ensures
        final(out)@ == old(out)@ + loop_close_text(label as nat),
{
    out.append(JUMP_IF_NOT_ZERO);
    out.append(LOOP_START);
    push_decimal(out, label);
    out.append(LINE_END);
    out.append(INDENT);
    out.append(LOOP_END);
    push_decimal(out, label);
    out.append(LABEL_END);
    assert(out@ =~= old(out)@ + loop_close_text(label as nat));
}

/// Makes the assembly text for `ir`.
///
/// The text is the prologue, the text of each operation in order, and the epilogue.
/// Loops are numbered in the order in which they are opened, and a stack of the open
/// loops gives each closing bracket the number of the innermost loop still open.
///
/// No text is made where the loops are not well nested: a bracket that closes a loop
/// which is not open stops the work at once, and a loop left open is found at the end.
pub fn generate_assembly(ir: Vec<IR>) -> (res: Result<String, CodegenError>)
    ensures
        res is Ok <==> well_nested(ir@),
        res is Ok ==> res->Ok_0@ == assembly(ir@),
        res == Err::<String, CodegenError>(CodegenError::UnmatchedLoopClose) <==> closes_unopened(
            ir@,
        ),
        res == Err::<String, CodegenError>(CodegenError::UnmatchedLoopOpen) <==> !closes_unopened(
            ir@,
        ) && leaves_open(ir@),
{
    let mut assembly_code = String::new();
    let mut label_counter: usize = 0;
    let mut loop_stack: Vec<usize> = Vec::new();
    let ghost mut opens: Seq<int> = Seq::empty();

    assembly_code.append(PROLOGUE);
    assert(assembly_code@ =~= PROLOGUE@ + body(ir@, 0));

    let mut i: usize = 0;
    while i < ir.len()
        invariant
            i <= ir.len(),
            assembly_code@ == PROLOGUE@ + body(ir@, i as int),
            label_counter == loops_opened(ir@, i as int),
            label_counter <= i,
            tracks_open_loops(ir@, i as int, opens, loop_stack@),
        decreases ir.len() - i,
    {
        let ghost before = assembly_code@;
        match ir[i] {
            IR::MovePointerRight(steps) => {
                push_counted_line(&mut assembly_code, MOVE_RIGHT, steps);
                proof {
                    lemma_track_plain(ir@, i as int, opens, loop_stack@);
                }
            },
            IR::MovePointerLeft(steps) => {
                push_counted_line(&mut assembly_code, MOVE_LEFT, steps);
                proof {
                    lemma_track_plain(ir@, i as int, opens, loop_stack@);
                }
            },
            IR::Increment(inc) => {
                push_counted_line(&mut assembly_code, ADD_TO_CELL, inc);
                proof {
                    lemma_track_plain(ir@, i as int, opens, loop_stack@);
                }
            },
            IR::Decrement(dec) => {
                push_counted_line(&mut assembly_code, SUBTRACT_FROM_CELL, dec);
                proof {
                    lemma_track_plain(ir@, i as int, opens, loop_stack@);
                }
            },
            IR::Output => {
                assembly_code.append(WRITE_CELL);
                proof {
                    lemma_track_plain(ir@, i as int, opens, loop_stack@);
                }
            },
            IR::Input => {
                assembly_code.append(READ_CELL);
                proof {
                    lemma_track_plain(ir@, i as int, opens, loop_stack@);
                }
            },
            IR::JumpForward => {
                let label = label_counter;
                proof {
                    lemma_track_open(ir@, i as int, opens, loop_stack@, label);
                    opens = opens.push(i as int);
                }
                loop_stack.push(label);
                push_loop_open(&mut assembly_code, label);
                label_counter += 1;
            },
            IR::JumpBackward => {
                match loop_stack.pop() {
                    Some(label) => {
                        proof {
                            lemma_track_close(ir@, i as int, opens, loop_stack@.push(label));
                            opens = opens.drop_last();
                        }
                        push_loop_close(&mut assembly_code, label);
                    },
                    None => {
                        proof {
                            assert(depth(ir@, i + 1) < 0);
                        }
                        return Err(CodegenError::UnmatchedLoopClose);
                    },
                }
            },
        }
        proof {
            assert(assembly_code@ == before + emission(ir@[i as int], label_at(ir@, i as int)));
            assert(PROLOGUE@ + body(ir@, i as int) + emission(
                ir@[i as int],
                label_at(ir@, i as int),
            ) =~= PROLOGUE@ + body(ir@, i + 1));
        }
        i += 1;
    }

    if loop_stack.len() > 0 {
        return Err(CodegenError::UnmatchedLoopOpen);
    }
    assembly_code.append(EPILOGUE);
    Ok(assembly_code)
}

} // verus!
