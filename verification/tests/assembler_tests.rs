use bf_compiler::assembler::{generate_assembly, CodegenError};
use bf_compiler::ir::IR;

const HEAD: &str = "\nformat elf64 executable 3\nentry start\n\nsegment readable writeable\n    mem rb 30000\n\nsegment executable\nstart:\n    mov rsi, mem\n";

const TAIL: &str = "\n    mov rax, 60\n    xor rdi, rdi\n    syscall\n";

const WRITE: &str = "\n    mov rax, 1\n    mov rdi, 1\n    mov rdx, 1\n    ; rsi already points to buffer\n    syscall\n";

const READ: &str = "\n    mov rax, 0\n    mov rdi, 0\n    mov rdx, 1\n    ; rsi already points to buffer\n    syscall\n";

fn open_text(label: usize) -> String {
    format!(
        "    cmp byte [rsi], 0\n    je loop_end_{}\n    loop_start_{}:\n",
        label, label
    )
}

fn close_text(label: usize) -> String {
    format!(
        "    cmp byte [rsi], 0\n    jne loop_start_{}\n    loop_end_{}:\n",
        label, label
    )
}

fn whole(body: &str) -> String {
    format!("{}{}{}", HEAD, body, TAIL)
}

fn count(text: &str, part: &str) -> usize {
    text.matches(part).count()
}

#[test]
fn no_operations_give_prologue_and_epilogue() {
    assert_eq!(generate_assembly(Vec::new()), Ok(whole("")));
}

#[test]
fn the_tape_has_thirty_thousand_bytes() {
    let text = generate_assembly(Vec::new()).unwrap();
    assert_eq!(count(&text, "    mem rb 30000\n"), 1);
    assert_eq!(count(&text, "    mov rsi, mem\n"), 1);
    assert!(text.ends_with("    mov rax, 60\n    xor rdi, rdi\n    syscall\n"));
}

#[test]
fn move_right_adds_to_the_index() {
    assert_eq!(
        generate_assembly(vec![IR::MovePointerRight(5)]),
        Ok(whole("    add rsi, 5\n"))
    );
}

#[test]
fn move_left_subtracts_from_the_index() {
    assert_eq!(
        generate_assembly(vec![IR::MovePointerLeft(12)]),
        Ok(whole("    sub rsi, 12\n"))
    );
}

#[test]
fn increment_adds_to_the_cell() {
    assert_eq!(
        generate_assembly(vec![IR::Increment(3)]),
        Ok(whole("    add byte [rsi], 3\n"))
    );
}

#[test]
fn decrement_subtracts_from_the_cell() {
    assert_eq!(
        generate_assembly(vec![IR::Decrement(200)]),
        Ok(whole("    sub byte [rsi], 200\n"))
    );
}

#[test]
fn output_writes_one_byte() {
    assert_eq!(generate_assembly(vec![IR::Output]), Ok(whole(WRITE)));
}

#[test]
fn input_reads_one_byte() {
    assert_eq!(generate_assembly(vec![IR::Input]), Ok(whole(READ)));
}

#[test]
fn counts_are_written_in_decimal() {
    let text = generate_assembly(vec![
        IR::MovePointerRight(0),
        IR::MovePointerLeft(10),
        IR::Increment(255),
        IR::Decrement(usize::MAX),
    ])
    .unwrap();
    let body = format!(
        "    add rsi, 0\n    sub rsi, 10\n    add byte [rsi], 255\n    sub byte [rsi], {}\n",
        usize::MAX
    );
    assert_eq!(text, whole(&body));
}

#[test]
fn a_loop_gets_one_number_for_both_labels() {
    let text =
        generate_assembly(vec![IR::JumpForward, IR::Decrement(1), IR::JumpBackward]).unwrap();
    let body = format!("{}    sub byte [rsi], 1\n{}", open_text(0), close_text(0));
    assert_eq!(text, whole(&body));
}

#[test]
fn loops_in_a_row_are_numbered_in_order() {
    let text = generate_assembly(vec![
        IR::JumpForward,
        IR::JumpBackward,
        IR::JumpForward,
        IR::JumpBackward,
        IR::JumpForward,
        IR::JumpBackward,
    ])
    .unwrap();
    let body = format!(
        "{}{}{}{}{}{}",
        open_text(0),
        close_text(0),
        open_text(1),
        close_text(1),
        open_text(2),
        close_text(2)
    );
    assert_eq!(text, whole(&body));
}

#[test]
fn an_inner_loop_is_numbered_later_and_closed_first() {
    let text = generate_assembly(vec![
        IR::JumpForward,
        IR::MovePointerRight(1),
        IR::JumpForward,
        IR::Decrement(1),
        IR::JumpBackward,
        IR::MovePointerLeft(1),
        IR::JumpBackward,
    ])
    .unwrap();
    let body = format!(
        "{}    add rsi, 1\n{}    sub byte [rsi], 1\n{}    sub rsi, 1\n{}",
        open_text(0),
        open_text(1),
        close_text(1),
        close_text(0)
    );
    assert_eq!(text, whole(&body));
    let inner_end = text.find("    loop_end_1:\n").unwrap();
    let outer_end = text.find("    loop_end_0:\n").unwrap();
    let inner_start = text.find("    loop_start_1:\n").unwrap();
    let outer_start = text.find("    loop_start_0:\n").unwrap();
    assert!(outer_start < inner_start);
    assert!(inner_start < inner_end);
    assert!(inner_end < outer_end);
}

#[test]
fn nested_and_following_loops_mix() {
    // [ [ ] [ [ ] ] ] [ ]
    let text = generate_assembly(vec![
        IR::JumpForward,
        IR::JumpForward,
        IR::JumpBackward,
        IR::JumpForward,
        IR::JumpForward,
        IR::JumpBackward,
        IR::JumpBackward,
        IR::JumpBackward,
        IR::JumpForward,
        IR::JumpBackward,
    ])
    .unwrap();
    let body = format!(
        "{}{}{}{}{}{}{}{}{}{}",
        open_text(0),
        open_text(1),
        close_text(1),
        open_text(2),
        open_text(3),
        close_text(3),
        close_text(2),
        close_text(0),
        open_text(4),
        close_text(4)
    );
    assert_eq!(text, whole(&body));
}

#[test]
fn every_loop_has_its_own_pair_of_labels() {
    let mut ir = Vec::new();
    for _ in 0..12 {
        ir.push(IR::JumpForward);
        ir.push(IR::JumpForward);
        ir.push(IR::Increment(1));
        ir.push(IR::JumpBackward);
        ir.push(IR::JumpBackward);
    }
    let text = generate_assembly(ir).unwrap();
    for label in 0..24 {
        assert_eq!(count(&text, &format!("    loop_start_{}:\n", label)), 1);
        assert_eq!(count(&text, &format!("    loop_end_{}:\n", label)), 1);
        assert_eq!(count(&text, &format!("    je loop_end_{}\n", label)), 1);
        assert_eq!(count(&text, &format!("    jne loop_start_{}\n", label)), 1);
    }
    assert_eq!(count(&text, "loop_start_24"), 0);
    assert_eq!(count(&text, "loop_end_24"), 0);
    assert_eq!(count(&text, ":\n"), 1 + 48);
}

#[test]
fn numbers_of_two_digits_are_written_in_full() {
    let mut ir = Vec::new();
    for _ in 0..11 {
        ir.push(IR::JumpForward);
    }
    for _ in 0..11 {
        ir.push(IR::JumpBackward);
    }
    let text = generate_assembly(ir).unwrap();
    let mut body = String::new();
    for label in 0..11 {
        body.push_str(&open_text(label));
    }
    for label in (0..11).rev() {
        body.push_str(&close_text(label));
    }
    assert_eq!(text, whole(&body));
}

#[test]
fn a_close_without_an_open_is_an_error() {
    assert_eq!(
        generate_assembly(vec![IR::JumpBackward]),
        Err(CodegenError::UnmatchedLoopClose)
    );
}

#[test]
fn a_close_too_many_is_an_error() {
    assert_eq!(
        generate_assembly(vec![
            IR::JumpForward,
            IR::JumpBackward,
            IR::JumpBackward,
            IR::Increment(1)
        ]),
        Err(CodegenError::UnmatchedLoopClose)
    );
}

#[test]
fn an_open_without_a_close_is_an_error() {
    assert_eq!(
        generate_assembly(vec![IR::JumpForward]),
        Err(CodegenError::UnmatchedLoopOpen)
    );
    assert_eq!(
        generate_assembly(vec![
            IR::JumpForward,
            IR::JumpForward,
            IR::Decrement(1),
            IR::JumpBackward
        ]),
        Err(CodegenError::UnmatchedLoopOpen)
    );
}

#[test]
fn a_close_before_its_open_is_an_unmatched_close() {
    assert_eq!(
        generate_assembly(vec![IR::JumpBackward, IR::JumpForward]),
        Err(CodegenError::UnmatchedLoopClose)
    );
}

#[test]
fn an_unmatched_close_wins_over_an_unmatched_open() {
    assert_eq!(
        generate_assembly(vec![
            IR::JumpForward,
            IR::JumpForward,
            IR::JumpBackward,
            IR::JumpBackward,
            IR::JumpBackward,
            IR::JumpForward
        ]),
        Err(CodegenError::UnmatchedLoopClose)
    );
}

#[test]
fn the_errors_have_messages_of_their_own() {
    let close = CodegenError::UnmatchedLoopClose.message();
    let open = CodegenError::UnmatchedLoopOpen.message();
    assert_eq!(close, "unmatched `]`: no loop is open here");
    assert_eq!(open, "unmatched `[`: a loop is never closed");
    assert_ne!(close, open);
}

#[test]
fn generate_assembly_is_reachable_from_the_crate_root() {
    assert_eq!(
        bf_compiler::generate_assembly(vec![bf_compiler::IR::JumpBackward]),
        Err(bf_compiler::CodegenError::UnmatchedLoopClose)
    );
}
