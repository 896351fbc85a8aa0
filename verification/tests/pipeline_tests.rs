use bf_compiler::assembler::{generate_assembly, CodegenError};
use bf_compiler::compile;
use bf_compiler::ir::{generate_ir, IR};
use bf_compiler::tokenizer::tokenize;

const HEAD: &str = "\nformat elf64 executable 3\nentry start\n\nsegment readable writeable\n    mem rb 30000\n\nsegment executable\nstart:\n    mov rsi, mem\n";

const TAIL: &str = "\n    mov rax, 60\n    xor rdi, rdi\n    syscall\n";

fn count(text: &str, part: &str) -> usize {
    text.matches(part).count()
}

#[test]
fn scenario_three_increments() {
    let tokens = tokenize("+++");
    assert_eq!(tokens, vec!['+', '+', '+']);
    let ir = generate_ir(tokens);
    assert_eq!(ir, vec![IR::Increment(3)]);
    let text = generate_assembly(ir).unwrap();
    assert_eq!(text, format!("{}    add byte [rsi], 3\n{}", HEAD, TAIL));
    assert_eq!(count(&text, "add byte [rsi]"), 1);
    assert_eq!(count(&text, "add rsi"), 0);
    assert_eq!(count(&text, "sub"), 0);
}

#[test]
fn scenario_right_twice_left_twice() {
    let ir = generate_ir(tokenize(">><<"));
    assert_eq!(ir, vec![IR::MovePointerRight(2), IR::MovePointerLeft(2)]);
    let text = generate_assembly(ir).unwrap();
    assert_eq!(
        text,
        format!("{}    add rsi, 2\n    sub rsi, 2\n{}", HEAD, TAIL)
    );
}

#[test]
fn scenario_clear_loop() {
    let ir = generate_ir(tokenize("[-]"));
    assert_eq!(ir, vec![IR::JumpForward, IR::Decrement(1), IR::JumpBackward]);
    let text = generate_assembly(ir).unwrap();
    let body = "    cmp byte [rsi], 0\n    je loop_end_0\n    loop_start_0:\n    sub byte [rsi], 1\n    cmp byte [rsi], 0\n    jne loop_start_0\n    loop_end_0:\n";
    assert_eq!(text, format!("{}{}{}", HEAD, body, TAIL));
}

#[test]
fn scenario_read_then_write() {
    let ir = generate_ir(tokenize(",."));
    assert_eq!(ir, vec![IR::Input, IR::Output]);
    let text = generate_assembly(ir).unwrap();
    let body = "\n    mov rax, 0\n    mov rdi, 0\n    mov rdx, 1\n    ; rsi already points to buffer\n    syscall\n\n    mov rax, 1\n    mov rdi, 1\n    mov rdx, 1\n    ; rsi already points to buffer\n    syscall\n";
    assert_eq!(text, format!("{}{}{}", HEAD, body, TAIL));
    assert_eq!(count(&text, "add rsi"), 0);
    assert_eq!(count(&text, "sub rsi"), 0);
}

#[test]
fn compile_runs_the_three_stages() {
    let sources = ["", "+++", ">><<", "[-]", ",.", "++[>+++[>++<-]<-]>>.", "no symbols at all"];
    for source in sources {
        assert_eq!(
            compile(source),
            generate_assembly(generate_ir(tokenize(source)))
        );
    }
}

#[test]
fn compile_ignores_comments() {
    assert_eq!(compile("add three: + + +"), compile("+ + +"));
    assert_eq!(
        compile("+++ three"),
        Ok(format!("{}    add byte [rsi], 3\n{}", HEAD, TAIL))
    );
}

#[test]
fn compile_of_an_empty_source() {
    assert_eq!(compile(""), Ok(format!("{}{}", HEAD, TAIL)));
}

#[test]
fn compile_rejects_a_lone_close() {
    assert_eq!(compile("]"), Err(CodegenError::UnmatchedLoopClose));
    assert_eq!(compile("+[-]]"), Err(CodegenError::UnmatchedLoopClose));
}

#[test]
fn compile_rejects_a_lone_open() {
    assert_eq!(compile("["), Err(CodegenError::UnmatchedLoopOpen));
    assert_eq!(compile("[[-]"), Err(CodegenError::UnmatchedLoopOpen));
}

#[test]
fn compile_numbers_nested_loops_from_the_outside() {
    let text = compile("[>[-]<]").unwrap();
    let body = "    cmp byte [rsi], 0\n    je loop_end_0\n    loop_start_0:\n    add rsi, 1\n    cmp byte [rsi], 0\n    je loop_end_1\n    loop_start_1:\n    sub byte [rsi], 1\n    cmp byte [rsi], 0\n    jne loop_start_1\n    loop_end_1:\n    sub rsi, 1\n    cmp byte [rsi], 0\n    jne loop_start_0\n    loop_end_0:\n";
    assert_eq!(text, format!("{}{}{}", HEAD, body, TAIL));
}
