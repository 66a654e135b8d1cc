use nerve::codegen::emit_asm;
use nerve::command::parse;
use nerve::compile;
use nerve::error::CompilerError;
use nerve::optimized_command::{optimize, OptimizedCommand};
use nerve::semantics::run_program;

const TAPE: usize = 30000;

#[test]
fn empty_program_is_header_and_exit() {
    let empty: Vec<OptimizedCommand> = vec![];
    let text = emit_asm(&empty);
    assert_eq!(
        text,
        "section .bss\n\
         \tbuffer: resb 30000\n\n\
         section .text\n\
         \tglobal _start\n\n\
         _start:\n\
         \tmov R8, buffer\n\
         \tmov rdi, 0\n\
         \tmov rax, 60\n\
         \tsyscall"
    );
}

#[test]
fn add_65_and_print_compiles_and_outputs_a() {
    let mut source = vec![b'+'; 65];
    source.push(b'.');
    let tree = parse(source.clone()).unwrap();
    let optimized = optimize(&tree);
    assert_eq!(
        optimized,
        vec![OptimizedCommand::IncrementCell(65), OptimizedCommand::Output]
    );

    let text = compile(source).unwrap();
    assert!(text.contains("\tadd byte[R8], 65\n"));

    let fin = run_program(&optimized, TAPE, vec![], 100).unwrap();
    assert_eq!(fin.output, vec![65u8]);
}

#[test]
fn offset_program_text_is_exact() {
    let text = compile(b">+<.".to_vec()).unwrap();
    assert_eq!(
        text,
        "section .bss\n\
         \tbuffer: resb 30000\n\n\
         section .text\n\
         \tglobal _start\n\n\
         _start:\n\
         \tmov R8, buffer\n\
         \tadd byte[R8 + 1], 1\n\
         \tmov rdi, 1\n\
         \tmov rsi, R8\n\
         \tmov rdx, 1\n\
         \tmov rax, 1\n\
         \tsyscall\n\
         \tmov rdi, 0\n\
         \tmov rax, 60\n\
         \tsyscall"
    );
}

#[test]
fn multi_digit_counts_render_in_decimal() {
    let tree = parse(vec![b'>'; 12345]).unwrap();
    let text = emit_asm(&optimize(&tree));
    assert!(text.contains("\tadd R8, 12345\n"));
}

#[test]
fn offset_idiom_touches_only_the_neighbor_cell() {
    let tree = parse(b">+<".to_vec()).unwrap();
    let optimized = optimize(&tree);
    let fin = run_program(&optimized, 16, vec![], 10).unwrap();
    assert_eq!(fin.ptr, 0);
    assert_eq!(fin.output, vec![]);
    let mut expected_tape = vec![0u8; 16];
    expected_tape[1] = 1;
    assert_eq!(fin.tape, expected_tape);
}

#[test]
fn nested_loops_get_enclosing_distinct_labels() {
    let text = compile(b"+[[-]]".to_vec()).unwrap();
    let outer_start = text.find("\tloop_0_start:\n").unwrap();
    let inner_start = text.find("\tloop_1_start:\n").unwrap();
    let inner_end = text.find("\tloop_1_end:\n").unwrap();
    let outer_end = text.find("\tloop_0_end:\n").unwrap();
    assert!(outer_start < inner_start);
    assert!(inner_start < inner_end);
    assert!(inner_end < outer_end);
    assert!(!text.contains("loop_2"));
}

#[test]
fn sibling_loops_are_numbered_in_program_order() {
    let text = compile(b"+[-]>++[-]".to_vec()).unwrap();
    let first = text.find("\tloop_0_start:\n").unwrap();
    let second = text.find("\tloop_1_start:\n").unwrap();
    assert!(first < second);
    assert!(!text.contains("loop_2"));
}

#[test]
fn optimized_and_unit_count_programs_behave_alike() {
    // `++[>+++<-]>.` with every run left at count 1, as the plain tree
    // would be generated, next to the fully optimized form.
    let unit_counts = vec![
        OptimizedCommand::IncrementCell(1),
        OptimizedCommand::IncrementCell(1),
        OptimizedCommand::While(vec![
            OptimizedCommand::IncrementPointer(1),
            OptimizedCommand::IncrementCell(1),
            OptimizedCommand::IncrementCell(1),
            OptimizedCommand::IncrementCell(1),
            OptimizedCommand::DecrementPointer(1),
            OptimizedCommand::DecrementCell(1),
        ]),
        OptimizedCommand::IncrementPointer(1),
        OptimizedCommand::Output,
    ];
    let tree = parse(b"++[>+++<-]>.".to_vec()).unwrap();
    let optimized = optimize(&tree);

    let plain = run_program(&unit_counts, TAPE, vec![], 1000).unwrap();
    let fast = run_program(&optimized, TAPE, vec![], 1000).unwrap();
    assert_eq!(plain.output, fast.output);
    assert_eq!(plain.output, vec![6u8]);
    assert_eq!(plain.tape, fast.tape);
}

#[test]
fn cell_arithmetic_wraps_modulo_256() {
    let tree = parse(vec![b'+'; 300]).unwrap();
    let optimized = optimize(&tree);
    let fin = run_program(&optimized, 4, vec![], 10).unwrap();
    assert_eq!(fin.tape[0], 44);
}

#[test]
fn leaving_the_tape_has_no_defined_meaning() {
    let tree = parse(b"<".to_vec()).unwrap();
    assert!(run_program(&optimize(&tree), 8, vec![], 10).is_none());
}

#[test]
fn an_endless_loop_exhausts_the_fuel() {
    let tree = parse(b"+[]".to_vec()).unwrap();
    assert!(run_program(&optimize(&tree), 8, vec![], 1000).is_none());
}

#[test]
fn reading_past_end_of_input_keeps_the_cell() {
    let tree = parse(b"+++,.".to_vec()).unwrap();
    let optimized = optimize(&tree);
    let starved = run_program(&optimized, 8, vec![], 10).unwrap();
    assert_eq!(starved.output, vec![3u8]);
    let fed = run_program(&optimized, 8, vec![7u8], 10).unwrap();
    assert_eq!(fed.output, vec![7u8]);
}

#[test]
fn bytes_after_a_stray_close_fail_compilation() {
    assert_eq!(compile(b"]+".to_vec()), Err(CompilerError::UnmatchedBracket));
}

#[test]
fn io_nodes_emit_one_byte_syscalls() {
    let text = compile(b",.".to_vec()).unwrap();
    assert!(text.contains(
        "\tmov rdi, 0\n\tmov rsi, R8\n\tmov rdx, 1\n\tmov rax, 0\n\tsyscall\n"
    ));
    assert!(text.contains(
        "\tmov rdi, 1\n\tmov rsi, R8\n\tmov rdx, 1\n\tmov rax, 1\n\tsyscall\n"
    ));
}
