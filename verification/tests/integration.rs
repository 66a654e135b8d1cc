//! End-to-end programs, run against the verified reference interpreter
//! over the optimized tree.

use nerve::command::parse;
use nerve::compile;
use nerve::optimized_command::optimize;
use nerve::semantics::run_program;

const TAPE: usize = 30000;

fn run(source_code: &str, input: &str) -> String {
    let tree = parse(source_code.as_bytes().to_vec()).unwrap();
    let optimized = optimize(&tree);
    let fin = run_program(&optimized, TAPE, input.as_bytes().to_vec(), 100_000).unwrap();
    String::from_utf8(fin.output).unwrap()
}

#[test]
fn output_a() {
    let source_code = "+++++++++++++++++++++++++++++++++++++++++++++++++++++++++++++++++.";
    assert!(compile(source_code.as_bytes().to_vec()).is_ok());

    let input = "";
    let expected_output = "A";
    assert_eq!(run(source_code, input), expected_output);
}

#[test]
fn single_loop() {
    let source_code = "+[-]";
    assert!(compile(source_code.as_bytes().to_vec()).is_ok());

    let input = "";
    let expected_output = "";
    assert_eq!(run(source_code, input), expected_output);
}

#[test]
fn multiple_loops() {
    let source_code = "+[-]>++[-]";
    assert!(compile(source_code.as_bytes().to_vec()).is_ok());

    let input = "";
    let expected_output = "";
    assert_eq!(run(source_code, input), expected_output);
}

#[test]
fn hello_world() {
    let source_code = "++++++++[>++++[>++>+++>+++>+<<<<-]>+>->+>>+[<]<-]>>.>>---.+++++++..+++.>.<<-.>.+++.------.--------.>+.>++.";
    assert!(compile(source_code.as_bytes().to_vec()).is_ok());

    let input = "";
    let expected_output = "Hello World!\n";
    assert_eq!(run(source_code, input), expected_output);
}

#[test]
fn reverse_input() {
    let source_code = ">,[>,]<[.<]";
    assert!(compile(source_code.as_bytes().to_vec()).is_ok());

    let input = "12345";
    let expected_output = "54321";
    assert_eq!(run(source_code, input), expected_output);
}
