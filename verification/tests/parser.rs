use nerve::command::{parse, Command};
use nerve::error::CompilerError;

#[test]
fn parses_unit_symbols() {
    let tree = parse(b"+-><.,".to_vec()).unwrap();
    assert_eq!(
        tree,
        vec![
            Command::IncrementCell,
            Command::DecrementCell,
            Command::IncrementPointer,
            Command::DecrementPointer,
            Command::Output,
            Command::Input,
        ]
    );
}

#[test]
fn skips_comment_bytes() {
    let tree = parse(b"a+ b\nc".to_vec()).unwrap();
    assert_eq!(tree, vec![Command::IncrementCell]);
}

#[test]
fn parses_nested_loops() {
    let tree = parse(b"[[]]".to_vec()).unwrap();
    assert_eq!(tree, vec![Command::While(vec![Command::While(vec![])])]);
}

#[test]
fn stray_close_with_trailing_bytes_is_unmatched() {
    assert_eq!(
        parse(b"]+".to_vec()),
        Err(CompilerError::UnmatchedBracket)
    );
}

#[test]
fn close_as_last_byte_is_accepted() {
    // The block rule consumes a final stray `]` and leaves nothing
    // behind, so this parses; only bytes after a stray `]` fail.
    assert_eq!(parse(b"]".to_vec()), Ok(vec![]));
    assert_eq!(
        parse(b"[]]".to_vec()),
        Ok(vec![Command::While(vec![])])
    );
}

#[test]
fn unclosed_open_ends_at_end_of_input() {
    let tree = parse(b"[+".to_vec()).unwrap();
    assert_eq!(
        tree,
        vec![Command::While(vec![Command::IncrementCell])]
    );
}

#[test]
fn balanced_brackets_parse() {
    let tree = parse(b"++[--[+]>]<".to_vec()).unwrap();
    assert_eq!(
        tree,
        vec![
            Command::IncrementCell,
            Command::IncrementCell,
            Command::While(vec![
                Command::DecrementCell,
                Command::DecrementCell,
                Command::While(vec![Command::IncrementCell]),
                Command::IncrementPointer,
            ]),
            Command::DecrementPointer,
        ]
    );
}
