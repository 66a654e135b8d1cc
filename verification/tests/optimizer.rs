use nerve::command::parse;
use nerve::optimized_command::{optimize, OptimizedCommand};

#[test]
fn coalesces_a_run_into_one_counted_node() {
    let tree = parse(b"+++++".to_vec()).unwrap();
    assert_eq!(optimize(&tree), vec![OptimizedCommand::IncrementCell(5)]);
}

#[test]
fn never_merges_across_a_differing_kind() {
    let tree = parse(b"++.++".to_vec()).unwrap();
    assert_eq!(
        optimize(&tree),
        vec![
            OptimizedCommand::IncrementCell(2),
            OptimizedCommand::Output,
            OptimizedCommand::IncrementCell(2),
        ]
    );
}

#[test]
fn never_merges_across_a_loop() {
    let tree = parse(b">>[-]>>".to_vec()).unwrap();
    assert_eq!(
        optimize(&tree),
        vec![
            OptimizedCommand::IncrementPointer(2),
            OptimizedCommand::While(vec![OptimizedCommand::DecrementCell(1)]),
            OptimizedCommand::IncrementPointer(2),
        ]
    );
}

#[test]
fn counts_wider_than_one_byte() {
    let tree = parse(vec![b'+'; 300]).unwrap();
    assert_eq!(optimize(&tree), vec![OptimizedCommand::IncrementCell(300)]);
}

#[test]
fn offset_idiom_becomes_one_node() {
    let tree = parse(b">+<".to_vec()).unwrap();
    assert_eq!(
        optimize(&tree),
        vec![OptimizedCommand::IncrementCellAtOffset(1, 1)]
    );
}

#[test]
fn optimizes_inside_loop_bodies() {
    let tree = parse(b"[>+<]".to_vec()).unwrap();
    assert_eq!(
        optimize(&tree),
        vec![OptimizedCommand::While(vec![
            OptimizedCommand::IncrementCellAtOffset(1, 1),
        ])]
    );
}

#[test]
fn coalesces_all_four_unit_kinds() {
    let tree = parse(b"--<<>>".to_vec()).unwrap();
    assert_eq!(
        optimize(&tree),
        vec![
            OptimizedCommand::DecrementCell(2),
            OptimizedCommand::DecrementPointer(2),
            OptimizedCommand::IncrementPointer(2),
        ]
    );
}
