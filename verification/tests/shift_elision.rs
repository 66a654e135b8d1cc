use nerve::optimized_command::OptimizedCommand;
use nerve::shift_elision::apply;

#[test]
fn pass_through_short_instruction_set() {
    let input = vec![OptimizedCommand::IncrementCell(1)];
    let expected_output = vec![OptimizedCommand::IncrementCell(1)];

    assert_eq!(expected_output, apply(input));
}

#[test]
fn pass_through_non_relevant_instruction_set() {
    let input = vec![
        OptimizedCommand::Output,
        OptimizedCommand::Output,
        OptimizedCommand::Output,
    ];
    let expected_output = vec![
        OptimizedCommand::Output,
        OptimizedCommand::Output,
        OptimizedCommand::Output,
    ];

    assert_eq!(expected_output, apply(input));
}

#[test]
fn equal_shift_of_one_increment_cell_by_one() {
    let input = vec![
        OptimizedCommand::IncrementPointer(1),
        OptimizedCommand::IncrementCell(1),
        OptimizedCommand::DecrementPointer(1),
    ];
    let expected_output = vec![OptimizedCommand::IncrementCellAtOffset(1, 1)];

    assert_eq!(expected_output, apply(input));
}

#[test]
fn in_middle_of_program() {
    let input = vec![
        OptimizedCommand::Output,
        OptimizedCommand::IncrementPointer(1),
        OptimizedCommand::IncrementCell(1),
        OptimizedCommand::DecrementPointer(1),
        OptimizedCommand::Output,
        OptimizedCommand::Output,
        OptimizedCommand::Output,
    ];
    let expected_output = vec![
        OptimizedCommand::Output,
        OptimizedCommand::IncrementCellAtOffset(1, 1),
        OptimizedCommand::Output,
        OptimizedCommand::Output,
        OptimizedCommand::Output,
    ];

    assert_eq!(expected_output, apply(input));
}

#[test]
fn near_end_of_program() {
    let input = vec![
        OptimizedCommand::Output,
        OptimizedCommand::IncrementPointer(1),
        OptimizedCommand::IncrementCell(1),
        OptimizedCommand::DecrementPointer(1),
        OptimizedCommand::Output,
    ];
    let expected_output = vec![
        OptimizedCommand::Output,
        OptimizedCommand::IncrementCellAtOffset(1, 1),
        OptimizedCommand::Output,
    ];

    assert_eq!(expected_output, apply(input));
}

#[test]
fn equal_shift_of_one_increment_cell_by_two() {
    let input = vec![
        OptimizedCommand::IncrementPointer(1),
        OptimizedCommand::IncrementCell(2),
        OptimizedCommand::DecrementPointer(1),
    ];
    let expected_output = vec![OptimizedCommand::IncrementCellAtOffset(1, 2)];

    assert_eq!(expected_output, apply(input));
}

#[test]
fn equal_shift_of_two_increment_cell_by_one() {
    let input = vec![
        OptimizedCommand::IncrementPointer(2),
        OptimizedCommand::IncrementCell(1),
        OptimizedCommand::DecrementPointer(2),
    ];
    let expected_output = vec![OptimizedCommand::IncrementCellAtOffset(2, 1)];

    assert_eq!(expected_output, apply(input));
}

#[test]
fn net_positive_shift() {
    let input = vec![
        OptimizedCommand::IncrementPointer(3),
        OptimizedCommand::IncrementCell(1),
        OptimizedCommand::DecrementPointer(2),
    ];
    let expected_output = vec![
        OptimizedCommand::IncrementCellAtOffset(3, 1),
        OptimizedCommand::IncrementPointer(1),
    ];

    assert_eq!(expected_output, apply(input));
}

#[test]
fn net_negative_shift() {
    let input = vec![
        OptimizedCommand::IncrementPointer(2),
        OptimizedCommand::IncrementCell(1),
        OptimizedCommand::DecrementPointer(3),
    ];
    let expected_output = vec![
        OptimizedCommand::IncrementCellAtOffset(2, 1),
        OptimizedCommand::DecrementPointer(1),
    ];

    assert_eq!(expected_output, apply(input));
}
