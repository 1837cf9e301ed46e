use puzzles::captcha::{sum_similar_to_next, sum_similar_to_halfway};
use puzzles::jumps::{execute, iteration};
use puzzles::registers::{CompOperation, Op, Operation, Program, Registers};
use puzzles::spiral::{Cell, Grid, Position};
use puzzles::spreadsheet::{check_sum, compute, find_best};
use puzzles::stream::State;

#[test]
fn test_count_next() {
    assert_eq!(sum_similar_to_next(&[1, 1, 2, 2]), 3);
    assert_eq!(sum_similar_to_next(&[1, 1, 1, 1]), 4);
    assert_eq!(sum_similar_to_next(&[1, 2, 3, 4]), 0);
    assert_eq!(sum_similar_to_next(&[9, 1, 2, 1, 2, 1, 2, 9]), 9);
}

#[test]
fn test_count_halfway() {
    assert_eq!(sum_similar_to_halfway(&[1, 2, 1, 2]), 6);
    assert_eq!(sum_similar_to_halfway(&[1, 2, 2, 1]), 0);
    assert_eq!(sum_similar_to_halfway(&[1, 2, 3, 4, 2, 5]), 4);
    assert_eq!(sum_similar_to_halfway(&[1, 2, 3, 1, 2, 3]), 12);
    assert_eq!(sum_similar_to_halfway(&[1, 2, 1, 3, 1, 4, 1, 5]), 4);
}

#[test]
fn test_check_sum() {
    assert_eq!(check_sum(&[vec![5, 1, 9, 5]]), 8);
    assert_eq!(check_sum(&[vec![7, 5, 3]]), 4);
    assert_eq!(check_sum(&[vec![2, 4, 6, 8]]), 6);
    assert_eq!(check_sum(&[vec![5, 1, 9, 5], vec![7, 5, 3], vec![2, 4, 6, 8]]), 18);
}

#[test]
fn test_find_best() {
    assert_eq!(find_best(&[5, 9, 2, 8]).unwrap(), (8, 2));
    assert_eq!(find_best(&[9, 4, 7, 3]).unwrap(), (9, 3));
    assert_eq!(find_best(&[3, 8, 6, 5]).unwrap(), (6, 3));
    assert_eq!(find_best(&[3, 7, 5]), None);
}

#[test]
fn test_compute() {
    assert_eq!(compute(&[vec![5, 9, 2, 8]]), 4);
    assert_eq!(compute(&[vec![9, 4, 7, 3]]), 3);
    assert_eq!(compute(&[vec![3, 8, 6, 5]]), 2);
    assert_eq!(compute(&[vec![5, 9, 2, 8], vec![9, 4, 7, 3], vec![3, 8, 6, 5]]), 9);
}

#[test]
fn test_adjacent() {
    assert!(Position::new(0, 0).adjacent(&Position::new(0, 0)));
    assert!(Position::new(0, 0).adjacent(&Position::new(0, 1)));
    assert!(Position::new(0, 0).adjacent(&Position::new(1, 0)));
    assert!(Position::new(0, 0).adjacent(&Position::new(0, -1)));
    assert!(Position::new(0, 0).adjacent(&Position::new(-1, 0)));
    assert!(Position::new(0, 0).adjacent(&Position::new(1, 1)));
    assert!(Position::new(0, 0).adjacent(&Position::new(-1, -1)));
    assert!(!Position::new(0, 0).adjacent(&Position::new(0, 2)));
}

#[test]
fn test_position_helpers() {
    assert_eq!(Position::new(3, -4).manhattan_distance(&Position::new(0, 0)), 7);
    assert_eq!(Position::new(2, 5).min(&Position::new(4, 1)), Position::new(2, 1));
    assert_eq!(Position::new(2, 5).max(&Position::new(4, 1)), Position::new(4, 5));
    assert_eq!(Position::up(), Position::new(0, 1));
    assert_eq!(Position::down(), Position::new(0, -1));
    assert_eq!(Position::left(), Position::new(-1, 0));
    assert_eq!(Position::right(), Position::new(1, 0));
}

#[test]
fn test_grid_empty_and_get() {
    let g = Grid::empty();
    assert_eq!(g.get(1), Some(Cell::new(Position::new(0, 0), 1)));
    assert_eq!(g.get(2), None);
    assert_eq!(g.size, Position::new(1, 1));
}

#[test]
fn test_iteration_q1() {
    let cases: &[(&[i32], i32, Option<i32>, Option<i32>)] = &[
        (&[0, 3, 0, 1, -3], 0, Some(0), Some(1)),
        (&[1, 3, 0, 1, -3], 0, Some(1), Some(2)),
        (&[2, 3, 0, 1, -3], 1, Some(4), Some(4)),
        (&[2, 4, 0, 1, -3], 4, Some(1), Some(-2)),
        (&[2, 4, 0, 1, -2], 1, Some(5), Some(5)),
        (&[2, 4, 0, 1, -2], 5, None, None),
    ];
    for (input, current, exp_next, new_value) in cases {
        let mut contents = input.to_vec();
        let rv = iteration(&mut contents, *current, None);
        assert_eq!(rv, *exp_next);
        if let Some(exp_value) = new_value {
            assert_eq!(contents[*current as usize], *exp_value);
        }
    }
}

#[test]
fn test_execute_q1() {
    assert_eq!(execute(&[0, 3, 0, 1, -3], None, 100), Some(5));
}

#[test]
fn test_execute_q2() {
    assert_eq!(execute(&[0, 3, 0, 1, -3], Some(3), 100), Some(10));
}

#[test]
fn test_execute_out_of_fuel() {
    assert_eq!(execute(&[0, 3, 0, 1, -3], None, 3), None);
}

#[test]
fn test_op_from_string() {
    assert_eq!(Op::from_string("nop"), Op::Nop);
    assert_eq!(Op::from_string("inc"), Op::Inc);
    assert_eq!(Op::from_string("dec"), Op::Dec);
    assert_eq!(Op::from_string(">"), Op::Gt);
    assert_eq!(Op::from_string(">="), Op::Ge);
    assert_eq!(Op::from_string("<"), Op::Lt);
    assert_eq!(Op::from_string("<="), Op::Le);
    assert_eq!(Op::from_string("=="), Op::Eq);
    assert_eq!(Op::from_string("!="), Op::Ne);
    assert_eq!(Op::from_string("whatever"), Op::Nop);
}

#[test]
fn test_operation_test_and_execute() {
    let mut regs = Registers::new();
    regs.set("a".to_string(), 3);
    let cmp = Operation { register: "a".to_string(), operation: Op::Ge, value: 3 };
    assert_eq!(cmp.test(&regs), Some(true));
    let cmp2 = Operation { register: "b".to_string(), operation: Op::Lt, value: 0 };
    assert_eq!(cmp2.test(&regs), Some(false));
    let nop = Operation::new_nop();
    assert_eq!(nop.test(&regs), None);
    let inc = Operation { register: "b".to_string(), operation: Op::Inc, value: 7 };
    assert_eq!(inc.execute(&mut regs, 4), 5);
    assert_eq!(regs.get(&"b".to_string()), 7);
    let dec = Operation { register: "a".to_string(), operation: Op::Dec, value: 1 };
    dec.execute(&mut regs, 0);
    assert_eq!(regs.get(&"a".to_string()), 2);
}

#[test]
fn test_comp_operation() {
    let mut regs = Registers::new();
    let mut op = CompOperation::new("x", Op::Inc, 2);
    // The fresh guard is a nop comparison: it blocks the move.
    assert_eq!(op.execute(&mut regs, 0), 1);
    assert_eq!(regs.get(&"x".to_string()), 0);
    op.comparison = Operation { register: "y".to_string(), operation: Op::Eq, value: 0 };
    assert_eq!(op.execute(&mut regs, 1), 2);
    assert_eq!(regs.get(&"x".to_string()), 2);
}

#[test]
fn test_program_new() {
    let p = Program::new();
    assert_eq!(p.code.len(), 0);
    assert_eq!(p.code_ptr, 0);
    assert_eq!(p.registers.entries.len(), 0);
}

#[test]
fn test_check_score() {
    let cases: &[(&str, usize, u32)] = &[
        ("<>", 0, 0),
        ("{{{}}}", 3, 6),
        ("{{},{}}", 3, 5),
        ("{{{},{},{{}}}}", 6, 16),
        ("{<a>,<a>,<a>,<a>}", 1, 1),
        ("{{<a>},{<a>},{<a>},{<a>}}", 5, 9),
        ("{{<!>},{<!>},{<!>},{<a>}}", 2, 3),
    ];
    for (input, exp_groups, exp_score) in cases {
        let mut state = State::new();
        state.read_stuff(input);
        assert_eq!(state.groups.len(), *exp_groups);
        assert_eq!(state.total_score(), *exp_score);
    }
}

#[test]
fn test_garbage_count() {
    let cases: &[(&str, usize)] = &[
        ("<>", 0),
        ("<random characters>", 17),
        ("<{!>}>", 2),
        ("<!!>", 0),
        ("<!!!>>", 0),
        ("<{o\"i!a,<{i<a>", 10),
    ];
    for (input, exp_count) in cases {
        let mut state = State::new();
        state.read_stuff(input);
        assert_eq!(state.char_in_garbage.len(), *exp_count);
    }
}

fn cell(x: i32, y: i32, value: u64) -> Cell {
    Cell::new(Position::new(x, y), value)
}

#[test]
fn test_grid_new() {
    let cases: &[(u32, &[Cell], Position)] = &[
        (1, &[cell(0, 0, 1)], Position { x: 1, y: 1 }),
        (2, &[cell(0, 0, 1), cell(1, 0, 1)], Position { x: 2, y: 1 }),
        (3, &[cell(0, 0, 1), cell(1, 0, 1), cell(1, 1, 2)], Position { x: 2, y: 2 }),
        (
            5,
            &[cell(0, 0, 1), cell(1, 0, 1), cell(1, 1, 2), cell(0, 1, 4), cell(-1, 1, 5)],
            Position { x: 3, y: 2 },
        ),
        (
            7,
            &[
                cell(0, 0, 1),
                cell(1, 0, 1),
                cell(1, 1, 2),
                cell(0, 1, 4),
                cell(-1, 1, 5),
                cell(-1, 0, 10),
                cell(-1, -1, 0),
            ],
            Position { x: 3, y: 3 },
        ),
        (
            8,
            &[
                cell(0, 0, 1),
                cell(1, 0, 1),
                cell(1, 1, 2),
                cell(0, 1, 4),
                cell(-1, 1, 5),
                cell(-1, 0, 10),
                cell(-1, -1, 0),
                cell(0, -1, 0),
            ],
            Position { x: 3, y: 3 },
        ),
    ];
    for (input, expected_grid, expected_size) in cases {
        let grid = Grid::new(*input);
        assert_eq!(grid.grid, *expected_grid);
        assert_eq!(grid.size, *expected_size);
    }
}
