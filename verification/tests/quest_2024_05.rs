use algorithmia::quests::quest_2024_05::{
    calculate_output, comes_first, make_movements, parse, process_movement, transpose, Q2024_5,
};
use algorithmia::quests::{QuestError, Solution};

#[test]
fn quest2024_05_part1() {
    let input = "2 3 4 5
3 4 5 2
4 5 2 3
5 2 3 4";
    let mut data = parse(input).unwrap();
    assert_eq!(make_movements(&mut data, 10).unwrap(), "2323");
}

#[test]
fn quest2024_05_part3() {
    let input = "2 3 4 5
6 7 8 9";
    assert_eq!(Q2024_5.part_three(input).unwrap(), "6584");
}

#[test]
fn second_dance_ends_with_the_repeated_shout() {
    let input = "2 3 4 5
6 7 8 9";
    assert_eq!(Q2024_5.part_two(input).unwrap(), "50877075");
}

#[test]
fn single_row_cannot_dance() {
    assert_eq!(Q2024_5.part_one("2 3 4 5"), Err(QuestError::MalformedInput));
    assert_eq!(Q2024_5.part_one("2 x"), Err(QuestError::MalformedInput));
    assert_eq!(Q2024_5.part_one(""), Err(QuestError::MalformedInput));
}

#[test]
fn dancers_move_to_the_next_column() {
    let mut data = parse("2 3 4 5\n3 4 5 2\n4 5 2 3\n5 2 3 4").unwrap();
    assert_eq!(data, vec![vec![2, 3, 4, 5], vec![3, 4, 5, 2], vec![4, 5, 2, 3], vec![5, 2, 3, 4]]);
    assert_eq!(calculate_output(&data).unwrap(), "2345");
    process_movement(&mut data, 0).unwrap();
    assert_eq!(data, vec![vec![3, 4, 5], vec![3, 2, 4, 5, 2], vec![4, 5, 2, 3], vec![5, 2, 3, 4]]);
    assert_eq!(calculate_output(&data).unwrap(), "3345");
    process_movement(&mut data, 1).unwrap();
    assert_eq!(calculate_output(&data).unwrap(), "3245");
    process_movement(&mut data, 2).unwrap();
    assert_eq!(calculate_output(&data).unwrap(), "3255");
    process_movement(&mut data, 3).unwrap();
    assert_eq!(calculate_output(&data).unwrap(), "3252");
}

#[test]
fn dances_that_cannot_go_on() {
    let mut none: Vec<Vec<u64>> = Vec::new();
    assert_eq!(process_movement(&mut none, 0), Err(QuestError::MalformedInput));
    let mut zero = vec![vec![0, 1], vec![1, 1]];
    assert_eq!(process_movement(&mut zero, 0), Err(QuestError::MalformedInput));
    assert_eq!(zero, vec![vec![0, 1], vec![1, 1]]);
    let mut gap = vec![vec![1, 1], vec![]];
    assert_eq!(process_movement(&mut gap, 0), Err(QuestError::MalformedInput));
    assert_eq!(calculate_output(&gap), Err(QuestError::MalformedInput));
    let mut alone = vec![vec![3, 1, 2]];
    process_movement(&mut alone, 0).unwrap();
    assert_eq!(alone, vec![vec![1, 2, 3]]);
    assert_eq!(transpose(&vec![vec![1, 2, 3], vec![4]]), vec![vec![1, 4], vec![2, 0], vec![3, 0]]);
    assert_eq!(parse("1 2\n3 4 5"), Err(QuestError::MalformedInput));
    assert!(comes_first(&['1', '2'], &['2']));
    assert!(comes_first(&['1'], &['1', '0']));
    assert!(!comes_first(&['2'], &['1', '9']));
    assert!(!comes_first(&['2'], &['2']));
}
