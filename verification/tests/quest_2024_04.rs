use algorithmia::quests::quest_2024_04::{
    get_min_bidirectional_strikes, get_min_strikes, parse, Q2024_4,
};
use algorithmia::quests::{QuestError, Solution};

#[test]
fn quest2024_4_part1() {
    let result = get_min_strikes(&[3, 4, 7, 8]).unwrap();
    assert_eq!(result, 10);
}

#[test]
fn quest2024_4_part3() {
    let result = get_min_bidirectional_strikes(&[2, 4, 5, 6, 8]).unwrap();
    assert_eq!(result, 8);
}

#[test]
fn nails_without_work() {
    assert_eq!(get_min_strikes(&[]), Ok(0));
    assert_eq!(get_min_bidirectional_strikes(&[]), Ok(0));
    assert_eq!(get_min_strikes(&[5]), Ok(0));
    assert_eq!(get_min_bidirectional_strikes(&[5, 5, 5]), Ok(0));
}

#[test]
fn strikes_beyond_counting() {
    let nails = [0, u64::MAX, u64::MAX];
    assert_eq!(get_min_strikes(&nails), Err(QuestError::ResourceExhaustion));
    assert_eq!(get_min_bidirectional_strikes(&nails), Ok(u64::MAX));
    let nails = [0, 0, u64::MAX, u64::MAX];
    assert_eq!(get_min_bidirectional_strikes(&nails), Err(QuestError::ResourceExhaustion));
}

#[test]
fn heights_are_read_line_by_line() {
    assert_eq!(parse(" 3 \n\n4\n+7\n8\n"), Ok(vec![3, 4, 7, 8]));
    assert_eq!(parse(""), Ok(Vec::new()));
    assert_eq!(parse("3\nfour"), Err(QuestError::MalformedInput));
    assert_eq!(parse("3 4"), Err(QuestError::MalformedInput));
    assert_eq!(parse("18446744073709551616"), Err(QuestError::MalformedInput));
    assert_eq!(Q2024_4.part_one("3\n4\n7\n8").unwrap(), "10");
    assert_eq!(Q2024_4.part_two("3\n4\n7\n8").unwrap(), "10");
    assert_eq!(Q2024_4.part_three("2\n4\n5\n6\n8").unwrap(), "8");
    assert_eq!(Q2024_4.part_three("2\nx"), Err(QuestError::MalformedInput));
}
