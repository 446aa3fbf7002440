use algorithmia::quests::quest_1::{calculate_potion_amount, Q1};
use algorithmia::quests::Solution;

#[test]
fn creatures_alone() {
    assert_eq!(Q1.part_one("ABBAC").unwrap(), "5");
}

#[test]
fn creatures_in_pairs() {
    assert_eq!(Q1.part_two("AxBCDDCAxD").unwrap(), "28");
}

#[test]
fn creatures_in_threes() {
    assert_eq!(Q1.part_three("xBxAAABCDxCC").unwrap(), "30");
}

#[test]
fn groups_of_any_size() {
    assert_eq!(calculate_potion_amount("", 3).unwrap(), "0");
    assert_eq!(calculate_potion_amount("DD", 5).unwrap(), "12");
    assert_eq!(calculate_potion_amount("DDDD", 4).unwrap(), "20");
    assert_eq!(calculate_potion_amount("AAAB", 3).unwrap(), "7");
}
