use algorithmia::quests::quest_2024_06::{find_unique_path, parse, Q2024_6};
use algorithmia::quests::{QuestError, Solution};

const TREE: &str = "RR:A,B,C
A:D,E
B:F,@
C:G,H
D:@
E:@
F:@
G:@
H:@";

#[test]
fn the_fruit_at_a_length_of_its_own() {
    assert_eq!(Q2024_6.part_one(TREE).unwrap(), "RRB@");
    assert_eq!(Q2024_6.part_two(TREE).unwrap(), "RB@");
    assert_eq!(Q2024_6.part_three(TREE).unwrap(), "RB@");
}

#[test]
fn lines_of_one_branch_are_put_together() {
    let tree = parse("RR:A\nA:B\nRR:@,A\nA:@").unwrap();
    assert_eq!(tree.len(), 2);
    let path = find_unique_path(&tree).unwrap();
    let names: Vec<String> = path.iter().map(|name| name.iter().collect()).collect();
    assert_eq!(names, vec!["RR", "@"]);
}

#[test]
fn circles_and_dead_ends_lead_nowhere() {
    assert_eq!(Q2024_6.part_one("RR:A\nA:RR,B"), Err(QuestError::MalformedInput));
    assert_eq!(Q2024_6.part_one("RR:A,B\nA:@\nB:@"), Err(QuestError::MalformedInput));
    assert_eq!(Q2024_6.part_one("RR:A,A\nA:@").unwrap(), "RRA@");
    assert_eq!(Q2024_6.part_one("RR A"), Err(QuestError::MalformedInput));
    assert_eq!(Q2024_6.part_one(""), Err(QuestError::MalformedInput));
}

#[test]
fn of_several_lonely_fruits_the_nearest() {
    assert_eq!(Q2024_6.part_one("RR:A,@\nA:B\nB:@").unwrap(), "RR@");
}
