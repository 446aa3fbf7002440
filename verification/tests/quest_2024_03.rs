use algorithmia::quests::quest_2024_03::{blocks_count, make_area, next_area, Q2024_3};
use algorithmia::quests::{QuestError, Solution};

#[test]
fn quest2024_3_case() {
    let input = "..........
..###.##..
...####...
..######..
..######..
...####...
..........";
    let quest = Q2024_3;
    assert_eq!(quest.part_one(input).unwrap(), "35");
    assert_eq!(quest.part_three(input).unwrap(), "29");
}

#[test]
fn earth_is_dug_level_by_level() {
    let sides = [(1, 0), (-1, 0), (0, 1), (0, -1)];
    assert_eq!(blocks_count("", &sides), Ok(0));
    assert_eq!(blocks_count("...", &sides), Ok(0));
    assert_eq!(blocks_count("#", &sides), Ok(1));
    assert_eq!(blocks_count("###\n###\n###", &sides), Ok(10));
    assert_eq!(blocks_count("###\n###\n###", &[(0, 1)]), Ok(18));
    let area = make_area("#.\n##");
    assert_eq!(area, vec![vec![true, false], vec![true, true]]);
    assert_eq!(next_area(&area, &[(1, 0)]), vec![vec![true, false], vec![false, false]]);
}

#[test]
fn digging_that_never_ends_is_refused() {
    assert_eq!(blocks_count("#", &[]), Err(QuestError::ResourceExhaustion));
    assert_eq!(blocks_count("##", &[(0, 0)]), Err(QuestError::ResourceExhaustion));
    assert_eq!(blocks_count("..", &[]), Ok(0));
}
