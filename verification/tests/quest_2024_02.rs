use algorithmia::common::Direction;
use algorithmia::quests::quest_2024_02::{
    scales_count, split_words, symbols_count, traverse, words_count, Q2024_2,
};
use algorithmia::quests::{QuestError, Solution};

fn chars(text: &str) -> Vec<char> {
    text.chars().collect()
}

#[test]
fn quest_2024_02_quest2_case_1() {
    let input = r"WORDS:THE,OWE,MES,ROD,HER

AWAKEN THE POWER ADORNED WITH THE FLAMES BRIGHT IRE";
    assert_eq!(Q2024_2.part_one(input).unwrap(), "4");
}

#[test]
fn quest_2024_02_quest2_case_2() {
    let input = r"WORDS:THE,OWE,MES,ROD,HER,QAQ

AWAKEN THE POWE ADORNED WITH THE FLAMES BRIGHT IRE
THE FLAME SHIELDED THE HEART OF THE KINGS
POWE PO WER P OWE R
THERE IS THE END
QAQAQ";
    assert_eq!(Q2024_2.part_two(input).unwrap(), "42");
}

#[test]
fn quest_2024_02_quest2_case_3() {
    let input = r"WORDS:THE,OWE,MES,ROD,RODEO

HELWORLT
ENIGWDXL
TRODEOAL";
    assert_eq!(Q2024_2.part_three(input).unwrap(), "10");
}

#[test]
fn words_are_counted_and_marked() {
    let words = split_words(&chars("WORDS:THE,HER")).unwrap();
    assert_eq!(words, vec![chars("THE"), chars("HER")]);
    assert_eq!(split_words(&chars("WORDS THE")), Err(QuestError::MalformedInput));
    assert_eq!(words_count(&chars("W:THE,HER"), &chars("THERE IS THE END")), Ok(3));
    assert_eq!(words_count(&chars("W:"), &chars("abc")), Ok(4));
    assert_eq!(symbols_count(&words, &chars("THERE IS THE END")), Ok(7));
    assert_eq!(symbols_count(&words, &chars("EHT")), Ok(3));
    assert_eq!(symbols_count(&vec![chars("\u{e9}")], &chars("x\u{e9}x")), Ok(2));
    assert_eq!(symbols_count(&Vec::new(), &chars("THE")), Ok(0));
}

#[test]
fn words_are_read_in_rows_that_are_rings() {
    let matrix = vec![chars("HELWORLT"), chars("ENIGWDXL"), chars("TRODEOAL")];
    let cells = traverse(&matrix, 0, 7, Direction::Right, &chars("THE")).unwrap();
    assert_eq!(cells, vec![(0, 7), (0, 0), (0, 1)]);
    let cells = traverse(&matrix, 0, 1, Direction::Left, &chars("EHT")).unwrap();
    assert_eq!(cells, vec![(0, 1), (0, 0), (0, 7)]);
    assert_eq!(traverse(&matrix, 1, 0, Direction::Up, &chars("EHX")), None);
    assert_eq!(traverse(&matrix, 1, 0, Direction::Up, &chars("EH")).unwrap(), vec![(1, 0), (0, 0)]);
    assert_eq!(traverse(&matrix, 2, 0, Direction::Down, &chars("TX")), None);
    assert_eq!(traverse(&matrix, 2, 0, Direction::Down, &chars("")).unwrap(), Vec::new());
    assert_eq!(scales_count(&matrix, &vec![chars("THE")]), Ok(3));
    assert_eq!(scales_count(&Vec::new(), &vec![chars("THE")]), Ok(0));
}

#[test]
fn inputs_without_the_expected_lines() {
    assert_eq!(Q2024_2.part_one("WORDS:THE"), Err(QuestError::MalformedInput));
    assert_eq!(Q2024_2.part_one("WORDS THE\nTHE"), Err(QuestError::MalformedInput));
    assert_eq!(Q2024_2.part_one("W:THE\nTHE\nTHE"), Err(QuestError::MalformedInput));
    assert_eq!(Q2024_2.part_two("WORDS:THE"), Err(QuestError::MalformedInput));
    assert_eq!(Q2024_2.part_two(""), Err(QuestError::MalformedInput));
    assert_eq!(Q2024_2.part_three(""), Err(QuestError::MalformedInput));
    assert_eq!(Q2024_2.part_three("THE"), Err(QuestError::MalformedInput));
    assert_eq!(Q2024_2.part_three("W:THE").unwrap(), "0");
}
