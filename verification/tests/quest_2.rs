use algorithmia::quests::quest_2::{split_input, Quest2};
use algorithmia::quests::QuestError;

#[test]
fn quest_2_quest2_case_1() {
    let mut q = Quest2::with_inputs(vec![r"WORDS:THE,OWE,MES,ROD,HER

AWAKEN THE POWER ADORNED WITH THE FLAMES BRIGHT IRE"
        .to_string()]);
    assert_eq!(q.part_one().unwrap(), "4");
}

#[test]
fn quest_2_quest2_case_2() {
    let mut q = Quest2::with_inputs(vec![
        "".to_string(),
        r"WORDS:THE,OWE,MES,ROD,HER,QAQ

AWAKEN THE POWE ADORNED WITH THE FLAMES BRIGHT IRE
THE FLAME SHIELDED THE HEART OF THE KINGS
POWE PO WER P OWE R
THERE IS THE END
QAQAQ"
            .to_string(),
    ]);
    assert_eq!(q.part_two().unwrap(), "42");
}

#[test]
fn quest_2_quest2_case_3() {
    let mut q = Quest2::with_inputs(vec![
        "".to_string(),
        "".to_string(),
        r"WORDS:THE,OWE,MES,ROD,RODEO

HELWORLT
ENIGWDXL
TRODEOAL"
            .to_string(),
    ]);
    assert_eq!(q.part_three().unwrap(), "10");
}

#[test]
fn lines_may_end_with_carriage_returns() {
    let lines = split_input("WORDS:THE\r\n\r\nTHE END\r\n");
    let texts: Vec<String> = lines.iter().map(|line| line.iter().collect()).collect();
    assert_eq!(texts, vec!["WORDS:THE", "THE END"]);
    let mut q = Quest2::with_inputs(vec!["WORDS:THE\r\n\r\nTHE END THE\r\n".to_string()]);
    assert_eq!(q.part_one().unwrap(), "2");
}

#[test]
fn parts_without_input_have_no_answer() {
    let mut q = Quest2::new();
    assert_eq!(q.part_one(), Err(QuestError::NoInput));
    assert_eq!(q.part_two(), Err(QuestError::NoInput));
    assert_eq!(q.part_three(), Err(QuestError::NoInput));
}
