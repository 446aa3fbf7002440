use algorithmia::common::strings::{reversed_str, TrimmedSplit};
use algorithmia::common::{Direction, Position2};
use algorithmia::quests::{QuestError, QuestFactory, QuestInputLoader};

#[test]
fn factory_knows_seven_quests() {
    let factory = QuestFactory;
    for number in 1..=7 {
        assert!(factory.quest(number).is_some());
    }
    assert!(factory.quest(8).is_none());
    let quest = factory.custom().unwrap();
    assert_eq!(quest.title, "Quest 2024 7: Not Fast but Furious");
    assert_eq!(
        quest.input_loader.source(0).unwrap(),
        "input/everybody_codes_e2024_q07_p1.txt"
    );
    assert_eq!(quest.solution.part_one("A:+\nB:-").unwrap(), "AB");
}

#[test]
fn loader_names_the_inputs() {
    let loader = QuestInputLoader::with_quest_date(2024, 12);
    assert_eq!(loader.source(2).unwrap(), "input/everybody_codes_e2024_q12_p3.txt");
    assert_eq!(loader.source(3), Err(QuestError::NoInput));
    let loader = QuestInputLoader::with_sources(&["a.txt".to_string()]);
    assert_eq!(loader.source(0).unwrap(), "a.txt");
    assert_eq!(loader.source(1), Err(QuestError::NoInput));
}

#[test]
fn common_helpers() {
    assert_eq!(reversed_str("abc"), "cba");
    assert_eq!(reversed_str(""), "");
    let lines = " one \n\n\ttwo\u{2003}\n   \n".trimmed_split();
    let texts: Vec<String> = lines.iter().map(|line| line.iter().collect()).collect();
    assert_eq!(texts, vec!["one", "two"]);
    let position = Position2::new(3, 4);
    assert_eq!((position.row, position.col), (3, 4));
    assert_eq!(
        Direction::all_clockwise(),
        [Direction::Right, Direction::Down, Direction::Left, Direction::Up]
    );
    assert_eq!(
        Direction::_all(),
        [Direction::Up, Direction::Down, Direction::Left, Direction::Right]
    );
}

#[test]
fn errors_say_what_went_wrong() {
    let errors = [
        QuestError::IoError,
        QuestError::NoInput,
        QuestError::MalformedInput,
        QuestError::PreconditionViolation,
        QuestError::ResourceExhaustion,
    ];
    for (at, error) in errors.iter().enumerate() {
        assert!(!error.describe().is_empty());
        for other in &errors[..at] {
            assert_ne!(error.describe(), other.describe());
        }
    }
    assert_eq!(QuestError::NoInput.describe(), "there is no input for this part");
}
