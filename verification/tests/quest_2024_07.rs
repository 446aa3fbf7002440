use algorithmia::quests::quest_2024_07::action::{
    merged_action, parse_action, updated_score, Action,
};
use algorithmia::quests::quest_2024_07::contest::{perform, perform_with_racetrack};
use algorithmia::quests::quest_2024_07::ranking::calc_ranking;
use algorithmia::quests::quest_2024_07::roster::{parse, parse_line};
use algorithmia::quests::quest_2024_07::search::{
    plan_text, search_plans, total_winning_plans, SearchReport, MAX_PLAN_LENGTH, PLAN_BUDGET,
};
use algorithmia::quests::quest_2024_07::simulator::{
    advance, race, ranking_with_racetrack, simulate, start_race, RaceState, INITIAL_SCORE,
    INITIAL_TOTAL,
};
use algorithmia::quests::quest_2024_07::tracer::{parse_racetrack, trace_track};
use algorithmia::quests::quest_2024_07::{Q2024_7, SECOND_TRACK, THIRD_TRACK};
use algorithmia::quests::{QuestError, Solution};

#[test]
fn quest2024_07_part1() {
    let input = "A:+,-,=,=
B:+,=,-,+
C:=,-,+,+
D:=,=,=,+";
    assert_eq!("BDCA", Q2024_7.part_one(input).unwrap())
}

#[test]
fn quest2024_07_parse_track() {
    let input = "S+===
-   +
=+=-+";
    let track = parse_racetrack(input).unwrap();
    let (_, line) = parse_line("X:+,=,=,=,+,+,-,=,+,=,-,S").unwrap();
    println!("PARSED: {track:?}");
    println!("INPUT:  {line:?}");
    assert_eq!(track, line)
}

#[test]
fn quest2024_07_part2() {
    let racetrack = parse_racetrack(
        "S+===
-   +
=+=-+",
    )
    .unwrap();
    let input = "A:+,-,=,=
B:+,=,-,+
C:=,-,+,+
D:=,=,=,+";
    let data = parse(input).unwrap();
    let ranking = perform_with_racetrack(&data, 10, &racetrack).unwrap();
    assert_eq!(ranking, "DCBA")
}

#[test]
fn total_leaves_out_the_starting_score() {
    let track = [Action::Keep];
    let program = [Action::Inc, Action::Dec, Action::Keep, Action::Keep];
    assert_eq!(simulate(&track, &program, 4), Ok(11 + 10 + 10 + 10));
    assert_eq!(simulate(&track, &program, 0), Ok(0));
    assert_eq!(simulate(&track, &program, 1), Ok(11));
}

#[test]
fn search_counts_every_ordering_once() {
    let track = parse_racetrack("S+===\n-   +\n=+=-+").unwrap();
    let report = search_plans(&track, 5, 3, 3, 0, 1, 10000).unwrap();
    assert_eq!(report, SearchReport { winning: 9240, simulated: 9240 });
}

#[test]
fn full_search_stays_within_the_orderings() {
    let track = parse_racetrack("S+===\n-   +\n=+=-+").unwrap();
    let (_, reference) = parse_line("A:+,-,=,=,+,-,=,=,+,+,+").unwrap();
    let base = ranking_with_racetrack(&reference, &track).unwrap();
    let count = total_winning_plans(&track, base).unwrap();
    assert!(count <= 4620);
    assert_eq!(total_winning_plans(&[], base), Err(QuestError::PreconditionViolation));
}

fn actions(text: &str) -> Vec<Action> {
    parse_line(&format!("X:{text}")).unwrap().1
}

#[test]
fn running_score_follows_the_actions() {
    let program = actions("+,-,=,=");
    let mut score = 10;
    let mut seen = Vec::new();
    for round in 0..4 {
        score = updated_score(score, merged_action(Action::Keep, program[round % 4]));
        seen.push(score);
    }
    assert_eq!(seen, vec![11, 10, 10, 10]);
    assert_eq!(INITIAL_SCORE, 10);
    assert_eq!(INITIAL_TOTAL, 0);
}

#[test]
fn running_score_stays_in_bounds() {
    let track = parse_racetrack("S+===\n-   +\n=+=-+").unwrap();
    for program in [actions("+,-,=,="), actions("-"), actions("+"), actions("=,-,-")] {
        let mut score = 10;
        for round in 0..200 {
            let action = merged_action(track[round % track.len()], program[round % program.len()]);
            score = updated_score(score, action);
            assert!(score <= 10 + round + 1);
            assert!(score + round + 1 >= 10);
        }
    }
}

#[test]
fn score_does_not_fall_below_zero() {
    let track = [Action::Keep];
    let program = [Action::Dec];
    assert_eq!(simulate(&track, &program, 15), Ok(45));
    assert_eq!(updated_score(0, Action::Dec), 0);
    assert_eq!(updated_score(0, Action::Keep), 0);
    assert_eq!(updated_score(0, Action::Inc), 1);
}

#[test]
fn track_overrides_unless_it_holds() {
    for own in [Action::Inc, Action::Dec, Action::Keep] {
        assert_eq!(merged_action(Action::Keep, own), own);
        assert_eq!(merged_action(Action::Inc, own), Action::Inc);
        assert_eq!(merged_action(Action::Dec, own), Action::Dec);
    }
    assert_eq!(parse_action('+'), Action::Inc);
    assert_eq!(parse_action('-'), Action::Dec);
    assert_eq!(parse_action('='), Action::Keep);
    assert_eq!(parse_action('S'), Action::Keep);
}

#[test]
fn simulation_is_repeatable() {
    let track = parse_racetrack("S+===\n-   +\n=+=-+").unwrap();
    let program = actions("+,=,-,+");
    let first = simulate(&track, &program, 1000);
    assert_eq!(first, simulate(&track, &program, 1000));
    assert_eq!(first, simulate(&track.clone(), &program.clone(), 1000));
    assert_eq!(race(&track, &program, 10), simulate(&track, &program, 120));
    assert_eq!(ranking_with_racetrack(&program, &track), simulate(&track, &program, 2024 * 12));
}

#[test]
fn races_need_a_track_and_a_program() {
    let some = [Action::Inc];
    assert_eq!(simulate(&[], &some, 3), Err(QuestError::PreconditionViolation));
    assert_eq!(simulate(&some, &[], 3), Err(QuestError::PreconditionViolation));
    assert_eq!(simulate(&[], &[], 0), Err(QuestError::PreconditionViolation));
    assert_eq!(race(&[], &some, 3), Err(QuestError::PreconditionViolation));
    assert_eq!(ranking_with_racetrack(&[], &some), Err(QuestError::PreconditionViolation));
    assert_eq!(ranking_with_racetrack(&some, &[]), Err(QuestError::PreconditionViolation));
    assert_eq!(search_plans(&[], 1, 1, 1, 0, 1, 100), Err(QuestError::PreconditionViolation));
    assert_eq!(search_plans(&some, 0, 0, 0, 0, 1, 100), Err(QuestError::PreconditionViolation));
}

#[test]
fn rounds_beyond_counting_are_refused() {
    let track = [Action::Inc, Action::Keep];
    let program = [Action::Inc];
    assert_eq!(race(&track, &program, usize::MAX), Err(QuestError::ResourceExhaustion));
    assert_eq!(
        search_plans(&track, 1, 1, 1, 0, usize::MAX, 100),
        Err(QuestError::ResourceExhaustion)
    );
    let data = parse("A:+").unwrap();
    assert_eq!(
        perform_with_racetrack(&data, usize::MAX, &track),
        Err(QuestError::ResourceExhaustion)
    );
}

#[test]
fn state_machine_runs_to_the_finish() {
    let track = [Action::Keep];
    let program = [Action::Inc, Action::Dec];
    let mut state = start_race();
    assert_eq!(state, RaceState::Running { round: 0, score: 10, cumulative: 0 });
    state = advance(state, &track, &program, 2).unwrap();
    assert_eq!(state, RaceState::Running { round: 1, score: 11, cumulative: 11 });
    state = advance(state, &track, &program, 2).unwrap();
    assert_eq!(state, RaceState::Running { round: 2, score: 10, cumulative: 21 });
    state = advance(state, &track, &program, 2).unwrap();
    assert_eq!(state, RaceState::Finished { cumulative: 21 });
    state = advance(state, &track, &program, 2).unwrap();
    assert_eq!(state, RaceState::Finished { cumulative: 21 });
    let full = RaceState::Running { round: 0, score: 5, cumulative: usize::MAX };
    assert_eq!(advance(full, &track, &program, 2), Err(QuestError::ResourceExhaustion));
}

#[test]
fn every_ordering_is_simulated_once() {
    let track = [Action::Keep, Action::Inc, Action::Dec];
    let stocks = [(1, 0, 0, 1), (1, 1, 0, 2), (1, 1, 1, 6), (2, 1, 1, 12), (2, 2, 2, 90), (3, 0, 2, 10)];
    for (pluses, minuses, equals, orderings) in stocks {
        let report = search_plans(&track, pluses, minuses, equals, 0, 2, 1000).unwrap();
        assert_eq!(report.simulated, orderings);
        assert_eq!(report.winning, orderings);
        let none = search_plans(&track, pluses, minuses, equals, usize::MAX, 2, 1000).unwrap();
        assert_eq!(none, SearchReport { winning: 0, simulated: orderings });
    }
}

#[test]
fn search_counts_the_plans_that_beat_the_base() {
    let track = [Action::Keep];
    // Over two rounds of open ground: +- totals 21, -+ totals 19.
    assert_eq!(search_plans(&track, 1, 1, 0, 18, 2, 10).unwrap().winning, 2);
    assert_eq!(search_plans(&track, 1, 1, 0, 19, 2, 10).unwrap().winning, 1);
    assert_eq!(search_plans(&track, 1, 1, 0, 20, 2, 10).unwrap().winning, 1);
    assert_eq!(search_plans(&track, 1, 1, 0, 21, 2, 10).unwrap().winning, 0);
}

#[test]
fn search_gives_up_beyond_its_bounds() {
    let track = [Action::Keep];
    assert_eq!(search_plans(&track, 2, 1, 1, 0, 1, 11), Err(QuestError::ResourceExhaustion));
    assert!(search_plans(&track, 2, 1, 1, 0, 1, 12).is_ok());
    assert_eq!(search_plans(&track, 41, 0, 0, 0, 1, 10), Err(QuestError::ResourceExhaustion));
    assert_eq!(search_plans(&track, 20, 20, 1, 0, 1, 10), Err(QuestError::ResourceExhaustion));
    assert_eq!(
        search_plans(&track, usize::MAX, usize::MAX, 2, 0, 1, 10),
        Err(QuestError::ResourceExhaustion)
    );
    assert_eq!(
        search_plans(&track, 40, 0, 0, 0, 1, 10),
        Ok(SearchReport { winning: 1, simulated: 1 })
    );
    assert_eq!(MAX_PLAN_LENGTH, 40);
    assert!(PLAN_BUDGET >= 9240);
}

#[test]
fn plans_have_a_text() {
    assert_eq!(plan_text(&actions("+,-,=,=,+")), "+-==+");
    assert_eq!(plan_text(&[]), "");
}

#[test]
fn rectangle_is_traced_along_its_perimeter() {
    let track = parse_racetrack("S===\n=  =\n=  =\n====").unwrap();
    assert_eq!(track.len(), 12);
    assert!(track.iter().all(|action| *action == Action::Keep));
    let track = parse_racetrack("S+\n-=").unwrap();
    assert_eq!(track, actions("+,=,-,="));
    let second = parse_racetrack(SECOND_TRACK).unwrap();
    assert_eq!(second.len(), 2 * 71 + 2 * 9 - 4);
    let third = parse_racetrack(THIRD_TRACK).unwrap();
    assert_eq!(third.len(), THIRD_TRACK.chars().filter(|ch| !ch.is_whitespace()).count());
    assert_eq!(third.last(), Some(&Action::Keep));
}

#[test]
fn smallest_tracks() {
    assert_eq!(parse_racetrack("S").unwrap(), vec![Action::Keep]);
    assert_eq!(parse_racetrack("S+").unwrap(), vec![Action::Inc, Action::Keep]);
    assert_eq!(parse_racetrack("S\n-").unwrap(), vec![Action::Dec, Action::Keep]);
    assert_eq!(parse_racetrack("S \n  \n").unwrap(), vec![Action::Keep]);
}

#[test]
fn walk_prefers_right_then_down_then_left_then_up() {
    // From the corner the walk goes right although it could go down.
    let track = parse_racetrack("S+\n-=").unwrap();
    assert_eq!(track[0], Action::Inc);
    // Rows may differ in length: what lies beyond a row is ground.
    let track = parse_racetrack("S+-\n=\n").unwrap_err();
    assert_eq!(track, QuestError::MalformedInput);
    let track = parse_racetrack("S+\n==\n").unwrap();
    assert_eq!(track, actions("+,=,=,="));
    let track = parse_racetrack("S+=\n- =\n===\n\n").unwrap();
    assert_eq!(track, actions("+,=,=,=,=,=,-,="));
}

#[test]
fn diagrams_that_do_not_close_are_refused() {
    assert_eq!(parse_racetrack(""), Err(QuestError::MalformedInput));
    assert_eq!(parse_racetrack("\nS"), Err(QuestError::MalformedInput));
    assert_eq!(parse_racetrack("S+="), Err(QuestError::MalformedInput));
    assert_eq!(parse_racetrack("S+=\n  -\n  ="), Err(QuestError::MalformedInput));
    // The walk comes back to the start but has left a cell out.
    assert_eq!(parse_racetrack("S+\n-"), Err(QuestError::MalformedInput));
    assert_eq!(parse_racetrack("S+\n==\n\n+"), Err(QuestError::MalformedInput));
    assert_eq!(trace_track(&Vec::new()), Err(QuestError::MalformedInput));
}

#[test]
fn white_space_is_ground() {
    let track = parse_racetrack("S+\t=\n-\u{2003}\u{a0}=").unwrap_err();
    assert_eq!(track, QuestError::MalformedInput);
    let track = parse_racetrack("S+\n-\u{3000}").unwrap_err();
    assert_eq!(track, QuestError::MalformedInput);
    let track = parse_racetrack("S+\n=-").unwrap();
    assert_eq!(track.len(), 4);
}

#[test]
fn lines_name_a_racer_and_its_actions() {
    let (name, list) = parse_line("A:+,-,=,x+,S").unwrap();
    assert_eq!(name, "A");
    assert_eq!(list, vec![Action::Inc, Action::Dec, Action::Keep, Action::Keep, Action::Keep]);
    let (name, list) = parse_line(":+").unwrap();
    assert_eq!(name, "");
    assert_eq!(list, vec![Action::Inc]);
    let (name, list) = parse_line("A:B:-").unwrap();
    assert_eq!(name, "A");
    assert_eq!(list, vec![Action::Keep]);
    assert_eq!(parse_line("A+,-"), Err(QuestError::MalformedInput));
    assert_eq!(parse_line("A:"), Err(QuestError::MalformedInput));
    assert_eq!(parse_line("A:+,,-"), Err(QuestError::MalformedInput));
    assert_eq!(parse_line("A:+,"), Err(QuestError::MalformedInput));
}

#[test]
fn rosters_keep_one_racer_a_name() {
    let data = parse("  A:+ \n\nB:-\n A:=\n").unwrap();
    assert_eq!(data.len(), 2);
    assert_eq!(data[0], ("A".to_string(), vec![Action::Keep]));
    assert_eq!(data[1], ("B".to_string(), vec![Action::Dec]));
    assert_eq!(parse("").unwrap().len(), 0);
    assert_eq!(parse("A:+\nB"), Err(QuestError::MalformedInput));
}

#[test]
fn ranking_is_by_total_and_then_by_entry() {
    let scores = vec![
        ("A".to_string(), 5),
        ("B".to_string(), 7),
        ("C".to_string(), 5),
        ("D".to_string(), 9),
        ("E".to_string(), 7),
    ];
    assert_eq!(calc_ranking(&scores), "DBEAC");
    assert_eq!(calc_ranking(&Vec::new()), "");
    let data = parse("X:=\nY:=\nZ:+").unwrap();
    assert_eq!(perform(&data, 3).unwrap(), "ZXY");
    assert_eq!(perform(&Vec::new(), 3).unwrap(), "");
    assert_eq!(perform(&data, 0).unwrap(), "XYZ");
}

#[test]
fn contests_fail_with_their_first_racer_that_fails() {
    let track = [Action::Keep];
    let empty = vec![("A".to_string(), vec![Action::Inc]), ("B".to_string(), Vec::new())];
    assert_eq!(perform(&empty, 3), Err(QuestError::PreconditionViolation));
    assert_eq!(perform_with_racetrack(&empty, 3, &track), Err(QuestError::PreconditionViolation));
    assert_eq!(
        perform_with_racetrack(&Vec::new(), 3, &[]),
        Err(QuestError::PreconditionViolation)
    );
}

#[test]
fn third_part_counts_the_winning_plans() {
    assert_eq!(Q2024_7.part_three(""), Err(QuestError::MalformedInput));
    assert_eq!(Q2024_7.part_three("A+"), Err(QuestError::MalformedInput));
    assert_eq!(Q2024_7.part_two("A+"), Err(QuestError::MalformedInput));
    assert_eq!(Q2024_7.part_one("A+"), Err(QuestError::MalformedInput));
    assert_eq!(Q2024_7.part_one("").unwrap(), "");
}
