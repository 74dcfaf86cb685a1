use sage_engine_server::board::{Board, MOVER_BAR};
use sage_engine_server::ffi::CapiError;
use sage_engine_server::mapping::{
    analyze_payload, check_dice, cube_verdict, evaluate_cube, evaluate_position, evaluated_now,
    moves_payload, ranked_moves, ranked_moves_at, stamp_or_empty, CubeAction, CubeNumbers,
    MappingError, MoveEntry, PositionNumbers, RankedMoves,
};
use sage_engine_server::notation::apply_move_notation;

const STARTING_BOARD: Board = [
    0, -2, 0, 0, 0, 0, 5, 0, 3, 0, 0, 0, -5, 5, 0, 0, 0, -3, 0, -5, 0, 0, 0, 0, 2, 0,
];

const MOVES: [&str; 3] = ["8/5 6/5", "24/23 13/10", "13/10 6/5"];

fn entries(moves: &[&str]) -> Vec<MoveEntry<f64>> {
    moves
        .iter()
        .enumerate()
        .map(|(i, text)| MoveEntry {
            board: apply_move_notation(&STARTING_BOARD, text).unwrap(),
            value: 0.5 - i as f64,
        })
        .collect()
}

fn ranked() -> RankedMoves<f64> {
    ranked_moves_at(
        &STARTING_BOARD,
        3,
        1,
        Ok(entries(&MOVES)),
        Ok("position".to_string()),
        "match",
        2,
        "2026-01-02T03:04:05Z",
    )
    .unwrap()
}

fn derive(nd: f64, dp: f64, double: bool, take: bool) -> (CubeAction, bool) {
    cube_verdict(double as i32, take as i32, nd > dp)
}

#[test]
fn cube_derivation_matches_worker_semantics() {
    // Clear double/take.
    assert_eq!(derive(0.4, 1.0, true, true), (CubeAction::Double, false));
    // Too good: no double, opponent would pass, ND beats the cash.
    assert_eq!(derive(1.2, 1.0, false, false), (CubeAction::NoDouble, true));
    // Cannot double (engine reports no-double + take): never too good.
    assert_eq!(derive(1.2, 1.0, false, true), (CubeAction::NoDouble, false));
}

fn cube_numbers(double: i32, take: i32) -> CubeNumbers<f64> {
    CubeNumbers {
        no_double: 1.2,
        take: 1.6,
        drop: 1.0,
        double_take_gain: 0.4,
        double_drop_gain: -0.2,
        win: 0.6,
        win_gammon: 0.3,
        win_backgammon: 0.1,
        no_double_beats_drop: true,
        should_double: double,
        should_take: take,
    }
}

#[test]
fn cube_answers_carry_the_numbers() {
    let answer = evaluate_cube(Ok(cube_numbers(0, 0))).unwrap();
    assert_eq!(answer.recommended_action, CubeAction::NoDouble);
    assert!(answer.too_good_to_double);
    assert_eq!(answer.no_double_equity, 1.2);
    assert_eq!(answer.take_equity, 1.6);
    assert_eq!(answer.drop_equity, 1.0);
    assert_eq!(answer.double_take_gain, 0.4);
    assert_eq!(answer.double_drop_gain, -0.2);
    assert_eq!(answer.cube_efficiency, None);
    assert_eq!(answer.our_win_prob, Some(0.6));
    assert_eq!(answer.our_gammon_prob, Some(0.3));
    assert_eq!(answer.our_backgammon_prob, Some(0.1));
    assert_eq!(answer.opp_win_prob, None);
    assert_eq!(answer.opp_gammon_prob, None);
    assert_eq!(answer.opp_backgammon_prob, None);
    // Any verdict but zero is a yes.
    let answer = evaluate_cube(Ok(cube_numbers(-3, 0))).unwrap();
    assert_eq!(answer.recommended_action, CubeAction::Double);
    assert!(!answer.too_good_to_double);
}

#[test]
fn engine_errors_come_through() {
    let e = CapiError { code: 4, message: "stop".to_string() };
    match evaluate_cube::<f64>(Err(e.clone())) {
        Err(MappingError::Engine(e)) => assert!(e.is_cancelled()),
        other => panic!("{other:?}"),
    }
    match evaluate_position::<f64>(Err(e)) {
        Err(MappingError::Engine(e)) => assert_eq!(e.message, "stop"),
        other => panic!("{other:?}"),
    }
}

#[test]
fn position_answers_carry_the_numbers() {
    let numbers = PositionNumbers {
        cubeless: 0.1,
        cubeful: 0.2,
        win: 0.3,
        win_gammon: 0.4,
        win_backgammon: 0.5,
        lose_gammon: 0.6,
        lose_backgammon: 0.7,
    };
    let answer = evaluate_position(Ok(numbers)).unwrap();
    assert_eq!(answer.equity, 0.1);
    assert_eq!(answer.cubeful_equity, 0.2);
    assert_eq!(answer.win_prob, 0.3);
    assert_eq!(answer.win_gammon, 0.4);
    assert_eq!(answer.win_backgammon, 0.5);
    assert_eq!(answer.lose_gammon, 0.6);
    assert_eq!(answer.lose_backgammon, 0.7);
}

#[test]
fn dice_are_one_to_six() {
    assert!(check_dice(1, 6).is_ok());
    for (die1, die2) in [(0, 3), (3, 0), (7, 1), (1, 7), (-1, 2)] {
        match check_dice(die1, die2) {
            Err(MappingError::Invalid(m)) => assert_eq!(m, "dice must be 1-6"),
            other => panic!("{other:?}"),
        }
    }
}

#[test]
fn moves_are_ranked_in_the_engines_order() {
    let ranked = ranked();
    assert_eq!((ranked.die1, ranked.die2), (1, 3));
    assert_eq!(ranked.hints.len(), 3);
    for (i, hint) in ranked.hints.iter().enumerate() {
        assert_eq!(hint.rank, i as i32 + 1);
        assert_eq!((hint.die1, hint.die2), (1, 3));
        assert_eq!(hint.plies, 2);
        assert_eq!(hint.evaluation_engine_id, 0);
        assert_eq!(hint.gnubg_position_id, "position");
        assert_eq!(hint.gnubg_match_id, "match");
        assert_eq!(hint.move_notation, MOVES[i]);
        assert_eq!(hint.value, 0.5 - i as f64);
        assert_eq!(hint.evaluated_utc, "2026-01-02T03:04:05Z");
        assert_eq!(ranked.boards[i], apply_move_notation(&STARTING_BOARD, MOVES[i]).unwrap());
    }
    let payload = moves_payload(ranked);
    assert_eq!((payload.die1, payload.die2), (1, 3));
    assert_eq!(payload.alternatives.len(), 3);
    assert_eq!(payload.alternatives[2].move_notation, "13/10 6/5");
}

#[test]
fn what_goes_wrong_first_is_told() {
    let error = || CapiError { code: 1, message: "bad".to_string() };
    let at = |die1: i32, play, id| {
        ranked_moves_at::<f64>(&STARTING_BOARD, die1, 1, play, id, "m", 0, "")
    };
    match at(9, Err(error()), Err("id".to_string())) {
        Err(MappingError::Invalid(m)) => assert_eq!(m, "dice must be 1-6"),
        other => panic!("{other:?}"),
    }
    match at(3, Err(error()), Err("id".to_string())) {
        Err(MappingError::Engine(e)) => assert_eq!(e.message, "bad"),
        other => panic!("{other:?}"),
    }
    match at(3, Ok(entries(&MOVES)), Err("id".to_string())) {
        Err(MappingError::Id(m)) => assert_eq!(m, "id"),
        other => panic!("{other:?}"),
    }
}

fn is_stamp(text: &str) -> bool {
    let b = text.as_bytes();
    let plain = b.len() >= 20
        && b[b.len() - 1] == b'Z'
        && b[..19].iter().enumerate().all(|(i, c)| match i {
            4 | 7 => *c == b'-',
            10 => *c == b'T',
            13 | 16 => *c == b':',
            _ => c.is_ascii_digit(),
        });
    plain && (b.len() == 20 || (b[19] == b'.' && b[20..b.len() - 1].iter().all(u8::is_ascii_digit)))
}

#[test]
fn moves_are_stamped_with_the_time() {
    let now = evaluated_now();
    assert!(is_stamp(&now), "{now}");
    assert!(now.as_str() > "2024");
    let ranked = ranked_moves(
        &STARTING_BOARD,
        1,
        3,
        Ok(entries(&MOVES)),
        Ok("p".to_string()),
        "m",
        0,
    )
    .unwrap();
    assert!(is_stamp(&ranked.hints[0].evaluated_utc));
    assert_eq!(ranked.hints[0].evaluated_utc, ranked.hints[2].evaluated_utc);
    assert_eq!(stamp_or_empty(Ok("x".to_string())), "x");
    assert_eq!(stamp_or_empty(Err(time::error::Format::InvalidComponent("year"))), "");
}

#[test]
fn a_played_move_is_told_by_its_board() {
    // Written in another order and in a chain.
    let analysis = analyze_payload(ranked(), &STARTING_BOARD, "13/10 24/23").unwrap();
    assert_eq!(analysis.played.rank, 2);
    assert_eq!(analysis.best.rank, 1);
    assert_eq!(analysis.best.move_notation, "8/5 6/5");
    let analysis = analyze_payload(ranked(), &STARTING_BOARD, "6/5 13/12/10");
    assert!(analysis.is_ok());
}

#[test]
fn a_ranked_move_given_back_is_found() {
    for (i, text) in MOVES.iter().enumerate() {
        let analysis = analyze_payload(ranked(), &STARTING_BOARD, text).unwrap();
        assert_eq!(analysis.played.rank, i as i32 + 1);
        assert_eq!(analysis.played.value, 0.5 - i as f64);
    }
}

#[test]
fn a_move_that_cannot_be_applied_is_told_by_its_text() {
    let mut ranked = ranked();
    ranked.hints[2].move_notation = "bar/24 13/10".to_string();
    let analysis = analyze_payload(ranked, &STARTING_BOARD, "BAR/24* 13/10").unwrap();
    assert_eq!(analysis.played.rank, 3);
}

#[test]
fn a_move_that_is_not_ranked_counts_as_the_best() {
    let analysis = analyze_payload(ranked(), &STARTING_BOARD, "13/9").unwrap();
    assert_eq!(analysis.played.rank, 1);
    let analysis = analyze_payload(ranked(), &STARTING_BOARD, "garbage").unwrap();
    assert_eq!(analysis.played.rank, 1);
}

#[test]
fn nothing_ranked_is_a_failure() {
    let none: RankedMoves<f64> =
        RankedMoves { hints: Vec::new(), boards: Vec::new(), die1: 1, die2: 3 };
    match analyze_payload(none, &STARTING_BOARD, "8/5") {
        Err(MappingError::Failed(m)) => assert_eq!(m, "no ranked alternatives"),
        other => panic!("{other:?}"),
    }
}

#[test]
fn a_roll_that_cannot_be_played_ranks_the_standing_board() {
    let mut before: Board = [0; 26];
    before[MOVER_BAR] = 1;
    before[19..25].fill(-2);
    let ranked = ranked_moves_at(
        &before,
        6,
        6,
        Ok(vec![MoveEntry { board: before, value: 0 }]),
        Ok("p".to_string()),
        "m",
        0,
        "",
    )
    .unwrap();
    assert_eq!(ranked.hints[0].move_notation, "");
}
