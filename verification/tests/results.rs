use sage_engine_server::board::Board;
use sage_engine_server::calls::EngineCall;
use sage_engine_server::evaluation::{engine_call, Work};
use sage_engine_server::ffi::CapiError;
use sage_engine_server::mapping::{
    CubeAction, CubeNumbers, MappingError, MoveEntry, PositionNumbers, MOVE_BUFFER_LEN,
};
use sage_engine_server::notation::apply_move_notation;
use sage_engine_server::results::{
    evaluation, evaluation_at, is_outcome, Evaluation, Outcome, Stamps,
};

const STARTING_BOARD: Board = [
    0, -2, 0, 0, 0, 0, 5, 0, 3, 0, 0, 0, -5, 5, 0, 0, 0, -3, 0, -5, 0, 0, 0, 0, 2, 0,
];

const UTC: &str = "2026-01-02T03:04:05Z";

const POSITION: PositionNumbers<f64> = PositionNumbers {
    cubeless: 0.1,
    cubeful: 0.2,
    win: 0.5,
    win_gammon: 0.15,
    win_backgammon: 0.01,
    lose_gammon: 0.14,
    lose_backgammon: 0.02,
};

const CUBE: CubeNumbers<f64> = CubeNumbers {
    no_double: 1.2,
    take: 1.6,
    drop: 1.0,
    double_take_gain: 0.4,
    double_drop_gain: -0.2,
    win: 0.8,
    win_gammon: 0.4,
    win_backgammon: 0.05,
    no_double_beats_drop: true,
    should_double: 0,
    should_take: 0,
};

fn stamps() -> Stamps {
    Stamps { storage_id: Ok("position".to_string()), match_id: "match".to_string(), plies: 2 }
}

fn entry(text: &str, value: u8) -> MoveEntry<u8> {
    MoveEntry { board: apply_move_notation(&STARTING_BOARD, text).unwrap(), value }
}

fn moves() -> Outcome<f64, u8> {
    Outcome::Moves(Ok(vec![entry("8/5 6/5", 1), entry("24/23 13/10", 2)]))
}

fn analyze(text: &str) -> Work {
    Work::Analyze(3, 1, text.to_string())
}

fn failure<V: std::fmt::Debug, M: std::fmt::Debug>(
    r: Result<Evaluation<V, M>, MappingError>,
) -> String {
    match r {
        Err(MappingError::Engine(e)) => format!("engine {} {}", e.code, e.message),
        Err(MappingError::Id(m)) => format!("id {m}"),
        Err(MappingError::Invalid(m)) => format!("invalid {m}"),
        Err(MappingError::Failed(m)) => format!("failed {m}"),
        other => panic!("{other:?}"),
    }
}

#[test]
fn a_position_is_answered_with_its_numbers() {
    let outcome: Outcome<f64, u8> = Outcome::Position(Ok(POSITION));
    match evaluation_at(&Work::Position, &STARTING_BOARD, outcome, stamps(), UTC) {
        Ok(Evaluation::Position(p)) => {
            assert_eq!((p.equity, p.cubeful_equity, p.win_prob), (0.1, 0.2, 0.5));
            assert_eq!((p.win_gammon, p.lose_backgammon), (0.15, 0.02));
        }
        other => panic!("{other:?}"),
    }
}

#[test]
fn a_cube_decision_is_answered_with_its_verdict() {
    let outcome: Outcome<f64, u8> = Outcome::Cube(Ok(CUBE));
    match evaluation_at(&Work::Cube, &STARTING_BOARD, outcome, stamps(), UTC) {
        Ok(Evaluation::Cube(c)) => {
            assert_eq!(c.recommended_action, CubeAction::NoDouble);
            assert!(c.too_good_to_double);
            assert_eq!((c.no_double_equity, c.our_win_prob), (1.2, Some(0.8)));
        }
        other => panic!("{other:?}"),
    }
}

#[test]
fn a_roll_is_answered_with_its_ranked_moves() {
    match evaluation_at(&Work::Moves(3, 1), &STARTING_BOARD, moves(), stamps(), UTC) {
        Ok(Evaluation::Moves(m)) => {
            assert_eq!((m.die1, m.die2), (1, 3));
            let told: Vec<(i32, &str, u8)> = m
                .alternatives
                .iter()
                .map(|hint| (hint.rank, hint.move_notation.as_str(), hint.value))
                .collect();
            assert_eq!(told, vec![(1, "8/5 6/5", 1), (2, "24/23 13/10", 2)]);
            let first = &m.alternatives[0];
            assert_eq!(first.gnubg_position_id, "position");
            assert_eq!(first.gnubg_match_id, "match");
            assert_eq!(first.plies, 2);
            assert_eq!(first.evaluated_utc, UTC);
        }
        other => panic!("{other:?}"),
    }
}

#[test]
fn a_played_move_is_answered_with_its_place() {
    let work = analyze("13/10 24/23");
    match evaluation_at(&work, &STARTING_BOARD, moves(), stamps(), UTC) {
        Ok(Evaluation::Analysis(a)) => {
            assert_eq!((a.best.rank, a.best.value), (1, 1));
            assert_eq!((a.played.rank, a.played.value), (2, 2));
        }
        other => panic!("{other:?}"),
    }
    let none: Outcome<f64, u8> = Outcome::Moves(Ok(Vec::new()));
    let r = evaluation_at(&work, &STARTING_BOARD, none, stamps(), UTC);
    assert_eq!(failure(r), "failed no ranked alternatives");
}

#[test]
fn moves_are_evaluated_now() {
    match evaluation(&Work::Moves(1, 3), &STARTING_BOARD, moves(), stamps()) {
        Ok(Evaluation::Moves(m)) => {
            assert_eq!((m.die1, m.die2), (1, 3));
            let utc = &m.alternatives[0].evaluated_utc;
            assert!(utc.len() >= 20 && utc.ends_with('Z'), "{utc}");
            assert_eq!(utc, &m.alternatives[1].evaluated_utc);
        }
        other => panic!("{other:?}"),
    }
}

#[test]
fn what_the_engine_failed_of_is_told() {
    let error = || CapiError { code: 3, message: "x".to_string() };
    let run = |work: &Work, outcome: Outcome<f64, u8>, stamps: Stamps| {
        failure(evaluation_at(work, &STARTING_BOARD, outcome, stamps, UTC))
    };
    assert_eq!(run(&Work::Position, Outcome::Position(Err(error())), stamps()), "engine 3 x");
    assert_eq!(run(&Work::Cube, Outcome::Cube(Err(error())), stamps()), "engine 3 x");
    let unreadable = || Stamps { storage_id: Err("bad id".to_string()), ..stamps() };
    for work in [Work::Moves(3, 1), analyze("8/5 6/5")] {
        assert_eq!(run(&work, Outcome::Moves(Err(error())), unreadable()), "engine 3 x");
        assert_eq!(run(&work, moves(), unreadable()), "id bad id");
    }
    assert_eq!(run(&Work::Moves(9, 1), moves(), unreadable()), "invalid dice must be 1-6");
}

#[test]
fn an_outcome_belongs_to_its_call() {
    let position: Outcome<f64, u8> = Outcome::Position(Ok(POSITION));
    let cube: Outcome<f64, u8> = Outcome::Cube(Ok(CUBE));
    assert!(is_outcome(engine_call(&Work::Position), &position));
    assert!(is_outcome(engine_call(&Work::Cube), &cube));
    assert!(is_outcome(engine_call(&Work::Moves(3, 1)), &moves()));
    assert!(is_outcome(engine_call(&analyze("8/5")), &moves()));
    assert!(!is_outcome(engine_call(&Work::Position), &cube));
    assert!(!is_outcome(engine_call(&Work::Cube), &moves()));
    assert!(!is_outcome(EngineCall::CheckerPlay(3, 1), &position));
    let many = |n: usize| -> Outcome<f64, u8> {
        Outcome::Moves(Ok(vec![entry("8/5 6/5", 1); n]))
    };
    assert!(is_outcome(EngineCall::CheckerPlay(3, 1), &many(MOVE_BUFFER_LEN)));
    assert!(!is_outcome(EngineCall::CheckerPlay(3, 1), &many(MOVE_BUFFER_LEN + 1)));
}
