use sage_engine_server::board::Board;
use sage_engine_server::calls::{CallStep, EngineCall};
use sage_engine_server::engine::{CubeOwner, EngineGetError, LevelError, MatchContext};
use sage_engine_server::evaluation::{
    advance, engine_call, engine_failure, evaluation_failure, panic_reply, progress_counts,
    require_dice, work_steps, EvalMethod, EvaluateParams, Event, ReplyCode, Step, Work,
};
use sage_engine_server::ffi::CapiError;
use sage_engine_server::mapping::MappingError;
use sage_engine_server::server::{dispatch, Action, Call, Ignored, InFlightMap, Message};

const CONTEXT: MatchContext = MatchContext {
    cube_value: 1,
    cube_owner: CubeOwner::Centered,
    crawford: false,
    jacoby: true,
    away1: 0,
    away2: 0,
};

fn params(die1: Option<i32>, die2: Option<i32>, played: Option<&str>) -> EvaluateParams {
    EvaluateParams { die1, die2, played_move: played.map(str::to_string) }
}

fn message(id: Option<&str>, call: Call) -> Message {
    Message { id: id.map(str::to_string), call }
}

fn start(table: &mut InFlightMap, id: &str) -> usize {
    match dispatch(table, message(Some(id), Call::Evaluate(EvalMethod::Cube, Ok(())))) {
        Action::Start(slot) => slot,
        other => panic!("{other:?}"),
    }
}

fn cancel(table: &mut InFlightMap, id: &str) -> Action {
    dispatch(table, message(None, Call::Cancel(Ok(id.to_string()))))
}

/// Works a request off to its answer.
fn work_off(
    method: EvalMethod,
    params: &EvaluateParams,
    position: Result<Board, String>,
    context: Result<MatchContext, String>,
    engine: Result<usize, EngineGetError>,
    cancelled: bool,
    finished: Result<(), MappingError>,
) -> Result<(), (ReplyCode, String)> {
    let events = vec![
        Event::Position(position),
        Event::Match(context),
        Event::Engine(engine),
        Event::Attached(cancelled),
        Event::Finished(finished),
    ];
    let mut step = Step::DecodePosition;
    for event in events {
        step = advance(step, event, method, params);
    }
    match step {
        Step::Done(Ok(())) => Ok(()),
        Step::Done(Err(e)) => Err((e.code, e.message)),
        other => panic!("{other:?}"),
    }
}

#[test]
fn a_request_goes_through_its_steps() {
    let asked = params(Some(3), Some(1), Some("8/5 6/5"));
    let board: Board = [1; 26];
    let step = advance(Step::DecodePosition, Event::Position(Ok(board)), EvalMethod::Analyze, &asked);
    assert!(matches!(step, Step::DecodeMatch(b) if b == board));
    let step = advance(step, Event::Match(Ok(CONTEXT)), EvalMethod::Analyze, &asked);
    match &step {
        Step::Resolve(b, cube) => {
            assert_eq!(*b, board);
            assert_eq!(cube.jacoby, 1);
            assert_eq!(cube.beaver, 1);
        }
        other => panic!("{other:?}"),
    }
    let step = advance(step, Event::Engine(Ok(5)), EvalMethod::Analyze, &asked);
    assert!(matches!(step, Step::Attach(_, _, 5)));
    let step = advance(step, Event::Attached(false), EvalMethod::Analyze, &asked);
    match &step {
        Step::Run(_, _, 5, Work::Analyze(3, 1, text)) => assert_eq!(text, "8/5 6/5"),
        other => panic!("{other:?}"),
    }
    let step = advance(step, Event::Finished(Ok(())), EvalMethod::Analyze, &asked);
    assert!(matches!(step, Step::Done(Ok(()))));
    // An answer is final.
    let step = advance(step, Event::Attached(true), EvalMethod::Analyze, &asked);
    assert!(matches!(step, Step::Done(Ok(()))));
}

#[test]
fn the_first_thing_that_goes_wrong_is_answered() {
    let none = params(None, None, None);
    let engine_error = || EngineGetError::Level(LevelError::UnknownLevel("x".to_string()));
    let failed = || MappingError::Failed("f".to_string());
    let bad = |text: &str| Err(text.to_string());
    let run = |position, context, engine, cancelled| {
        work_off(EvalMethod::Moves, &none, position, context, engine, cancelled, Err(failed()))
    };
    assert_eq!(
        run(bad("pos"), Err("match".to_string()), Err(engine_error()), true),
        Err((ReplyCode::InvalidId, "pos".to_string()))
    );
    assert_eq!(
        run(Ok([0; 26]), Err("match".to_string()), Err(engine_error()), true),
        Err((ReplyCode::InvalidId, "match".to_string()))
    );
    assert_eq!(
        run(Ok([0; 26]), Ok(CONTEXT), Err(engine_error()), true),
        Err((ReplyCode::UnknownLevel, "unknown level \"x\"".to_string()))
    );
    assert_eq!(
        run(Ok([0; 26]), Ok(CONTEXT), Ok(0), true),
        Err((ReplyCode::Cancelled, "cancelled before evaluation".to_string()))
    );
    assert_eq!(
        run(Ok([0; 26]), Ok(CONTEXT), Ok(0), false),
        Err((ReplyCode::InvalidParams, "die1 and die2 are required".to_string()))
    );
    assert_eq!(
        work_off(
            EvalMethod::Position,
            &none,
            Ok([0; 26]),
            Ok(CONTEXT),
            Ok(0),
            false,
            Err(failed())
        ),
        Err((ReplyCode::EvaluationFailed, "f".to_string()))
    );
    assert_eq!(
        work_off(EvalMethod::Cube, &none, Ok([0; 26]), Ok(CONTEXT), Ok(0), false, Ok(())),
        Ok(())
    );
}

#[test]
fn dice_are_asked_for_before_the_move() {
    let run = |params: &EvaluateParams| {
        work_off(EvalMethod::Analyze, params, Ok([0; 26]), Ok(CONTEXT), Ok(0), false, Ok(()))
    };
    assert_eq!(
        run(&params(Some(1), None, None)),
        Err((ReplyCode::InvalidParams, "die1 and die2 are required".to_string()))
    );
    assert_eq!(
        run(&params(Some(1), Some(2), None)),
        Err((ReplyCode::InvalidParams, "analyzeMove requires a move".to_string()))
    );
    assert_eq!(run(&params(Some(1), Some(2), Some("8/5"))), Ok(()));
    assert_eq!(require_dice(&params(Some(9), Some(-1), None)).unwrap(), (9, -1));
    assert!(require_dice(&params(None, Some(2), None)).is_err());
}

#[test]
fn no_evaluation_begins_with_bad_dice() {
    let bad = || Err((ReplyCode::InvalidParams, "dice must be 1-6".to_string()));
    for (die1, die2) in [(9, 0), (0, 1), (1, 0), (7, 6), (6, 7), (-1, -1)] {
        for method in [EvalMethod::Moves, EvalMethod::Analyze] {
            let asked = params(Some(die1), Some(die2), Some("8/5"));
            let run = |finished| {
                work_off(method, &asked, Ok([0; 26]), Ok(CONTEXT), Ok(0), false, finished)
            };
            assert_eq!(run(Ok(())), bad());
            assert_eq!(run(Err(MappingError::Failed("f".to_string()))), bad());
        }
        for method in [EvalMethod::Position, EvalMethod::Cube] {
            let asked = params(Some(die1), Some(die2), None);
            assert_eq!(
                work_off(method, &asked, Ok([0; 26]), Ok(CONTEXT), Ok(0), false, Ok(())),
                Ok(())
            );
        }
    }
    // A missing move is told before bad dice.
    let asked = params(Some(9), Some(0), None);
    assert_eq!(
        work_off(EvalMethod::Analyze, &asked, Ok([0; 26]), Ok(CONTEXT), Ok(0), false, Ok(())),
        Err((ReplyCode::InvalidParams, "analyzeMove requires a move".to_string()))
    );
    // So is a cancel.
    let asked = params(Some(9), Some(0), Some("8/5"));
    assert_eq!(
        work_off(EvalMethod::Analyze, &asked, Ok([0; 26]), Ok(CONTEXT), Ok(0), true, Ok(())),
        Err((ReplyCode::Cancelled, "cancelled before evaluation".to_string()))
    );
    for die in 1..=6 {
        let asked = params(Some(die), Some(7 - die), None);
        assert_eq!(
            work_off(EvalMethod::Moves, &asked, Ok([0; 26]), Ok(CONTEXT), Ok(0), false, Ok(())),
            Ok(())
        );
    }
}

#[test]
fn every_failure_has_its_code() {
    let engine = |code: i32| {
        MappingError::Engine(CapiError { code, message: "m".to_string() })
    };
    let reply = evaluation_failure(engine(4));
    assert_eq!((reply.code, reply.message.as_str()), (ReplyCode::Cancelled, "evaluation cancelled"));
    let reply = evaluation_failure(engine(1));
    assert_eq!(
        (reply.code, reply.message.as_str()),
        (ReplyCode::EvaluationFailed, "bgsage_capi error 1: m")
    );
    let reply = evaluation_failure(MappingError::Id("i".to_string()));
    assert_eq!((reply.code, reply.message.as_str()), (ReplyCode::InvalidId, "i"));
    let reply = evaluation_failure(MappingError::Invalid("p".to_string()));
    assert_eq!((reply.code, reply.message.as_str()), (ReplyCode::InvalidParams, "p"));
    let reply = evaluation_failure(MappingError::Failed("f".to_string()));
    assert_eq!((reply.code, reply.message.as_str()), (ReplyCode::EvaluationFailed, "f"));

    let reply = engine_failure(EngineGetError::Level(LevelError::InvalidOptions("o".to_string())));
    assert_eq!((reply.code, reply.message.as_str()), (ReplyCode::InvalidParams, "o"));
    let create = EngineGetError::Create(CapiError { code: 2, message: "w".to_string() });
    let reply = engine_failure(create);
    assert_eq!(
        (reply.code, reply.message.as_str()),
        (ReplyCode::EvaluationFailed, "bgsage_capi error 2: w")
    );

    let reply = panic_reply(Some("oops".to_string()));
    assert_eq!((reply.code, reply.message.as_str()), (ReplyCode::InternalError, "oops"));
    assert_eq!(panic_reply(None).message, "panic in evaluation thread");
}

#[test]
fn progress_is_never_negative() {
    assert_eq!(progress_counts(-1, 5), (0, 5));
    assert_eq!(progress_counts(3, -9), (3, 0));
    assert_eq!(progress_counts(i32::MAX, 0), (2147483647, 0));
}

#[test]
fn engines_that_can_be_cancelled_report() {
    let analyze = Work::Analyze(3, 1, "8/5 6/5".to_string());
    let works = [
        (Work::Position, EngineCall::PreRoll),
        (Work::Cube, EngineCall::CubeAction),
        (Work::Moves(3, 1), EngineCall::CheckerPlay(3, 1)),
        (analyze, EngineCall::CheckerPlay(3, 1)),
    ];
    for (work, call) in works {
        assert_eq!(engine_call(&work), call);
        assert_eq!(
            work_steps(&work, true),
            vec![
                CallStep::ResetCancel,
                CallStep::SetProgress,
                CallStep::Evaluate(call),
                CallStep::ClearProgress
            ]
        );
    }
    assert_eq!(
        work_steps(&Work::Moves(3, 1), false),
        vec![CallStep::ResetCancel, CallStep::Evaluate(EngineCall::CheckerPlay(3, 1))]
    );
}

#[test]
fn messages_are_answered_where_somebody_waits() {
    let mut table = InFlightMap::new();
    let t = &mut table;
    assert!(matches!(dispatch(t, message(Some("1"), Call::Describe)), Action::Describe));
    assert!(matches!(
        dispatch(t, message(None, Call::Describe)),
        Action::Ignore(Ignored::Unanswered)
    ));
    assert!(matches!(dispatch(t, message(Some("1"), Call::Shutdown)), Action::Exit(true)));
    assert!(matches!(dispatch(t, message(None, Call::Shutdown)), Action::Exit(false)));
    match dispatch(t, message(Some("1"), Call::Other("frob\"".to_string()))) {
        Action::Reply(e) => {
            assert_eq!(e.code, ReplyCode::MethodNotFound);
            assert_eq!(e.message, "unknown method \"frob\\\"\"");
        }
        other => panic!("{other:?}"),
    }
    assert!(matches!(
        dispatch(t, message(None, Call::Other("frob".to_string()))),
        Action::Ignore(Ignored::Unanswered)
    ));
    assert!(matches!(
        dispatch(t, message(None, Call::Evaluate(EvalMethod::Cube, Ok(())))),
        Action::Ignore(Ignored::NoId)
    ));
    match dispatch(t, message(Some("1"), Call::Evaluate(EvalMethod::Cube, Err("p".to_string())))) {
        Action::Reply(e) => {
            assert_eq!(e.code, ReplyCode::InvalidParams);
            assert_eq!(e.message, "p");
        }
        other => panic!("{other:?}"),
    }
    match dispatch(t, message(Some("1"), Call::Cancel(Err("c".to_string())))) {
        Action::Ignore(Ignored::MalformedCancel(m)) => assert_eq!(m, "c"),
        other => panic!("{other:?}"),
    }
    assert!(matches!(cancel(t, "1"), Action::Ignore(Ignored::UnknownRequest)));
}

#[test]
fn a_cancel_that_comes_first_is_seen() {
    let mut table = InFlightMap::new();
    let slot = start(&mut table, "7");
    assert!(matches!(cancel(&mut table, "7"), Action::Interrupt(None)));
    assert!(table.attach(slot, 3));
}

#[test]
fn a_cancel_that_comes_later_interrupts() {
    let mut table = InFlightMap::new();
    let other = start(&mut table, "6");
    let slot = start(&mut table, "7");
    assert!(!table.attach(slot, 3));
    assert!(matches!(cancel(&mut table, "7"), Action::Interrupt(Some(3))));
    // The other request is untouched.
    assert!(!table.attach(other, 4));
}

#[test]
fn a_request_that_has_ended_is_gone() {
    let mut table = InFlightMap::new();
    let slot = start(&mut table, "7");
    table.finish(slot);
    assert!(matches!(cancel(&mut table, "7"), Action::Ignore(Ignored::UnknownRequest)));
    // Its slot is free again.
    assert_eq!(start(&mut table, "8"), slot);
}

#[test]
fn an_id_given_twice_leads_to_the_later_request() {
    let mut table = InFlightMap::new();
    let first = start(&mut table, "7");
    let second = start(&mut table, "7");
    assert_ne!(first, second);
    assert!(!table.attach(first, 1));
    assert!(!table.attach(second, 2));
    assert!(matches!(cancel(&mut table, "7"), Action::Interrupt(Some(2))));
    // Once either has ended, the id leads nowhere.
    table.finish(first);
    assert!(matches!(cancel(&mut table, "7"), Action::Ignore(Ignored::UnknownRequest)));
    table.finish(second);
}
