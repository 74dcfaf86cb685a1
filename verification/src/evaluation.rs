//! How an evaluation request is worked off: what is done next, given what came of
//! the step before.
use vstd::prelude::*;

use crate::board::Board;
use crate::calls::{call_steps, CallStep, EngineCall};
#[allow(unused_imports)]
use crate::calls::steps_for;
use crate::engine::{cube_ctx, EngineGetError, LevelError, MatchContext};
#[allow(unused_imports)]
use crate::engine::{ctx_of, law_context_told};
use crate::ffi::CubeCtx;
#[allow(unused_imports)]
use crate::ffi::{capi_error_text, CapiError};
use crate::mapping::{check_dice, MappingError};
#[allow(unused_imports)]
use crate::mapping::is_die;
use crate::text::quoted;
#[allow(unused_imports)]
use crate::text::quoted_text;

verus! {

/// The kinds of error that a request is answered with.
#[derive(Clone, Copy, Debug, PartialEq, Eq, Structural)]
pub enum ReplyCode {
    InvalidParams,
    MethodNotFound,
    InternalError,
    InvalidId,
    UnknownLevel,
    EvaluationFailed,
    Cancelled,
}

/// An error that a request is answered with.
#[derive(Debug)]
pub struct ErrorReply {
    pub code: ReplyCode,
    pub message: String,
}

/// An error reply, with its text as a sequence of characters.
pub struct ReplyView {
    pub code: ReplyCode,
    pub message: Seq<char>,
}

impl View for ErrorReply {
    type V = ReplyView;

    open spec fn view(&self) -> ReplyView {
        ReplyView { code: self.code, message: self.message@ }
    }
}

/// The evaluations that can be asked for.
#[derive(Clone, Copy, Debug, PartialEq, Eq, Structural)]
pub enum EvalMethod {
    Position,
    Cube,
    Moves,
    Analyze,
}

/// What a request says of the roll and the move.
#[derive(Debug)]
pub struct EvaluateParams {
    pub die1: Option<i32>,
    pub die2: Option<i32>,
    pub played_move: Option<String>,
}

/// What is to be evaluated.
#[derive(Debug)]
pub enum Work {
    Position,
    Cube,
    Moves(i32, i32),
    Analyze(i32, i32, String),
}

/// What is to be evaluated, with its text as a sequence of characters.
pub enum WorkView {
    Position,
    Cube,
    Moves(i32, i32),
    Analyze(i32, i32, Seq<char>),
}

impl View for Work {
    type V = WorkView;

    open spec fn view(&self) -> WorkView {
        match self {
            Work::Position => WorkView::Position,
            Work::Cube => WorkView::Cube,
            Work::Moves(a, b) => WorkView::Moves(*a, *b),
            Work::Analyze(a, b, s) => WorkView::Analyze(*a, *b, s@),
        }
    }
}

/// The roll of a request, if it gives both dice.
pub open spec fn dice_in(params: EvaluateParams) -> Option<(i32, i32)> {
    match (params.die1, params.die2) {
        (Some(a), Some(b)) => Some((a, b)),
        _ => None,
    }
}

/// The roll of a request.
pub fn require_dice(params: &EvaluateParams) -> (r: Result<(i32, i32), MappingError>)
    ensures
        match dice_in(*params) {
            Some(dice) => r == Ok::<(i32, i32), MappingError>(dice),
            None => r matches Err(MappingError::Invalid(m)) && m@ == "die1 and die2 are required"@,
        },
{
    match (params.die1, params.die2) {
        (Some(die1), Some(die2)) => Ok((die1, die2)),
        _ => Err(MappingError::Invalid("die1 and die2 are required".to_owned())),
    }
}

/// Two numbers that a roll can show.
pub open spec fn are_dice(die1: i32, die2: i32) -> bool {
    is_die(die1 as int) && is_die(die2 as int)
}

/// What a request asks to be evaluated, or what is wrong with it. The dice are asked
/// for before the move, and looked at when both are there.
pub open spec fn work_of(method: EvalMethod, params: EvaluateParams) -> Result<WorkView, Seq<char>> {
    match method {
        EvalMethod::Position => Ok(WorkView::Position),
        EvalMethod::Cube => Ok(WorkView::Cube),
        EvalMethod::Moves => match dice_in(params) {
            Some((a, b)) => if are_dice(a, b) {
                Ok(WorkView::Moves(a, b))
            } else {
                Err("dice must be 1-6"@)
            },
            None => Err("die1 and die2 are required"@),
        },
        EvalMethod::Analyze => match dice_in(params) {
            Some((a, b)) => match params.played_move {
                Some(text) => if are_dice(a, b) {
                    Ok(WorkView::Analyze(a, b, text@))
                } else {
                    Err("dice must be 1-6"@)
                },
                None => Err("analyzeMove requires a move"@),
            },
            None => Err("die1 and die2 are required"@),
        },
    }
}

fn work(method: EvalMethod, params: &EvaluateParams) -> (r: Result<Work, MappingError>)
    ensures
        match work_of(method, *params) {
            Ok(w) => r matches Ok(work) && work@ == w,
            Err(message) => r matches Err(MappingError::Invalid(m)) && m@ == message,
        },
{
    match method {
        EvalMethod::Position => Ok(Work::Position),
        EvalMethod::Cube => Ok(Work::Cube),
        EvalMethod::Moves => match require_dice(params) {
            Ok((die1, die2)) => match check_dice(die1, die2) {
                Ok(()) => Ok(Work::Moves(die1, die2)),
                Err(e) => Err(e),
            },
            Err(e) => Err(e),
        },
        EvalMethod::Analyze => match require_dice(params) {
            Ok((die1, die2)) => match &params.played_move {
                Some(text) => match check_dice(die1, die2) {
                    Ok(()) => Ok(Work::Analyze(die1, die2, text.clone())),
                    Err(e) => Err(e),
                },
                None => Err(MappingError::Invalid("analyzeMove requires a move".to_owned())),
            },
            Err(e) => Err(e),
        },
    }
}

/// The call that some work asks an engine for.
pub open spec fn call_for(work: WorkView) -> EngineCall {
    match work {
        WorkView::Position => EngineCall::PreRoll,
        WorkView::Cube => EngineCall::CubeAction,
        WorkView::Moves(a, b) => EngineCall::CheckerPlay(a, b),
        WorkView::Analyze(a, b, _) => EngineCall::CheckerPlay(a, b),
    }
}

/// The call that some work asks an engine for.
pub fn engine_call(work: &Work) -> (r: EngineCall)
    ensures
        r == call_for(work@),
{
    match work {
        Work::Position => EngineCall::PreRoll,
        Work::Cube => EngineCall::CubeAction,
        Work::Moves(die1, die2) => EngineCall::CheckerPlay(*die1, *die2),
        Work::Analyze(die1, die2, _) => EngineCall::CheckerPlay(*die1, *die2),
    }
}

/// What is done on the engine for some work. An engine that can be cancelled
/// reports its progress.
pub fn work_steps(work: &Work, supports_cancel: bool) -> (r: Vec<CallStep>)
    ensures
        r@ == steps_for(call_for(work@), supports_cancel),
{
    call_steps(engine_call(work), supports_cancel)
}

// Failures

/// How a request is answered whose level gives no engine.
pub open spec fn no_engine(e: EngineGetError) -> ReplyView {
    match e {
        EngineGetError::Level(LevelError::UnknownLevel(level)) => ReplyView {
            code: ReplyCode::UnknownLevel,
            message: "unknown level "@ + quoted_text(level@),
        },
        EngineGetError::Level(LevelError::InvalidOptions(message)) => ReplyView {
            code: ReplyCode::InvalidParams,
            message: message@,
        },
        EngineGetError::Create(e) => ReplyView {
            code: ReplyCode::EvaluationFailed,
            message: capi_error_text(e.code as int, e.message@),
        },
    }
}

/// How a request is answered whose level gives no engine.
pub fn engine_failure(e: EngineGetError) -> (r: ErrorReply)
    ensures
        r@ == no_engine(e),
{
    match e {
        EngineGetError::Level(LevelError::UnknownLevel(level)) => {
            let mut message = String::from_str("unknown level ");
            message.append(quoted(level.as_str()).as_str());
            ErrorReply { code: ReplyCode::UnknownLevel, message }
        },
        EngineGetError::Level(LevelError::InvalidOptions(message)) => ErrorReply {
            code: ReplyCode::InvalidParams,
            message,
        },
        EngineGetError::Create(e) => ErrorReply {
            code: ReplyCode::EvaluationFailed,
            message: e.to_string(),
        },
    }
}

/// How a request is answered whose evaluation failed.
pub open spec fn no_result(e: MappingError) -> ReplyView {
    match e {
        MappingError::Engine(e) => if e.code == 4 {
            ReplyView { code: ReplyCode::Cancelled, message: "evaluation cancelled"@ }
        } else {
            ReplyView {
                code: ReplyCode::EvaluationFailed,
                message: capi_error_text(e.code as int, e.message@),
            }
        },
        MappingError::Id(message) => ReplyView { code: ReplyCode::InvalidId, message: message@ },
        MappingError::Invalid(message) => ReplyView { code: ReplyCode::InvalidParams, message: message@ },
        MappingError::Failed(message) => ReplyView {
            code: ReplyCode::EvaluationFailed,
            message: message@,
        },
    }
}

/// How a request is answered whose evaluation failed.
pub fn evaluation_failure(e: MappingError) -> (r: ErrorReply)
    ensures
        r@ == no_result(e),
{
    match e {
        MappingError::Engine(e) => {
            if e.is_cancelled() {
                ErrorReply { code: ReplyCode::Cancelled, message: "evaluation cancelled".to_owned() }
            } else {
                ErrorReply { code: ReplyCode::EvaluationFailed, message: e.to_string() }
            }
        },
        MappingError::Id(message) => ErrorReply { code: ReplyCode::InvalidId, message },
        MappingError::Invalid(message) => ErrorReply { code: ReplyCode::InvalidParams, message },
        MappingError::Failed(message) => ErrorReply { code: ReplyCode::EvaluationFailed, message },
    }
}

/// How a request is answered whose evaluation broke off, with what it said if it
/// said anything.
pub open spec fn broke_off(detail: Option<String>) -> ReplyView {
    ReplyView {
        code: ReplyCode::InternalError,
        message: match detail {
            Some(text) => text@,
            None => "panic in evaluation thread"@,
        },
    }
}

/// How a request is answered whose evaluation broke off, with what it said if it
/// said anything.
pub fn panic_reply(detail: Option<String>) -> (r: ErrorReply)
    ensures
        r@ == broke_off(detail),
{
    match detail {
        Some(message) => ErrorReply { code: ReplyCode::InternalError, message },
        None => ErrorReply {
            code: ReplyCode::InternalError,
            message: "panic in evaluation thread".to_owned(),
        },
    }
}

/// A count as it is reported: nothing negative.
pub open spec fn counted(n: int) -> int {
    if n > 0 {
        n
    } else {
        0
    }
}

/// How far an evaluation has come, as it is reported: nothing negative.
pub fn progress_counts(done: i32, total: i32) -> (r: (u64, u64))
    ensures
        r.0 == counted(done as int),
        r.1 == counted(total as int),
{
    let d: u64 = if done > 0 {
        done as u64
    } else {
        0
    };
    let t: u64 = if total > 0 {
        total as u64
    } else {
        0
    };
    (d, t)
}

// Steps

/// What is to be done next for a request.
#[derive(Debug)]
pub enum Step {
    /// Read the position id.
    DecodePosition,
    /// Read the match id.
    DecodeMatch(Board),
    /// Get the engine of the level.
    Resolve(Board, CubeCtx),
    /// Note the engine, by its place in the pool, with the request, and see whether
    /// the request has been cancelled.
    Attach(Board, CubeCtx, usize),
    /// Evaluate.
    Run(Board, CubeCtx, usize, Work),
    /// Answer: with the result, or with an error.
    Done(Result<(), ErrorReply>),
}

/// What is to be done next, with its texts as sequences of characters.
pub enum StepView {
    DecodePosition,
    DecodeMatch(Board),
    Resolve(Board, CubeCtx),
    Attach(Board, CubeCtx, usize),
    Run(Board, CubeCtx, usize, WorkView),
    Done(Result<(), ReplyView>),
}

impl View for Step {
    type V = StepView;

    open spec fn view(&self) -> StepView {
        match self {
            Step::DecodePosition => StepView::DecodePosition,
            Step::DecodeMatch(b) => StepView::DecodeMatch(*b),
            Step::Resolve(b, c) => StepView::Resolve(*b, *c),
            Step::Attach(b, c, h) => StepView::Attach(*b, *c, *h),
            Step::Run(b, c, h, w) => StepView::Run(*b, *c, *h, w@),
            Step::Done(Ok(())) => StepView::Done(Ok(())),
            Step::Done(Err(e)) => StepView::Done(Err(e@)),
        }
    }
}

/// What came of a step.
#[derive(Debug)]
pub enum Event {
    Position(Result<Board, String>),
    Match(Result<MatchContext, String>),
    Engine(Result<usize, EngineGetError>),
    /// The engine has been noted; whether the request had been cancelled.
    Attached(bool),
    Finished(Result<(), MappingError>),
}

/// The event is one that the step can lead to.
pub open spec fn answers(step: StepView, event: Event) -> bool {
    match step {
        StepView::DecodePosition => event is Position,
        StepView::DecodeMatch(_) => event is Match,
        StepView::Resolve(_, _) => event is Engine,
        StepView::Attach(_, _, _) => event is Attached,
        StepView::Run(_, _, _, _) => event is Finished,
        StepView::Done(_) => false,
    }
}

/// The step after an event. An event that the step cannot lead to changes nothing.
pub open spec fn advanced(step: StepView, event: Event, method: EvalMethod, params: EvaluateParams) -> StepView {
    match (step, event) {
        (StepView::DecodePosition, Event::Position(Ok(board))) => StepView::DecodeMatch(board),
        (StepView::DecodePosition, Event::Position(Err(m))) => StepView::Done(
            Err(ReplyView { code: ReplyCode::InvalidId, message: m@ }),
        ),
        (StepView::DecodeMatch(board), Event::Match(Ok(context))) => StepView::Resolve(
            board,
            ctx_of(context),
        ),
        (StepView::DecodeMatch(_), Event::Match(Err(m))) => StepView::Done(
            Err(ReplyView { code: ReplyCode::InvalidId, message: m@ }),
        ),
        (StepView::Resolve(board, cube), Event::Engine(Ok(handle))) => StepView::Attach(
            board,
            cube,
            handle,
        ),
        (StepView::Resolve(_, _), Event::Engine(Err(e))) => StepView::Done(Err(no_engine(e))),
        (StepView::Attach(board, cube, handle), Event::Attached(cancelled)) => if cancelled {
            StepView::Done(
                Err(
                    ReplyView { code: ReplyCode::Cancelled, message: "cancelled before evaluation"@ },
                ),
            )
        } else {
            match work_of(method, params) {
                Ok(w) => StepView::Run(board, cube, handle, w),
                Err(m) => StepView::Done(
                    Err(ReplyView { code: ReplyCode::InvalidParams, message: m }),
                ),
            }
        },
        (StepView::Run(_, _, _, _), Event::Finished(Ok(()))) => StepView::Done(Ok(())),
        (StepView::Run(_, _, _, _), Event::Finished(Err(e))) => StepView::Done(Err(no_result(e))),
        _ => step,
    }
}

/// What is to be done next, given what came of the step before.
pub fn advance(step: Step, event: Event, method: EvalMethod, params: &EvaluateParams) -> (r: Step)
    ensures
        r@ == advanced(step@, event, method, *params),
{
    match (step, event) {
        (Step::DecodePosition, Event::Position(Ok(board))) => Step::DecodeMatch(board),
        (Step::DecodePosition, Event::Position(Err(message))) => Step::Done(
            Err(ErrorReply { code: ReplyCode::InvalidId, message }),
        ),
        (Step::DecodeMatch(board), Event::Match(Ok(context))) => Step::Resolve(board, cube_ctx(&context)),
        (Step::DecodeMatch(_), Event::Match(Err(message))) => Step::Done(
            Err(ErrorReply { code: ReplyCode::InvalidId, message }),
        ),
        (Step::Resolve(board, cube), Event::Engine(Ok(handle))) => Step::Attach(board, cube, handle),
        (Step::Resolve(_, _), Event::Engine(Err(e))) => Step::Done(Err(engine_failure(e))),
        (Step::Attach(board, cube, handle), Event::Attached(cancelled)) => {
            if cancelled {
                return Step::Done(
                    Err(
                        ErrorReply {
                            code: ReplyCode::Cancelled,
                            message: "cancelled before evaluation".to_owned(),
                        },
                    ),
                );
            }
            match work(method, params) {
                Ok(w) => Step::Run(board, cube, handle, w),
                Err(e) => Step::Done(Err(evaluation_failure(e))),
            }
        },
        (Step::Run(_, _, _, _), Event::Finished(Ok(()))) => Step::Done(Ok(())),
        (Step::Run(_, _, _, _), Event::Finished(Err(e))) => Step::Done(Err(evaluation_failure(e))),
        (step, _) => step,
    }
}

// The whole of a request

/// Everything outside that a request may meet.
pub struct Outside {
    pub position: Result<Board, String>,
    pub context: Result<MatchContext, String>,
    pub engine: Result<usize, EngineGetError>,
    pub cancelled: bool,
    pub finished: Result<(), MappingError>,
}

/// What a request is answered: the first thing that goes wrong, in order, or the
/// result.
pub open spec fn answer(method: EvalMethod, params: EvaluateParams, o: Outside) -> Result<(), ReplyView> {
    if let Err(m) = o.position {
        Err(ReplyView { code: ReplyCode::InvalidId, message: m@ })
    } else if let Err(m) = o.context {
        Err(ReplyView { code: ReplyCode::InvalidId, message: m@ })
    } else if let Err(e) = o.engine {
        Err(no_engine(e))
    } else if o.cancelled {
        Err(ReplyView { code: ReplyCode::Cancelled, message: "cancelled before evaluation"@ })
    } else if let Err(m) = work_of(method, params) {
        Err(ReplyView { code: ReplyCode::InvalidParams, message: m })
    } else if let Err(e) = o.finished {
        Err(no_result(e))
    } else {
        Ok(())
    }
}

/// A request worked off from its beginning, with what it meets outside.
pub open spec fn worked_off(method: EvalMethod, params: EvaluateParams, o: Outside) -> StepView {
    let s1 = advanced(StepView::DecodePosition, Event::Position(o.position), method, params);
    let s2 = advanced(s1, Event::Match(o.context), method, params);
    let s3 = advanced(s2, Event::Engine(o.engine), method, params);
    let s4 = advanced(s3, Event::Attached(o.cancelled), method, params);
    advanced(s4, Event::Finished(o.finished), method, params)
}

/// Every request comes to an answer: the result, or the first thing that goes
/// wrong on the way to it.
pub proof fn law_every_request_answered(method: EvalMethod, params: EvaluateParams, o: Outside)
    ensures
        worked_off(method, params, o) == StepView::Done(answer(method, params, o)),
{
}

/// A request that was found cancelled is not evaluated: an evaluation begins only
/// when the engine has been noted and no cancel has come.
pub proof fn law_cancelled_never_runs(
    step: StepView,
    event: Event,
    method: EvalMethod,
    params: EvaluateParams,
)
    requires
        !(step is Run),
        advanced(step, event, method, params) is Run,
    ensures
        step is Attach,
        event == Event::Attached(false),
        work_of(method, params) is Ok,
{
}

/// Some work whose roll, if it has one, is two dice.
pub open spec fn rolls_dice(work: WorkView) -> bool {
    match work {
        WorkView::Moves(a, b) => are_dice(a, b),
        WorkView::Analyze(a, b, _) => are_dice(a, b),
        _ => true,
    }
}

/// The engine is never asked for the moves of a roll that cannot be: no event leads to
/// the evaluation of one.
pub proof fn law_only_dice_run(
    step: StepView,
    event: Event,
    method: EvalMethod,
    params: EvaluateParams,
)
    requires
        step matches StepView::Run(_, _, _, w) ==> rolls_dice(w),
    ensures
        advanced(step, event, method, params) matches StepView::Run(_, _, _, w) ==> rolls_dice(w)
            && (call_for(w) matches EngineCall::CheckerPlay(a, b) ==> are_dice(a, b)),
{
}

/// A request for the moves of a roll that cannot be is answered as soon as its engine
/// has been noted, without an evaluation.
pub proof fn law_bad_dice_answered(
    board: Board,
    cube: CubeCtx,
    handle: usize,
    method: EvalMethod,
    params: EvaluateParams,
)
    requires
        method == EvalMethod::Moves || (method == EvalMethod::Analyze && params.played_move is Some),
        dice_in(params) matches Some((a, b)) && !are_dice(a, b),
    ensures
        advanced(StepView::Attach(board, cube, handle), Event::Attached(false), method, params)
            == StepView::Done(
            Err(ReplyView { code: ReplyCode::InvalidParams, message: "dice must be 1-6"@ }),
        ),
{
}

/// An event that a step can lead to leads on; an answer is final.
pub proof fn law_steps_lead_on(
    step: StepView,
    event: Event,
    method: EvalMethod,
    params: EvaluateParams,
)
    ensures
        answers(step, event) ==> advanced(step, event, method, params) != step,
        step is Done ==> advanced(step, event, method, params) == step,
{
}

/// A request for the moves of a roll, or on a move of it, that gives both dice is run
/// with exactly those two, and the engine is asked for them, in that order; where one of
/// them is none of one to six it is answered that they must be.
pub proof fn law_roll_run(
    board: Board,
    cube: CubeCtx,
    handle: usize,
    params: EvaluateParams,
    a: i32,
    b: i32,
)
    requires
        params.die1 == Some(a),
        params.die2 == Some(b),
    ensures
        ({
            let step = StepView::Attach(board, cube, handle);
            let event = Event::Attached(false);
            let moves = advanced(step, event, EvalMethod::Moves, params);
            let analysis = advanced(step, event, EvalMethod::Analyze, params);
            let refused = StepView::Done(
                Err(ReplyView { code: ReplyCode::InvalidParams, message: "dice must be 1-6"@ }),
            );
            &&& 1 <= a <= 6 && 1 <= b <= 6 ==> moves == StepView::Run(
                board,
                cube,
                handle,
                WorkView::Moves(a, b),
            )
            &&& !(1 <= a <= 6 && 1 <= b <= 6) ==> moves == refused
            &&& params.played_move matches Some(text) ==> {
                &&& 1 <= a <= 6 && 1 <= b <= 6 ==> analysis == StepView::Run(
                    board,
                    cube,
                    handle,
                    WorkView::Analyze(a, b, text@),
                )
                &&& !(1 <= a <= 6 && 1 <= b <= 6) ==> analysis == refused
            }
            &&& params.played_move is None ==> analysis is Done
            &&& call_for(WorkView::Moves(a, b)) == EngineCall::CheckerPlay(a, b)
            &&& forall|text: Seq<char>|
                #[trigger] call_for(WorkView::Analyze(a, b, text)) == EngineCall::CheckerPlay(a, b)
        }),
{
}

/// A request for the moves of a roll that leaves a die out is not run, whatever else it
/// says; one on a position or on the cube is run whether it gives dice or not, and asks
/// the engine for the call of its kind.
pub proof fn law_dice_needed(
    board: Board,
    cube: CubeCtx,
    handle: usize,
    params: EvaluateParams,
    method: EvalMethod,
)
    ensures
        ({
            let next = advanced(
                StepView::Attach(board, cube, handle),
                Event::Attached(false),
                method,
                params,
            );
            &&& (method == EvalMethod::Moves || method == EvalMethod::Analyze) && (params.die1 is None
                || params.die2 is None) ==> (next matches StepView::Done(Err(e)) && e.code
                == ReplyCode::InvalidParams)
            &&& method == EvalMethod::Position ==> next == StepView::Run(
                board,
                cube,
                handle,
                WorkView::Position,
            )
            &&& method == EvalMethod::Cube ==> next == StepView::Run(board, cube, handle, WorkView::Cube)
            &&& call_for(WorkView::Position) == EngineCall::PreRoll
            &&& call_for(WorkView::Cube) == EngineCall::CubeAction
        }),
{
}

/// An evaluation runs on the position that was read, with the cube and the score of the
/// match that was read, on the engine that was found, for what the request asks.
pub proof fn law_run_on_what_was_read(
    method: EvalMethod,
    params: EvaluateParams,
    board: Board,
    context: MatchContext,
    handle: usize,
)
    ensures
        ({
            let s1 = advanced(StepView::DecodePosition, Event::Position(Ok(board)), method, params);
            let s2 = advanced(s1, Event::Match(Ok(context)), method, params);
            let s3 = advanced(s2, Event::Engine(Ok(handle)), method, params);
            let s4 = advanced(s3, Event::Attached(false), method, params);
            s4 matches StepView::Run(b, cube, h, w) ==> {
                &&& b == board
                &&& h == handle
                &&& cube.cube_value == context.cube_value
                &&& cube.away1 == context.away1
                &&& cube.away2 == context.away2
                &&& cube.is_crawford == 1 <==> context.crawford
                &&& cube.jacoby == 1 <==> context.jacoby
                &&& method == EvalMethod::Position <==> w is Position
                &&& method == EvalMethod::Cube <==> w is Cube
                &&& method == EvalMethod::Moves <==> w is Moves
                &&& method == EvalMethod::Analyze <==> w is Analyze
            }
        }),
{
    law_context_told(context);
}

/// What each thing that can go wrong is answered with: an id that cannot be read as such,
/// with what is wrong with it; a level or options that cannot be had, each as what it is;
/// a cancel as a cancel, before the evaluation and in it; a failure of the engine as a
/// failed evaluation. A request that nothing goes wrong with is answered with its result.
pub proof fn law_first_fault_told(method: EvalMethod, params: EvaluateParams, o: Outside)
    ensures
        ({
            let end = worked_off(method, params, o);
            let told = |code: ReplyCode, m: Seq<char>|
                end == StepView::Done(Err(ReplyView { code, message: m }));
            let coded = |code: ReplyCode| end matches StepView::Done(Err(e)) && e.code == code;
            let read = o.position is Ok && o.context is Ok;
            let ready = read && o.engine is Ok;
            let run = ready && !o.cancelled && work_of(method, params) is Ok;
            &&& o.position matches Err(m) ==> told(ReplyCode::InvalidId, m@)
            &&& o.position is Ok ==> (o.context matches Err(m) ==> told(ReplyCode::InvalidId, m@))
            &&& read ==> (o.engine matches Err(EngineGetError::Level(LevelError::UnknownLevel(_))) ==> coded(
                ReplyCode::UnknownLevel,
            ))
            &&& read ==> (o.engine matches Err(EngineGetError::Level(LevelError::InvalidOptions(m)))
                ==> told(ReplyCode::InvalidParams, m@))
            &&& read ==> (o.engine matches Err(EngineGetError::Create(_)) ==> coded(
                ReplyCode::EvaluationFailed,
            ))
            &&& ready && o.cancelled ==> coded(ReplyCode::Cancelled)
            &&& ready && !o.cancelled && !(work_of(method, params) is Ok) ==> coded(ReplyCode::InvalidParams)
            &&& run ==> (o.finished matches Err(MappingError::Engine(e)) ==> {
                &&& e.code == 4 ==> coded(ReplyCode::Cancelled)
                &&& e.code != 4 ==> coded(ReplyCode::EvaluationFailed)
            })
            &&& run ==> (o.finished matches Err(MappingError::Id(m)) ==> told(ReplyCode::InvalidId, m@))
            &&& run ==> (o.finished matches Err(MappingError::Invalid(m)) ==> told(
                ReplyCode::InvalidParams,
                m@,
            ))
            &&& run ==> (o.finished matches Err(MappingError::Failed(m)) ==> told(
                ReplyCode::EvaluationFailed,
                m@,
            ))
            &&& end == StepView::Done(Ok(())) <==> run && o.finished is Ok
        }),
{
}

/// Failures that differ in what the engine library says of them are told apart: the text
/// that a failed call is answered with ends in the library's own.
pub proof fn law_engine_failure_told(e: CapiError)
    requires
        e.code != 4,
    ensures
        ({
            let text = no_result(MappingError::Engine(e)).message;
            &&& text.len() >= e.message@.len()
            &&& text.skip(text.len() - e.message@.len()) == e.message@
            &&& no_engine(EngineGetError::Create(e)) == no_result(MappingError::Engine(e))
        }),
{
    let text = no_result(MappingError::Engine(e)).message;
    assert(text.skip(text.len() - e.message@.len()) =~= e.message@);
}

/// An evaluation that broke off is answered as a fault of the program, in its own words
/// where it had any.
pub proof fn law_broken_off_told(detail: Option<String>)
    ensures
        broke_off(detail).code == ReplyCode::InternalError,
        detail matches Some(text) ==> broke_off(detail).message == text@,
        detail is None ==> broke_off(detail).message.len() > 0,
{
    reveal_strlit("panic in evaluation thread");
}

/// Progress is reported as it is counted, never as less than nothing, and never goes back
/// where the count does not.
pub proof fn law_progress_counts(n: int, m: int)
    ensures
        counted(n) >= 0,
        n >= 0 ==> counted(n) == n,
        n <= m ==> counted(n) <= counted(m),
{
}

} // verus!
