//! What a request is answered with, from what the engine gave for it.
use vstd::pervasive::unreached;
use vstd::prelude::*;

use crate::board::Board;
#[allow(unused_imports)]
use crate::board::{board_fits, points};
use crate::calls::EngineCall;
use crate::evaluation::Work;
#[allow(unused_imports)]
use crate::evaluation::{call_for, rolls_dice, WorkView};
use crate::ffi::CapiError;
#[allow(unused_imports)]
use crate::hops::{hops_text, move_hops};
use crate::mapping::{
    analyze_payload, evaluate_cube, evaluate_position, evaluated_now, moves_payload,
    ranked_moves_at, CubeEvaluation, CubeNumbers, MappingError, MoveAnalysis, MoveEntry,
    MovesEvaluation, PositionEvaluation, PositionNumbers, MOVE_BUFFER_LEN,
};
#[allow(unused_imports)]
use crate::mapping::{
    analysis, cube_answer, is_utc_stamp, law_best_is_first, law_played_move_is,
    law_ranks_follow_engine, played_index, position_answer, ranking, CubeAction, RankedMoves,
};
#[allow(unused_imports)]
use crate::notation::played;

verus! {

/// What an engine gave for a call. The numbers of a position or a cube decision are of
/// type `V`, those of a move of type `M`.
#[derive(Debug)]
pub enum Outcome<V, M> {
    Position(Result<PositionNumbers<V>, CapiError>),
    Cube(Result<CubeNumbers<V>, CapiError>),
    Moves(Result<Vec<MoveEntry<M>>, CapiError>),
}

/// The result that a request is answered with.
#[derive(Debug)]
pub enum Evaluation<V, M> {
    Position(PositionEvaluation<V>),
    Cube(CubeEvaluation<V>),
    Moves(MovesEvaluation<M>),
    Analysis(MoveAnalysis<M>),
}

/// What ranked moves are stamped with, besides the time.
#[derive(Debug)]
pub struct Stamps {
    /// The position id as it is stored, or why it cannot be read.
    pub storage_id: Result<String, String>,
    pub match_id: String,
    pub plies: i32,
}

/// The outcome is one of the given call, and holds no more moves than are read back.
pub open spec fn comes_of<V, M>(call: EngineCall, outcome: Outcome<V, M>) -> bool {
    match call {
        EngineCall::PreRoll => outcome is Position,
        EngineCall::CubeAction => outcome is Cube,
        EngineCall::CheckerPlay(_, _) => outcome matches Outcome::Moves(play) && (play matches Ok(entries)
            ==> entries@.len() <= MOVE_BUFFER_LEN),
    }
}

/// Whether an outcome is one of the given call, and holds no more moves than are read
/// back.
pub fn is_outcome<V, M>(call: EngineCall, outcome: &Outcome<V, M>) -> (r: bool)
    ensures
        r == comes_of(call, *outcome),
{
    match (call, outcome) {
        (EngineCall::PreRoll, Outcome::Position(_)) => true,
        (EngineCall::CubeAction, Outcome::Cube(_)) => true,
        (EngineCall::CheckerPlay(_, _), Outcome::Moves(Ok(entries))) => entries.len() <= MOVE_BUFFER_LEN,
        (EngineCall::CheckerPlay(_, _), Outcome::Moves(Err(_))) => true,
        _ => false,
    }
}

/// The ranked moves, as a result: all of them, or why there are none.
pub open spec fn moves_result<V, M>(
    r: Result<Evaluation<V, M>, MappingError>,
    ranked: Result<RankedMoves<M>, MappingError>,
) -> bool {
    match ranked {
        Ok(moves) => r matches Ok(Evaluation::Moves(m)) && m.die1 == moves.die1 && m.die2 == moves.die2
            && m.alternatives == moves.hints,
        Err(e) => r == Err::<Evaluation<V, M>, MappingError>(e),
    }
}

/// A played move among the ranked ones, as a result, or why it cannot be told.
pub open spec fn analysis_result<V, M>(
    r: Result<Evaluation<V, M>, MappingError>,
    ranked: Result<RankedMoves<M>, MappingError>,
    board: Seq<int>,
    notation: Seq<char>,
) -> bool {
    match ranked {
        Ok(moves) => match r {
            Ok(Evaluation::Analysis(a)) => analysis(Ok(a), moves, board, notation),
            Ok(_) => false,
            Err(e) => analysis(Err(e), moves, board, notation),
        },
        Err(e) => r == Err::<Evaluation<V, M>, MappingError>(e),
    }
}

/// What some work comes to, given what the engine gave for it: a position and a cube
/// decision are answered with their numbers, a roll with its ranked moves, and a played
/// move with its place among them.
pub open spec fn result_at<V, M>(
    r: Result<Evaluation<V, M>, MappingError>,
    work: WorkView,
    board: Board,
    outcome: Outcome<V, M>,
    stamps: Stamps,
    utc: Seq<char>,
) -> bool {
    match (work, outcome) {
        (WorkView::Position, Outcome::Position(Ok(n))) => r == Ok::<Evaluation<V, M>, MappingError>(
            Evaluation::Position(position_answer(n)),
        ),
        (WorkView::Position, Outcome::Position(Err(e))) => r == Err::<Evaluation<V, M>, MappingError>(
            MappingError::Engine(e),
        ),
        (WorkView::Cube, Outcome::Cube(Ok(n))) => r == Ok::<Evaluation<V, M>, MappingError>(
            Evaluation::Cube(cube_answer(n)),
        ),
        (WorkView::Cube, Outcome::Cube(Err(e))) => r == Err::<Evaluation<V, M>, MappingError>(
            MappingError::Engine(e),
        ),
        (WorkView::Moves(die1, die2), Outcome::Moves(play)) => exists|
            ranked: Result<RankedMoves<M>, MappingError>,
        | #[trigger]
            ranking(
                ranked,
                board,
                die1 as int,
                die2 as int,
                play,
                stamps.storage_id,
                stamps.match_id@,
                stamps.plies as int,
                utc,
            ) && moves_result(r, ranked),
        (WorkView::Analyze(die1, die2, notation), Outcome::Moves(play)) => exists|
            ranked: Result<RankedMoves<M>, MappingError>,
        | #[trigger]
            ranking(
                ranked,
                board,
                die1 as int,
                die2 as int,
                play,
                stamps.storage_id,
                stamps.match_id@,
                stamps.plies as int,
                utc,
            ) && analysis_result(r, ranked, points(board), notation),
        _ => false,
    }
}

/// What some work comes to, given what the engine gave for it and when.
pub fn evaluation_at<V: Copy, M: Copy>(
    work: &Work,
    board: &Board,
    outcome: Outcome<V, M>,
    stamps: Stamps,
    utc: &str,
) -> (r: Result<Evaluation<V, M>, MappingError>)
    requires
        comes_of(call_for(work@), outcome),
        board_fits(points(*board)),
    ensures
        result_at(r, work@, *board, outcome, stamps, utc@),
{
    let match_id = stamps.match_id.as_str();
    match (work, outcome) {
        (Work::Position, Outcome::Position(eval)) => match evaluate_position(eval) {
            Ok(answer) => Ok(Evaluation::Position(answer)),
            Err(e) => Err(e),
        },
        (Work::Cube, Outcome::Cube(numbers)) => match evaluate_cube(numbers) {
            Ok(answer) => Ok(Evaluation::Cube(answer)),
            Err(e) => Err(e),
        },
        (Work::Moves(die1, die2), Outcome::Moves(play)) => {
            let ranked = ranked_moves_at(
                board,
                *die1,
                *die2,
                play,
                stamps.storage_id,
                match_id,
                stamps.plies,
                utc,
            );
            match ranked {
                Ok(moves) => Ok(Evaluation::Moves(moves_payload(moves))),
                Err(e) => Err(e),
            }
        },
        (Work::Analyze(die1, die2, notation), Outcome::Moves(play)) => {
            let ranked = ranked_moves_at(
                board,
                *die1,
                *die2,
                play,
                stamps.storage_id,
                match_id,
                stamps.plies,
                utc,
            );
            match ranked {
                Ok(moves) => match analyze_payload(moves, board, notation.as_str()) {
                    Ok(answer) => Ok(Evaluation::Analysis(answer)),
                    Err(e) => Err(e),
                },
                Err(e) => Err(e),
            }
        },
        _ => unreached(),
    }
}

/// What some work comes to, given what the engine gave for it now.
pub fn evaluation<V: Copy, M: Copy>(
    work: &Work,
    board: &Board,
    outcome: Outcome<V, M>,
    stamps: Stamps,
) -> (r: Result<Evaluation<V, M>, MappingError>)
    requires
        comes_of(call_for(work@), outcome),
        board_fits(points(*board)),
    ensures
        exists|utc: Seq<char>|
            (utc.len() == 0 || is_utc_stamp(utc)) && #[trigger] result_at(
                r,
                work@,
                *board,
                outcome,
                stamps,
                utc,
            ),
{
    let now = evaluated_now();
    evaluation_at(work, board, outcome, stamps, now.as_str())
}

/// Once an evaluation has begun, the request is not found wanting: where the roll is two
/// dice, what fails is the engine, the reading of the id, or the evaluation.
pub proof fn law_request_not_blamed<V, M>(
    r: Result<Evaluation<V, M>, MappingError>,
    work: WorkView,
    board: Board,
    outcome: Outcome<V, M>,
    stamps: Stamps,
    utc: Seq<char>,
)
    requires
        rolls_dice(work),
        result_at(r, work, board, outcome, stamps, utc),
    ensures
        !(r matches Err(MappingError::Invalid(_))),
{
}

/// Where the engine failed of what it was asked, that is what the request is answered
/// with, whichever call it was.
pub proof fn law_engine_failure_passed_on<V, M>(
    r: Result<Evaluation<V, M>, MappingError>,
    work: WorkView,
    board: Board,
    outcome: Outcome<V, M>,
    stamps: Stamps,
    utc: Seq<char>,
    e: CapiError,
)
    requires
        rolls_dice(work),
        result_at(r, work, board, outcome, stamps, utc),
        outcome == Outcome::<V, M>::Position(Err(e)) || outcome == Outcome::<V, M>::Cube(Err(e)) || outcome
            == Outcome::<V, M>::Moves(Err(e)),
    ensures
        r == Err::<Evaluation<V, M>, MappingError>(MappingError::Engine(e)),
{
}

/// A position and a cube decision that the engine gave numbers for are answered, each
/// with an answer of its own kind.
pub proof fn law_numbers_answered<V, M>(
    r: Result<Evaluation<V, M>, MappingError>,
    work: WorkView,
    board: Board,
    outcome: Outcome<V, M>,
    stamps: Stamps,
    utc: Seq<char>,
)
    requires
        result_at(r, work, board, outcome, stamps, utc),
    ensures
        outcome matches Outcome::Position(Ok(n)) ==> (r matches Ok(Evaluation::Position(p)) && p.equity
            == n.cubeless && p.cubeful_equity == n.cubeful && p.win_prob == n.win),
        outcome matches Outcome::Cube(Ok(n)) ==> (r matches Ok(Evaluation::Cube(c)) && c.no_double_equity
            == n.no_double && c.take_equity == n.take && c.drop_equity == n.drop && (c.recommended_action
            == CubeAction::Double <==> n.should_double != 0)),
        outcome is Moves ==> !(r matches Ok(Evaluation::Position(_))) && !(r matches Ok(
            Evaluation::Cube(_),
        )),
{
}

/// A roll is answered with every move that the engine found, none left out and none
/// twice: in its order, the first with rank one, each with its value, the notation that is
/// found from the board, and the stamps of the request.
pub proof fn law_every_move_answered<V, M>(
    r: Result<Evaluation<V, M>, MappingError>,
    die1: i32,
    die2: i32,
    board: Board,
    entries: Vec<MoveEntry<M>>,
    stamps: Stamps,
    utc: Seq<char>,
)
    requires
        1 <= die1 <= 6,
        1 <= die2 <= 6,
        stamps.storage_id is Ok,
        result_at(
            r,
            WorkView::Moves(die1, die2),
            board,
            Outcome::<V, M>::Moves(Ok(entries)),
            stamps,
            utc,
        ),
    ensures
        r matches Ok(Evaluation::Moves(m)) && {
            &&& m.alternatives@.len() == entries@.len()
            &&& m.die1 <= m.die2
            &&& (m.die1 == die1 && m.die2 == die2) || (m.die1 == die2 && m.die2 == die1)
            &&& forall|i: int|
                0 <= i < entries@.len() ==> (#[trigger] m.alternatives@[i]).rank == i + 1
                    && m.alternatives@[i].value == entries@[i].value
                    && m.alternatives@[i].move_notation@ == hops_text(
                    move_hops(points(board), points(entries@[i].board), die1 as int, die2 as int),
                ) && m.alternatives@[i].gnubg_position_id@ == stamps.storage_id->Ok_0@
                    && m.alternatives@[i].gnubg_match_id@ == stamps.match_id@ && m.alternatives@[i].plies
                    == stamps.plies && m.alternatives@[i].evaluated_utc@ == utc
        },
{
    let play = Ok::<Vec<MoveEntry<M>>, CapiError>(entries);
    let ranked = choose|ranked: Result<RankedMoves<M>, MappingError>| #[trigger]
        ranking(
            ranked,
            board,
            die1 as int,
            die2 as int,
            play,
            stamps.storage_id,
            stamps.match_id@,
            stamps.plies as int,
            utc,
        ) && moves_result(r, ranked);
    let moves = ranked->Ok_0;
    let m = r->Ok_0->Moves_0;
    assert(m.alternatives == moves.hints);
    law_ranks_follow_engine(
        moves,
        board,
        die1 as int,
        die2 as int,
        entries@,
        stamps.storage_id->Ok_0@,
        stamps.match_id@,
        stamps.plies as int,
        utc,
    );
    assert forall|i: int| 0 <= i < entries@.len() implies (#[trigger] m.alternatives@[i]).rank == i + 1
        && m.alternatives@[i].value == entries@[i].value && m.alternatives@[i].move_notation@ == hops_text(
        move_hops(points(board), points(entries@[i].board), die1 as int, die2 as int),
    ) && m.alternatives@[i].gnubg_position_id@ == stamps.storage_id->Ok_0@
        && m.alternatives@[i].gnubg_match_id@ == stamps.match_id@ && m.alternatives@[i].plies
        == stamps.plies && m.alternatives@[i].evaluated_utc@ == utc by {
        assert(moves.hints@[i]@.rank == i + 1);
    }
}

/// A played move is answered next to the engine's first, which is the same one whatever
/// was played; where the engine found no move, it cannot be answered.
pub proof fn law_analysis_answered<V, M>(
    r: Result<Evaluation<V, M>, MappingError>,
    die1: i32,
    die2: i32,
    notation: Seq<char>,
    board: Board,
    entries: Vec<MoveEntry<M>>,
    stamps: Stamps,
    utc: Seq<char>,
)
    requires
        1 <= die1 <= 6,
        1 <= die2 <= 6,
        stamps.storage_id is Ok,
        result_at(
            r,
            WorkView::Analyze(die1, die2, notation),
            board,
            Outcome::<V, M>::Moves(Ok(entries)),
            stamps,
            utc,
        ),
    ensures
        entries@.len() == 0 ==> r matches Err(MappingError::Failed(_)),
        entries@.len() > 0 ==> (r matches Ok(Evaluation::Analysis(a)) && {
            &&& a.best.rank == 1
            &&& a.best.value == entries@[0].value
            &&& 1 <= a.played.rank <= entries@.len()
            &&& a.played.value == entries@[a.played.rank - 1].value
            &&& (played(points(board), notation) matches Ok(after) ==> (exists|k: int|
                0 <= k < entries@.len() && points((#[trigger] entries@[k]).board) == after)
                ==> points(entries@[a.played.rank - 1].board) == after)
        }),
{
    let play = Ok::<Vec<MoveEntry<M>>, CapiError>(entries);
    let ranked = choose|ranked: Result<RankedMoves<M>, MappingError>| #[trigger]
        ranking(
            ranked,
            board,
            die1 as int,
            die2 as int,
            play,
            stamps.storage_id,
            stamps.match_id@,
            stamps.plies as int,
            utc,
        ) && analysis_result(r, ranked, points(board), notation);
    let moves = ranked->Ok_0;
    if entries@.len() > 0 {
        let a = r->Ok_0->Analysis_0;
        let found = Ok::<MoveAnalysis<M>, MappingError>(a);
        assert(analysis(found, moves, points(board), notation));
        law_best_is_first(
            found,
            found,
            moves,
            points(board),
            notation,
            points(board),
            notation,
            board,
            die1 as int,
            die2 as int,
            entries@,
            stamps.storage_id->Ok_0@,
            stamps.match_id@,
            stamps.plies as int,
            utc,
        );
        law_played_move_is(moves, points(board), notation);
        let at = played_index(moves, points(board), notation);
        assert(moves.hints@[at]@.rank == at + 1);
        assert(a.played@.rank == at + 1);
        if let Ok(after) = played(points(board), notation) {
            if exists|k: int| 0 <= k < entries@.len() && points((#[trigger] entries@[k]).board) == after {
                let k = choose|k: int| 0 <= k < entries@.len() && points((#[trigger] entries@[k]).board) == after;
                assert(points(moves.boards@[k]) == after);
                assert(moves.boards@[at] == entries@[at].board);
            }
        }
    }
}

} // verus!
