//! Engine results turned into answers.
//!
//! The engine's numbers are fractions that nothing here reads: they are carried
//! through as values of a type `V` of the caller's. What is decided here is which
//! moves are ranked how, how they are written, which of them was played, and what
//! the cube verdict is.
use vstd::prelude::*;

use crate::board::Board;
#[allow(unused_imports)]
use crate::board::{board_fits, points};
use crate::ffi::CapiError;
#[allow(unused_imports)]
use crate::hops::{hops_text, lost_hits, move_hops};
use crate::hops::normalized_notation;
use crate::notation::{apply_move_notation, comparable_notation};
#[allow(unused_imports)]
use crate::notation::{collapsed, played};
#[allow(unused_imports)]
use crate::roundtrip::{law_notation_replays, may_become};
use crate::text::same_text;
#[allow(unused_imports)]
use crate::text::is_digit;

verus! {

/// The most ranked moves that are read back from the engine.
pub const MOVE_BUFFER_LEN: usize = 512;

/// Why an answer cannot be given.
#[derive(Debug)]
pub enum MappingError {
    /// The engine failed.
    Engine(CapiError),
    /// An id cannot be read.
    Id(String),
    /// The request asks for something that cannot be.
    Invalid(String),
    /// The evaluation failed outside the engine.
    Failed(String),
}

// Positions

/// The numbers of a position, within their bounds.
#[derive(Clone, Copy, Debug)]
pub struct PositionNumbers<V> {
    pub cubeless: V,
    pub cubeful: V,
    pub win: V,
    pub win_gammon: V,
    pub win_backgammon: V,
    pub lose_gammon: V,
    pub lose_backgammon: V,
}

/// The answer on a position.
#[derive(Clone, Copy, Debug)]
pub struct PositionEvaluation<V> {
    pub equity: V,
    pub cubeful_equity: V,
    pub win_prob: V,
    pub win_gammon: V,
    pub win_backgammon: V,
    pub lose_gammon: V,
    pub lose_backgammon: V,
}

/// The answer on a position that some numbers come to.
pub open spec fn position_answer<V>(n: PositionNumbers<V>) -> PositionEvaluation<V> {
    PositionEvaluation {
        equity: n.cubeless,
        cubeful_equity: n.cubeful,
        win_prob: n.win,
        win_gammon: n.win_gammon,
        win_backgammon: n.win_backgammon,
        lose_gammon: n.lose_gammon,
        lose_backgammon: n.lose_backgammon,
    }
}

/// The answer on a position, from what the engine gave.
pub fn evaluate_position<V: Copy>(eval: Result<PositionNumbers<V>, CapiError>) -> (r: Result<
    PositionEvaluation<V>,
    MappingError,
>)
    ensures
        match eval {
            Ok(n) => r == Ok::<PositionEvaluation<V>, MappingError>(position_answer(n)),
            Err(e) => r == Err::<PositionEvaluation<V>, MappingError>(MappingError::Engine(e)),
        },
{
    match eval {
        Ok(n) => Ok(
            PositionEvaluation {
                equity: n.cubeless,
                cubeful_equity: n.cubeful,
                win_prob: n.win,
                win_gammon: n.win_gammon,
                win_backgammon: n.win_backgammon,
                lose_gammon: n.lose_gammon,
                lose_backgammon: n.lose_backgammon,
            },
        ),
        Err(e) => Err(MappingError::Engine(e)),
    }
}

// The cube

/// What the mover should do with the cube.
#[derive(Clone, Copy, Debug, PartialEq, Eq, Structural)]
pub enum CubeAction {
    NoDouble,
    Double,
}

/// The engine's numbers on a cube decision, within their bounds, and its two
/// verdicts, which are zero for no.
#[derive(Clone, Copy, Debug)]
pub struct CubeNumbers<V> {
    pub no_double: V,
    pub take: V,
    pub drop: V,
    pub double_take_gain: V,
    pub double_drop_gain: V,
    pub win: V,
    pub win_gammon: V,
    pub win_backgammon: V,
    /// Whether not doubling is worth more than the other side's dropping.
    pub no_double_beats_drop: bool,
    pub should_double: i32,
    pub should_take: i32,
}

/// The answer on a cube decision.
#[derive(Clone, Copy, Debug)]
pub struct CubeEvaluation<V> {
    pub recommended_action: CubeAction,
    pub no_double_equity: V,
    pub take_equity: V,
    pub drop_equity: V,
    pub double_take_gain: V,
    pub double_drop_gain: V,
    pub too_good_to_double: bool,
    pub cube_efficiency: Option<V>,
    pub our_win_prob: Option<V>,
    pub our_gammon_prob: Option<V>,
    pub our_backgammon_prob: Option<V>,
    pub opp_win_prob: Option<V>,
    pub opp_gammon_prob: Option<V>,
    pub opp_backgammon_prob: Option<V>,
}

/// The action that the engine's verdict comes to.
pub open spec fn action_of(should_double: int) -> CubeAction {
    if should_double != 0 {
        CubeAction::Double
    } else {
        CubeAction::NoDouble
    }
}

/// The mover plays on for a gammon: no double, the other side would drop, and the
/// position is worth more than the drop.
pub open spec fn too_good(should_double: int, should_take: int, no_double_beats_drop: bool) -> bool {
    should_double == 0 && should_take == 0 && no_double_beats_drop
}

/// The action to take and whether the position is too good to double.
pub fn cube_verdict(should_double: i32, should_take: i32, no_double_beats_drop: bool) -> (r: (
    CubeAction,
    bool,
))
    ensures
        r.0 == action_of(should_double as int),
        r.1 == too_good(should_double as int, should_take as int, no_double_beats_drop),
{
    let double = should_double != 0;
    let take = should_take != 0;
    let action = if double {
        CubeAction::Double
    } else {
        CubeAction::NoDouble
    };
    (action, !double && !take && no_double_beats_drop)
}

/// The answer on a cube decision that some numbers come to. The cube efficiency and
/// the other side's chances are not reported.
pub open spec fn cube_answer<V>(n: CubeNumbers<V>) -> CubeEvaluation<V> {
    CubeEvaluation {
        recommended_action: action_of(n.should_double as int),
        no_double_equity: n.no_double,
        take_equity: n.take,
        drop_equity: n.drop,
        double_take_gain: n.double_take_gain,
        double_drop_gain: n.double_drop_gain,
        too_good_to_double: too_good(
            n.should_double as int,
            n.should_take as int,
            n.no_double_beats_drop,
        ),
        cube_efficiency: None,
        our_win_prob: Some(n.win),
        our_gammon_prob: Some(n.win_gammon),
        our_backgammon_prob: Some(n.win_backgammon),
        opp_win_prob: None,
        opp_gammon_prob: None,
        opp_backgammon_prob: None,
    }
}

/// The answer on a cube decision, from what the engine gave.
pub fn evaluate_cube<V: Copy>(result: Result<CubeNumbers<V>, CapiError>) -> (r: Result<
    CubeEvaluation<V>,
    MappingError,
>)
    ensures
        match result {
            Ok(n) => r == Ok::<CubeEvaluation<V>, MappingError>(cube_answer(n)),
            Err(e) => r == Err::<CubeEvaluation<V>, MappingError>(MappingError::Engine(e)),
        },
{
    match result {
        Ok(n) => {
            let (action, good) = cube_verdict(n.should_double, n.should_take, n.no_double_beats_drop);
            Ok(
                CubeEvaluation {
                    recommended_action: action,
                    no_double_equity: n.no_double,
                    take_equity: n.take,
                    drop_equity: n.drop,
                    double_take_gain: n.double_take_gain,
                    double_drop_gain: n.double_drop_gain,
                    too_good_to_double: good,
                    cube_efficiency: None,
                    our_win_prob: Some(n.win),
                    our_gammon_prob: Some(n.win_gammon),
                    our_backgammon_prob: Some(n.win_backgammon),
                    opp_win_prob: None,
                    opp_gammon_prob: None,
                    opp_backgammon_prob: None,
                },
            )
        },
        Err(e) => Err(MappingError::Engine(e)),
    }
}

// Time stamps

/// Why a time cannot be written.
#[verifier::external_type_specification]
#[verifier::external_body]
pub struct ExFormat(time::error::Format);

/// `s` has a digit at each index from `from` up to `to`.
pub open spec fn digits_at(s: Seq<char>, from: int, to: int) -> bool {
    forall|i: int| from <= i < to ==> is_digit(#[trigger] s[i])
}

/// A time in UTC as RFC 3339 writes it: `YYYY-MM-DDTHH:MM:SS`, a fraction of one
/// to nine digits where there is one, and `Z`.
pub open spec fn is_utc_stamp(s: Seq<char>) -> bool {
    &&& s.len() == 20 || 22 <= s.len() <= 30
    &&& digits_at(s, 0, 4) && s[4] == '-'
    &&& digits_at(s, 5, 7) && s[7] == '-'
    &&& digits_at(s, 8, 10) && s[10] == 'T'
    &&& digits_at(s, 11, 13) && s[13] == ':'
    &&& digits_at(s, 14, 16) && s[16] == ':'
    &&& digits_at(s, 17, 19)
    &&& s.len() > 20 ==> s[19] == '.' && digits_at(s, 20, s.len() - 1)
    &&& s.last() == 'Z'
}

/// `OffsetDateTime::now_utc`, written by `OffsetDateTime::format` as RFC 3339. What
/// is written is a UTC stamp. Which time it is rests on the machine's clock. A year
/// before zero cannot be written; a clock past the year 9999 is more than `now_utc`
/// can hold, and it panics.
#[verifier::external_body]
fn utc_now() -> (r: Result<String, time::error::Format>)
    ensures
        r matches Ok(s) ==> is_utc_stamp(s@),
{
    time::OffsetDateTime::now_utc().format(&time::format_description::well_known::Rfc3339)
}

/// The stamp that writing a time gave, or nothing where it could not be written.
pub fn stamp_or_empty(stamp: Result<String, time::error::Format>) -> (r: String)
    ensures
        match stamp {
            Ok(s) => r@ == s@,
            Err(_) => r@.len() == 0,
        },
{
    match stamp {
        Ok(s) => s,
        Err(_) => String::new(),
    }
}

/// The present time in UTC, or nothing where it cannot be written.
pub fn evaluated_now() -> (r: String)
    ensures
        r@.len() == 0 || is_utc_stamp(r@),
{
    stamp_or_empty(utc_now())
}

// Ranked moves

/// A move that the engine found: the board that it leads to, and its numbers.
#[derive(Clone, Copy, Debug)]
pub struct MoveEntry<V> {
    pub board: Board,
    pub value: V,
}

/// A ranked move.
#[derive(Debug)]
pub struct MoveHint<V> {
    pub gnubg_position_id: String,
    pub gnubg_match_id: String,
    pub die1: i32,
    pub die2: i32,
    /// Always zero: the host knows which engine it asked.
    pub evaluation_engine_id: i32,
    pub plies: i32,
    /// One for the best.
    pub rank: i32,
    pub move_notation: String,
    pub value: V,
    pub evaluated_utc: String,
}

/// A ranked move, with its texts as sequences of characters.
pub struct HintView<V> {
    pub position_id: Seq<char>,
    pub match_id: Seq<char>,
    pub die1: int,
    pub die2: int,
    pub engine_id: int,
    pub plies: int,
    pub rank: int,
    pub notation: Seq<char>,
    pub value: V,
    pub utc: Seq<char>,
}

impl<V> View for MoveHint<V> {
    type V = HintView<V>;

    open spec fn view(&self) -> HintView<V> {
        HintView {
            position_id: self.gnubg_position_id@,
            match_id: self.gnubg_match_id@,
            die1: self.die1 as int,
            die2: self.die2 as int,
            engine_id: self.evaluation_engine_id as int,
            plies: self.plies as int,
            rank: self.rank as int,
            notation: self.move_notation@,
            value: self.value,
            utc: self.evaluated_utc@,
        }
    }
}

/// The ranked moves of a position, best first, and the board that each leads to.
#[derive(Debug)]
pub struct RankedMoves<V> {
    pub hints: Vec<MoveHint<V>>,
    pub boards: Vec<Board>,
    pub die1: i32,
    pub die2: i32,
}

impl<V> RankedMoves<V> {
    /// One board for each move.
    pub open spec fn wf(&self) -> bool {
        self.hints@.len() == self.boards@.len()
    }
}

/// The answer on the moves of a position.
#[derive(Debug)]
pub struct MovesEvaluation<V> {
    pub die1: i32,
    pub die2: i32,
    pub alternatives: Vec<MoveHint<V>>,
}

pub open spec fn is_die(d: int) -> bool {
    1 <= d <= 6
}

pub open spec fn lesser(a: int, b: int) -> int {
    if a <= b {
        a
    } else {
        b
    }
}

pub open spec fn greater(a: int, b: int) -> int {
    if a <= b {
        b
    } else {
        a
    }
}

/// Whether a roll can be: two dice of one to six.
pub fn check_dice(die1: i32, die2: i32) -> (r: Result<(), MappingError>)
    ensures
        match r {
            Ok(()) => is_die(die1 as int) && is_die(die2 as int),
            Err(e) => !(is_die(die1 as int) && is_die(die2 as int)) && (e matches MappingError::Invalid(
                m,
            ) && m@ == "dice must be 1-6"@),
        },
{
    if !(1 <= die1 && die1 <= 6) || !(1 <= die2 && die2 <= 6) {
        return Err(MappingError::Invalid("dice must be 1-6".to_owned()));
    }
    Ok(())
}

/// The ranked moves are those that the engine found, in its order, each with its
/// rank, its notation and the stamps of the request.
pub open spec fn ranks<V>(
    ranked: RankedMoves<V>,
    before: Board,
    die1: int,
    die2: int,
    entries: Seq<MoveEntry<V>>,
    position_id: Seq<char>,
    match_id: Seq<char>,
    plies: int,
    utc: Seq<char>,
) -> bool {
    &&& ranked.wf()
    &&& ranked.hints@.len() == entries.len()
    &&& ranked.die1 == lesser(die1, die2)
    &&& ranked.die2 == greater(die1, die2)
    &&& forall|i: int| 0 <= i < entries.len() ==> #[trigger] ranked.boards@[i] == entries[i].board
    &&& forall|i: int|
        0 <= i < entries.len() ==> (#[trigger] ranked.hints@[i])@ == (HintView {
            position_id,
            match_id,
            die1: lesser(die1, die2),
            die2: greater(die1, die2),
            engine_id: 0,
            plies,
            rank: i + 1,
            notation: hops_text(move_hops(points(before), points(entries[i].board), die1, die2)),
            value: entries[i].value,
            utc,
        })
}

/// What ranking the moves of a roll comes to: bad dice, then a failure of the engine,
/// then an id that cannot be read, or the ranked moves.
pub open spec fn ranking<V>(
    r: Result<RankedMoves<V>, MappingError>,
    before: Board,
    die1: int,
    die2: int,
    play: Result<Vec<MoveEntry<V>>, CapiError>,
    storage_id: Result<String, String>,
    match_id: Seq<char>,
    plies: int,
    utc: Seq<char>,
) -> bool {
    if !(is_die(die1) && is_die(die2)) {
        r matches Err(MappingError::Invalid(m)) && m@ == "dice must be 1-6"@
    } else {
        match play {
            Err(e) => r == Err::<RankedMoves<V>, MappingError>(MappingError::Engine(e)),
            Ok(entries) => match storage_id {
                Err(m) => r == Err::<RankedMoves<V>, MappingError>(MappingError::Id(m)),
                Ok(id) => r matches Ok(ranked) && ranks(
                    ranked,
                    before,
                    die1,
                    die2,
                    entries@,
                    id@,
                    match_id,
                    plies,
                    utc,
                ),
            },
        }
    }
}

/// Ranks the moves that the engine found for a roll, with the time at which they
/// were evaluated.
pub fn ranked_moves_at<V: Copy>(
    before: &Board,
    die1: i32,
    die2: i32,
    play: Result<Vec<MoveEntry<V>>, CapiError>,
    storage_id: Result<String, String>,
    match_id: &str,
    plies_stamp: i32,
    evaluated_utc: &str,
) -> (r: Result<RankedMoves<V>, MappingError>)
    requires
        play matches Ok(entries) ==> entries@.len() <= MOVE_BUFFER_LEN,
    ensures
        ranking(
            r,
            *before,
            die1 as int,
            die2 as int,
            play,
            storage_id,
            match_id@,
            plies_stamp as int,
            evaluated_utc@,
        ),
{
    match check_dice(die1, die2) {
        Ok(()) => {},
        Err(e) => {
            return Err(e);
        },
    }
    let entries = match play {
        Ok(entries) => entries,
        Err(e) => {
            return Err(MappingError::Engine(e));
        },
    };
    let id = match storage_id {
        Ok(id) => id,
        Err(m) => {
            return Err(MappingError::Id(m));
        },
    };
    let sorted_die1: i32 = if die1 <= die2 {
        die1
    } else {
        die2
    };
    let sorted_die2: i32 = if die1 <= die2 {
        die2
    } else {
        die1
    };
    let mut hints: Vec<MoveHint<V>> = Vec::new();
    let mut boards: Vec<Board> = Vec::new();
    let mut i: usize = 0;
    while i < entries.len()
        invariant
            i <= entries.len(),
            entries@.len() <= MOVE_BUFFER_LEN,
            is_die(die1 as int),
            is_die(die2 as int),
            sorted_die1 == lesser(die1 as int, die2 as int),
            sorted_die2 == greater(die1 as int, die2 as int),
            hints@.len() == i,
            boards@.len() == i,
            forall|k: int| 0 <= k < i ==> #[trigger] boards@[k] == entries@[k].board,
            forall|k: int|
                0 <= k < i ==> (#[trigger] hints@[k])@ == (HintView {
                    position_id: id@,
                    match_id: match_id@,
                    die1: lesser(die1 as int, die2 as int),
                    die2: greater(die1 as int, die2 as int),
                    engine_id: 0,
                    plies: plies_stamp as int,
                    rank: k + 1,
                    notation: hops_text(
                        move_hops(points(*before), points(entries@[k].board), die1 as int, die2 as int),
                    ),
                    value: entries@[k].value,
                    utc: evaluated_utc@,
                }),
        decreases entries.len() - i,
    {
        let board: Board = entries[i].board;
        let move_notation = normalized_notation(before, &board, die1, die2);
        hints.push(
            MoveHint {
                gnubg_position_id: id.clone(),
                gnubg_match_id: match_id.to_owned(),
                die1: sorted_die1,
                die2: sorted_die2,
                evaluation_engine_id: 0,
                plies: plies_stamp,
                rank: (i + 1) as i32,
                move_notation,
                value: entries[i].value,
                evaluated_utc: evaluated_utc.to_owned(),
            },
        );
        boards.push(board);
        i = i + 1;
    }
    Ok(RankedMoves { hints, boards, die1: sorted_die1, die2: sorted_die2 })
}

/// Ranks the moves that the engine found for a roll, as evaluated now.
pub fn ranked_moves<V: Copy>(
    before: &Board,
    die1: i32,
    die2: i32,
    play: Result<Vec<MoveEntry<V>>, CapiError>,
    storage_id: Result<String, String>,
    match_id: &str,
    plies_stamp: i32,
) -> (r: Result<RankedMoves<V>, MappingError>)
    requires
        play matches Ok(entries) ==> entries@.len() <= MOVE_BUFFER_LEN,
    ensures
        if !(is_die(die1 as int) && is_die(die2 as int)) {
            r matches Err(MappingError::Invalid(m)) && m@ == "dice must be 1-6"@
        } else {
            match play {
                Err(e) => r == Err::<RankedMoves<V>, MappingError>(MappingError::Engine(e)),
                Ok(entries) => match storage_id {
                    Err(m) => r == Err::<RankedMoves<V>, MappingError>(MappingError::Id(m)),
                    Ok(id) => r matches Ok(ranked) && exists|utc: Seq<char>|
                        (utc.len() == 0 || is_utc_stamp(utc)) && #[trigger] ranks(
                            ranked,
                            *before,
                            die1 as int,
                            die2 as int,
                            entries@,
                            id@,
                            match_id@,
                            plies_stamp as int,
                            utc,
                        ),
                },
            }
        },
{
    let now = evaluated_now();
    ranked_moves_at(before, die1, die2, play, storage_id, match_id, plies_stamp, now.as_str())
}

/// The answer on the moves of a position.
pub fn moves_payload<V>(ranked: RankedMoves<V>) -> (r: MovesEvaluation<V>)
    ensures
        r.die1 == ranked.die1,
        r.die2 == ranked.die2,
        r.alternatives == ranked.hints,
{
    MovesEvaluation { die1: ranked.die1, die2: ranked.die2, alternatives: ranked.hints }
}

// The played move

/// The answer on a played move: its own ranking and that of the best.
#[derive(Debug)]
pub struct MoveAnalysis<V> {
    pub played: MoveHint<V>,
    pub best: MoveHint<V>,
}

/// The first of some boards that holds the given counts.
pub open spec fn board_index(boards: Seq<Board>, b: Seq<int>) -> Option<int>
    decreases boards.len(),
{
    if boards.len() == 0 {
        None
    } else {
        match board_index(boards.drop_last(), b) {
            Some(i) => Some(i),
            None => if points(boards.last()) == b {
                Some(boards.len() - 1)
            } else {
                None
            },
        }
    }
}

/// The first of some moves whose notation compares as the given text.
pub open spec fn notation_index<V>(hints: Seq<MoveHint<V>>, text: Seq<char>) -> Option<int>
    decreases hints.len(),
{
    if hints.len() == 0 {
        None
    } else {
        match notation_index(hints.drop_last(), text) {
            Some(i) => Some(i),
            None => if collapsed(hints.last().move_notation@) == text {
                Some(hints.len() - 1)
            } else {
                None
            },
        }
    }
}

/// The ranked move that a notation stands for: the one that leads to the same
/// board; where the notation cannot be applied, the one that is written alike; and
/// the best where there is none.
pub open spec fn played_index<V>(ranked: RankedMoves<V>, board: Seq<int>, notation: Seq<char>) -> int {
    let found = match played(board, notation) {
        Ok(after) => board_index(ranked.boards@, after),
        Err(_) => notation_index(ranked.hints@, collapsed(notation)),
    };
    match found {
        Some(i) => i,
        None => 0,
    }
}

proof fn lemma_board_index_take(boards: Seq<Board>, b: Seq<int>, k: int)
    requires
        0 <= k <= boards.len(),
        board_index(boards.take(k), b) is Some,
    ensures
        board_index(boards, b) == board_index(boards.take(k), b),
    decreases boards.len(),
{
    if k == boards.len() {
        assert(boards.take(k) == boards);
    } else {
        assert(boards.drop_last().take(k) == boards.take(k));
        lemma_board_index_take(boards.drop_last(), b, k);
    }
}

proof fn lemma_notation_index_take<V>(hints: Seq<MoveHint<V>>, text: Seq<char>, k: int)
    requires
        0 <= k <= hints.len(),
        notation_index(hints.take(k), text) is Some,
    ensures
        notation_index(hints, text) == notation_index(hints.take(k), text),
    decreases hints.len(),
{
    if k == hints.len() {
        assert(hints.take(k) == hints);
    } else {
        assert(hints.drop_last().take(k) == hints.take(k));
        lemma_notation_index_take(hints.drop_last(), text, k);
    }
}

fn same_board(a: &Board, b: &Board) -> (r: bool)
    ensures
        r == (points(*a) == points(*b)),
{
    let mut i: usize = 0;
    while i < 26
        invariant
            i <= 26,
            forall|k: int| 0 <= k < i ==> points(*a)[k] == #[trigger] points(*b)[k],
        decreases 26 - i,
    {
        if a[i] != b[i] {
            assert(points(*a)[i as int] != points(*b)[i as int]);
            return false;
        }
        i = i + 1;
    }
    assert(points(*a) == points(*b));
    true
}

fn find_board(boards: &Vec<Board>, board: &Board) -> (r: Option<usize>)
    ensures
        match r {
            Some(i) => board_index(boards@, points(*board)) == Some(i as int) && i < boards@.len(),
            None => board_index(boards@, points(*board)) is None,
        },
{
    let mut i: usize = 0;
    while i < boards.len()
        invariant
            i <= boards.len(),
            board_index(boards@.take(i as int), points(*board)) is None,
        decreases boards.len() - i,
    {
        proof {
            let next = boards@.take(i + 1);
            assert(next.drop_last() == boards@.take(i as int));
            assert(next.last() == boards@[i as int]);
        }
        if same_board(&boards[i], board) {
            proof {
                lemma_board_index_take(boards@, points(*board), i + 1);
            }
            return Some(i);
        }
        i = i + 1;
    }
    assert(boards@.take(i as int) == boards@);
    None
}

fn find_notation<V>(hints: &Vec<MoveHint<V>>, wanted: &str) -> (r: Option<usize>)
    ensures
        match r {
            Some(i) => notation_index(hints@, wanted@) == Some(i as int) && i < hints@.len(),
            None => notation_index(hints@, wanted@) is None,
        },
{
    let mut i: usize = 0;
    while i < hints.len()
        invariant
            i <= hints.len(),
            notation_index(hints@.take(i as int), wanted@) is None,
        decreases hints.len() - i,
    {
        proof {
            let next = hints@.take(i + 1);
            assert(next.drop_last() == hints@.take(i as int));
            assert(next.last() == hints@[i as int]);
        }
        let text = comparable_notation(hints[i].move_notation.as_str());
        if same_text(text.as_str(), wanted) {
            proof {
                lemma_notation_index_take(hints@, wanted@, i + 1);
            }
            return Some(i);
        }
        i = i + 1;
    }
    assert(hints@.take(i as int) == hints@);
    None
}

fn copy_hint<V: Copy>(hint: &MoveHint<V>) -> (r: MoveHint<V>)
    ensures
        r@ == hint@,
{
    MoveHint {
        gnubg_position_id: hint.gnubg_position_id.clone(),
        gnubg_match_id: hint.gnubg_match_id.clone(),
        die1: hint.die1,
        die2: hint.die2,
        evaluation_engine_id: hint.evaluation_engine_id,
        plies: hint.plies,
        rank: hint.rank,
        move_notation: hint.move_notation.clone(),
        value: hint.value,
        evaluated_utc: hint.evaluated_utc.clone(),
    }
}

/// What looking up a played move comes to: a failure where nothing is ranked, or the
/// ranking of the move and that of the best.
pub open spec fn analysis<V>(
    r: Result<MoveAnalysis<V>, MappingError>,
    ranked: RankedMoves<V>,
    board: Seq<int>,
    notation: Seq<char>,
) -> bool {
    if ranked.hints@.len() == 0 {
        r matches Err(MappingError::Failed(m)) && m@ == "no ranked alternatives"@
    } else {
        let at = played_index(ranked, board, notation);
        r matches Ok(a) && a.best@ == ranked.hints@[0]@ && 0 <= at < ranked.hints@.len() && a.played@
            == ranked.hints@[at]@
    }
}

/// The answer on a played move, given in any notation.
pub fn analyze_payload<V: Copy>(ranked: RankedMoves<V>, board: &Board, played_notation: &str) -> (r: Result<
    MoveAnalysis<V>,
    MappingError,
>)
    requires
        ranked.wf(),
        board_fits(points(*board)),
    ensures
        analysis(r, ranked, points(*board), played_notation@),
{
    if ranked.hints.len() == 0 {
        return Err(MappingError::Failed("no ranked alternatives".to_owned()));
    }
    let best = copy_hint(&ranked.hints[0]);
    let found = match apply_move_notation(board, played_notation) {
        Ok(played_board) => find_board(&ranked.boards, &played_board),
        Err(_) => {
            let wanted = comparable_notation(played_notation);
            find_notation(&ranked.hints, wanted.as_str())
        },
    };
    let at: usize = match found {
        Some(i) => i,
        None => 0,
    };
    Ok(MoveAnalysis { played: copy_hint(&ranked.hints[at]), best })
}

proof fn lemma_board_index_hit(boards: Seq<Board>, b: Seq<int>, k: int)
    requires
        0 <= k < boards.len(),
        points(boards[k]) == b,
    ensures
        board_index(boards, b) matches Some(i) && 0 <= i <= k && points(boards[i]) == b,
    decreases boards.len(),
{
    let rest = boards.drop_last();
    if k < rest.len() {
        lemma_board_index_hit(rest, b, k);
    } else if let Some(i) = board_index(rest, b) {
        lemma_board_index_sound(rest, b);
    }
}

proof fn lemma_board_index_sound(boards: Seq<Board>, b: Seq<int>)
    ensures
        board_index(boards, b) matches Some(i) ==> 0 <= i < boards.len() && points(boards[i]) == b,
    decreases boards.len(),
{
    if boards.len() > 0 {
        lemma_board_index_sound(boards.drop_last(), b);
    }
}

/// The notation of a ranked move, given back as the move that was played, stands
/// for a move to the same board; for that very move, if no earlier one leads there.
pub proof fn law_ranked_move_found<V>(
    ranked: RankedMoves<V>,
    before: Board,
    die1: int,
    die2: int,
    entries: Seq<MoveEntry<V>>,
    position_id: Seq<char>,
    match_id: Seq<char>,
    plies: int,
    utc: Seq<char>,
    k: int,
)
    requires
        ranks(ranked, before, die1, die2, entries, position_id, match_id, plies, utc),
        0 <= k < entries.len(),
        is_die(die1),
        is_die(die2),
        may_become(points(before), points(entries[k].board)),
        lost_hits(points(before), points(entries[k].board), die1, die2) == Set::<int>::empty(),
    ensures
        ({
            let at = played_index(ranked, points(before), ranked.hints@[k].move_notation@);
            &&& 0 <= at <= k
            &&& points(ranked.boards@[at]) == points(entries[k].board)
            &&& (forall|i: int|
                0 <= i < k ==> points(#[trigger] ranked.boards@[i]) != points(entries[k].board)) ==> at == k
        }),
{
    let after = points(entries[k].board);
    assert(ranked.hints@[k]@.notation == hops_text(move_hops(points(before), after, die1, die2)));
    assert(ranked.boards@[k] == entries[k].board);
    law_notation_replays(points(before), after, die1, die2);
    lemma_board_index_hit(ranked.boards@, after, k);
}

/// A played move is told by the board that it leads to: notations of the same move
/// stand for the same ranked move, however they are written.
pub proof fn law_played_told_by_board<V>(
    ranked: RankedMoves<V>,
    board: Seq<int>,
    one: Seq<char>,
    other: Seq<char>,
)
    requires
        played(board, one) is Ok,
        played(board, one) == played(board, other),
    ensures
        played_index(ranked, board, one) == played_index(ranked, board, other),
{
}

// What holds of answers

/// Too good to double says three things, and each is needed: the engine advises no
/// double, the other side would drop, and not doubling is worth more than the drop. So a
/// position whose double would be taken is never too good, nor one to be doubled.
pub proof fn law_too_good(should_double: int, should_take: int, beats: bool)
    ensures
        too_good(should_double, should_take, beats) ==> should_double == 0,
        too_good(should_double, should_take, beats) ==> should_take == 0,
        too_good(should_double, should_take, beats) ==> beats,
        should_double == 0 && should_take == 0 && beats ==> too_good(should_double, should_take, beats),
        should_take != 0 ==> !too_good(should_double, should_take, true) && !too_good(
            should_double,
            should_take,
            false,
        ),
        action_of(should_double) == CubeAction::Double <==> should_double != 0,
        too_good(should_double, should_take, beats) ==> action_of(should_double) == CubeAction::NoDouble,
{
}

/// The cube answer follows the engine's verdicts, whatever its numbers: it doubles
/// exactly where the engine does, and calls a position too good exactly where the engine
/// neither doubles nor takes and not doubling beats the drop.
pub proof fn law_cube_answer<V>(n: CubeNumbers<V>)
    ensures
        cube_answer(n).recommended_action == CubeAction::Double <==> n.should_double != 0,
        cube_answer(n).too_good_to_double <==> n.should_double == 0 && n.should_take == 0
            && n.no_double_beats_drop,
        cube_answer(n).too_good_to_double ==> cube_answer(n).recommended_action == CubeAction::NoDouble,
        cube_answer(n).cube_efficiency is None,
        cube_answer(n).opp_win_prob is None,
        cube_answer(n).opp_gammon_prob is None,
        cube_answer(n).opp_backgammon_prob is None,
{
}

/// Each number of a cube decision stands in its own place of the answer: another value
/// of it changes that place and no other.
pub proof fn law_cube_places<V>(n: CubeNumbers<V>, v: V)
    ensures
        cube_answer(CubeNumbers { no_double: v, ..n }) == (CubeEvaluation {
            no_double_equity: v,
            ..cube_answer(n)
        }),
        cube_answer(CubeNumbers { take: v, ..n }) == (CubeEvaluation { take_equity: v, ..cube_answer(n) }),
        cube_answer(CubeNumbers { drop: v, ..n }) == (CubeEvaluation { drop_equity: v, ..cube_answer(n) }),
        cube_answer(CubeNumbers { double_take_gain: v, ..n }) == (CubeEvaluation {
            double_take_gain: v,
            ..cube_answer(n)
        }),
        cube_answer(CubeNumbers { double_drop_gain: v, ..n }) == (CubeEvaluation {
            double_drop_gain: v,
            ..cube_answer(n)
        }),
        cube_answer(CubeNumbers { win: v, ..n }) == (CubeEvaluation {
            our_win_prob: Some(v),
            ..cube_answer(n)
        }),
        cube_answer(CubeNumbers { win_gammon: v, ..n }) == (CubeEvaluation {
            our_gammon_prob: Some(v),
            ..cube_answer(n)
        }),
        cube_answer(CubeNumbers { win_backgammon: v, ..n }) == (CubeEvaluation {
            our_backgammon_prob: Some(v),
            ..cube_answer(n)
        }),
{
}

/// Each number of a position stands in its own place of the answer: another value of it
/// changes that place and no other.
pub proof fn law_position_places<V>(n: PositionNumbers<V>, v: V)
    ensures
        position_answer(PositionNumbers { cubeless: v, ..n }) == (PositionEvaluation {
            equity: v,
            ..position_answer(n)
        }),
        position_answer(PositionNumbers { cubeful: v, ..n }) == (PositionEvaluation {
            cubeful_equity: v,
            ..position_answer(n)
        }),
        position_answer(PositionNumbers { win: v, ..n }) == (PositionEvaluation {
            win_prob: v,
            ..position_answer(n)
        }),
        position_answer(PositionNumbers { win_gammon: v, ..n }) == (PositionEvaluation {
            win_gammon: v,
            ..position_answer(n)
        }),
        position_answer(PositionNumbers { win_backgammon: v, ..n }) == (PositionEvaluation {
            win_backgammon: v,
            ..position_answer(n)
        }),
        position_answer(PositionNumbers { lose_gammon: v, ..n }) == (PositionEvaluation {
            lose_gammon: v,
            ..position_answer(n)
        }),
        position_answer(PositionNumbers { lose_backgammon: v, ..n }) == (PositionEvaluation {
            lose_backgammon: v,
            ..position_answer(n)
        }),
{
}

/// Ranked moves stand in the engine's order: the first has rank one, each next one more,
/// each with the value and the board that the engine gave in its place, and all with the
/// dice in rising order and the same stamps.
pub proof fn law_ranks_follow_engine<V>(
    ranked: RankedMoves<V>,
    before: Board,
    die1: int,
    die2: int,
    entries: Seq<MoveEntry<V>>,
    position_id: Seq<char>,
    match_id: Seq<char>,
    plies: int,
    utc: Seq<char>,
)
    requires
        ranks(ranked, before, die1, die2, entries, position_id, match_id, plies, utc),
    ensures
        ranked.hints@.len() == entries.len(),
        ranked.boards@.len() == entries.len(),
        entries.len() > 0 ==> ranked.hints@[0].rank == 1,
        forall|i: int, j: int|
            0 <= i < entries.len() && 0 <= j < entries.len() ==> (#[trigger] ranked.hints@[j]).rank - (
            #[trigger] ranked.hints@[i]).rank == j - i,
        forall|i: int|
            0 <= i < entries.len() ==> {
                let hint = #[trigger] ranked.hints@[i];
                &&& hint.value == entries[i].value
                &&& points(ranked.boards@[i]) == points(entries[i].board)
                &&& hint.die1 == ranked.die1
                &&& hint.die2 == ranked.die2
                &&& hint.gnubg_position_id@ == position_id
                &&& hint.gnubg_match_id@ == match_id
                &&& hint.plies == plies
                &&& hint.evaluated_utc@ == utc
                &&& hint.evaluation_engine_id == 0
            },
        ranked.die1 <= ranked.die2,
        (ranked.die1 == die1 && ranked.die2 == die2) || (ranked.die1 == die2 && ranked.die2 == die1),
{
    assert forall|i: int, j: int| 0 <= i < entries.len() && 0 <= j < entries.len() implies (
    #[trigger] ranked.hints@[j]).rank - (#[trigger] ranked.hints@[i]).rank == j - i by {
        assert(ranked.hints@[i]@.rank == i + 1);
        assert(ranked.hints@[j]@.rank == j + 1);
    }
    assert forall|i: int| 0 <= i < entries.len() implies {
        let hint = #[trigger] ranked.hints@[i];
        &&& hint.value == entries[i].value
        &&& points(ranked.boards@[i]) == points(entries[i].board)
        &&& hint.die1 == ranked.die1
        &&& hint.die2 == ranked.die2
        &&& hint.gnubg_position_id@ == position_id
        &&& hint.gnubg_match_id@ == match_id
        &&& hint.plies == plies
        &&& hint.evaluated_utc@ == utc
        &&& hint.evaluation_engine_id == 0
    } by {
        let view = ranked.hints@[i]@;
        assert(view.value == entries[i].value && view.position_id == position_id);
        assert(ranked.boards@[i] == entries[i].board);
    }
    if entries.len() > 0 {
        assert(ranked.hints@[0]@.rank == 1);
    }
}

/// When moves cannot be ranked: for dice that cannot be, first of all; then for what the
/// engine failed of; then for an id that cannot be read; and for nothing else.
pub proof fn law_ranking_fails<V>(
    r: Result<RankedMoves<V>, MappingError>,
    before: Board,
    die1: int,
    die2: int,
    play: Result<Vec<MoveEntry<V>>, CapiError>,
    storage_id: Result<String, String>,
    match_id: Seq<char>,
    plies: int,
    utc: Seq<char>,
)
    requires
        ranking(r, before, die1, die2, play, storage_id, match_id, plies, utc),
    ensures
        r matches Err(MappingError::Invalid(_)) <==> !(1 <= die1 <= 6 && 1 <= die2 <= 6),
        1 <= die1 <= 6 && 1 <= die2 <= 6 ==> (play matches Err(e) ==> r == Err::<
            RankedMoves<V>,
            MappingError,
        >(MappingError::Engine(e))),
        1 <= die1 <= 6 && 1 <= die2 <= 6 && play is Ok ==> (storage_id matches Err(m) ==> r == Err::<
            RankedMoves<V>,
            MappingError,
        >(MappingError::Id(m))),
        r is Ok <==> 1 <= die1 <= 6 && 1 <= die2 <= 6 && play is Ok && storage_id is Ok,
        r matches Ok(ranked) ==> ranked.hints@.len() == play->Ok_0@.len(),
{
}

proof fn lemma_notation_index<V>(hints: Seq<MoveHint<V>>, text: Seq<char>)
    ensures
        notation_index(hints, text) matches Some(i) ==> 0 <= i < hints.len() && collapsed(
            hints[i].move_notation@,
        ) == text && forall|k: int|
            0 <= k < i ==> collapsed((#[trigger] hints[k]).move_notation@) != text,
        notation_index(hints, text) is None ==> forall|k: int|
            0 <= k < hints.len() ==> collapsed((#[trigger] hints[k]).move_notation@) != text,
    decreases hints.len(),
{
    if hints.len() > 0 {
        let rest = hints.drop_last();
        lemma_notation_index(rest, text);
        assert(forall|k: int| 0 <= k < rest.len() ==> #[trigger] rest[k] == hints[k]);
        match notation_index(rest, text) {
            Some(i) => {
                assert forall|k: int| 0 <= k < i implies collapsed((#[trigger] hints[k]).move_notation@)
                    != text by {
                    assert(rest[k] == hints[k]);
                }
            },
            None => {
                assert forall|k: int| 0 <= k < rest.len() implies collapsed(
                    (#[trigger] hints[k]).move_notation@,
                ) != text by {
                    assert(rest[k] == hints[k]);
                }
            },
        }
    }
}

proof fn lemma_board_index(boards: Seq<Board>, b: Seq<int>)
    ensures
        board_index(boards, b) matches Some(i) ==> 0 <= i < boards.len() && points(boards[i]) == b && forall|
            k: int,
        |
            0 <= k < i ==> points(#[trigger] boards[k]) != b,
        board_index(boards, b) is None ==> forall|k: int|
            0 <= k < boards.len() ==> points(#[trigger] boards[k]) != b,
    decreases boards.len(),
{
    if boards.len() > 0 {
        let rest = boards.drop_last();
        lemma_board_index(rest, b);
        assert(forall|k: int| 0 <= k < rest.len() ==> #[trigger] rest[k] == boards[k]);
        match board_index(rest, b) {
            Some(i) => {
                assert forall|k: int| 0 <= k < i implies points(#[trigger] boards[k]) != b by {
                    assert(rest[k] == boards[k]);
                }
            },
            None => {
                assert forall|k: int| 0 <= k < rest.len() implies points(#[trigger] boards[k]) != b by {
                    assert(rest[k] == boards[k]);
                }
            },
        }
    }
}

/// Which ranked move a played move is: where it can be made, the first that leads to the
/// board that it leads to; where it cannot, the first that is written alike but for
/// case, spaces and stars; and the best where there is none.
pub proof fn law_played_move_is<V>(ranked: RankedMoves<V>, board: Seq<int>, notation: Seq<char>)
    requires
        ranked.wf(),
        ranked.hints@.len() > 0,
    ensures
        ({
            let at = played_index(ranked, board, notation);
            &&& 0 <= at < ranked.hints@.len()
            &&& played(board, notation) matches Ok(after) ==> {
                &&& (exists|k: int| 0 <= k < ranked.boards@.len() && points(#[trigger] ranked.boards@[k]) == after)
                    ==> points(ranked.boards@[at]) == after && forall|k: int|
                    0 <= k < at ==> points(#[trigger] ranked.boards@[k]) != after
                &&& !(exists|k: int|
                    0 <= k < ranked.boards@.len() && points(#[trigger] ranked.boards@[k]) == after) ==> at
                    == 0
            }
            &&& played(board, notation) is Err ==> {
                &&& (exists|k: int|
                    0 <= k < ranked.hints@.len() && collapsed((#[trigger] ranked.hints@[k]).move_notation@)
                        == collapsed(notation)) ==> collapsed(ranked.hints@[at].move_notation@)
                    == collapsed(notation) && forall|k: int|
                    0 <= k < at ==> collapsed((#[trigger] ranked.hints@[k]).move_notation@) != collapsed(
                        notation,
                    )
                &&& !(exists|k: int|
                    0 <= k < ranked.hints@.len() && collapsed((#[trigger] ranked.hints@[k]).move_notation@)
                        == collapsed(notation)) ==> at == 0
            }
        }),
{
    match played(board, notation) {
        Ok(after) => {
            lemma_board_index(ranked.boards@, after);
        },
        Err(_) => {
            lemma_notation_index(ranked.hints@, collapsed(notation));
        },
    }
}

/// The best move of an analysis is the engine's first, whatever move was played and on
/// whatever board: it has rank one and the engine's first value and notation, and two
/// analyses of the same ranked moves have the same best. The played move is one of the
/// ranked ones, and ranks no higher.
pub proof fn law_best_is_first<V>(
    one: Result<MoveAnalysis<V>, MappingError>,
    other: Result<MoveAnalysis<V>, MappingError>,
    ranked: RankedMoves<V>,
    board_one: Seq<int>,
    notation_one: Seq<char>,
    board_other: Seq<int>,
    notation_other: Seq<char>,
    before: Board,
    die1: int,
    die2: int,
    entries: Seq<MoveEntry<V>>,
    position_id: Seq<char>,
    match_id: Seq<char>,
    plies: int,
    utc: Seq<char>,
)
    requires
        ranks(ranked, before, die1, die2, entries, position_id, match_id, plies, utc),
        analysis(one, ranked, board_one, notation_one),
        analysis(other, ranked, board_other, notation_other),
    ensures
        entries.len() > 0 <==> one is Ok,
        one is Ok <==> other is Ok,
        one is Ok ==> {
            let a = one->Ok_0;
            &&& a.best.rank == 1
            &&& a.best.value == entries[0].value
            &&& a.best.move_notation@ == hops_text(
                move_hops(points(before), points(entries[0].board), die1, die2),
            )
            &&& a.best@ == other->Ok_0.best@
            &&& 1 <= a.played.rank <= entries.len()
            &&& a.played.value == entries[a.played.rank - 1].value
            &&& a.played.move_notation@ == hops_text(
                move_hops(points(before), points(entries[a.played.rank - 1].board), die1, die2),
            )
        },
{
    if entries.len() > 0 {
        let a = one->Ok_0;
        assert(ranked.hints@[0]@.rank == 1);
        assert(a.best@.rank == 1);
        let at = played_index(ranked, board_one, notation_one);
        assert(ranked.hints@[at]@.rank == at + 1);
        assert(a.played@.rank == at + 1);
    }
}

} // verus!
