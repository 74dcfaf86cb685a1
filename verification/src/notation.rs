//! Move notation: reading a played move and applying it to a board.
//!
//! A move is a list of words such as `24/22*/16` or `13/11(2)`: chains of
//! points, with stars on hits and a repeat count in parentheses.
use vstd::prelude::*;

use crate::board::{Board, MOVER_BAR, OPPONENT_BAR};
#[allow(unused_imports)]
use crate::board::{
    board_fits, has_room, lemma_blot_sum_bounds, lemma_blot_sum_update, lemma_fits_has_room, lemma_mover_sum_bounds,
    lemma_mover_sum_update, points,
};
use crate::text::{
    ascii_lower, chars_of, find_char, lowered, parse_natural, push_decimal, quoted, same_chars, same_text, slice_of,
    split_chars, split_words, string_of, strip_stars,
};
#[allow(unused_imports)]
use crate::text::{
    all_digits, decimal, is_digit, lower, natural_of, quoted_text, span_len, split_on, views,
    without_stars, words,
};

verus! {

pub const BAR_TOKEN: &'static str = "bar";

pub const OFF_TOKEN: &'static str = "off";

// Tokens

/// The chain of a move word: its small-letter text up to the repeat count.
pub open spec fn chain_of(token: Seq<char>) -> Seq<char> {
    lower(token).take(span_len(lower(token), '(') as int)
}

/// How often a move word repeats: the number in parentheses at its end, or
/// once; nothing if the parentheses hold no number.
pub open spec fn count_of(token: Seq<char>) -> Option<nat> {
    let text = lower(token);
    let open_at = span_len(text, '(') as int;
    if open_at >= text.len() {
        Some(1)
    } else {
        let rest = text.skip(open_at + 1);
        if rest.len() > 0 && rest.last() == ')' {
            natural_of(rest.drop_last(), 0xffff_ffff)
        } else {
            None
        }
    }
}

/// The stops of a move word's chain, without their hit stars.
pub open spec fn stops_of(token: Seq<char>) -> Seq<Seq<char>> {
    let pieces = split_on(chain_of(token), '/');
    Seq::new(pieces.len(), |i: int| without_stars(pieces[i]))
}

pub open spec fn is_number(s: Seq<char>) -> bool {
    s.len() > 0 && all_digits(s)
}

/// A chain starts at the bar or on a number and goes on over numbers and `off`.
pub open spec fn stops_read(stops: Seq<Seq<char>>) -> bool {
    &&& stops.len() >= 2
    &&& stops[0] == BAR_TOKEN@ || is_number(stops[0])
    &&& forall|i: int|
        1 <= i < stops.len() ==> (#[trigger] stops[i] == OFF_TOKEN@ || is_number(stops[i]))
}

/// The steps of a chain, from each stop to the next.
pub open spec fn steps_of(stops: Seq<Seq<char>>) -> Seq<(Seq<char>, Seq<char>)> {
    Seq::new((stops.len() - 1) as nat, |i: int| (stops[i], stops[i + 1]))
}

/// A move word read: its steps and how often they repeat. Nothing where the word
/// cannot be read.
pub open spec fn token_of(token: Seq<char>) -> Option<(Seq<(Seq<char>, Seq<char>)>, nat)> {
    match count_of(token) {
        Some(count) if stops_read(stops_of(token)) => Some((steps_of(stops_of(token)), count)),
        _ => None,
    }
}

/// The views of a list of steps.
pub open spec fn step_views(hops: Seq<(String, String)>) -> Seq<(Seq<char>, Seq<char>)> {
    Seq::new(hops.len(), |i: int| (hops[i].0@, hops[i].1@))
}

pub open spec fn unreadable_text(token: Seq<char>) -> Seq<char> {
    "Unparseable move token "@ + quoted_text(token)
}

fn unreadable(token: &str) -> (r: String)
    ensures
        r@ == unreadable_text(token@),
{
    let mut r = String::from_str("Unparseable move token ");
    r.append(quoted(token).as_str());
    r
}

fn number(cs: &Vec<char>) -> (r: bool)
    ensures
        r == is_number(cs@),
{
    if cs.len() == 0 {
        return false;
    }
    let mut i: usize = 0;
    while i < cs.len()
        invariant
            i <= cs.len(),
            forall|k: int| 0 <= k < i ==> is_digit(#[trigger] cs@[k]),
        decreases cs.len() - i,
    {
        let c = cs[i];
        if !('0' <= c && c <= '9') {
            assert(!is_digit(cs@[i as int]));
            return false;
        }
        i = i + 1;
    }
    true
}

/// Reads one move word: its steps and a repeat count. Accepts chains
/// (`24/22*/16`), hit stars, `(n)` grouping and any case.
pub fn parse_token(token: &str) -> (r: Result<(Vec<(String, String)>, u32), String>)
    ensures
        match r {
            Ok((hops, count)) => token_of(token@) == Some((step_views(hops@), count as nat)),
            Err(message) => token_of(token@) is None && message@ == unreadable_text(token@),
        },
{
    let text = lowered(&chars_of(token));
    let open_at = find_char(&text, '(', 0);
    proof {
        assert(text@.skip(0) == text@);
    }
    let chain = slice_of(&text, 0, open_at);
    assert(chain@ == chain_of(token@));
    let count: u32;
    if open_at == text.len() {
        count = 1;
    } else {
        let ghost rest = text@.skip(open_at + 1);
        if open_at + 1 == text.len() || text[text.len() - 1] != ')' {
            return Err(unreadable(token));
        }
        let digits = slice_of(&text, open_at + 1, text.len() - 1);
        assert(rest.drop_last() == digits@);
        match parse_natural(&digits, 0xffff_ffff) {
            Some(n) => {
                count = n as u32;
            },
            None => {
                return Err(unreadable(token));
            },
        }
    }
    assert(count_of(token@) == Some(count as nat));

    let mut pieces = split_chars(&chain, '/');
    let ghost all = views(pieces@);
    let ghost stops = stops_of(token@);
    let mut clean: Vec<Vec<char>> = Vec::new();
    let mut i: usize = 0;
    while i < pieces.len()
        invariant
            i <= pieces.len(),
            all == views(pieces@),
            all == split_on(chain_of(token@), '/'),
            stops == stops_of(token@),
            clean.len() == i,
            forall|k: int| 0 <= k < i ==> (#[trigger] clean@[k])@ == stops[k],
        decreases pieces.len() - i,
    {
        let piece = slice_of(&pieces[i], 0, pieces[i].len());
        assert(piece@ == all[i as int]);
        clean.push(strip_stars(piece));
        i = i + 1;
    }
    assert(stops.len() == clean.len());

    if clean.len() < 2 {
        return Err(unreadable(token));
    }
    let bar = chars_of(BAR_TOKEN);
    let off = chars_of(OFF_TOKEN);
    if !(same_chars(&clean[0], &bar) || number(&clean[0])) {
        return Err(unreadable(token));
    }
    let mut hops: Vec<(String, String)> = Vec::new();
    let mut j: usize = 1;
    while j < clean.len()
        invariant
            1 <= j <= clean.len(),
            stops.len() == clean.len(),
            stops == stops_of(token@),
            off@ == OFF_TOKEN@,
            forall|k: int| 0 <= k < clean.len() ==> (#[trigger] clean@[k])@ == stops[k],
            forall|k: int|
                1 <= k < j ==> (#[trigger] stops[k] == OFF_TOKEN@ || is_number(stops[k])),
            hops.len() == j - 1,
            forall|k: int|
                0 <= k < j - 1 ==> (#[trigger] hops@[k]).0@ == stops[k] && hops@[k].1@ == stops[k + 1],
        decreases clean.len() - j,
    {
        assert(clean@[j as int]@ == stops[j as int]);
        if !(same_chars(&clean[j], &off) || number(&clean[j])) {
            assert(!stops_read(stops));
            return Err(unreadable(token));
        }
        hops.push((string_of(&clean[j - 1]), string_of(&clean[j])));
        j = j + 1;
    }
    assert(step_views(hops@) == steps_of(stops));
    Ok((hops, count))
}

// Applying a move

/// Why a step cannot be made.
#[derive(Clone, Copy)]
pub enum StepFault {
    /// A stop is no number that a machine word can hold.
    Unreadable,
    /// The step enters from a bar with none of the mover's checkers on it.
    EmptyBar,
    /// The step leaves a point with none of the mover's checkers on it.
    EmptyPoint(usize),
    /// The step lands on no point of the board.
    OutsideBoard,
    /// The step lands on a point that the opponent holds with two checkers or more.
    Blocked,
}

/// The board after a checker has been lifted from a stop.
pub open spec fn lifted(b: Seq<int>, source: Seq<char>) -> Result<Seq<int>, StepFault> {
    if source == BAR_TOKEN@ {
        if b[25] <= 0 {
            Err(StepFault::EmptyBar)
        } else {
            Ok(b.update(25, b[25] - 1))
        }
    } else {
        match natural_of(source, usize::MAX as nat) {
            None => Err(StepFault::Unreadable),
            Some(p) => if 1 <= p <= 24 && b[p as int] > 0 {
                Ok(b.update(p as int, b[p as int] - 1))
            } else {
                Err(StepFault::EmptyPoint(p as usize))
            },
        }
    }
}

/// The board after a lifted checker has come down on a stop: borne off, or on a
/// point, where it sends a single opposing checker to the bar.
pub open spec fn landed(b: Seq<int>, target: Seq<char>) -> Result<Seq<int>, StepFault> {
    if target == OFF_TOKEN@ {
        Ok(b)
    } else {
        match natural_of(target, usize::MAX as nat) {
            None => Err(StepFault::Unreadable),
            Some(p) => if !(1 <= p <= 24) {
                Err(StepFault::OutsideBoard)
            } else if b[p as int] < -1 {
                Err(StepFault::Blocked)
            } else if b[p as int] == -1 {
                Ok(b.update(p as int, 1).update(0, b[0] + 1))
            } else {
                Ok(b.update(p as int, b[p as int] + 1))
            },
        }
    }
}

/// The board after one step.
pub open spec fn stepped(b: Seq<int>, step: (Seq<char>, Seq<char>)) -> Result<Seq<int>, StepFault> {
    match lifted(b, step.0) {
        Ok(b1) => landed(b1, step.1),
        Err(fault) => Err(fault),
    }
}

/// The board after some steps in order, or the fault of the first that cannot be
/// made.
pub open spec fn walked(b: Seq<int>, steps: Seq<(Seq<char>, Seq<char>)>) -> Result<
    Seq<int>,
    StepFault,
>
    decreases steps.len(),
{
    if steps.len() == 0 {
        Ok(b)
    } else {
        match walked(b, steps.drop_last()) {
            Ok(b1) => stepped(b1, steps.last()),
            Err(fault) => Err(fault),
        }
    }
}

/// The board after the same steps `n` times over.
pub open spec fn repeated(b: Seq<int>, steps: Seq<(Seq<char>, Seq<char>)>, n: nat) -> Result<
    Seq<int>,
    StepFault,
>
    decreases n,
{
    if n == 0 {
        Ok(b)
    } else {
        match repeated(b, steps, (n - 1) as nat) {
            Ok(b1) => walked(b1, steps),
            Err(fault) => Err(fault),
        }
    }
}

/// The board after some move words in order, or the fault of the first that
/// cannot be made, with that word.
pub open spec fn played_words(b: Seq<int>, tokens: Seq<Seq<char>>) -> Result<
    Seq<int>,
    (StepFault, Seq<char>),
>
    decreases tokens.len(),
{
    if tokens.len() == 0 {
        Ok(b)
    } else {
        let token = tokens.last();
        match played_words(b, tokens.drop_last()) {
            Ok(b1) => match token_of(token) {
                None => Err((StepFault::Unreadable, token)),
                Some((steps, count)) => match repeated(b1, steps, count) {
                    Ok(b2) => Ok(b2),
                    Err(fault) => Err((fault, token)),
                },
            },
            Err(fault) => Err(fault),
        }
    }
}

/// The board after a move, or why it cannot be made.
pub open spec fn played(b: Seq<int>, notation: Seq<char>) -> Result<Seq<int>, (StepFault, Seq<char>)> {
    played_words(b, words(notation))
}

/// What is said of a move that cannot be made.
pub open spec fn fault_text(fault: StepFault, token: Seq<char>, notation: Seq<char>) -> Seq<char> {
    match fault {
        StepFault::Unreadable => unreadable_text(token),
        StepFault::EmptyBar => "Move "@ + quoted_text(notation) + " enters from an empty bar"@,
        StepFault::EmptyPoint(p) => "Move "@ + quoted_text(notation) + " lifts from empty point "@
            + decimal(p as nat),
        StepFault::OutsideBoard => "Move "@ + quoted_text(notation) + " lands outside the board"@,
        StepFault::Blocked => "Move "@ + quoted_text(notation) + " lands on a made opposing point"@,
    }
}

fn fault_message(fault: StepFault, token: &str, notation: &str) -> (r: String)
    ensures
        r@ == fault_text(fault, token@, notation@),
{
    if let StepFault::Unreadable = fault {
        return unreadable(token);
    }
    let mut r = String::from_str("Move ");
    r.append(quoted(notation).as_str());
    match fault {
        StepFault::EmptyBar => {
            r.append(" enters from an empty bar");
        },
        StepFault::EmptyPoint(p) => {
            r.append(" lifts from empty point ");
            push_decimal(&mut r, p as u64);
        },
        StepFault::OutsideBoard => {
            r.append(" lands outside the board");
        },
        _ => {
            r.append(" lands on a made opposing point");
        },
    }
    r
}

/// Makes one step on a board.
fn step(board: &mut Board, source: &str, target: &str) -> (r: Result<(), StepFault>)
    requires
        has_room(points(*old(board))),
    ensures
        match stepped(points(*old(board)), (source@, target@)) {
            Ok(b) => r is Ok && points(*final(board)) == b && has_room(b),
            Err(fault) => r == Err::<(), StepFault>(fault),
        },
{
    let ghost b0 = points(*board);
    let from: usize;
    if same_text(source, BAR_TOKEN) {
        if board[MOVER_BAR] <= 0 {
            assert(b0[25] <= 0);
            return Err(StepFault::EmptyBar);
        }
        from = MOVER_BAR;
    } else {
        match parse_natural(&chars_of(source), usize::MAX as u64) {
            None => {
                return Err(StepFault::Unreadable);
            },
            Some(p) => {
                let p = p as usize;
                if !(1 <= p && p <= 24) {
                    return Err(StepFault::EmptyPoint(p));
                }
                assert(b0[p as int] == board@[p as int]);
                if board[p] <= 0 {
                    return Err(StepFault::EmptyPoint(p));
                }
                from = p;
            },
        }
    }
    assert(b0[from as int] == board@[from as int]);
    board[from] = board[from] - 1;
    let ghost b1 = b0.update(from as int, b0[from as int] - 1);
    proof {
        assert(points(*board) == b1);
        assert(lifted(b0, source@) == Ok::<Seq<int>, StepFault>(b1));
        lemma_mover_sum_update(b0, from as int, b0[from as int] - 1, 25);
        lemma_blot_sum_update(b0, from as int, b0[from as int] - 1, 24);
    }
    if same_text(target, OFF_TOKEN) {
        return Ok(());
    }
    match parse_natural(&chars_of(target), usize::MAX as u64) {
        None => {
            return Err(StepFault::Unreadable);
        },
        Some(p) => {
            let p = p as usize;
            if !(1 <= p && p <= 24) {
                return Err(StepFault::OutsideBoard);
            }
            assert(b1[p as int] == board@[p as int]);
            if board[p] < -1 {
                return Err(StepFault::Blocked);
            }
            proof {
                lemma_mover_sum_bounds(b1, p as int, 25);
                lemma_blot_sum_bounds(b1, p as int, 24);
                lemma_mover_sum_update(b1, p as int, b1[p as int] + 1, 25);
                lemma_blot_sum_update(b1, p as int, b1[p as int] + 1, 24);
                assert(b1[0] == board@[0]);
            }
            if board[p] == -1 {
                let ghost b2 = b1.update(p as int, 1);
                proof {
                    lemma_mover_sum_update(b1, p as int, 1, 25);
                    lemma_blot_sum_update(b1, p as int, 1, 24);
                    lemma_mover_sum_update(b2, 0, b1[0] + 1, 25);
                    lemma_blot_sum_update(b2, 0, b1[0] + 1, 24);
                }
                board[p] = 0;
                board[OPPONENT_BAR] = board[OPPONENT_BAR] + 1;
                board[p] = board[p] + 1;
                assert(points(*board) == b2.update(0, b1[0] + 1));
            } else {
                board[p] = board[p] + 1;
                assert(points(*board) == b1.update(p as int, b1[p as int] + 1));
            }
            Ok(())
        },
    }
}

proof fn lemma_walked_fault(b: Seq<int>, steps: Seq<(Seq<char>, Seq<char>)>, k: int)
    requires
        0 <= k <= steps.len(),
        walked(b, steps.take(k)) is Err,
    ensures
        walked(b, steps) == walked(b, steps.take(k)),
    decreases steps.len(),
{
    if k == steps.len() {
        assert(steps.take(k) == steps);
    } else {
        assert(steps.drop_last().take(k) == steps.take(k));
        lemma_walked_fault(b, steps.drop_last(), k);
    }
}

proof fn lemma_repeated_fault(b: Seq<int>, steps: Seq<(Seq<char>, Seq<char>)>, k: nat, n: nat)
    requires
        k <= n,
        repeated(b, steps, k) is Err,
    ensures
        repeated(b, steps, n) == repeated(b, steps, k),
    decreases n,
{
    if k < n {
        lemma_repeated_fault(b, steps, k, (n - 1) as nat);
    }
}

proof fn lemma_played_fault(b: Seq<int>, tokens: Seq<Seq<char>>, k: int)
    requires
        0 <= k <= tokens.len(),
        played_words(b, tokens.take(k)) is Err,
    ensures
        played_words(b, tokens) == played_words(b, tokens.take(k)),
    decreases tokens.len(),
{
    if k == tokens.len() {
        assert(tokens.take(k) == tokens);
    } else {
        assert(tokens.drop_last().take(k) == tokens.take(k));
        lemma_played_fault(b, tokens.drop_last(), k);
    }
}

/// Makes some steps in order.
fn walk(board: &mut Board, hops: &Vec<(String, String)>) -> (r: Result<(), StepFault>)
    requires
        has_room(points(*old(board))),
    ensures
        match walked(points(*old(board)), step_views(hops@)) {
            Ok(b) => r is Ok && points(*final(board)) == b && has_room(b),
            Err(fault) => r == Err::<(), StepFault>(fault),
        },
{
    let ghost b0 = points(*board);
    let ghost steps = step_views(hops@);
    let mut i: usize = 0;
    while i < hops.len()
        invariant
            i <= hops.len(),
            b0 == points(*old(board)),
            steps == step_views(hops@),
            walked(b0, steps.take(i as int)) == Ok::<Seq<int>, StepFault>(points(*board)),
            has_room(points(*board)),
        decreases hops.len() - i,
    {
        proof {
            assert(steps.take(i + 1).drop_last() == steps.take(i as int));
            assert(steps.take(i + 1).last() == steps[i as int]);
        }
        match step(board, hops[i].0.as_str(), hops[i].1.as_str()) {
            Ok(()) => {},
            Err(fault) => {
                proof {
                    lemma_walked_fault(b0, steps, i + 1);
                }
                return Err(fault);
            },
        }
        i = i + 1;
    }
    assert(steps.take(i as int) == steps);
    Ok(())
}

/// Makes the same steps `count` times over.
fn walk_times(board: &mut Board, hops: &Vec<(String, String)>, count: u32) -> (r: Result<
    (),
    StepFault,
>)
    requires
        has_room(points(*old(board))),
    ensures
        match repeated(points(*old(board)), step_views(hops@), count as nat) {
            Ok(b) => r is Ok && points(*final(board)) == b && has_room(b),
            Err(fault) => r == Err::<(), StepFault>(fault),
        },
{
    let ghost b0 = points(*board);
    let mut i: u32 = 0;
    while i < count
        invariant
            i <= count,
            b0 == points(*old(board)),
            repeated(b0, step_views(hops@), i as nat) == Ok::<Seq<int>, StepFault>(points(*board)),
            has_room(points(*board)),
        decreases count - i,
    {
        match walk(board, hops) {
            Ok(()) => {},
            Err(fault) => {
                proof {
                    lemma_repeated_fault(b0, step_views(hops@), (i + 1) as nat, count as nat);
                }
                return Err(fault);
            },
        }
        i = i + 1;
    }
    Ok(())
}

/// Applies a move in gnubg-style notation to a board seen from the mover's side.
pub fn apply_move_notation(board: &Board, notation: &str) -> (r: Result<Board, String>)
    requires
        board_fits(points(*board)),
    ensures
        match played(points(*board), notation@) {
            Ok(b) => r matches Ok(after) && points(after) == b && board_fits(b),
            Err((fault, token)) => r matches Err(message) && message@ == fault_text(
                fault,
                token,
                notation@,
            ),
        },
{
    let ghost b0 = points(*board);
    proof {
        lemma_fits_has_room(b0);
    }
    let mut result: Board = *board;
    let tokens = split_words(&chars_of(notation));
    let ghost all = views(tokens@);
    let mut i: usize = 0;
    while i < tokens.len()
        invariant
            i <= tokens.len(),
            all == views(tokens@),
            all == words(notation@),
            b0 == points(*board),
            played_words(b0, all.take(i as int)) == Ok::<Seq<int>, (StepFault, Seq<char>)>(
                points(result),
            ),
            has_room(points(result)),
        decreases tokens.len() - i,
    {
        proof {
            assert(all.take(i + 1).drop_last() == all.take(i as int));
            assert(all.take(i + 1).last() == tokens@[i as int]@);
        }
        let token = string_of(&tokens[i]);
        match parse_token(token.as_str()) {
            Err(message) => {
                proof {
                    lemma_played_fault(b0, all, i + 1);
                }
                return Err(message);
            },
            Ok((hops, count)) => match walk_times(&mut result, &hops, count) {
                Ok(()) => {},
                Err(fault) => {
                    proof {
                        lemma_played_fault(b0, all, i + 1);
                    }
                    return Err(fault_message(fault, token.as_str(), notation));
                },
            },
        }
        i = i + 1;
    }
    assert(all.take(i as int) == all);
    Ok(result)
}

// Comparing notations

/// A character that the comparison of notations looks at.
pub open spec fn compared(c: char) -> bool {
    c != ' ' && c != '*'
}

/// A notation without its spaces and hit stars, in small letters.
pub open spec fn collapsed(s: Seq<char>) -> Seq<char> {
    lower(s.filter(|c: char| compared(c)))
}

/// The text by which two notations are compared when neither can be applied.
pub fn comparable_notation(notation: &str) -> (r: String)
    ensures
        r@ == collapsed(notation@),
{
    let cs = chars_of(notation);
    let mut r = String::new();
    let mut i: usize = 0;
    let ghost keep = |c: char| compared(c);
    assert(cs@.take(0).filter(keep) == Seq::<char>::empty());
    while i < cs.len()
        invariant
            i <= cs.len(),
            keep == (|c: char| compared(c)),
            r@ == lower(cs@.take(i as int).filter(keep)),
        decreases cs.len() - i,
    {
        let c = cs[i];
        proof {
            let next = cs@.take(i + 1);
            assert(next.drop_last() == cs@.take(i as int));
            reveal(Seq::filter);
            assert(next.filter(keep) == if keep(c) {
                next.drop_last().filter(keep).push(c)
            } else {
                next.drop_last().filter(keep)
            });
        }
        if c != ' ' && c != '*' {
            let ghost before = r@;
            r.push(ascii_lower(c));
            assert(r@ == lower(cs@.take(i + 1).filter(keep)));
        }
        i = i + 1;
    }
    assert(cs@.take(i as int) == cs@);
    r
}

} // verus!
