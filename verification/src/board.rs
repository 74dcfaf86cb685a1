//! The board, seen from the mover's side: points 1 to 24, the mover's bar at 25,
//! the opponent's at 0. The mover's checkers count up and the opponent's down.
use vstd::prelude::*;

verus! {

/// The checkers on the 24 points and the two bars.
pub type Board = [i32; 26];

/// The index of the mover's bar.
pub const MOVER_BAR: usize = 25;

/// The index of the opponent's bar.
pub const OPPONENT_BAR: usize = 0;

/// The counts on a board as mathematical integers.
pub open spec fn points(b: Board) -> Seq<int> {
    Seq::new(26, |i: int| b@[i] as int)
}

/// The mover's checkers among a count: the count, if it is positive.
pub open spec fn mine(n: int) -> int {
    if n > 0 {
        n
    } else {
        0
    }
}

/// The mover's checkers on the points 1 to `n`.
pub open spec fn mover_sum(b: Seq<int>, n: int) -> int
    decreases n,
{
    if n <= 0 {
        0
    } else {
        mover_sum(b, n - 1) + mine(b[n])
    }
}

/// The mover's checkers on the board, bar included.
pub open spec fn mover_total(b: Seq<int>) -> int {
    mover_sum(b, 25)
}

/// The single opposing checkers on the points 1 to `n`.
pub open spec fn blot_sum(b: Seq<int>, n: int) -> int
    decreases n,
{
    if n <= 0 {
        0
    } else {
        blot_sum(b, n - 1) + (if b[n] == -1 {
            1int
        } else {
            0int
        })
    }
}

/// All of the mover's checkers could stand on one point, and every blot could go to
/// the bar.
pub open spec fn has_room(b: Seq<int>) -> bool {
    &&& mover_total(b) <= i32::MAX
    &&& b[0] + blot_sum(b, 24) <= i32::MAX
}

/// The counts leave room for every move: their totals do, as they do wherever no
/// count is out of all proportion.
pub open spec fn board_fits(b: Seq<int>) -> bool {
    ||| forall|p: int| 0 <= p < 26 ==> #[trigger] b[p] <= 0x100_0000
    ||| has_room(b)
}

proof fn lemma_small_sums(b: Seq<int>, n: int)
    requires
        0 <= n < 26,
        forall|p: int| 0 <= p < 26 ==> #[trigger] b[p] <= 0x100_0000,
    ensures
        mover_sum(b, n) <= n * 0x100_0000,
        blot_sum(b, n) <= n,
    decreases n,
{
    if n > 0 {
        lemma_small_sums(b, n - 1);
        assert(b[n] <= 0x100_0000);
    }
}

pub(crate) proof fn lemma_fits_has_room(b: Seq<int>)
    requires
        board_fits(b),
    ensures
        has_room(b),
{
    if forall|p: int| 0 <= p < 26 ==> #[trigger] b[p] <= 0x100_0000 {
        lemma_small_sums(b, 25);
        lemma_small_sums(b, 24);
        assert(b[0] <= 0x100_0000);
    }
}

pub(crate) proof fn lemma_mover_sum_update(b: Seq<int>, p: int, v: int, n: int)
    requires
        b.len() == 26,
        0 <= p < 26,
        n < 26,
    ensures
        mover_sum(b.update(p, v), n) == mover_sum(b, n) + (if 1 <= p <= n {
            mine(v) - mine(b[p])
        } else {
            0
        }),
    decreases n,
{
    if n > 0 {
        lemma_mover_sum_update(b, p, v, n - 1);
    }
}

pub(crate) proof fn lemma_blot_sum_update(b: Seq<int>, p: int, v: int, n: int)
    requires
        b.len() == 26,
        0 <= p < 26,
        n < 26,
    ensures
        blot_sum(b.update(p, v), n) == blot_sum(b, n) + (if 1 <= p <= n {
            (if v == -1 {
                1int
            } else {
                0int
            }) - (if b[p] == -1 {
                1int
            } else {
                0int
            })
        } else {
            0
        }),
    decreases n,
{
    if n > 0 {
        lemma_blot_sum_update(b, p, v, n - 1);
    }
}

pub(crate) proof fn lemma_mover_sum_bounds(b: Seq<int>, p: int, n: int)
    requires
        1 <= p <= n,
    ensures
        mine(b[p]) <= mover_sum(b, n),
        mover_sum(b, n) >= 0,
    decreases n,
{
    lemma_mover_sum_nonneg(b, n - 1);
    if p < n {
        lemma_mover_sum_bounds(b, p, n - 1);
    }
}

pub(crate) proof fn lemma_mover_sum_nonneg(b: Seq<int>, n: int)
    ensures
        mover_sum(b, n) >= 0,
    decreases n,
{
    if n > 0 {
        lemma_mover_sum_nonneg(b, n - 1);
    }
}

pub(crate) proof fn lemma_blot_sum_bounds(b: Seq<int>, p: int, n: int)
    requires
        1 <= p <= n,
    ensures
        b[p] == -1 ==> blot_sum(b, n) >= 1,
        blot_sum(b, n) >= 0,
    decreases n,
{
    lemma_blot_sum_nonneg(b, n - 1);
    if p < n {
        lemma_blot_sum_bounds(b, p, n - 1);
    }
}

pub(crate) proof fn lemma_blot_sum_nonneg(b: Seq<int>, n: int)
    ensures
        blot_sum(b, n) >= 0,
    decreases n,
{
    if n > 0 {
        lemma_blot_sum_nonneg(b, n - 1);
    }
}

/// Whether the counts leave room for every move.
pub fn fits(board: &Board) -> (r: bool)
    ensures
        r == board_fits(points(*board)),
{
    let mut total: i64 = 0;
    let mut blots: i64 = 0;
    let mut i: usize = 1;
    let ghost b = points(*board);
    while i < 25
        invariant
            1 <= i <= 25,
            b == points(*board),
            total == mover_sum(b, i - 1),
            blots == blot_sum(b, i - 1),
            0 <= total <= (i - 1) * 0x7fff_ffff,
            0 <= blots <= i - 1,
        decreases 25 - i,
    {
        let n: i32 = board[i];
        assert(n == b[i as int]);
        if n > 0 {
            total = total + n as i64;
        }
        if n == -1 {
            blots = blots + 1;
        }
        i = i + 1;
    }
    let bar: i32 = board[MOVER_BAR];
    assert(bar == b[25]);
    if bar > 0 {
        total = total + bar as i64;
    }
    proof {
        assert(total == mover_total(b));
        if board_fits(b) {
            lemma_fits_has_room(b);
        }
    }
    total <= i32::MAX as i64 && board[OPPONENT_BAR] as i64 + blots <= i32::MAX as i64
}

/// A board of any ordinary size leaves room for every move, and so does one with fewer of
/// the mover's checkers on a point.
pub proof fn law_ordinary_board_fits(b: Seq<int>, p: int, v: int)
    requires
        b.len() == 26,
        1 <= p < 26,
    ensures
        (forall|q: int| 0 <= q < 26 ==> #[trigger] b[q] <= 0x100_0000) ==> board_fits(b),
        board_fits(b) && 0 <= v <= b[p] ==> board_fits(b.update(p, v)),
        board_fits(b) ==> mover_total(b) <= i32::MAX && b[0] + blot_sum(b, 24) <= i32::MAX,
{
    if board_fits(b) {
        lemma_fits_has_room(b);
        lemma_mover_sum_update(b, p, v, 25);
        lemma_blot_sum_update(b, p, v, 24);
    }
}

} // verus!
