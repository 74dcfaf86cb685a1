//! The hops of a move, found from the boards before and after it.
//!
//! The checkers that left a point and those that came down are paired, first
//! over single dice and then as they stand. A pair that spans several dice is
//! broken where it hit a checker on the way. The hops are written from the
//! highest point down, one `from/to` each.
use vstd::prelude::*;

use crate::board::{Board, MOVER_BAR};
#[allow(unused_imports)]
use crate::board::{mine, mover_sum, points};
use crate::notation::{BAR_TOKEN, OFF_TOKEN};
use crate::text::push_signed;
#[allow(unused_imports)]
use crate::text::{joined, signed_decimal};

verus! {

/// Where a checker on the bar starts from.
pub const BAR_POINT: i32 = 25;

/// Where a checker that is borne off goes.
pub const OFF_POINT: i32 = 0;

// What left and what came down

/// The mover's checkers on the points and the bar.
pub open spec fn on_board(b: Seq<int>) -> int {
    b[25] + mover_sum(b, 24)
}

/// How many checkers left the point `p`, or the bar, on balance.
pub open spec fn lost(before: Seq<int>, after: Seq<int>, p: int) -> int {
    if p == 25 {
        mine(before[25] - after[25])
    } else {
        mine(mine(before[p]) - mine(after[p]))
    }
}

/// How many checkers came down on the point `p`, or were borne off, on balance.
pub open spec fn gained(before: Seq<int>, after: Seq<int>, p: int) -> int {
    if p == 0 {
        mine(on_board(before) - on_board(after))
    } else {
        mine(mine(after[p]) - mine(before[p]))
    }
}

/// `n` copies of `p`.
pub open spec fn copies(p: int, n: int) -> Seq<int> {
    Seq::new(n as nat, |i: int| p)
}

/// The points that checkers left, from `p` down.
pub open spec fn sources_from(before: Seq<int>, after: Seq<int>, p: int) -> Seq<int>
    decreases p,
{
    if p <= 0 {
        Seq::empty()
    } else {
        copies(p, lost(before, after, p)) + sources_from(before, after, p - 1)
    }
}

/// The points that checkers came down on, from `p` down to those borne off.
pub open spec fn targets_from(before: Seq<int>, after: Seq<int>, p: int) -> Seq<int>
    decreases p + 1,
{
    if p < 0 {
        Seq::empty()
    } else {
        copies(p, gained(before, after, p)) + targets_from(before, after, p - 1)
    }
}

/// The points that checkers left, one entry for each, from the highest down.
pub open spec fn sources(before: Seq<int>, after: Seq<int>) -> Seq<int> {
    sources_from(before, after, 25)
}

/// The points that checkers came down on, one entry for each, from the highest
/// down; those borne off last.
pub open spec fn targets(before: Seq<int>, after: Seq<int>) -> Seq<int> {
    targets_from(before, after, 24)
}

/// An opposing checker left the point `p`.
pub open spec fn was_hit(before: Seq<int>, after: Seq<int>, p: int) -> bool {
    1 <= p <= 24 && before[p] < 0 && after[p] > before[p]
}

// Pairing

/// The dice to be played: four of a double.
pub open spec fn dice_of(die1: int, die2: int) -> Seq<int> {
    if die1 == die2 {
        seq![die1, die1, die1, die1]
    } else {
        seq![die1, die2]
    }
}

/// A checker that should come to `want` may come down on `t`: there, or off the
/// board when the die carries it past the last point.
pub open spec fn reaches(t: int, want: int) -> bool {
    t == want || (want <= 0 && t == 0)
}

/// Which sources and targets have been paired, and the hops so far.
pub struct Pairing {
    pub hops: Seq<(int, int)>,
    pub from_used: Seq<bool>,
    pub to_used: Seq<bool>,
}

/// The first index from `i` on that is not used, or the length.
pub open spec fn first_free(used: Seq<bool>, i: int) -> int
    decreases used.len() - i,
{
    if i < 0 || i >= used.len() || !used[i] {
        i
    } else {
        first_free(used, i + 1)
    }
}

/// The first index from `i` on that is not used and whose target can be reached,
/// or the length.
pub open spec fn first_fit(tos: Seq<int>, used: Seq<bool>, want: int, i: int) -> int
    decreases tos.len() - i,
{
    if i < 0 || i >= tos.len() || (!used[i] && reaches(tos[i], want)) {
        i
    } else {
        first_fit(tos, used, want, i + 1)
    }
}

/// The target that a die finds for a checker. A die that has been played looks at
/// the first open target only.
pub open spec fn pick(tos: Seq<int>, used: Seq<bool>, want: int, spent: bool) -> Option<int> {
    let k = if spent {
        first_free(used, 0)
    } else {
        first_fit(tos, used, want, 0)
    };
    if k < tos.len() && reaches(tos[k], want) {
        Some(k)
    } else {
        None
    }
}

/// The pairing with the source `fi` and the target `ti` put together.
pub open spec fn coupled(
    froms: Seq<int>,
    tos: Seq<int>,
    fi: int,
    ti: int,
    st: Pairing,
) -> Pairing {
    Pairing {
        hops: st.hops.push((froms[fi], tos[ti])),
        from_used: st.from_used.update(fi, true),
        to_used: st.to_used.update(ti, true),
    }
}

/// One die offered to the sources from `fi` on.
pub open spec fn die_round(
    froms: Seq<int>,
    tos: Seq<int>,
    die: int,
    fi: int,
    spent: bool,
    st: Pairing,
) -> Pairing
    decreases froms.len() - fi,
{
    if fi >= froms.len() {
        st
    } else if st.from_used[fi] {
        die_round(froms, tos, die, fi + 1, spent, st)
    } else {
        match pick(tos, st.to_used, froms[fi] - die, spent) {
            Some(ti) => die_round(froms, tos, die, fi + 1, true, coupled(froms, tos, fi, ti, st)),
            None => die_round(froms, tos, die, fi + 1, spent, st),
        }
    }
}

/// The dice from `k` on, one after the other.
pub open spec fn dice_rounds(
    froms: Seq<int>,
    tos: Seq<int>,
    dice: Seq<int>,
    k: int,
    st: Pairing,
) -> Pairing
    decreases dice.len() - k,
{
    if k >= dice.len() {
        st
    } else {
        dice_rounds(froms, tos, dice, k + 1, die_round(froms, tos, dice[k], 0, false, st))
    }
}

/// The sources from `fi` on that no die paired, put together with the open
/// targets in order.
pub open spec fn leftovers(froms: Seq<int>, tos: Seq<int>, fi: int, st: Pairing) -> Pairing
    decreases froms.len() - fi,
{
    if fi >= froms.len() {
        st
    } else if st.from_used[fi] || first_free(st.to_used, 0) >= tos.len() {
        leftovers(froms, tos, fi + 1, st)
    } else {
        leftovers(froms, tos, fi + 1, coupled(froms, tos, fi, first_free(st.to_used, 0), st))
    }
}

/// Nothing paired yet.
pub open spec fn unpaired(n_from: nat, n_to: nat) -> Pairing {
    Pairing {
        hops: Seq::empty(),
        from_used: Seq::new(n_from, |i: int| false),
        to_used: Seq::new(n_to, |i: int| false),
    }
}

/// Sources and targets put together.
pub open spec fn paired(froms: Seq<int>, tos: Seq<int>, dice: Seq<int>) -> Seq<(int, int)> {
    leftovers(
        froms,
        tos,
        0,
        dice_rounds(froms, tos, dice, 0, unpaired(froms.len(), tos.len())),
    ).hops
}

/// The hops of a move before they are broken at hits.
pub open spec fn whole_hops(before: Seq<int>, after: Seq<int>, die1: int, die2: int) -> Seq<
    (int, int),
> {
    paired(sources(before, after), targets(before, after), dice_of(die1, die2))
}

// Hits on the way

/// Some hop comes down on `p`.
pub open spec fn lands_on(hops: Seq<(int, int)>, p: int) -> bool {
    exists|i: int| 0 <= i < hops.len() && (#[trigger] hops[i]).1 == p
}

/// The points where a checker was hit and no hop comes down.
pub open spec fn passed_hits(before: Seq<int>, after: Seq<int>, hops: Seq<(int, int)>) -> Set<int> {
    Set::new(|p: int| was_hit(before, after, p) && !lands_on(hops, p))
}

/// The open hits on the way from `at` down to `to`, in strides of `die`.
pub open spec fn hits_between(at: int, to: int, die: int, open_hits: Set<int>) -> Seq<int>
    decreases at - to,
{
    let mid = at - die;
    if die <= 0 || mid <= to {
        Seq::empty()
    } else if 1 <= mid <= 24 && open_hits.contains(mid) {
        seq![mid] + hits_between(mid, to, die, open_hits)
    } else {
        hits_between(mid, to, die, open_hits)
    }
}

/// The points at which a hop is broken: for a double every open hit that a whole
/// number of dice comes to; otherwise the open hit that one of the two dice comes
/// to, if the hop spans both.
pub open spec fn breaks(hop: (int, int), die1: int, die2: int, open_hits: Set<int>) -> Seq<int> {
    let span = hop.0 - hop.1;
    let first = hop.0 - die1;
    let second = hop.0 - die2;
    if die1 == die2 {
        if die1 > 0 && span > die1 && span % die1 == 0 {
            hits_between(hop.0, hop.1, die1, open_hits)
        } else {
            Seq::empty()
        }
    } else if span != die1 + die2 {
        Seq::empty()
    } else if 1 <= first <= 24 && open_hits.contains(first) {
        seq![first]
    } else if 1 <= second <= 24 && open_hits.contains(second) {
        seq![second]
    } else {
        Seq::empty()
    }
}

/// A hop broken at the given points.
pub open spec fn chain(from: int, mids: Seq<int>, to: int) -> Seq<(int, int)>
    decreases mids.len(),
{
    if mids.len() == 0 {
        seq![(from, to)]
    } else {
        seq![(from, mids[0])] + chain(mids[0], mids.drop_first(), to)
    }
}

/// The hits left when some points have been taken.
pub open spec fn without_points(open_hits: Set<int>, mids: Seq<int>) -> Set<int> {
    Set::new(|p: int| open_hits.contains(p) && !mids.contains(p))
}

/// The hops broken at hits, the last hop first in taking them, and the hits that
/// no hop took.
pub open spec fn broken(hops: Seq<(int, int)>, die1: int, die2: int, open_hits: Set<int>) -> (
    Seq<(int, int)>,
    Set<int>,
)
    decreases hops.len(),
{
    if hops.len() == 0 {
        (Seq::empty(), open_hits)
    } else {
        let hop = hops.last();
        let mids = breaks(hop, die1, die2, open_hits);
        let (rest, left) = broken(hops.drop_last(), die1, die2, without_points(open_hits, mids));
        (rest + chain(hop.0, mids, hop.1), left)
    }
}

// Order

/// `a` is written before `b`.
pub open spec fn ahead(a: (int, int), b: (int, int)) -> bool {
    a.0 > b.0 || (a.0 == b.0 && a.1 > b.1)
}

/// A list in order with one more hop put in its place.
pub open spec fn placed(hops: Seq<(int, int)>, hop: (int, int)) -> Seq<(int, int)>
    decreases hops.len(),
{
    if hops.len() > 0 && ahead(hop, hops.last()) {
        placed(hops.drop_last(), hop).push(hops.last())
    } else {
        hops.push(hop)
    }
}

/// The hops from the highest point down.
pub open spec fn in_order(hops: Seq<(int, int)>) -> Seq<(int, int)>
    decreases hops.len(),
{
    if hops.len() == 0 {
        Seq::empty()
    } else {
        placed(in_order(hops.drop_last()), hops.last())
    }
}

/// The hops of the move that turns `before` into `after`.
pub open spec fn move_hops(before: Seq<int>, after: Seq<int>, die1: int, die2: int) -> Seq<
    (int, int),
> {
    let hops = whole_hops(before, after, die1, die2);
    in_order(broken(hops, die1, die2, passed_hits(before, after, hops)).0)
}

/// The hits on the way that no hop of the move accounts for.
pub open spec fn lost_hits(before: Seq<int>, after: Seq<int>, die1: int, die2: int) -> Set<int> {
    let hops = whole_hops(before, after, die1, die2);
    broken(hops, die1, die2, passed_hits(before, after, hops)).1
}

// Text

/// The number of a point, or the given name for the bar and for off.
pub open spec fn label(value: int, bar_or_off: Seq<char>) -> Seq<char> {
    if value == 25 || value == 0 {
        bar_or_off
    } else {
        signed_decimal(value)
    }
}

/// A hop as `from/to`.
pub open spec fn hop_text(hop: (int, int)) -> Seq<char> {
    label(hop.0, BAR_TOKEN@) + seq!['/'] + label(hop.1, OFF_TOKEN@)
}

pub open spec fn hop_texts(hops: Seq<(int, int)>) -> Seq<Seq<char>> {
    Seq::new(hops.len(), |i: int| hop_text(hops[i]))
}

/// Hops written out, with a space between each two.
pub open spec fn hops_text(hops: Seq<(int, int)>) -> Seq<char> {
    joined(hop_texts(hops), seq![' '])
}

/// The number of a point, or the given name for the bar and for off.
pub fn point_label(value: i32, bar_or_off: &str) -> (r: String)
    ensures
        r@ == label(value as int, bar_or_off@),
{
    if value == BAR_POINT || value == OFF_POINT {
        String::from_str(bar_or_off)
    } else {
        let mut r = String::new();
        push_signed(&mut r, value as i64);
        assert(r@ == signed_decimal(value as int));
        r
    }
}

// Finding the hops

/// A list of points as mathematical integers.
pub open spec fn ints(v: Seq<i32>) -> Seq<int> {
    Seq::new(v.len(), |i: int| v[i] as int)
}

/// A list of hops as pairs of mathematical integers.
pub open spec fn hop_ints(v: Seq<(i32, i32)>) -> Seq<(int, int)> {
    Seq::new(v.len(), |i: int| (v[i].0 as int, v[i].1 as int))
}

fn positive(n: i64) -> (r: i64)
    ensures
        r == mine(n as int),
{
    if n > 0 {
        n
    } else {
        0
    }
}

fn push_copies(out: &mut Vec<i32>, p: i32, n: i64)
    ensures
        ints(final(out)@) == ints(old(out)@) + copies(p as int, mine(n as int)),
{
    let mut i: i64 = 0;
    let ghost start = ints(out@);
    assert(start + copies(p as int, 0) == start);
    while i < n
        invariant
            0 <= i <= mine(n as int),
            ints(out@) == start + copies(p as int, i as int),
        decreases n - i,
    {
        let ghost before = out@;
        out.push(p);
        assert(ints(out@) == ints(before).push(p as int));
        assert(start + copies(p as int, i + 1) == (start + copies(p as int, i as int)).push(p as int));
        i = i + 1;
    }
}

fn count_on_board(board: &Board) -> (r: i64)
    ensures
        r == on_board(points(*board)),
        -0x8000_0000 <= r <= 25 * 0x7fff_ffff,
{
    let ghost b = points(*board);
    let mut total: i64 = 0;
    let mut i: usize = 1;
    while i < 25
        invariant
            1 <= i <= 25,
            b == points(*board),
            total == mover_sum(b, i - 1),
            0 <= total <= (i - 1) * 0x7fff_ffff,
        decreases 25 - i,
    {
        assert(board@[i as int] == b[i as int]);
        total = total + positive(board[i] as i64);
        i = i + 1;
    }
    assert(board@[25] == b[25]);
    total + board[MOVER_BAR] as i64
}

fn find_sources(before: &Board, after: &Board) -> (r: Vec<i32>)
    ensures
        ints(r@) == sources(points(*before), points(*after)),
{
    let ghost b = points(*before);
    let ghost a = points(*after);
    let mut out: Vec<i32> = Vec::new();
    assert(b[25] == before@[25] && a[25] == after@[25]);
    push_copies(&mut out, BAR_POINT, before[MOVER_BAR] as i64 - after[MOVER_BAR] as i64);
    assert(ints(out@) + sources_from(b, a, 24) == sources(b, a));
    let mut i: usize = 24;
    while i > 0
        invariant
            0 <= i <= 24,
            b == points(*before),
            a == points(*after),
            ints(out@) + sources_from(b, a, i as int) == sources(b, a),
        decreases i,
    {
        assert(b[i as int] == before@[i as int] && a[i as int] == after@[i as int]);
        let ghost done = ints(out@);
        push_copies(&mut out, i as i32, positive(before[i] as i64) - positive(after[i] as i64));
        assert(done + (copies(i as int, lost(b, a, i as int)) + sources_from(b, a, i - 1)) == done
            + copies(i as int, lost(b, a, i as int)) + sources_from(b, a, i - 1));
        i = i - 1;
    }
    assert(ints(out@) + sources_from(b, a, 0) == ints(out@));
    out
}

fn find_targets(before: &Board, after: &Board) -> (r: Vec<i32>)
    ensures
        ints(r@) == targets(points(*before), points(*after)),
{
    let ghost b = points(*before);
    let ghost a = points(*after);
    let mut out: Vec<i32> = Vec::new();
    assert(ints(out@) + targets_from(b, a, 24) == targets(b, a));
    let mut i: usize = 24;
    while i > 0
        invariant
            0 <= i <= 24,
            b == points(*before),
            a == points(*after),
            ints(out@) + targets_from(b, a, i as int) == targets(b, a),
        decreases i,
    {
        assert(b[i as int] == before@[i as int] && a[i as int] == after@[i as int]);
        let ghost done = ints(out@);
        push_copies(&mut out, i as i32, positive(after[i] as i64) - positive(before[i] as i64));
        assert(done + (copies(i as int, gained(b, a, i as int)) + targets_from(b, a, i - 1)) == done
            + copies(i as int, gained(b, a, i as int)) + targets_from(b, a, i - 1));
        i = i - 1;
    }
    push_copies(&mut out, OFF_POINT, count_on_board(before) - count_on_board(after));
    reveal_with_fuel(targets_from, 2);
    assert(copies(0, gained(b, a, 0)) + targets_from(b, a, -1) == copies(0, gained(b, a, 0)));
    out
}

/// The first index that is not used, or the length.
fn free_index(used: &Vec<bool>) -> (r: usize)
    ensures
        r == first_free(used@, 0),
        r <= used.len(),
        r < used.len() ==> !used@[r as int],
{
    let mut k: usize = 0;
    while k < used.len() && used[k]
        invariant
            k <= used.len(),
            first_free(used@, 0) == first_free(used@, k as int),
        decreases used.len() - k,
    {
        k = k + 1;
    }
    k
}

fn can_reach(t: i32, want: i64) -> (r: bool)
    ensures
        r == reaches(t as int, want as int),
{
    t as i64 == want || (want <= 0 && t == OFF_POINT)
}

/// The target that a die finds for a checker.
fn find_target(tos: &Vec<i32>, used: &Vec<bool>, want: i64, spent: bool) -> (r: Option<usize>)
    requires
        tos.len() == used.len(),
    ensures
        match r {
            Some(k) => pick(ints(tos@), used@, want as int, spent) == Some(k as int) && k < tos.len()
                && !used@[k as int],
            None => pick(ints(tos@), used@, want as int, spent) is None,
        },
{
    let ghost all = ints(tos@);
    if spent {
        let k = free_index(used);
        if k < tos.len() && can_reach(tos[k], want) {
            Some(k)
        } else {
            None
        }
    } else {
        let mut k: usize = 0;
        while k < tos.len() && (used[k] || !can_reach(tos[k], want))
            invariant
                k <= tos.len(),
                tos.len() == used.len(),
                all == ints(tos@),
                first_fit(all, used@, want as int, 0) == first_fit(all, used@, want as int, k as int),
            decreases tos.len() - k,
        {
            k = k + 1;
        }
        if k < tos.len() {
            Some(k)
        } else {
            None
        }
    }
}

/// The pairing that the working lists stand for.
spec fn pairing(hops: Seq<(i32, i32)>, from_used: Seq<bool>, to_used: Seq<bool>) -> Pairing {
    Pairing { hops: hop_ints(hops), from_used, to_used }
}

/// Puts the source `fi` and the target `ti` together.
fn couple(
    froms: &Vec<i32>,
    tos: &Vec<i32>,
    fi: usize,
    ti: usize,
    hops: &mut Vec<(i32, i32)>,
    from_used: &mut Vec<bool>,
    to_used: &mut Vec<bool>,
)
    requires
        fi < froms.len() == old(from_used).len(),
        ti < tos.len() == old(to_used).len(),
    ensures
        pairing(final(hops)@, final(from_used)@, final(to_used)@) == coupled(
            ints(froms@),
            ints(tos@),
            fi as int,
            ti as int,
            pairing(old(hops)@, old(from_used)@, old(to_used)@),
        ),
        final(from_used).len() == old(from_used).len(),
        final(to_used).len() == old(to_used).len(),
{
    hops.push((froms[fi], tos[ti]));
    from_used[fi] = true;
    to_used[ti] = true;
    assert(hop_ints(hops@) == hop_ints(old(hops)@).push((froms@[fi as int] as int, tos@[ti as int] as int)));
}

/// Offers one die to every source.
fn play_die(
    froms: &Vec<i32>,
    tos: &Vec<i32>,
    die: i32,
    hops: &mut Vec<(i32, i32)>,
    from_used: &mut Vec<bool>,
    to_used: &mut Vec<bool>,
)
    requires
        froms.len() == old(from_used).len(),
        tos.len() == old(to_used).len(),
    ensures
        pairing(final(hops)@, final(from_used)@, final(to_used)@) == die_round(
            ints(froms@),
            ints(tos@),
            die as int,
            0,
            false,
            pairing(old(hops)@, old(from_used)@, old(to_used)@),
        ),
        final(from_used).len() == old(from_used).len(),
        final(to_used).len() == old(to_used).len(),
{
    let ghost f = ints(froms@);
    let ghost t = ints(tos@);
    let ghost goal = die_round(f, t, die as int, 0, false, pairing(hops@, from_used@, to_used@));
    let mut spent: bool = false;
    let mut fi: usize = 0;
    while fi < froms.len()
        invariant
            fi <= froms.len(),
            froms.len() == from_used.len(),
            tos.len() == to_used.len(),
            from_used.len() == old(from_used).len(),
            to_used.len() == old(to_used).len(),
            f == ints(froms@),
            t == ints(tos@),
            goal == die_round(
                f,
                t,
                die as int,
                fi as int,
                spent,
                pairing(hops@, from_used@, to_used@),
            ),
        decreases froms.len() - fi,
    {
        if !from_used[fi] {
            match find_target(tos, to_used, froms[fi] as i64 - die as i64, spent) {
                Some(ti) => {
                    couple(froms, tos, fi, ti, hops, from_used, to_used);
                    spent = true;
                },
                None => {},
            }
        }
        fi = fi + 1;
    }
}

/// Puts the remaining sources and targets together in order.
fn play_leftovers(
    froms: &Vec<i32>,
    tos: &Vec<i32>,
    hops: &mut Vec<(i32, i32)>,
    from_used: &mut Vec<bool>,
    to_used: &mut Vec<bool>,
)
    requires
        froms.len() == old(from_used).len(),
        tos.len() == old(to_used).len(),
    ensures
        pairing(final(hops)@, final(from_used)@, final(to_used)@) == leftovers(
            ints(froms@),
            ints(tos@),
            0,
            pairing(old(hops)@, old(from_used)@, old(to_used)@),
        ),
{
    let ghost f = ints(froms@);
    let ghost t = ints(tos@);
    let ghost goal = leftovers(f, t, 0, pairing(hops@, from_used@, to_used@));
    let mut fi: usize = 0;
    while fi < froms.len()
        invariant
            fi <= froms.len(),
            froms.len() == from_used.len(),
            tos.len() == to_used.len(),
            f == ints(froms@),
            t == ints(tos@),
            goal == leftovers(f, t, fi as int, pairing(hops@, from_used@, to_used@)),
        decreases froms.len() - fi,
    {
        if !from_used[fi] {
            let ti = free_index(to_used);
            if ti < tos.len() {
                couple(froms, tos, fi, ti, hops, from_used, to_used);
            }
        }
        fi = fi + 1;
    }
}

fn unused(n: usize) -> (r: Vec<bool>)
    ensures
        r@ == Seq::new(n as nat, |i: int| false),
{
    let mut r: Vec<bool> = Vec::new();
    let mut i: usize = 0;
    while i < n
        invariant
            i <= n,
            r@ == Seq::new(i as nat, |k: int| false),
        decreases n - i,
    {
        r.push(false);
        i = i + 1;
        assert(r@ == Seq::new(i as nat, |k: int| false));
    }
    r
}

/// Puts the sources and targets of a move together.
fn pair_up(froms: &Vec<i32>, tos: &Vec<i32>, die1: i32, die2: i32) -> (r: Vec<(i32, i32)>)
    ensures
        hop_ints(r@) == paired(ints(froms@), ints(tos@), dice_of(die1 as int, die2 as int)),
{
    let ghost f = ints(froms@);
    let ghost t = ints(tos@);
    let ghost dice = dice_of(die1 as int, die2 as int);
    let mut hops: Vec<(i32, i32)> = Vec::new();
    let mut from_used = unused(froms.len());
    let mut to_used = unused(tos.len());
    let ghost start = unpaired(f.len(), t.len());
    assert(pairing(hops@, from_used@, to_used@) == start) by {
        assert(hop_ints(hops@) == start.hops);
        assert(from_used@ == start.from_used);
        assert(to_used@ == start.to_used);
    }
    let ghost goal = dice_rounds(f, t, dice, 0, start);
    let n: usize = if die1 == die2 {
        4
    } else {
        2
    };
    let mut k: usize = 0;
    while k < n
        invariant
            k <= n,
            n == dice.len(),
            dice == dice_of(die1 as int, die2 as int),
            f == ints(froms@),
            t == ints(tos@),
            froms.len() == from_used.len(),
            tos.len() == to_used.len(),
            goal == dice_rounds(f, t, dice, k as int, pairing(hops@, from_used@, to_used@)),
        decreases n - k,
    {
        let die: i32 = if k == 1 {
            die2
        } else {
            die1
        };
        assert(die == dice[k as int]);
        play_die(froms, tos, die, &mut hops, &mut from_used, &mut to_used);
        k = k + 1;
    }
    play_leftovers(froms, tos, &mut hops, &mut from_used, &mut to_used);
    hops
}

/// The marks on the points stand for a set of points of the board.
spec fn marks(v: Seq<bool>, open_hits: Set<int>) -> bool {
    &&& v.len() == 25
    &&& forall|p: int| 1 <= p <= 24 ==> #[trigger] v[p] == open_hits.contains(p)
    &&& forall|p: int| #[trigger] open_hits.contains(p) ==> 1 <= p <= 24
}

/// Marks the points where a checker was hit and no hop comes down.
fn mark_hits(before: &Board, after: &Board, hops: &Vec<(i32, i32)>) -> (r: Vec<bool>)
    ensures
        marks(r@, passed_hits(points(*before), points(*after), hop_ints(hops@))),
{
    let ghost b = points(*before);
    let ghost a = points(*after);
    let ghost all = hop_ints(hops@);
    let mut r: Vec<bool> = Vec::new();
    r.push(false);
    let mut i: usize = 1;
    while i < 25
        invariant
            1 <= i <= 25,
            r.len() == i,
            b == points(*before),
            a == points(*after),
            all == hop_ints(hops@),
            forall|p: int| 1 <= p < i ==> #[trigger] r@[p] == (was_hit(b, a, p) && !lands_on(all, p)),
        decreases 25 - i,
    {
        assert(b[i as int] == before@[i as int] && a[i as int] == after@[i as int]);
        let mut open: bool = before[i] < 0 && after[i] > before[i];
        let mut k: usize = 0;
        while k < hops.len()
            invariant
                k <= hops.len(),
                1 <= i < 25,
                all == hop_ints(hops@),
                open == (was_hit(b, a, i as int) && !lands_on(all.take(k as int), i as int)),
            decreases hops.len() - k,
        {
            assert(all[k as int].1 == hops@[k as int].1);
            let ghost was = lands_on(all.take(k as int), i as int);
            if hops[k].1 == i as i32 {
                open = false;
                assert(all.take(k + 1)[k as int].1 == i);
            }
            proof {
                let now = all.take(k + 1);
                if was {
                    let j = choose|j: int|
                        0 <= j < all.take(k as int).len() && (#[trigger] all.take(k as int)[j]).1 == i;
                    assert(now[j].1 == i);
                }
                if lands_on(now, i as int) && all[k as int].1 != i {
                    let j = choose|j: int| 0 <= j < now.len() && (#[trigger] now[j]).1 == i;
                    assert(all.take(k as int)[j].1 == i);
                }
            }
            k = k + 1;
        }
        assert(all.take(k as int) == all);
        r.push(open);
        i = i + 1;
    }
    r
}

/// The points at which a hop is broken.
fn break_points(hop: (i32, i32), die1: i32, die2: i32, open: &Vec<bool>, Ghost(open_hits): Ghost<
    Set<int>,
>) -> (r: Vec<i32>)
    requires
        marks(open@, open_hits),
        0 <= hop.0 <= 25,
        0 <= hop.1 <= 25,
    ensures
        ints(r@) == breaks((hop.0 as int, hop.1 as int), die1 as int, die2 as int, open_hits),
        forall|k: int| 0 <= k < r.len() ==> 1 <= #[trigger] r@[k] <= 24,
{
    let from = hop.0 as i64;
    let to = hop.1 as i64;
    let span = from - to;
    let mut mids: Vec<i32> = Vec::new();
    if die1 == die2 {
        let die = die1 as i64;
        if die > 0 && span > die && span % die == 0 {
            let ghost goal = hits_between(from as int, to as int, die as int, open_hits);
            let mut at: i64 = from;
            assert(ints(mids@) + goal == goal);
            while at - die > to
                invariant
                    0 < die <= 25,
                    0 <= to <= 25,
                    to <= at <= 25,
                    marks(open@, open_hits),
                    ints(mids@) + hits_between(at as int, to as int, die as int, open_hits) == goal,
                    forall|k: int| 0 <= k < mids.len() ==> 1 <= #[trigger] mids@[k] <= 24,
                decreases at - to,
            {
                let mid = at - die;
                let ghost done = ints(mids@);
                let ghost rest = hits_between(mid as int, to as int, die as int, open_hits);
                assert(mid == 25 ==> !open_hits.contains(mid as int));
                if 1 <= mid && mid <= 24 && open[mid as usize] {
                    mids.push(mid as i32);
                    assert(ints(mids@) == done.push(mid as int));
                    assert(done + (seq![mid as int] + rest) == done.push(mid as int) + rest);
                }
                at = mid;
            }
            assert(ints(mids@) + hits_between(at as int, to as int, die as int, open_hits) == ints(mids@));
        } else {
            assert(ints(mids@) == Seq::<int>::empty());
        }
    } else if span == die1 as i64 + die2 as i64 {
        let first = from - die1 as i64;
        let second = from - die2 as i64;
        if 1 <= first && first <= 24 && open[first as usize] {
            mids.push(first as i32);
            assert(ints(mids@) == seq![first as int]);
        } else if 1 <= second && second <= 24 && open[second as usize] {
            mids.push(second as i32);
            assert(ints(mids@) == seq![second as int]);
        } else {
            assert(ints(mids@) == Seq::<int>::empty());
        }
    } else {
        assert(ints(mids@) == Seq::<int>::empty());
    }
    mids
}

/// A hop broken at the given points.
fn break_hop(from: i32, mids: &Vec<i32>, to: i32) -> (r: Vec<(i32, i32)>)
    ensures
        hop_ints(r@) == chain(from as int, ints(mids@), to as int),
{
    let ghost all = ints(mids@);
    let ghost goal = chain(from as int, all, to as int);
    let mut r: Vec<(i32, i32)> = Vec::new();
    let mut prev: i32 = from;
    let mut i: usize = 0;
    assert(all.skip(0) == all);
    assert(hop_ints(r@) + goal == goal);
    while i < mids.len()
        invariant
            i <= mids.len(),
            all == ints(mids@),
            hop_ints(r@) + chain(prev as int, all.skip(i as int), to as int) == goal,
        decreases mids.len() - i,
    {
        let ghost done = hop_ints(r@);
        let mid = mids[i];
        assert(all.skip(i as int)[0] == mid);
        assert(all.skip(i as int).drop_first() == all.skip(i + 1));
        let ghost rest = chain(mid as int, all.skip(i + 1), to as int);
        assert(done + (seq![(prev as int, mid as int)] + rest) == done.push((prev as int, mid as int))
            + rest);
        r.push((prev, mid));
        assert(hop_ints(r@) == done.push((prev as int, mid as int)));
        prev = mid;
        i = i + 1;
    }
    let ghost done = hop_ints(r@);
    r.push((prev, to));
    assert(hop_ints(r@) == done.push((prev as int, to as int)));
    assert(done + seq![(prev as int, to as int)] == done.push((prev as int, to as int)));
    r
}

/// Every hop goes from a point or the bar to a point or off.
pub open spec fn hops_on_board(hops: Seq<(int, int)>) -> bool {
    forall|i: int|
        0 <= i < hops.len() ==> 1 <= (#[trigger] hops[i]).0 <= 25 && 0 <= hops[i].1 <= 24
}

/// Breaks the hops at the hits on the way.
fn break_all(hops: &Vec<(i32, i32)>, die1: i32, die2: i32, open: Vec<bool>, Ghost(open_hits): Ghost<
    Set<int>,
>) -> (r: Vec<(i32, i32)>)
    requires
        marks(open@, open_hits),
        hops_on_board(hop_ints(hops@)),
    ensures
        hop_ints(r@) == broken(hop_ints(hops@), die1 as int, die2 as int, open_hits).0,
{
    let ghost all = hop_ints(hops@);
    let ghost goal = broken(all, die1 as int, die2 as int, open_hits).0;
    let ghost mut left = open_hits;
    let mut open = open;
    let mut acc: Vec<(i32, i32)> = Vec::new();
    let mut k: usize = hops.len();
    assert(all.take(k as int) == all);
    assert(goal + hop_ints(acc@) == goal);
    while k > 0
        invariant
            k <= hops.len(),
            all == hop_ints(hops@),
            hops_on_board(all),
            marks(open@, left),
            broken(all.take(k as int), die1 as int, die2 as int, left).0 + hop_ints(acc@) == goal,
        decreases k,
    {
        k = k - 1;
        let hop = hops[k];
        let ghost prefix = all.take(k + 1);
        proof {
            assert(prefix.drop_last() == all.take(k as int));
            assert(prefix.last() == all[k as int]);
            assert(all[k as int] == (hop.0 as int, hop.1 as int));
        }
        let mids = break_points(hop, die1, die2, &open, Ghost(left));
        let ghost points_taken = ints(mids@);
        let ghost now = without_points(left, points_taken);
        let mut j: usize = 0;
        let ghost open_before = open@;
        while j < mids.len()
            invariant
                j <= mids.len(),
                open.len() == 25,
                open_before.len() == 25,
                points_taken == ints(mids@),
                forall|i: int| 0 <= i < mids.len() ==> 1 <= #[trigger] mids@[i] <= 24,
                forall|p: int|
                    0 <= p < 25 ==> #[trigger] open@[p] == (open_before[p] && !points_taken.take(
                        j as int,
                    ).contains(p)),
            decreases mids.len() - j,
        {
            let ghost opened = open@;
            open[mids[j] as usize] = false;
            proof {
                let m = mids@[j as int] as int;
                let next = points_taken.take(j + 1);
                assert(next == points_taken.take(j as int).push(m));
                assert forall|p: int| 0 <= p < 25 implies #[trigger] open@[p] == (open_before[p]
                    && !next.contains(p)) by {
                    if p == m {
                        assert(next[j as int] == m);
                    } else {
                        if next.contains(p) {
                            let i = choose|i: int| 0 <= i < next.len() && next[i] == p;
                            assert(points_taken.take(j as int)[i] == p);
                        }
                        if points_taken.take(j as int).contains(p) {
                            let i = choose|i: int|
                                0 <= i < points_taken.take(j as int).len() && points_taken.take(
                                    j as int,
                                )[i] == p;
                            assert(next[i] == p);
                        }
                    }
                }
            }
            j = j + 1;
        }
        proof {
            assert(points_taken.take(j as int) == points_taken);
            assert(marks(open@, now));
        }
        let mut parts = break_hop(hop.0, &mids, hop.1);
        let ghost tail = hop_ints(acc@);
        let ghost head = hop_ints(parts@);
        let ghost rest = broken(all.take(k as int), die1 as int, die2 as int, now).0;
        proof {
            assert((rest + head) + tail == rest + (head + tail));
        }
        parts.append(&mut acc);
        assert(hop_ints(parts@) == head + tail);
        acc = parts;
        proof {
            left = now;
        }
    }
    assert(broken(all.take(0), die1 as int, die2 as int, left).0 + hop_ints(acc@) == hop_ints(acc@));
    acc
}

fn goes_ahead(a: (i32, i32), b: (i32, i32)) -> (r: bool)
    ensures
        r == ahead((a.0 as int, a.1 as int), (b.0 as int, b.1 as int)),
{
    a.0 > b.0 || (a.0 == b.0 && a.1 > b.1)
}

/// Puts a hop in its place.
fn place(hops: &mut Vec<(i32, i32)>, hop: (i32, i32))
    ensures
        hop_ints(final(hops)@) == placed(hop_ints(old(hops)@), (hop.0 as int, hop.1 as int)),
{
    let ghost all = hop_ints(hops@);
    let ghost h = (hop.0 as int, hop.1 as int);
    let ghost goal = placed(all, h);
    let mut k: usize = hops.len();
    assert(all.take(k as int) == all);
    assert(goal + all.skip(k as int) == goal);
    while k > 0 && goes_ahead(hop, hops[k - 1])
        invariant
            k <= hops.len(),
            all == hop_ints(hops@),
            h == (hop.0 as int, hop.1 as int),
            placed(all.take(k as int), h) + all.skip(k as int) == goal,
        decreases k,
    {
        proof {
            let prefix = all.take(k as int);
            let last = prefix.last();
            assert(last == all[k - 1]);
            assert(prefix.drop_last() == all.take(k - 1));
            let inner = placed(all.take(k - 1), h);
            assert(inner.push(last) + all.skip(k as int) == inner + all.skip(k - 1));
        }
        k = k - 1;
    }
    proof {
        let prefix = all.take(k as int);
        if k > 0 {
            assert(prefix.last() == all[k - 1]);
        }
        assert(placed(prefix, h) == prefix.push(h));
        assert(prefix.push(h) + all.skip(k as int) == all.insert(k as int, h));
    }
    hops.insert(k, hop);
    assert(hop_ints(hops@) == all.insert(k as int, h));
}

/// The hops from the highest point down.
fn sort_hops(hops: &Vec<(i32, i32)>) -> (r: Vec<(i32, i32)>)
    ensures
        hop_ints(r@) == in_order(hop_ints(hops@)),
{
    let ghost all = hop_ints(hops@);
    let mut r: Vec<(i32, i32)> = Vec::new();
    let mut i: usize = 0;
    assert(hop_ints(r@) == in_order(all.take(0)));
    while i < hops.len()
        invariant
            i <= hops.len(),
            all == hop_ints(hops@),
            hop_ints(r@) == in_order(all.take(i as int)),
        decreases hops.len() - i,
    {
        proof {
            let next = all.take(i + 1);
            assert(next.drop_last() == all.take(i as int));
            assert(next.last() == all[i as int]);
        }
        place(&mut r, hops[i]);
        i = i + 1;
    }
    assert(all.take(i as int) == all);
    r
}

/// Writes hops out, with a space between each two.
fn render(hops: &Vec<(i32, i32)>) -> (r: String)
    ensures
        r@ == hops_text(hop_ints(hops@)),
{
    let ghost texts = hop_texts(hop_ints(hops@));
    let mut r = String::new();
    let mut i: usize = 0;
    assert(r@ == joined(texts.take(0), seq![' ']));
    while i < hops.len()
        invariant
            i <= hops.len(),
            texts == hop_texts(hop_ints(hops@)),
            r@ == joined(texts.take(i as int), seq![' ']),
        decreases hops.len() - i,
    {
        let ghost start = r@;
        proof {
            let next = texts.take(i + 1);
            assert(next.drop_last() == texts.take(i as int));
            assert(next.last() == hop_text((hops@[i as int].0 as int, hops@[i as int].1 as int)));
        }
        if i > 0 {
            r.push(' ');
        }
        let ghost spaced = r@;
        r.append(point_label(hops[i].0, BAR_TOKEN).as_str());
        r.push('/');
        r.append(point_label(hops[i].1, OFF_TOKEN).as_str());
        proof {
            let text = hop_text((hops@[i as int].0 as int, hops@[i as int].1 as int));
            assert(r@ == spaced + text);
            if i > 0 {
                assert(spaced == start + seq![' ']);
            } else {
                assert(start == Seq::<char>::empty());
                assert(spaced + text == text);
            }
        }
        i = i + 1;
    }
    assert(texts.take(i as int) == texts);
    r
}

// What the pairing keeps

/// How many hops leave `p`.
pub open spec fn leaving(hops: Seq<(int, int)>, p: int) -> int
    decreases hops.len(),
{
    if hops.len() == 0 {
        0
    } else {
        leaving(hops.drop_last(), p) + (if hops.last().0 == p {
            1int
        } else {
            0int
        })
    }
}

/// How many hops come to `p`.
pub open spec fn coming(hops: Seq<(int, int)>, p: int) -> int
    decreases hops.len(),
{
    if hops.len() == 0 {
        0
    } else {
        coming(hops.drop_last(), p) + (if hops.last().1 == p {
            1int
        } else {
            0int
        })
    }
}

/// How many of the first `n` entries are used and equal `p`.
pub open spec fn used_at(xs: Seq<int>, used: Seq<bool>, p: int, n: int) -> int
    decreases n,
{
    if n <= 0 {
        0
    } else {
        used_at(xs, used, p, n - 1) + (if used[n - 1] && xs[n - 1] == p {
            1int
        } else {
            0int
        })
    }
}

/// How many of the first `n` entries are used.
pub open spec fn used_total(used: Seq<bool>, n: int) -> int
    decreases n,
{
    if n <= 0 {
        0
    } else {
        used_total(used, n - 1) + (if used[n - 1] {
            1int
        } else {
            0int
        })
    }
}

/// The hops of a pairing are made of exactly the entries that it marks as used.
pub open spec fn tallied(froms: Seq<int>, tos: Seq<int>, st: Pairing) -> bool {
    &&& st.from_used.len() == froms.len()
    &&& st.to_used.len() == tos.len()
    &&& forall|p: int|
        #[trigger] leaving(st.hops, p) == used_at(froms, st.from_used, p, froms.len() as int)
    &&& forall|p: int| #[trigger] coming(st.hops, p) == used_at(tos, st.to_used, p, tos.len() as int)
    &&& used_total(st.from_used, froms.len() as int) == st.hops.len()
    &&& used_total(st.to_used, tos.len() as int) == st.hops.len()
}

/// Every source is a point or the bar and every target a point or off.
pub open spec fn ends_on_board(froms: Seq<int>, tos: Seq<int>) -> bool {
    &&& forall|i: int| 0 <= i < froms.len() ==> 1 <= #[trigger] froms[i] <= 25
    &&& forall|i: int| 0 <= i < tos.len() ==> 0 <= #[trigger] tos[i] <= 24
}

proof fn lemma_used_update(xs: Seq<int>, used: Seq<bool>, i: int, p: int, n: int)
    requires
        0 <= i < used.len(),
        n <= used.len(),
        !used[i],
    ensures
        used_at(xs, used.update(i, true), p, n) == used_at(xs, used, p, n) + (if i < n && xs[i] == p {
            1int
        } else {
            0int
        }),
        used_total(used.update(i, true), n) == used_total(used, n) + (if i < n {
            1int
        } else {
            0int
        }),
    decreases n,
{
    if n > 0 {
        lemma_used_update(xs, used, i, p, n - 1);
    }
}

pub(crate) proof fn lemma_first_free(used: Seq<bool>, i: int)
    requires
        0 <= i <= used.len(),
    ensures
        i <= first_free(used, i) <= used.len(),
        first_free(used, i) < used.len() ==> !used[first_free(used, i)],
        forall|k: int| i <= k < first_free(used, i) ==> #[trigger] used[k],
    decreases used.len() - i,
{
    if i < used.len() && used[i] {
        lemma_first_free(used, i + 1);
    }
}

pub(crate) proof fn lemma_first_fit(tos: Seq<int>, used: Seq<bool>, want: int, i: int)
    requires
        0 <= i <= tos.len(),
    ensures
        i <= first_fit(tos, used, want, i) <= tos.len(),
        first_fit(tos, used, want, i) < tos.len() ==> !used[first_fit(tos, used, want, i)] && reaches(
            tos[first_fit(tos, used, want, i)],
            want,
        ),
        forall|k: int| i <= k < first_fit(tos, used, want, i) ==> (#[trigger] used[k] || !reaches(tos[k], want)),
    decreases tos.len() - i,
{
    if i < tos.len() && !(!used[i] && reaches(tos[i], want)) {
        lemma_first_fit(tos, used, want, i + 1);
    }
}

proof fn lemma_pick(tos: Seq<int>, used: Seq<bool>, want: int, spent: bool)
    requires
        tos.len() == used.len(),
    ensures
        pick(tos, used, want, spent) matches Some(k) ==> 0 <= k < tos.len() && !used[k],
{
    lemma_first_free(used, 0);
    lemma_first_fit(tos, used, want, 0);
}

proof fn lemma_coupled(froms: Seq<int>, tos: Seq<int>, fi: int, ti: int, st: Pairing)
    requires
        tallied(froms, tos, st),
        ends_on_board(froms, tos),
        hops_on_board(st.hops),
        0 <= fi < froms.len(),
        0 <= ti < tos.len(),
        !st.from_used[fi],
        !st.to_used[ti],
    ensures
        tallied(froms, tos, coupled(froms, tos, fi, ti, st)),
        hops_on_board(coupled(froms, tos, fi, ti, st).hops),
{
    let next = coupled(froms, tos, fi, ti, st);
    assert(next.hops.drop_last() == st.hops);
    lemma_used_update(froms, st.from_used, fi, 0, froms.len() as int);
    lemma_used_update(tos, st.to_used, ti, 0, tos.len() as int);
    assert forall|p: int|
        #[trigger] leaving(next.hops, p) == used_at(froms, next.from_used, p, froms.len() as int) by {
        lemma_used_update(froms, st.from_used, fi, p, froms.len() as int);
        assert(leaving(st.hops, p) == used_at(froms, st.from_used, p, froms.len() as int));
    }
    assert forall|p: int|
        #[trigger] coming(next.hops, p) == used_at(tos, next.to_used, p, tos.len() as int) by {
        lemma_used_update(tos, st.to_used, ti, p, tos.len() as int);
        assert(coming(st.hops, p) == used_at(tos, st.to_used, p, tos.len() as int));
    }
}

proof fn lemma_die_round(
    froms: Seq<int>,
    tos: Seq<int>,
    die: int,
    fi: int,
    spent: bool,
    st: Pairing,
)
    requires
        0 <= fi,
        tallied(froms, tos, st),
        ends_on_board(froms, tos),
        hops_on_board(st.hops),
    ensures
        tallied(froms, tos, die_round(froms, tos, die, fi, spent, st)),
        hops_on_board(die_round(froms, tos, die, fi, spent, st).hops),
    decreases froms.len() - fi,
{
    if fi < froms.len() {
        if st.from_used[fi] {
            lemma_die_round(froms, tos, die, fi + 1, spent, st);
        } else {
            lemma_pick(tos, st.to_used, froms[fi] - die, spent);
            match pick(tos, st.to_used, froms[fi] - die, spent) {
                Some(ti) => {
                    lemma_coupled(froms, tos, fi, ti, st);
                    lemma_die_round(froms, tos, die, fi + 1, true, coupled(froms, tos, fi, ti, st));
                },
                None => {
                    lemma_die_round(froms, tos, die, fi + 1, spent, st);
                },
            }
        }
    }
}

pub(crate) proof fn lemma_dice_rounds(froms: Seq<int>, tos: Seq<int>, dice: Seq<int>, k: int, st: Pairing)
    requires
        0 <= k,
        tallied(froms, tos, st),
        ends_on_board(froms, tos),
        hops_on_board(st.hops),
    ensures
        tallied(froms, tos, dice_rounds(froms, tos, dice, k, st)),
        hops_on_board(dice_rounds(froms, tos, dice, k, st).hops),
    decreases dice.len() - k,
{
    if k < dice.len() {
        lemma_die_round(froms, tos, dice[k], 0, false, st);
        lemma_dice_rounds(froms, tos, dice, k + 1, die_round(froms, tos, dice[k], 0, false, st));
    }
}

/// After the leftovers no source from `fi` on is open, unless every target is
/// taken.
proof fn lemma_leftovers(froms: Seq<int>, tos: Seq<int>, fi: int, st: Pairing)
    requires
        0 <= fi <= froms.len(),
        tallied(froms, tos, st),
        ends_on_board(froms, tos),
        hops_on_board(st.hops),
        forall|k: int| 0 <= k < fi ==> #[trigger] st.from_used[k] || first_free(st.to_used, 0) >= tos.len(),
    ensures
        tallied(froms, tos, leftovers(froms, tos, fi, st)),
        hops_on_board(leftovers(froms, tos, fi, st).hops),
        ({
            let end = leftovers(froms, tos, fi, st);
            ||| forall|k: int| 0 <= k < froms.len() ==> #[trigger] end.from_used[k]
            ||| forall|k: int| 0 <= k < tos.len() ==> #[trigger] end.to_used[k]
        }),
    decreases froms.len() - fi,
{
    lemma_first_free(st.to_used, 0);
    if fi < froms.len() {
        if st.from_used[fi] || first_free(st.to_used, 0) >= tos.len() {
            lemma_leftovers(froms, tos, fi + 1, st);
        } else {
            let ti = first_free(st.to_used, 0);
            let next = coupled(froms, tos, fi, ti, st);
            lemma_coupled(froms, tos, fi, ti, st);
            assert forall|k: int| 0 <= k < fi + 1 implies #[trigger] next.from_used[k] || first_free(
                next.to_used,
                0,
            ) >= tos.len() by {
                if k < fi {
                    assert(st.from_used[k]);
                }
            }
            lemma_leftovers(froms, tos, fi + 1, next);
        }
    } else {
        if first_free(st.to_used, 0) < tos.len() {
            assert(forall|k: int| 0 <= k < froms.len() ==> #[trigger] st.from_used[k]);
        } else {
            assert(forall|k: int| 0 <= k < tos.len() ==> #[trigger] st.to_used[k]);
        }
    }
}

proof fn lemma_none_used(xs: Seq<int>, n: nat, p: int, k: int)
    requires
        k <= n,
    ensures
        used_at(xs, Seq::new(n, |i: int| false), p, k) == 0,
        used_total(Seq::new(n, |i: int| false), k) == 0,
    decreases k,
{
    if k > 0 {
        lemma_none_used(xs, n, p, k - 1);
    }
}

/// The pairing at its end.
pub open spec fn end_pairing(froms: Seq<int>, tos: Seq<int>, dice: Seq<int>) -> Pairing {
    leftovers(
        froms,
        tos,
        0,
        dice_rounds(froms, tos, dice, 0, unpaired(froms.len(), tos.len())),
    )
}

pub(crate) proof fn lemma_unpaired(froms: Seq<int>, tos: Seq<int>)
    ensures
        tallied(froms, tos, unpaired(froms.len(), tos.len())),
{
    let start = unpaired(froms.len(), tos.len());
    assert forall|p: int| #[trigger] leaving(start.hops, p) == used_at(
        froms,
        start.from_used,
        p,
        froms.len() as int,
    ) by {
        lemma_none_used(froms, froms.len(), p, froms.len() as int);
    }
    assert forall|p: int| #[trigger] coming(start.hops, p) == used_at(
        tos,
        start.to_used,
        p,
        tos.len() as int,
    ) by {
        lemma_none_used(tos, tos.len(), p, tos.len() as int);
    }
    lemma_none_used(froms, froms.len(), 0, froms.len() as int);
    lemma_none_used(tos, tos.len(), 0, tos.len() as int);
}

pub(crate) proof fn lemma_paired(froms: Seq<int>, tos: Seq<int>, dice: Seq<int>)
    requires
        ends_on_board(froms, tos),
    ensures
        tallied(froms, tos, end_pairing(froms, tos, dice)),
        hops_on_board(paired(froms, tos, dice)),
        ({
            let end = end_pairing(froms, tos, dice);
            ||| forall|k: int| 0 <= k < froms.len() ==> #[trigger] end.from_used[k]
            ||| forall|k: int| 0 <= k < tos.len() ==> #[trigger] end.to_used[k]
        }),
{
    let start = unpaired(froms.len(), tos.len());
    lemma_unpaired(froms, tos);
    lemma_dice_rounds(froms, tos, dice, 0, start);
    lemma_leftovers(froms, tos, 0, dice_rounds(froms, tos, dice, 0, start));
}

proof fn lemma_sources_on_board(before: Seq<int>, after: Seq<int>, p: int)
    requires
        p <= 25,
    ensures
        forall|i: int|
            0 <= i < sources_from(before, after, p).len() ==> 1 <= #[trigger] sources_from(
                before,
                after,
                p,
            )[i] <= 25,
    decreases p,
{
    if p > 0 {
        lemma_sources_on_board(before, after, p - 1);
        let head = copies(p, lost(before, after, p));
        let rest = sources_from(before, after, p - 1);
        assert forall|i: int| 0 <= i < sources_from(before, after, p).len() implies 1
            <= #[trigger] sources_from(before, after, p)[i] <= 25 by {
            if i >= head.len() {
                assert(sources_from(before, after, p)[i] == rest[i - head.len()]);
            }
        }
    }
}

proof fn lemma_targets_on_board(before: Seq<int>, after: Seq<int>, p: int)
    requires
        p <= 24,
    ensures
        forall|i: int|
            0 <= i < targets_from(before, after, p).len() ==> 0 <= #[trigger] targets_from(
                before,
                after,
                p,
            )[i] <= 24,
    decreases p + 1,
{
    if p >= 0 {
        lemma_targets_on_board(before, after, p - 1);
        let head = copies(p, gained(before, after, p));
        let rest = targets_from(before, after, p - 1);
        assert forall|i: int| 0 <= i < targets_from(before, after, p).len() implies 0
            <= #[trigger] targets_from(before, after, p)[i] <= 24 by {
            if i >= head.len() {
                assert(targets_from(before, after, p)[i] == rest[i - head.len()]);
            }
        }
    }
}

pub(crate) proof fn lemma_ends_on_board(before: Seq<int>, after: Seq<int>)
    ensures
        ends_on_board(sources(before, after), targets(before, after)),
{
    lemma_sources_on_board(before, after, 25);
    lemma_targets_on_board(before, after, 24);
}

/// The notation of the move that turns `before` into `after` with the given dice,
/// from the mover's side: one `from/to` for each hop, no stars and no grouping.
///
/// A roll of two zeros spans no hop that comes down.
pub fn normalized_notation(before: &Board, after: &Board, die1: i32, die2: i32) -> (r: String)
    requires
        die1 == 0 && die2 == 0 ==> forall|i: int|
            0 <= i < whole_hops(points(*before), points(*after), 0, 0).len() ==> {
                let hop = #[trigger] whole_hops(points(*before), points(*after), 0, 0)[i];
                hop.0 <= hop.1
            },
    ensures
        r@ == hops_text(move_hops(points(*before), points(*after), die1 as int, die2 as int)),
{
    let ghost b = points(*before);
    let ghost a = points(*after);
    let froms = find_sources(before, after);
    let tos = find_targets(before, after);
    let hops = pair_up(&froms, &tos, die1, die2);
    proof {
        lemma_ends_on_board(b, a);
        lemma_paired(ints(froms@), ints(tos@), dice_of(die1 as int, die2 as int));
    }
    let open = mark_hits(before, after, &hops);
    let parts = break_all(&hops, die1, die2, open, Ghost(passed_hits(b, a, hop_ints(hops@))));
    let sorted = sort_hops(&parts);
    render(&sorted)
}

} // verus!
