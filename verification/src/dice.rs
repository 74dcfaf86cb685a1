//! Moves made by the dice: what the hops of a move found from two boards have in
//! common with the hops that were played.
use vstd::arithmetic::div_mod::{
    lemma_mod_add_multiples_vanish, lemma_mod_sub_multiples_vanish, lemma_small_mod,
    lemma_sub_mod_noop,
};
use vstd::prelude::*;

#[allow(unused_imports)]
use crate::board::{lemma_mover_sum_update, mine};
#[allow(unused_imports)]
use crate::hops::{
    ahead, breaks, broken, chain, coming, copies, coupled, dice_of, dice_rounds, die_round,
    ends_on_board, first_fit, first_free, gained, hits_between, hop_text, hop_texts, hops_on_board, hops_text,
    in_order, label, lands_on, leaving, leftovers, lemma_dice_rounds, lemma_ends_on_board,
    lemma_first_fit, lemma_first_free, lemma_unpaired, lost, lost_hits, move_hops, on_board,
    paired, passed_hits, pick, placed, reaches, sources, sources_from, tallied, targets, targets_from,
    unpaired, used_at, was_hit, whole_hops, without_points, Pairing,
};
#[allow(unused_imports)]
use crate::laws::{law_move_keeps, law_notation_stands_for_move};
#[allow(unused_imports)]
use crate::notation::{
    landed, lifted, played, played_words, repeated, stepped, walked, BAR_TOKEN, OFF_TOKEN,
    StepFault,
};
#[allow(unused_imports)]
use crate::roundtrip::{
    after_hops, hit_sum, hopped, left_at, lemma_all_used, lemma_bar_sum_empty, lemma_bar_sum_one_more,
    lemma_bar_sum_same, lemma_broken, lemma_coming_lands, lemma_counts_nonneg, lemma_hop_reads,
    lemma_in_order, lemma_label_number, lemma_lengths, lemma_occurs_sources, lemma_occurs_targets,
    lemma_whole_counts, lemma_words_of_joined, may_become, occurs, tally_board,
};
#[allow(unused_imports)]
use crate::text::is_space;

verus! {

// Plays

/// Hops that the two dice allow: each spans one die exactly, off the board too, and each
/// die is used once, or a double four times, at most.
pub open spec fn by_dice(hops: Seq<(int, int)>, die1: int, die2: int) -> bool {
    &&& hops_on_board(hops)
    &&& if die1 == die2 {
        &&& hops.len() <= 4
        &&& spans(hops, die1)
    } else {
        &&& hops.len() <= 2
        &&& forall|i: int|
            0 <= i < hops.len() ==> (#[trigger] hops[i]).0 - hops[i].1 == die1 || hops[i].0 - hops[i].1
                == die2
        &&& hops.len() == 2 ==> hops[0].0 - hops[0].1 != hops[1].0 - hops[1].1
    }
}

/// Every hop spans the given number of points.
pub open spec fn spans(hops: Seq<(int, int)>, die: int) -> bool {
    forall|i: int| 0 <= i < hops.len() ==> (#[trigger] hops[i]).0 - hops[i].1 == die
}

proof fn lemma_hop_made(b: Seq<int>, hop: (int, int))
    requires
        1 <= hop.0 <= 25,
        0 <= hop.1 <= 24,
        repeated(b, seq![(label(hop.0, BAR_TOKEN@), label(hop.1, OFF_TOKEN@))], 1) is Ok,
    ensures
        repeated(b, seq![(label(hop.0, BAR_TOKEN@), label(hop.1, OFF_TOKEN@))], 1) == Ok::<
            Seq<int>,
            StepFault,
        >(hopped(b, hop).unwrap()),
        hopped(b, hop) is Some,
{
    let x = label(hop.0, BAR_TOKEN@);
    let y = label(hop.1, OFF_TOKEN@);
    if hop.0 <= 24 {
        lemma_label_number(hop.0, BAR_TOKEN@);
    }
    if hop.1 >= 1 {
        lemma_label_number(hop.1, OFF_TOKEN@);
    }
    let one = seq![(x, y)];
    assert(one.drop_last() == Seq::<(Seq<char>, Seq<char>)>::empty());
    assert(one.last() == (x, y));
    reveal_with_fuel(walked, 2);
    reveal_with_fuel(repeated, 2);
    assert(walked(b, one) == stepped(b, (x, y)));
    assert(repeated(b, one, 1) == stepped(b, (x, y)));
    assert(lifted(b, x) is Ok);
    assert(left_at(b, hop.0) is Some);
    let b1 = left_at(b, hop.0).unwrap();
    assert(lifted(b, x) == Ok::<Seq<int>, StepFault>(b1));
    assert(landed(b1, y) is Ok);
}

proof fn lemma_hops_made(b: Seq<int>, hops: Seq<(int, int)>)
    requires
        hops_on_board(hops),
        played_words(b, hop_texts(hops)) is Ok,
    ensures
        after_hops(b, hops) == Some(played_words(b, hop_texts(hops))->Ok_0),
    decreases hops.len(),
{
    if hops.len() > 0 {
        let rest = hops.drop_last();
        let hop = hops.last();
        assert forall|i: int| 0 <= i < rest.len() implies 1 <= (#[trigger] rest[i]).0 <= 25 && 0
            <= rest[i].1 <= 24 by {
            assert(rest[i] == hops[i]);
        }
        assert(hop == hops[hops.len() - 1]);
        assert(hop_texts(hops).drop_last() == hop_texts(rest));
        assert(hop_texts(hops).last() == hop_text(hop));
        lemma_hops_made(b, rest);
        lemma_hop_reads(hop);
        lemma_hop_made(after_hops(b, rest).unwrap(), hop);
    }
}

/// Hops that play when written out can be made one after the other.
proof fn lemma_text_made(b: Seq<int>, hops: Seq<(int, int)>)
    requires
        hops_on_board(hops),
        played(b, hops_text(hops)) is Ok,
    ensures
        after_hops(b, hops) == Some(played(b, hops_text(hops))->Ok_0),
{
    let texts = hop_texts(hops);
    assert forall|k: int| 0 <= k < texts.len() implies (#[trigger] texts[k]).len() > 0 by {
        lemma_hop_reads(hops[k]);
    }
    assert forall|k: int, i: int| 0 <= k < texts.len() && 0 <= i < texts[k].len() implies !is_space(
        #[trigger] texts[k][i],
    ) by {
        lemma_hop_reads(hops[k]);
        assert(texts[k] == hop_text(hops[k]));
    }
    lemma_words_of_joined(texts);
    lemma_hops_made(b, hops);
}

/// What hops that were made have done to one point.
spec fn settled(b: Seq<int>, hops: Seq<(int, int)>, c: Seq<int>, q: int) -> bool {
    &&& b[q] < -1 ==> coming(hops, q) == 0 && leaving(hops, q) == 0
    &&& b[q] == -1 && coming(hops, q) == 0 ==> leaving(hops, q) == 0
    &&& b[q] >= 0 || (b[q] == -1 && coming(hops, q) > 0) ==> c[q] >= 0
}

#[verifier::rlimit(30)]
proof fn lemma_made(b: Seq<int>, hops: Seq<(int, int)>)
    requires
        b.len() == 26,
        hops_on_board(hops),
        after_hops(b, hops) is Some,
    ensures
        after_hops(b, hops) == Some(tally_board(b, hops)),
        forall|q: int| 1 <= q <= 24 ==> #[trigger] settled(b, hops, tally_board(b, hops), q),
    decreases hops.len(),
{
    let c = tally_board(b, hops);
    if hops.len() == 0 {
        assert(hops == Seq::<(int, int)>::empty());
        lemma_bar_sum_empty(b, 24);
        assert(c == b);
    } else {
        let prev = hops.drop_last();
        let hop = hops.last();
        assert(hop == hops[hops.len() - 1]);
        assert forall|i: int| 0 <= i < prev.len() implies 1 <= (#[trigger] prev[i]).0 <= 25 && 0
            <= prev[i].1 <= 24 by {
            assert(prev[i] == hops[i]);
        }
        lemma_made(b, prev);
        let s = tally_board(b, prev);
        let f = hop.0;
        let t = hop.1;
        let s1 = s.update(f, s[f] - 1);
        assert(s[f] > 0);
        lemma_counts_nonneg(prev, f);
        lemma_counts_nonneg(prev, t);
        if f <= 24 {
            assert(settled(b, prev, s, f));
        }
        if t == 0 {
            assert forall|p: int| 1 <= p <= 24 && #[trigger] b[p] == -1 implies (coming(prev, p) > 0
                <==> coming(hops, p) > 0) by {}
            lemma_bar_sum_same(b, prev, hops, 24);
            assert(s1 == c);
        } else {
            assert(settled(b, prev, s, t));
            if b[t] == -1 && coming(prev, t) == 0 {
                assert(f != t);
                assert(s1[t] == -1);
                assert forall|p: int| 1 <= p <= 24 && p != t implies #[trigger] coming(prev, p)
                    == coming(hops, p) by {}
                lemma_bar_sum_one_more(b, prev, hops, t, 24);
                assert(s1.update(t, 1).update(0, s1[0] + 1) == c);
            } else {
                assert forall|p: int| 1 <= p <= 24 && #[trigger] b[p] == -1 implies (coming(prev, p) > 0
                    <==> coming(hops, p) > 0) by {
                    lemma_counts_nonneg(prev, p);
                }
                lemma_bar_sum_same(b, prev, hops, 24);
                assert(s1[t] >= 0);
                assert(s1.update(t, s1[t] + 1) == c);
            }
        }
        assert forall|q: int| 1 <= q <= 24 implies #[trigger] settled(b, hops, c, q) by {
            assert(settled(b, prev, s, q));
            lemma_counts_nonneg(prev, q);
        }
    }
}

/// The mover has as many checkers fewer on the board as hops went off it.
proof fn lemma_on_board_kept(b: Seq<int>, hops: Seq<(int, int)>)
    requires
        b.len() == 26,
        hops_on_board(hops),
        after_hops(b, hops) is Some,
    ensures
        on_board(after_hops(b, hops)->0) == on_board(b) - coming(hops, 0),
        after_hops(b, hops)->0.len() == 26,
    decreases hops.len(),
{
    if hops.len() > 0 {
        let prev = hops.drop_last();
        let hop = hops.last();
        assert(hop == hops[hops.len() - 1]);
        assert forall|i: int| 0 <= i < prev.len() implies 1 <= (#[trigger] prev[i]).0 <= 25 && 0
            <= prev[i].1 <= 24 by {
            assert(prev[i] == hops[i]);
        }
        lemma_on_board_kept(b, prev);
        let s = after_hops(b, prev)->0;
        let s1 = left_at(s, hop.0)->0;
        lemma_mover_sum_update(s, hop.0, s[hop.0] - 1, 24);
        if hop.1 > 0 {
            if s1[hop.1] == -1 {
                lemma_mover_sum_update(s1, hop.1, 1, 24);
                lemma_mover_sum_update(s1.update(hop.1, 1), 0, s1[0] + 1, 24);
            } else {
                lemma_mover_sum_update(s1, hop.1, s1[hop.1] + 1, 24);
            }
        }
    }
}

/// What left a point and what came to it on balance, by the hops that were made.
pub open spec fn balanced(b: Seq<int>, c: Seq<int>, hops: Seq<(int, int)>, q: int) -> bool {
    &&& lost(b, c, q) == mine(leaving(hops, q) - coming(hops, q))
    &&& q <= 24 ==> gained(b, c, q) == mine(coming(hops, q) - leaving(hops, q))
    &&& was_hit(b, c, q) ==> b[q] == -1 && coming(hops, q) > 0
}

/// No hop comes to the bar or leaves from off.
proof fn lemma_ends(hops: Seq<(int, int)>, q: int)
    requires
        hops_on_board(hops),
    ensures
        !(1 <= q <= 25) ==> leaving(hops, q) == 0,
        !(0 <= q <= 24) ==> coming(hops, q) == 0,
    decreases hops.len(),
{
    if hops.len() > 0 {
        let prev = hops.drop_last();
        assert(hops.last() == hops[hops.len() - 1]);
        assert forall|i: int| 0 <= i < prev.len() implies 1 <= (#[trigger] prev[i]).0 <= 25 && 0
            <= prev[i].1 <= 24 by {
            assert(prev[i] == hops[i]);
        }
        lemma_ends(prev, q);
    }
}

// Counting hops

proof fn lemma_leaving_starts(hops: Seq<(int, int)>, p: int)
    requires
        leaving(hops, p) > 0,
    ensures
        exists|i: int| 0 <= i < hops.len() && (#[trigger] hops[i]).0 == p,
    decreases hops.len(),
{
    if hops.len() > 0 {
        let prev = hops.drop_last();
        if hops.last().0 == p {
            assert(hops[hops.len() - 1].0 == p);
        } else {
            lemma_leaving_starts(prev, p);
            let i = choose|i: int| 0 <= i < prev.len() && (#[trigger] prev[i]).0 == p;
            assert(hops[i].0 == p);
        }
    }
}

/// A hop of a list is counted where it starts and where it ends.
proof fn lemma_hop_counted(hops: Seq<(int, int)>, i: int)
    requires
        0 <= i < hops.len(),
    ensures
        leaving(hops, hops[i].0) > 0,
        coming(hops, hops[i].1) > 0,
    decreases hops.len(),
{
    let prev = hops.drop_last();
    lemma_counts_nonneg(prev, hops[i].0);
    lemma_counts_nonneg(prev, hops[i].1);
    if i < prev.len() {
        assert(prev[i] == hops[i]);
        lemma_hop_counted(prev, i);
    }
}

/// The hops that leave the points 1 to `n`.
spec fn leaving_upto(hops: Seq<(int, int)>, n: int) -> int
    decreases n,
{
    if n <= 0 {
        0
    } else {
        leaving_upto(hops, n - 1) + leaving(hops, n)
    }
}

proof fn lemma_leaving_upto_push(hops: Seq<(int, int)>, n: int)
    requires
        hops.len() > 0,
        hops.last().0 >= 1,
    ensures
        leaving_upto(hops, n) == leaving_upto(hops.drop_last(), n) + (if hops.last().0 <= n {
            1int
        } else {
            0int
        }),
    decreases n,
{
    if n > 0 {
        lemma_leaving_upto_push(hops, n - 1);
    }
}

proof fn lemma_leaving_total(hops: Seq<(int, int)>)
    requires
        hops_on_board(hops),
    ensures
        leaving_upto(hops, 25) == hops.len(),
    decreases hops.len(),
{
    if hops.len() == 0 {
        lemma_leaving_upto_none(hops, 25);
    } else {
        let prev = hops.drop_last();
        assert(hops.last() == hops[hops.len() - 1]);
        assert forall|i: int| 0 <= i < prev.len() implies 1 <= (#[trigger] prev[i]).0 <= 25 && 0
            <= prev[i].1 <= 24 by {
            assert(prev[i] == hops[i]);
        }
        lemma_leaving_total(prev);
        lemma_leaving_upto_push(hops, 25);
    }
}

proof fn lemma_leaving_upto_none(hops: Seq<(int, int)>, n: int)
    requires
        hops.len() == 0,
    ensures
        leaving_upto(hops, n) == 0,
    decreases n,
{
    if n > 0 {
        lemma_leaving_upto_none(hops, n - 1);
    }
}

proof fn lemma_leaving_upto_same(xs: Seq<(int, int)>, ys: Seq<(int, int)>, n: int)
    requires
        forall|q: int| 1 <= q <= n ==> #[trigger] leaving(xs, q) == leaving(ys, q),
    ensures
        leaving_upto(xs, n) == leaving_upto(ys, n),
    decreases n,
{
    if n > 0 {
        assert(leaving(xs, n) == leaving(ys, n));
        lemma_leaving_upto_same(xs, ys, n - 1);
    }
}

/// No more checkers left on balance than hops were made.
proof fn lemma_sources_few(b: Seq<int>, c: Seq<int>, hops: Seq<(int, int)>, n: int)
    requires
        n <= 25,
        forall|q: int| 1 <= q <= 25 ==> #[trigger] balanced(b, c, hops, q),
    ensures
        sources_from(b, c, n).len() <= leaving_upto(hops, n),
    decreases n,
{
    if n > 0 {
        lemma_sources_few(b, c, hops, n - 1);
        assert(balanced(b, c, hops, n));
        lemma_counts_nonneg(hops, n);
    }
}

/// Hops of one span come to a point as often as they leave the one above it.
proof fn lemma_spans(hops: Seq<(int, int)>, die: int, q: int)
    requires
        spans(hops, die),
    ensures
        coming(hops, q) == leaving(hops, q + die),
    decreases hops.len(),
{
    if hops.len() > 0 {
        let prev = hops.drop_last();
        assert(hops.last() == hops[hops.len() - 1]);
        assert forall|i: int| 0 <= i < prev.len() implies (#[trigger] prev[i]).0 - prev[i].1 == die by {
            assert(prev[i] == hops[i]);
        }
        lemma_spans(prev, die, q);
    }
}

/// An entry is unused exactly if fewer are used than there are.
proof fn lemma_unused(xs: Seq<int>, used: Seq<bool>, p: int, n: int)
    requires
        0 <= n <= used.len(),
        used.len() == xs.len(),
    ensures
        used_at(xs, used, p, n) <= occurs(xs.take(n), p),
        used_at(xs, used, p, n) < occurs(xs.take(n), p) <==> exists|k: int|
            0 <= k < n && !(#[trigger] used[k]) && xs[k] == p,
    decreases n,
{
    if n > 0 {
        lemma_unused(xs, used, p, n - 1);
        assert(xs.take(n).drop_last() == xs.take(n - 1));
        assert(xs.take(n).last() == xs[n - 1]);
        if !used[n - 1] && xs[n - 1] == p {
            assert(!used[n - 1] && xs[n - 1] == p);
        }
        if exists|k: int| 0 <= k < n && !(#[trigger] used[k]) && xs[k] == p {
            let k = choose|k: int| 0 <= k < n && !(#[trigger] used[k]) && xs[k] == p;
            if k < n - 1 {
                assert(!used[k] && xs[k] == p);
            }
        }
    }
}

// Pairing

/// One pairing goes on from another.
spec fn goes_on(st: Pairing, r: Pairing) -> bool {
    &&& r.from_used.len() == st.from_used.len()
    &&& r.to_used.len() == st.to_used.len()
    &&& st.hops.len() <= r.hops.len()
    &&& forall|i: int| 0 <= i < st.hops.len() ==> #[trigger] r.hops[i] == st.hops[i]
    &&& forall|i: int| 0 <= i < st.from_used.len() && #[trigger] st.from_used[i] ==> r.from_used[i]
    &&& forall|i: int| 0 <= i < st.to_used.len() && #[trigger] st.to_used[i] ==> r.to_used[i]
}

/// Every hop that one pairing adds to another is of the given span, from a source
/// to a target.
spec fn adds(froms: Seq<int>, tos: Seq<int>, die: int, st: Pairing, r: Pairing) -> bool {
    forall|i: int|
        st.hops.len() <= i < r.hops.len() ==> (#[trigger] r.hops[i]).0 - r.hops[i].1 == die
            && froms.contains(r.hops[i].0) && tos.contains(r.hops[i].1)
}

/// An unused source and an unused target lie one die apart.
spec fn apart(froms: Seq<int>, tos: Seq<int>, st: Pairing, die: int, i: int, j: int) -> bool {
    &&& 0 <= i < froms.len()
    &&& 0 <= j < tos.len()
    &&& !st.from_used[i]
    &&& !st.to_used[j]
    &&& tos[j] == froms[i] - die
}

spec fn none_apart(froms: Seq<int>, tos: Seq<int>, st: Pairing, die: int) -> bool {
    forall|i: int, j: int| !(#[trigger] apart(froms, tos, st, die, i, j))
}

/// A die finds for these sources only what it carries them to exactly.
spec fn reached_exactly(froms: Seq<int>, tos: Seq<int>, die: int) -> bool {
    forall|i: int, j: int|
        0 <= i < froms.len() && 0 <= j < tos.len() && reaches(
            #[trigger] tos[j],
            (#[trigger] froms[i]) - die,
        ) ==> tos[j] == froms[i] - die
}

#[verifier::rlimit(30)]
proof fn lemma_round(
    froms: Seq<int>,
    tos: Seq<int>,
    die: int,
    fi: int,
    spent: bool,
    st: Pairing,
)
    requires
        0 <= fi,
        st.from_used.len() == froms.len(),
        st.to_used.len() == tos.len(),
        reached_exactly(froms, tos, die),
    ensures
        goes_on(st, die_round(froms, tos, die, fi, spent, st)),
        adds(froms, tos, die, st, die_round(froms, tos, die, fi, spent, st)),
        !spent && (exists|i: int, j: int| fi <= i && #[trigger] apart(froms, tos, st, die, i, j))
            ==> die_round(froms, tos, die, fi, spent, st).hops.len() > st.hops.len(),
        !spent && none_apart(froms, tos, st, die) ==> die_round(froms, tos, die, fi, spent, st) == st,
    decreases froms.len() - fi,
{
    let r = die_round(froms, tos, die, fi, spent, st);
    if fi < froms.len() {
        if st.from_used[fi] {
            lemma_round(froms, tos, die, fi + 1, spent, st);
            if exists|i: int, j: int| fi <= i && #[trigger] apart(froms, tos, st, die, i, j) {
                let (i, j) = choose|i: int, j: int|
                    fi <= i && #[trigger] apart(froms, tos, st, die, i, j);
                assert(fi + 1 <= i && apart(froms, tos, st, die, i, j));
            }
        } else {
            let want = froms[fi] - die;
            lemma_first_free(st.to_used, 0);
            lemma_first_fit(tos, st.to_used, want, 0);
            match pick(tos, st.to_used, want, spent) {
                Some(ti) => {
                    assert(0 <= ti < tos.len() && !st.to_used[ti]);
                    assert(tos[ti] == want);
                    assert(apart(froms, tos, st, die, fi, ti));
                    let next = coupled(froms, tos, fi, ti, st);
                    lemma_round(froms, tos, die, fi + 1, true, next);
                    assert(next.hops[st.hops.len() as int] == (froms[fi], tos[ti]));
                    assert(froms.contains(froms[fi]) && tos.contains(tos[ti]));
                    assert(goes_on(st, next));
                    assert forall|i: int| st.hops.len() <= i < r.hops.len() implies (
                    #[trigger] r.hops[i]).0 - r.hops[i].1 == die && froms.contains(r.hops[i].0)
                        && tos.contains(r.hops[i].1) by {
                        if i == st.hops.len() {
                            assert(r.hops[i] == next.hops[i]);
                        }
                    }
                    assert forall|i: int| 0 <= i < st.hops.len() implies #[trigger] r.hops[i]
                        == st.hops[i] by {
                        assert(next.hops[i] == st.hops[i]);
                    }
                    assert forall|i: int|
                        0 <= i < st.from_used.len() && #[trigger] st.from_used[i] implies r.from_used[i] by {
                        assert(next.from_used[i]);
                    }
                    assert forall|i: int|
                        0 <= i < st.to_used.len() && #[trigger] st.to_used[i] implies r.to_used[i] by {
                        assert(next.to_used[i]);
                    }
                },
                None => {
                    lemma_round(froms, tos, die, fi + 1, spent, st);
                    if !spent && exists|i: int, j: int|
                        fi <= i && #[trigger] apart(froms, tos, st, die, i, j) {
                        let (i, j) = choose|i: int, j: int|
                            fi <= i && #[trigger] apart(froms, tos, st, die, i, j);
                        if i == fi {
                            assert(st.to_used[j] || !reaches(tos[j], want));
                        }
                        assert(fi + 1 <= i && apart(froms, tos, st, die, i, j));
                    }
                },
            }
        }
    }
}

/// Four rounds of one die pair whatever lies that die apart, unless they make four
/// hops.
proof fn lemma_rounds(froms: Seq<int>, tos: Seq<int>, die: int, k: int, st: Pairing)
    requires
        0 <= k <= 4,
        st.from_used.len() == froms.len(),
        st.to_used.len() == tos.len(),
        reached_exactly(froms, tos, die),
    ensures
        ({
            let r = dice_rounds(froms, tos, seq![die, die, die, die], k, st);
            &&& goes_on(st, r)
            &&& adds(froms, tos, die, st, r)
            &&& none_apart(froms, tos, r, die) || r.hops.len() >= st.hops.len() + 4 - k
            &&& none_apart(froms, tos, st, die) ==> r == st
        }),
    decreases 4 - k,
{
    let dice = seq![die, die, die, die];
    if k < 4 {
        let mid = die_round(froms, tos, dice[k], 0, false, st);
        lemma_round(froms, tos, die, 0, false, st);
        lemma_rounds(froms, tos, die, k + 1, mid);
        let r = dice_rounds(froms, tos, dice, k, st);
        assert forall|i: int| 0 <= i < st.hops.len() implies #[trigger] r.hops[i] == st.hops[i] by {
            assert(mid.hops[i] == st.hops[i]);
        }
        assert forall|i: int| 0 <= i < st.from_used.len() && #[trigger] st.from_used[i] implies r.from_used[i] by {
            assert(mid.from_used[i]);
        }
        assert forall|i: int| 0 <= i < st.to_used.len() && #[trigger] st.to_used[i] implies r.to_used[i] by {
            assert(mid.to_used[i]);
        }
        assert forall|i: int| st.hops.len() <= i < r.hops.len() implies (#[trigger] r.hops[i]).0
            - r.hops[i].1 == die && froms.contains(r.hops[i].0) && tos.contains(r.hops[i].1) by {
            if i < mid.hops.len() {
                assert(r.hops[i] == mid.hops[i]);
            }
        }
        if !none_apart(froms, tos, st, die) {
            let (i, j) = choose|i: int, j: int| #[trigger] apart(froms, tos, st, die, i, j);
            assert(0 <= i && apart(froms, tos, st, die, i, j));
        }
    }
}

proof fn lemma_leftovers_go_on(froms: Seq<int>, tos: Seq<int>, fi: int, st: Pairing)
    requires
        0 <= fi,
        st.from_used.len() == froms.len(),
        st.to_used.len() == tos.len(),
    ensures
        goes_on(st, leftovers(froms, tos, fi, st)),
    decreases froms.len() - fi,
{
    if fi < froms.len() {
        lemma_first_free(st.to_used, 0);
        if st.from_used[fi] || first_free(st.to_used, 0) >= tos.len() {
            lemma_leftovers_go_on(froms, tos, fi + 1, st);
        } else {
            let next = coupled(froms, tos, fi, first_free(st.to_used, 0), st);
            lemma_leftovers_go_on(froms, tos, fi + 1, next);
            let r = leftovers(froms, tos, fi, st);
            assert forall|i: int| 0 <= i < st.hops.len() implies #[trigger] r.hops[i] == st.hops[i] by {
                assert(next.hops[i] == st.hops[i]);
            }
            assert forall|i: int|
                0 <= i < st.from_used.len() && #[trigger] st.from_used[i] implies r.from_used[i] by {
                assert(next.from_used[i]);
            }
            assert forall|i: int| 0 <= i < st.to_used.len() && #[trigger] st.to_used[i] implies r.to_used[i] by {
                assert(next.to_used[i]);
            }
        }
    }
}

/// With nothing paired before them the leftovers are paired one by one.
proof fn lemma_leftovers_zip(froms: Seq<int>, tos: Seq<int>, fi: int, st: Pairing)
    requires
        froms.len() == tos.len(),
        0 <= fi <= froms.len(),
        st.hops == Seq::new(fi as nat, |i: int| (froms[i], tos[i])),
        st.from_used == Seq::new(froms.len(), |i: int| i < fi),
        st.to_used == Seq::new(froms.len(), |i: int| i < fi),
    ensures
        leftovers(froms, tos, fi, st).hops == Seq::new(froms.len(), |i: int| (froms[i], tos[i])),
    decreases froms.len() - fi,
{
    if fi < froms.len() {
        let free = first_free(st.to_used, 0);
        lemma_first_free(st.to_used, 0);
        assert(!st.to_used[fi]);
        if free < fi {
            assert(st.to_used[free]);
        }
        if fi < free {
            assert(st.to_used[fi]);
        }
        let next = coupled(froms, tos, fi, fi, st);
        assert(next.hops == Seq::new((fi + 1) as nat, |i: int| (froms[i], tos[i])));
        assert(next.from_used == Seq::new(froms.len(), |i: int| i < fi + 1));
        assert(next.to_used == Seq::new(froms.len(), |i: int| i < fi + 1));
        lemma_leftovers_zip(froms, tos, fi + 1, next);
    }
}

// Order of sources and targets

/// From the highest down.
spec fn falling(xs: Seq<int>) -> bool {
    forall|i: int, j: int| 0 <= i <= j < xs.len() ==> #[trigger] xs[i] >= #[trigger] xs[j]
}

proof fn lemma_sources_falling(b: Seq<int>, a: Seq<int>, n: int)
    ensures
        falling(sources_from(b, a, n)),
        forall|i: int| 0 <= i < sources_from(b, a, n).len() ==> #[trigger] sources_from(b, a, n)[i] <= n,
    decreases n,
{
    if n > 0 {
        lemma_sources_falling(b, a, n - 1);
        let head = copies(n, lost(b, a, n));
        let rest = sources_from(b, a, n - 1);
        let all = sources_from(b, a, n);
        assert forall|i: int| 0 <= i < all.len() implies #[trigger] all[i] <= n by {
            if i >= head.len() {
                assert(all[i] == rest[i - head.len()]);
            }
        }
        assert forall|i: int, j: int| 0 <= i <= j < all.len() implies #[trigger] all[i] >= #[trigger] all[j] by {
            if i >= head.len() {
                assert(all[i] == rest[i - head.len()]);
                assert(all[j] == rest[j - head.len()]);
            }
        }
    }
}

proof fn lemma_targets_falling(b: Seq<int>, a: Seq<int>, n: int)
    ensures
        falling(targets_from(b, a, n)),
        forall|i: int| 0 <= i < targets_from(b, a, n).len() ==> #[trigger] targets_from(b, a, n)[i] <= n,
    decreases n + 1,
{
    if n >= 0 {
        lemma_targets_falling(b, a, n - 1);
        let head = copies(n, gained(b, a, n));
        let rest = targets_from(b, a, n - 1);
        let all = targets_from(b, a, n);
        assert forall|i: int| 0 <= i < all.len() implies #[trigger] all[i] <= n by {
            if i >= head.len() {
                assert(all[i] == rest[i - head.len()]);
            }
        }
        assert forall|i: int, j: int| 0 <= i <= j < all.len() implies #[trigger] all[i] >= #[trigger] all[j] by {
            if i >= head.len() {
                assert(all[i] == rest[i - head.len()]);
                assert(all[j] == rest[j - head.len()]);
            }
        }
    }
}

proof fn lemma_occurs_some(xs: Seq<int>, p: int)
    ensures
        occurs(xs, p) >= 0,
        occurs(xs, p) > 0 <==> exists|i: int| 0 <= i < xs.len() && #[trigger] xs[i] == p,
    decreases xs.len(),
{
    if xs.len() > 0 {
        let rest = xs.drop_last();
        lemma_occurs_some(rest, p);
        if xs.last() == p {
            assert(xs[xs.len() - 1] == p);
        }
        if occurs(rest, p) > 0 {
            let i = choose|i: int| 0 <= i < rest.len() && #[trigger] rest[i] == p;
            assert(xs[i] == p);
        }
        if exists|i: int| 0 <= i < xs.len() && #[trigger] xs[i] == p {
            let i = choose|i: int| 0 <= i < xs.len() && #[trigger] xs[i] == p;
            if i < rest.len() {
                assert(rest[i] == p);
            }
        }
    }
}

/// Two lists from the highest down with the same entries, but for a shift, are the
/// same but for that shift.
proof fn lemma_falling_unique(xs: Seq<int>, ys: Seq<int>, shift: int)
    requires
        falling(xs),
        falling(ys),
        forall|p: int| #[trigger] occurs(xs, p) == occurs(ys, p - shift),
    ensures
        xs.len() == ys.len(),
        forall|i: int| 0 <= i < xs.len() ==> #[trigger] xs[i] - shift == ys[i],
    decreases xs.len(),
{
    if xs.len() == 0 {
        if ys.len() > 0 {
            let p = ys[0];
            lemma_occurs_some(ys, p);
            assert(occurs(xs, p + shift) == occurs(ys, p + shift - shift));
        }
    } else {
        let x = xs.last();
        lemma_occurs_some(xs, x);
        assert(xs[xs.len() - 1] == x);
        lemma_occurs_some(ys, x - shift);
        assert(occurs(xs, x) == occurs(ys, x - shift));
        let i = choose|i: int| 0 <= i < ys.len() && #[trigger] ys[i] == x - shift;
        let y = ys.last();
        assert(ys[ys.len() - 1] == y);
        assert(ys[i] >= y);
        lemma_occurs_some(ys, y);
        lemma_occurs_some(xs, y + shift);
        assert(occurs(xs, y + shift) == occurs(ys, y + shift - shift));
        let j = choose|j: int| 0 <= j < xs.len() && #[trigger] xs[j] == y + shift;
        assert(xs[j] >= xs[xs.len() - 1]);
        assert(x - shift == y);
        let xr = xs.drop_last();
        let yr = ys.drop_last();
        assert(falling(xr)) by {
            assert forall|i: int, j: int| 0 <= i <= j < xr.len() implies #[trigger] xr[i] >= #[trigger] xr[j] by {
                assert(xr[i] == xs[i] && xr[j] == xs[j]);
            }
        }
        assert(falling(yr)) by {
            assert forall|i: int, j: int| 0 <= i <= j < yr.len() implies #[trigger] yr[i] >= #[trigger] yr[j] by {
                assert(yr[i] == ys[i] && yr[j] == ys[j]);
            }
        }
        assert forall|p: int| #[trigger] occurs(xr, p) == occurs(yr, p - shift) by {
            assert(occurs(xs, p) == occurs(ys, p - shift));
        }
        lemma_falling_unique(xr, yr, shift);
        assert forall|i: int| 0 <= i < xs.len() implies #[trigger] xs[i] - shift == ys[i] by {
            if i < xr.len() {
                assert(xr[i] == xs[i] && yr[i] == ys[i]);
            }
        }
    }
}

// Strides

/// A whole number of dice lies between two points.
spec fn in_line(q: int, p: int, die: int) -> bool {
    (q - p) % die == 0
}

proof fn lemma_in_line(q: int, p: int, die: int)
    requires
        die > 0,
    ensures
        in_line(q - die, p, die) == in_line(q, p, die),
        in_line(q + die, p, die) == in_line(q, p, die),
        in_line(p, p, die),
        in_line(q, p, die) && q > p ==> q >= p + die,
{
    lemma_mod_sub_multiples_vanish(q - p, die);
    lemma_mod_add_multiples_vanish(q - p, die);
    assert(-die + (q - p) == q - die - p);
    assert(die + (q - p) == q + die - p);
    lemma_small_mod(0, die as nat);
    if q > p && q < p + die {
        lemma_small_mod((q - p) as nat, die as nat);
    }
}

proof fn lemma_line_spans(f: int, t: int, p: int, die: int)
    requires
        die > 0,
        in_line(f, p, die),
        in_line(t, p, die),
    ensures
        (f - t) % die == 0,
{
    lemma_sub_mod_noop(f - p, t - p, die);
    lemma_small_mod(0, die as nat);
    assert((f - p) - (t - p) == f - t);
}

/// How many hops start in line above `p`.
spec fn starts_above(hops: Seq<(int, int)>, p: int, die: int) -> int
    decreases hops.len(),
{
    if hops.len() == 0 {
        0
    } else {
        starts_above(hops.drop_last(), p, die) + (if hops.last().0 > p && in_line(
            hops.last().0,
            p,
            die,
        ) {
            1int
        } else {
            0int
        })
    }
}

/// How many hops end in line above `p`.
spec fn ends_above(hops: Seq<(int, int)>, p: int, die: int) -> int
    decreases hops.len(),
{
    if hops.len() == 0 {
        0
    } else {
        ends_above(hops.drop_last(), p, die) + (if hops.last().1 > p && in_line(
            hops.last().1,
            p,
            die,
        ) {
            1int
        } else {
            0int
        })
    }
}

/// What leaves the points in line above `p` up to `n`, less what comes to them.
spec fn surplus(hops: Seq<(int, int)>, p: int, die: int, n: int) -> int
    decreases n - p,
{
    if n <= p {
        0
    } else {
        surplus(hops, p, die, n - 1) + (if in_line(n, p, die) {
            leaving(hops, n) - coming(hops, n)
        } else {
            0
        })
    }
}

proof fn lemma_surplus_push(hops: Seq<(int, int)>, p: int, die: int, n: int)
    requires
        hops.len() > 0,
    ensures
        surplus(hops, p, die, n) == surplus(hops.drop_last(), p, die, n) + (if p < hops.last().0 <= n && in_line(
            hops.last().0,
            p,
            die,
        ) {
            1int
        } else {
            0int
        }) - (if p < hops.last().1 <= n && in_line(hops.last().1, p, die) {
            1int
        } else {
            0int
        }),
    decreases n - p,
{
    if n > p {
        lemma_surplus_push(hops, p, die, n - 1);
    }
}

proof fn lemma_surplus_none(hops: Seq<(int, int)>, p: int, die: int, n: int)
    requires
        hops.len() == 0,
    ensures
        surplus(hops, p, die, n) == 0,
    decreases n - p,
{
    if n > p {
        lemma_surplus_none(hops, p, die, n - 1);
    }
}

proof fn lemma_surplus(hops: Seq<(int, int)>, p: int, die: int)
    requires
        hops_on_board(hops),
    ensures
        surplus(hops, p, die, 25) == starts_above(hops, p, die) - ends_above(hops, p, die),
    decreases hops.len(),
{
    if hops.len() == 0 {
        lemma_surplus_none(hops, p, die, 25);
    } else {
        let prev = hops.drop_last();
        assert(hops.last() == hops[hops.len() - 1]);
        assert forall|i: int| 0 <= i < prev.len() implies 1 <= (#[trigger] prev[i]).0 <= 25 && 0
            <= prev[i].1 <= 24 by {
            assert(prev[i] == hops[i]);
        }
        lemma_surplus(prev, p, die);
        lemma_surplus_push(hops, p, die, 25);
    }
}

proof fn lemma_surplus_same(xs: Seq<(int, int)>, ys: Seq<(int, int)>, p: int, die: int, n: int)
    requires
        forall|q: int|
            p < q <= n ==> #[trigger] leaving(xs, q) - coming(xs, q) == leaving(ys, q) - coming(ys, q),
    ensures
        surplus(xs, p, die, n) == surplus(ys, p, die, n),
    decreases n - p,
{
    if n > p {
        assert(leaving(xs, n) - coming(xs, n) == leaving(ys, n) - coming(ys, n));
        lemma_surplus_same(xs, ys, p, die, n - 1);
    }
}

/// Of hops of one die, those that start in line above `p` and do not end there come
/// to `p`.
proof fn lemma_line_crossed(hops: Seq<(int, int)>, p: int, die: int)
    requires
        die > 0,
        spans(hops, die),
    ensures
        starts_above(hops, p, die) - ends_above(hops, p, die) == coming(hops, p),
    decreases hops.len(),
{
    if hops.len() > 0 {
        let prev = hops.drop_last();
        let hop = hops.last();
        assert(hop == hops[hops.len() - 1]);
        assert forall|i: int| 0 <= i < prev.len() implies (#[trigger] prev[i]).0 - prev[i].1 == die by {
            assert(prev[i] == hops[i]);
        }
        lemma_line_crossed(prev, p, die);
        lemma_in_line(hop.0, p, die);
        lemma_in_line(hop.1, p, die);
    }
}

proof fn lemma_crossing_hop(hops: Seq<(int, int)>, p: int, die: int)
    requires
        starts_above(hops, p, die) > ends_above(hops, p, die),
    ensures
        exists|i: int|
            0 <= i < hops.len() && (#[trigger] hops[i]).0 > p && in_line(hops[i].0, p, die) && !(hops[i].1
                > p && in_line(hops[i].1, p, die)),
    decreases hops.len(),
{
    if hops.len() > 0 {
        let prev = hops.drop_last();
        let hop = hops.last();
        if hop.0 > p && in_line(hop.0, p, die) && !(hop.1 > p && in_line(hop.1, p, die)) {
            assert(hops[hops.len() - 1] == hop);
        } else {
            lemma_crossing_hop(prev, p, die);
            let i = choose|i: int|
                0 <= i < prev.len() && (#[trigger] prev[i]).0 > p && in_line(prev[i].0, p, die) && !(
                prev[i].1 > p && in_line(prev[i].1, p, die));
            assert(hops[i] == prev[i]);
        }
    }
}

// Hits that are taken

proof fn lemma_between_holds(at: int, to: int, die: int, open_hits: Set<int>, p: int)
    requires
        die > 0,
        to < p < at,
        1 <= p <= 24,
        in_line(at, p, die),
        open_hits.contains(p),
    ensures
        hits_between(at, to, die, open_hits).contains(p),
    decreases at - to,
{
    let mid = at - die;
    lemma_in_line(at, p, die);
    let all = hits_between(at, to, die, open_hits);
    if mid == p {
        assert(all[0] == p);
    } else {
        lemma_between_holds(mid, to, die, open_hits, p);
        let rest = hits_between(mid, to, die, open_hits);
        let i = choose|i: int| 0 <= i < rest.len() && rest[i] == p;
        if 1 <= mid <= 24 && open_hits.contains(mid) {
            assert(all[i + 1] == p);
        } else {
            assert(all[i] == p);
        }
    }
}

/// The hop is broken at `p` as long as `p` is open.
spec fn breaks_at(hop: (int, int), d1: int, d2: int, open_hits: Set<int>, p: int) -> bool {
    forall|now: Set<int>|
        now.contains(p) && (forall|q: int| #[trigger] now.contains(q) ==> open_hits.contains(q))
            ==> #[trigger] breaks(hop, d1, d2, now).contains(p)
}

/// A hit at which some hop is broken as long as it is open is not left.
proof fn lemma_taken(hops: Seq<(int, int)>, d1: int, d2: int, open_hits: Set<int>, now: Set<int>, p: int, k: int)
    requires
        forall|q: int| #[trigger] now.contains(q) ==> open_hits.contains(q),
        0 <= k < hops.len(),
        breaks_at(hops[k], d1, d2, open_hits, p),
    ensures
        !broken(hops, d1, d2, now).1.contains(p),
    decreases hops.len(),
{
    let hop = hops.last();
    let mids = breaks(hop, d1, d2, now);
    let next = without_points(now, mids);
    let rest = hops.drop_last();
    if !next.contains(p) {
        lemma_left_open(rest, d1, d2, next, p);
    } else if k == hops.len() - 1 {
        assert(breaks(hop, d1, d2, now).contains(p));
    } else {
        assert(rest[k] == hops[k]);
        assert forall|q: int| #[trigger] next.contains(q) implies open_hits.contains(q) by {
            assert(now.contains(q));
        }
        lemma_taken(rest, d1, d2, open_hits, next, p, k);
    }
}

/// What is left was open.
proof fn lemma_left_open(hops: Seq<(int, int)>, d1: int, d2: int, now: Set<int>, p: int)
    ensures
        broken(hops, d1, d2, now).1.contains(p) ==> now.contains(p),
    decreases hops.len(),
{
    if hops.len() > 0 {
        lemma_left_open(
            hops.drop_last(),
            d1,
            d2,
            without_points(now, breaks(hops.last(), d1, d2, now)),
            p,
        );
    }
}

// Plays and the hops found from them

/// The hops lead from one board to the other.
spec fn made(b: Seq<int>, c: Seq<int>, hops: Seq<(int, int)>) -> bool {
    &&& may_become(b, c)
    &&& hops_on_board(hops)
    &&& forall|q: int| 0 <= q <= 25 ==> #[trigger] balanced(b, c, hops, q)
}

proof fn lemma_hit_sum_nonneg(b: Seq<int>, c: Seq<int>, n: int)
    ensures
        hit_sum(b, c, n) >= 0,
    decreases n,
{
    if n > 0 {
        lemma_hit_sum_nonneg(b, c, n - 1);
    }
}

proof fn lemma_balanced(b: Seq<int>, hops: Seq<(int, int)>)
    requires
        hops_on_board(hops),
        after_hops(b, hops) is Some,
        may_become(b, after_hops(b, hops)->0),
    ensures
        forall|q: int| 0 <= q <= 25 ==> #[trigger] balanced(b, after_hops(b, hops)->0, hops, q),
{
    lemma_made(b, hops);
    lemma_on_board_kept(b, hops);
    let c = tally_board(b, hops);
    lemma_hit_sum_nonneg(b, c, 24);
    assert forall|q: int| 0 <= q <= 25 implies #[trigger] balanced(b, c, hops, q) by {
        lemma_counts_nonneg(hops, q);
        lemma_ends(hops, q);
        if 1 <= q <= 24 {
            assert(settled(b, hops, c, q));
        }
    }
}

proof fn lemma_play_made(b: Seq<int>, hops: Seq<(int, int)>)
    requires
        b.len() == 26,
        hops_on_board(hops),
        played(b, hops_text(hops)) is Ok,
    ensures
        made(b, played(b, hops_text(hops))->Ok_0, hops),
{
    lemma_text_made(b, hops);
    law_move_keeps(b, hops_text(hops));
    lemma_balanced(b, hops);
}

/// A hit that no hop found comes down on was passed over: as many checkers came to
/// it as left it again.
proof fn lemma_passed(b: Seq<int>, c: Seq<int>, hops: Seq<(int, int)>, d1: int, d2: int, p: int)
    requires
        made(b, c, hops),
        passed_hits(b, c, whole_hops(b, c, d1, d2)).contains(p),
    ensures
        1 <= p <= 24,
        coming(hops, p) == leaving(hops, p),
        coming(hops, p) > 0,
{
    let whole = whole_hops(b, c, d1, d2);
    assert(was_hit(b, c, p));
    assert(balanced(b, c, hops, p));
    lemma_whole_counts(b, c, d1, d2, p);
    lemma_coming_lands(whole, p);
    lemma_counts_nonneg(hops, p);
    assert(gained(b, c, p) == 0);
    assert(c[p] == c[p]);
}

proof fn lemma_four(hops: Seq<(int, int)>, r: int)
    requires
        hops.len() == 4,
    ensures
        leaving(hops, r) == (if hops[0].0 == r { 1int } else { 0 }) + (if hops[1].0 == r { 1int } else { 0 })
            + (if hops[2].0 == r { 1int } else { 0 }) + (if hops[3].0 == r { 1int } else { 0 }),
        coming(hops, r) == (if hops[0].1 == r { 1int } else { 0 }) + (if hops[1].1 == r { 1int } else { 0 })
            + (if hops[2].1 == r { 1int } else { 0 }) + (if hops[3].1 == r { 1int } else { 0 }),
{
    let h3 = hops.drop_last();
    let h2 = h3.drop_last();
    let h1 = h2.drop_last();
    assert(h1.drop_last().len() == 0);
    assert(h3.last() == hops[2] && h2.last() == hops[1] && h1.last() == hops[0]);
    reveal_with_fuel(leaving, 2);
    reveal_with_fuel(coming, 2);
    assert(leaving(h1, r) == if hops[0].0 == r { 1int } else { 0 });
    assert(coming(h1, r) == if hops[0].1 == r { 1int } else { 0 });
    assert(leaving(h2, r) == leaving(h1, r) + if hops[1].0 == r { 1int } else { 0 });
    assert(coming(h2, r) == coming(h1, r) + if hops[1].1 == r { 1int } else { 0 });
}

/// Every hop goes from a point in line to a point in line, or from one out of it to
/// one out of it.
spec fn keeps_line(hops: Seq<(int, int)>, p: int, die: int) -> bool {
    forall|i: int|
        0 <= i < hops.len() ==> in_line((#[trigger] hops[i]).0, p, die) == in_line(hops[i].1, p, die)
}

proof fn lemma_leftovers_in_line(froms: Seq<int>, tos: Seq<int>, fi: int, st: Pairing, p: int, die: int)
    requires
        0 <= fi,
        st.from_used.len() == froms.len(),
        st.to_used.len() == tos.len(),
        keeps_line(st.hops, p, die),
        forall|i: int| 0 <= i < froms.len() && !(#[trigger] st.from_used[i]) ==> in_line(froms[i], p, die),
        forall|j: int| 0 <= j < tos.len() && !(#[trigger] st.to_used[j]) ==> in_line(tos[j], p, die),
    ensures
        keeps_line(leftovers(froms, tos, fi, st).hops, p, die),
    decreases froms.len() - fi,
{
    if fi < froms.len() {
        lemma_first_free(st.to_used, 0);
        let ti = first_free(st.to_used, 0);
        if st.from_used[fi] || ti >= tos.len() {
            lemma_leftovers_in_line(froms, tos, fi + 1, st, p, die);
        } else {
            let next = coupled(froms, tos, fi, ti, st);
            assert forall|i: int| 0 <= i < next.hops.len() implies in_line(
                (#[trigger] next.hops[i]).0,
                p,
                die,
            ) == in_line(next.hops[i].1, p, die) by {
                if i < st.hops.len() {
                    assert(next.hops[i] == st.hops[i]);
                }
            }
            assert forall|i: int| 0 <= i < froms.len() && !(#[trigger] next.from_used[i]) implies in_line(
                froms[i],
                p,
                die,
            ) by {
                assert(!st.from_used[i]);
            }
            assert forall|j: int| 0 <= j < tos.len() && !(#[trigger] next.to_used[j]) implies in_line(
                tos[j],
                p,
                die,
            ) by {
                assert(!st.to_used[j]);
            }
            lemma_leftovers_in_line(froms, tos, fi + 1, next, p, die);
        }
    }
}

proof fn lemma_ends_of_play(b: Seq<int>, c: Seq<int>, hops: Seq<(int, int)>)
    requires
        made(b, c, hops),
    ensures
        ends_on_board(sources(b, c), targets(b, c)),
        sources(b, c).len() == targets(b, c).len(),
        sources(b, c).len() <= hops.len(),
{
    lemma_ends_on_board(b, c);
    lemma_lengths(b, c, 24);
    assert(sources(b, c).len() == targets(b, c).len());
    lemma_sources_few(b, c, hops, 25);
    lemma_leaving_total(hops);
}

/// Where every hop spans the die, it carries no checker past the end of the board.
proof fn lemma_reached_exactly(b: Seq<int>, c: Seq<int>, hops: Seq<(int, int)>, die: int)
    requires
        made(b, c, hops),
        spans(hops, die),
    ensures
        reached_exactly(sources(b, c), targets(b, c), die),
{
    let froms = sources(b, c);
    let tos = targets(b, c);
    lemma_ends_on_board(b, c);
    assert forall|i: int, j: int|
        0 <= i < froms.len() && 0 <= j < tos.len() && reaches(
            #[trigger] tos[j],
            (#[trigger] froms[i]) - die,
        ) implies tos[j] == froms[i] - die by {
        let f = froms[i];
        lemma_occurs_some(froms, f);
        lemma_occurs_sources(b, c, 25, f);
        lemma_counts_nonneg(hops, f);
        assert(balanced(b, c, hops, f));
        lemma_leaving_starts(hops, f);
        let k = choose|k: int| 0 <= k < hops.len() && (#[trigger] hops[k]).0 == f;
        assert(hops[k].1 >= 0);
    }
}

/// The pairing of a double after its four dice.
spec fn after_dice(b: Seq<int>, c: Seq<int>, die: int) -> Pairing {
    dice_rounds(
        sources(b, c),
        targets(b, c),
        dice_of(die, die),
        0,
        unpaired(sources(b, c).len(), targets(b, c).len()),
    )
}

proof fn lemma_after_dice(b: Seq<int>, c: Seq<int>, hops: Seq<(int, int)>, die: int)
    requires
        made(b, c, hops),
        hops.len() <= 4,
        spans(hops, die),
    ensures
        tallied(sources(b, c), targets(b, c), after_dice(b, c, die)),
        spans(after_dice(b, c, die).hops, die),
        none_apart(sources(b, c), targets(b, c), after_dice(b, c, die), die),
        none_apart(
            sources(b, c),
            targets(b, c),
            unpaired(sources(b, c).len(), targets(b, c).len()),
            die,
        ) ==> after_dice(b, c, die) == unpaired(sources(b, c).len(), targets(b, c).len()),
{
    let froms = sources(b, c);
    let tos = targets(b, c);
    let start = unpaired(froms.len(), tos.len());
    let st = after_dice(b, c, die);
    lemma_ends_of_play(b, c, hops);
    lemma_reached_exactly(b, c, hops, die);
    lemma_unpaired(froms, tos);
    lemma_dice_rounds(froms, tos, dice_of(die, die), 0, start);
    assert(dice_of(die, die) == seq![die, die, die, die]);
    lemma_rounds(froms, tos, die, 0, start);
    if !none_apart(froms, tos, st, die) {
        let (i, j) = choose|i: int, j: int| #[trigger] apart(froms, tos, st, die, i, j);
        lemma_all_used(st.from_used, froms.len() as int);
        assert(!st.from_used[i]);
    }
}

/// No point out of line is both left and come to.
spec fn line_apart(hops: Seq<(int, int)>, p: int, die: int) -> bool {
    forall|q: int| !in_line(q, p, die) ==> !(#[trigger] leaving(hops, q) > 0 && coming(hops, q) > 0)
}

/// What the dice leave unpaired of the sources is in line, where no point out of line
/// is both left and come to.
#[verifier::rlimit(30)]
proof fn lemma_source_in_line(
    b: Seq<int>,
    c: Seq<int>,
    hops: Seq<(int, int)>,
    die: int,
    p: int,
    i: int,
)
    requires
        made(b, c, hops),
        hops.len() <= 4,
        spans(hops, die),
        die > 0,
        line_apart(hops, p, die),
        0 <= i < sources(b, c).len(),
        !after_dice(b, c, die).from_used[i],
    ensures
        in_line(sources(b, c)[i], p, die),
{
    let froms = sources(b, c);
    let tos = targets(b, c);
    let st = after_dice(b, c, die);
    let n = froms.len() as int;
    lemma_ends_of_play(b, c, hops);
    lemma_after_dice(b, c, hops, die);
    assert(froms.take(n) == froms);
    assert(tos.take(n) == tos);
    let g = froms[i];
    if !in_line(g, p, die) {
        let t = g - die;
        lemma_in_line(g, p, die);
        lemma_unused(froms, st.from_used, g, n);
        lemma_unused(tos, st.to_used, t, n);
        lemma_occurs_sources(b, c, 25, g);
        lemma_occurs_targets(b, c, 24, t);
        lemma_spans(st.hops, die, t);
        lemma_spans(hops, die, t);
        lemma_ends(hops, t);
        lemma_counts_nonneg(hops, g);
        lemma_counts_nonneg(hops, t);
        assert(balanced(b, c, hops, g));
        assert(leaving(st.hops, g) == used_at(froms, st.from_used, g, n));
        assert(coming(st.hops, t) == used_at(tos, st.to_used, t, n));
        lemma_counts_nonneg(st.hops, g);
        assert(lost(b, c, g) > 0);
        assert(leaving(hops, g) > 0);
        assert(coming(hops, g) == 0);
        assert(coming(hops, t) > 0);
        assert(leaving(hops, t) == 0);
        assert(balanced(b, c, hops, t));
        let j = choose|j: int| 0 <= j < n && !(#[trigger] st.to_used[j]) && tos[j] == t;
        assert(apart(froms, tos, st, die, i, j));
    }
}

/// What the dice leave unpaired of the targets is in line, where no point out of line
/// is both left and come to.
#[verifier::rlimit(30)]
proof fn lemma_target_in_line(
    b: Seq<int>,
    c: Seq<int>,
    hops: Seq<(int, int)>,
    die: int,
    p: int,
    j: int,
)
    requires
        made(b, c, hops),
        hops.len() <= 4,
        spans(hops, die),
        die > 0,
        line_apart(hops, p, die),
        0 <= j < targets(b, c).len(),
        !after_dice(b, c, die).to_used[j],
    ensures
        in_line(targets(b, c)[j], p, die),
{
    let froms = sources(b, c);
    let tos = targets(b, c);
    let st = after_dice(b, c, die);
    let n = froms.len() as int;
    lemma_ends_of_play(b, c, hops);
    lemma_after_dice(b, c, hops, die);
    assert(froms.take(n) == froms);
    assert(tos.take(n) == tos);
    let t = tos[j];
    if !in_line(t, p, die) {
        let g = t + die;
        lemma_in_line(t, p, die);
        lemma_unused(froms, st.from_used, g, n);
        lemma_unused(tos, st.to_used, t, n);
        lemma_occurs_sources(b, c, 25, g);
        lemma_occurs_targets(b, c, 24, t);
        lemma_spans(st.hops, die, t);
        lemma_spans(hops, die, t);
        lemma_ends(hops, g);
        lemma_counts_nonneg(hops, g);
        lemma_counts_nonneg(hops, t);
        assert(balanced(b, c, hops, t));
        assert(leaving(st.hops, g) == used_at(froms, st.from_used, g, n));
        assert(coming(st.hops, t) == used_at(tos, st.to_used, t, n));
        lemma_counts_nonneg(st.hops, t);
        assert(gained(b, c, t) > 0);
        assert(coming(hops, t) > 0);
        assert(leaving(hops, t) == 0);
        assert(leaving(hops, g) > 0);
        assert(coming(hops, g) == 0);
        assert(balanced(b, c, hops, g));
        let i = choose|i: int| 0 <= i < n && !(#[trigger] st.from_used[i]) && froms[i] == g;
        assert(apart(froms, tos, st, die, i, j));
    }
}

/// Four hops that pass over two points that are not in line lead two checkers two
/// dice down each.
#[verifier::rlimit(30)]
proof fn lemma_two_chains(b: Seq<int>, c: Seq<int>, hops: Seq<(int, int)>, die: int, p: int, q: int)
    requires
        made(b, c, hops),
        hops.len() <= 4,
        spans(hops, die),
        die > 0,
        !in_line(q, p, die),
        leaving(hops, p) > 0,
        coming(hops, p) > 0,
        leaving(hops, q) > 0,
        coming(hops, q) > 0,
    ensures
        keeps_line(whole_hops(b, c, die, die), p, die),
{
    let froms = sources(b, c);
    let tos = targets(b, c);
    let start = unpaired(froms.len(), tos.len());
    lemma_ends_of_play(b, c, hops);
    lemma_after_dice(b, c, hops, die);
    lemma_in_line(p, p, die);
    lemma_in_line(p + die, p, die);
    lemma_in_line(p - die, p, die);
    lemma_in_line(q, p, die);
    lemma_in_line(q + die, p, die);
    lemma_in_line(q - die, p, die);
    lemma_coming_lands(hops, p);
    lemma_coming_lands(hops, q);
    lemma_leaving_starts(hops, p);
    lemma_leaving_starts(hops, q);
    let i1 = choose|i: int| 0 <= i < hops.len() && (#[trigger] hops[i]).1 == p;
    let i2 = choose|i: int| 0 <= i < hops.len() && (#[trigger] hops[i]).0 == p;
    let i3 = choose|i: int| 0 <= i < hops.len() && (#[trigger] hops[i]).1 == q;
    let i4 = choose|i: int| 0 <= i < hops.len() && (#[trigger] hops[i]).0 == q;
    assert(hops[i1] == (p + die, p));
    assert(hops[i2] == (p, p - die));
    assert(hops[i3] == (q + die, q));
    assert(hops[i4] == (q, q - die));
    assert(i1 != i2 && i1 != i3 && i1 != i4 && i2 != i3 && i2 != i4 && i3 != i4);
    assert(hops.len() == 4);
    assert forall|r: int| #[trigger] occurs(froms, r) == (if r == p + die || r == q + die {
        1int
    } else {
        0
    }) by {
        lemma_occurs_sources(b, c, 25, r);
        lemma_four(hops, r);
        if 1 <= r <= 25 {
            assert(balanced(b, c, hops, r));
        }
    }
    assert forall|r: int| #[trigger] occurs(tos, r) == (if r == p - die || r == q - die {
        1int
    } else {
        0
    }) by {
        lemma_occurs_targets(b, c, 24, r);
        lemma_four(hops, r);
        if 0 <= r <= 24 {
            assert(balanced(b, c, hops, r));
        }
    }
    assert forall|r: int| #[trigger] occurs(froms, r) == occurs(tos, r - 2 * die) by {
        assert(occurs(tos, r - 2 * die) == (if r - 2 * die == p - die || r - 2 * die == q - die {
            1int
        } else {
            0
        }));
    }
    lemma_sources_falling(b, c, 25);
    lemma_targets_falling(b, c, 24);
    lemma_falling_unique(froms, tos, 2 * die);
    assert forall|i: int, j: int| !(#[trigger] apart(froms, tos, start, die, i, j)) by {
        if apart(froms, tos, start, die, i, j) {
            lemma_occurs_some(froms, froms[i]);
            lemma_occurs_some(tos, tos[j]);
            assert(froms[i] == p + die || froms[i] == q + die);
            assert(tos[j] == p - die || tos[j] == q - die);
        }
    }
    assert(start.hops == Seq::new(0, |i: int| (froms[i], tos[i])));
    assert(start.from_used == Seq::new(froms.len(), |i: int| i < 0));
    assert(start.to_used == Seq::new(froms.len(), |i: int| i < 0));
    lemma_leftovers_zip(froms, tos, 0, start);
    let whole = whole_hops(b, c, die, die);
    assert forall|i: int| 0 <= i < whole.len() implies in_line((#[trigger] whole[i]).0, p, die) == in_line(
        whole[i].1,
        p,
        die,
    ) by {
        assert(whole[i] == (froms[i], tos[i]));
        assert(froms[i] - 2 * die == tos[i]);
        lemma_in_line(froms[i], p, die);
        lemma_in_line(froms[i] - die, p, die);
    }
}

/// The hops found from a play of a double keep to the line of a hit in passing.
#[verifier::rlimit(30)]
proof fn lemma_double_keeps_line(b: Seq<int>, c: Seq<int>, hops: Seq<(int, int)>, die: int, p: int)
    requires
        made(b, c, hops),
        hops.len() <= 4,
        spans(hops, die),
        die > 0,
        leaving(hops, p) > 0,
        coming(hops, p) > 0,
    ensures
        keeps_line(whole_hops(b, c, die, die), p, die),
{
    if exists|q: int| !in_line(q, p, die) && #[trigger] leaving(hops, q) > 0 && coming(hops, q) > 0 {
        let q = choose|q: int|
            !in_line(q, p, die) && #[trigger] leaving(hops, q) > 0 && coming(hops, q) > 0;
        lemma_two_chains(b, c, hops, die, p, q);
    } else {
        let st = after_dice(b, c, die);
        lemma_ends_of_play(b, c, hops);
        lemma_after_dice(b, c, hops, die);
        let froms = sources(b, c);
        let tos = targets(b, c);
        assert forall|i: int| 0 <= i < froms.len() && !(#[trigger] st.from_used[i]) implies in_line(
            froms[i],
            p,
            die,
        ) by {
            lemma_source_in_line(b, c, hops, die, p, i);
        }
        assert forall|j: int| 0 <= j < tos.len() && !(#[trigger] st.to_used[j]) implies in_line(
            tos[j],
            p,
            die,
        ) by {
            lemma_target_in_line(b, c, hops, die, p, j);
        }
        assert(keeps_line(st.hops, p, die)) by {
            assert forall|i: int| 0 <= i < st.hops.len() implies in_line((#[trigger] st.hops[i]).0, p, die)
                == in_line(st.hops[i].1, p, die) by {
                lemma_in_line(st.hops[i].0, p, die);
            }
        }
        lemma_leftovers_in_line(froms, tos, 0, st, p, die);
    }
}

/// A hop found from a play of a double is broken at a hit in passing.
#[verifier::rlimit(30)]
proof fn lemma_double_taken(b: Seq<int>, c: Seq<int>, hops: Seq<(int, int)>, die: int, p: int)
    requires
        made(b, c, hops),
        hops.len() <= 4,
        spans(hops, die),
        die > 0,
    ensures
        !lost_hits(b, c, die, die).contains(p),
{
    let whole = whole_hops(b, c, die, die);
    let open_hits = passed_hits(b, c, whole);
    lemma_left_open(whole, die, die, open_hits, p);
    if open_hits.contains(p) {
        lemma_passed(b, c, hops, die, die, p);
        lemma_double_keeps_line(b, c, hops, die, p);
        lemma_whole_counts(b, c, die, die, p);
        assert forall|q: int| p < q <= 25 implies #[trigger] leaving(whole, q) - coming(whole, q) == leaving(
            hops,
            q,
        ) - coming(hops, q) by {
            lemma_whole_counts(b, c, die, die, q);
            assert(balanced(b, c, hops, q));
            lemma_ends(hops, q);
            lemma_counts_nonneg(hops, q);
        }
        lemma_surplus_same(whole, hops, p, die, 25);
        lemma_surplus(whole, p, die);
        lemma_surplus(hops, p, die);
        lemma_line_crossed(hops, p, die);
        lemma_crossing_hop(whole, p, die);
        let k = choose|i: int|
            0 <= i < whole.len() && (#[trigger] whole[i]).0 > p && in_line(whole[i].0, p, die) && !(
            whole[i].1 > p && in_line(whole[i].1, p, die));
        let f = whole[k].0;
        let t = whole[k].1;
        assert(t != p) by {
            if t == p {
                assert(lands_on(whole, p));
            }
        }
        lemma_in_line(f, p, die);
        lemma_line_spans(f, t, p, die);
        assert(breaks_at(whole[k], die, die, open_hits, p)) by {
            assert forall|now: Set<int>|
                now.contains(p) && (forall|q: int| #[trigger] now.contains(q) ==> open_hits.contains(q)) implies
                #[trigger] breaks(whole[k], die, die, now).contains(p) by {
                lemma_between_holds(f, t, die, now, p);
            }
        }
        lemma_taken(whole, die, die, open_hits, open_hits, p, k);
    }
}

// Two different dice

proof fn lemma_two(hops: Seq<(int, int)>, r: int)
    requires
        hops.len() == 2,
    ensures
        leaving(hops, r) == (if hops[0].0 == r { 1int } else { 0 }) + (if hops[1].0 == r { 1int } else { 0 }),
        coming(hops, r) == (if hops[0].1 == r { 1int } else { 0 }) + (if hops[1].1 == r { 1int } else { 0 }),
{
    let h1 = hops.drop_last();
    assert(h1.drop_last().len() == 0);
    assert(h1.last() == hops[0]);
    reveal_with_fuel(leaving, 2);
    reveal_with_fuel(coming, 2);
    assert(leaving(h1, r) == if hops[0].0 == r { 1int } else { 0 });
    assert(coming(h1, r) == if hops[0].1 == r { 1int } else { 0 });
}

proof fn lemma_one(hops: Seq<(int, int)>, r: int)
    requires
        hops.len() == 1,
    ensures
        leaving(hops, r) == (if hops[0].0 == r { 1int } else { 0 }),
        coming(hops, r) == (if hops[0].1 == r { 1int } else { 0 }),
{
    assert(hops.drop_last().len() == 0);
    reveal_with_fuel(leaving, 2);
    reveal_with_fuel(coming, 2);
}

/// The two hops of a play that passes over `p`.
spec fn chained(hops: Seq<(int, int)>, d1: int, d2: int, p: int) -> bool {
    &&& hops.len() == 2
    &&& {
        ||| hops[0] == (p + d1, p) && hops[1] == (p, p - d2)
        ||| hops[0] == (p + d2, p) && hops[1] == (p, p - d1)
        ||| hops[1] == (p + d1, p) && hops[0] == (p, p - d2)
        ||| hops[1] == (p + d2, p) && hops[0] == (p, p - d1)
    }
}

proof fn lemma_chained(hops: Seq<(int, int)>, d1: int, d2: int, p: int)
    requires
        by_dice(hops, d1, d2),
        d1 != d2,
        d1 > 0,
        d2 > 0,
        coming(hops, p) > 0,
        leaving(hops, p) > 0,
    ensures
        chained(hops, d1, d2, p),
{
    lemma_coming_lands(hops, p);
    lemma_leaving_starts(hops, p);
    let i = choose|i: int| 0 <= i < hops.len() && (#[trigger] hops[i]).1 == p;
    let j = choose|j: int| 0 <= j < hops.len() && (#[trigger] hops[j]).0 == p;
    assert(hops[i].0 - hops[i].1 == d1 || hops[i].0 - hops[i].1 == d2);
    assert(hops[j].0 - hops[j].1 == d1 || hops[j].0 - hops[j].1 == d2);
    assert(i != j);
    assert(hops.len() == 2);
}

/// One checker carried on by the second of two dice, or two that follow on one
/// another, are found as one hop; only where they met can a hit have been passed over.
#[verifier::rlimit(30)]
proof fn lemma_chain_found(b: Seq<int>, c: Seq<int>, hops: Seq<(int, int)>, d1: int, d2: int, f: int, p: int, t: int)
    requires
        made(b, c, hops),
        hops == seq![(f, p), (p, t)] || hops == seq![(p, t), (f, p)],
        f > p > t,
    ensures
        whole_hops(b, c, d1, d2) == seq![(f, t)],
        forall|q: int| #[trigger] passed_hits(b, c, whole_hops(b, c, d1, d2)).contains(q) <==> q == p && was_hit(
            b,
            c,
            p,
        ),
{
    let whole = whole_hops(b, c, d1, d2);
    let one = seq![(f, t)];
    assert(hops[0] == (f, p) || hops[0] == (p, t));
    assert(hops[1] == (f, p) || hops[1] == (p, t));
    lemma_whole_counts(b, c, d1, d2, 0);
    assert forall|r: int| 1 <= r <= 25 implies #[trigger] leaving(whole, r) == leaving(one, r) by {
        lemma_whole_counts(b, c, d1, d2, r);
        assert(balanced(b, c, hops, r));
        lemma_two(hops, r);
        lemma_one(one, r);
    }
    lemma_leaving_upto_same(whole, one, 25);
    assert(hops_on_board(one));
    lemma_leaving_total(whole);
    lemma_leaving_total(one);
    assert(whole.len() == 1);
    let w = whole[0];
    lemma_hop_counted(whole, 0);
    assert(leaving(whole, w.0) == leaving(one, w.0));
    lemma_one(one, w.0);
    assert(w.0 == f);
    lemma_whole_counts(b, c, d1, d2, w.1);
    if w.1 >= 1 {
        assert(balanced(b, c, hops, w.1));
    }
    lemma_two(hops, w.1);
    assert(w.1 == t);
    assert(whole == one);
    assert forall|q: int| #[trigger] passed_hits(b, c, whole).contains(q) <==> q == p && was_hit(b, c, p) by {
        if was_hit(b, c, q) && q != p {
            assert(balanced(b, c, hops, q));
            lemma_two(hops, q);
            assert(whole[0].1 == q);
            assert(lands_on(whole, q));
        }
    }
}

proof fn lemma_mixed_taken(b: Seq<int>, c: Seq<int>, hops: Seq<(int, int)>, d1: int, d2: int, p: int)
    requires
        made(b, c, hops),
        by_dice(hops, d1, d2),
        d1 != d2,
        d1 > 0,
        d2 > 0,
    ensures
        !lost_hits(b, c, d1, d2).contains(p),
{
    let whole = whole_hops(b, c, d1, d2);
    let open_hits = passed_hits(b, c, whole);
    lemma_left_open(whole, d1, d2, open_hits, p);
    if open_hits.contains(p) {
        lemma_passed(b, c, hops, d1, d2, p);
        lemma_chained(hops, d1, d2, p);
        let f = if hops[0].1 == p { hops[0].0 } else { hops[1].0 };
        let t = if hops[0].1 == p { hops[1].1 } else { hops[0].1 };
        assert(hops == seq![hops[0], hops[1]]);
        lemma_chain_found(b, c, hops, d1, d2, f, p, t);
        let hop = whole[0];
        assert(breaks_at(hop, d1, d2, open_hits, p)) by {
            assert forall|now: Set<int>|
                now.contains(p) && (forall|q: int| #[trigger] now.contains(q) ==> open_hits.contains(q)) implies
                #[trigger] breaks(hop, d1, d2, now).contains(p) by {
                let mids = breaks(hop, d1, d2, now);
                if now.contains(hop.0 - d1) {
                    assert(open_hits.contains(hop.0 - d1));
                }
                assert(mids[0] == p);
            }
        }
        lemma_taken(whole, d1, d2, open_hits, open_hits, p, 0);
    }
}

// The laws

/// A move that the dice carry exactly, off the board too, loses no hit: every checker hit
/// in passing is hit by the hops that are found from the two boards.
pub proof fn law_dice_lose_no_hit(b: Seq<int>, hops: Seq<(int, int)>, die1: int, die2: int)
    requires
        b.len() == 26,
        die1 > 0,
        die2 > 0,
        by_dice(hops, die1, die2),
        played(b, hops_text(hops)) is Ok,
    ensures
        lost_hits(b, played(b, hops_text(hops))->Ok_0, die1, die2) == Set::<int>::empty(),
{
    let c = played(b, hops_text(hops))->Ok_0;
    lemma_play_made(b, hops);
    assert forall|p: int| !(#[trigger] lost_hits(b, c, die1, die2).contains(p)) by {
        if die1 == die2 {
            lemma_double_taken(b, c, hops, die1, p);
        } else {
            lemma_mixed_taken(b, c, hops, die1, die2, p);
        }
    }
    assert(lost_hits(b, c, die1, die2) == Set::<int>::empty());
}

/// A move that the dice carry exactly, off the board too, is made again by the notation
/// that is found from the two boards, hits in passing and all.
pub proof fn law_dice_play_replays(b: Seq<int>, hops: Seq<(int, int)>, die1: int, die2: int)
    requires
        b.len() == 26,
        die1 > 0,
        die2 > 0,
        by_dice(hops, die1, die2),
        played(b, hops_text(hops)) is Ok,
    ensures
        played(b, hops_text(move_hops(b, played(b, hops_text(hops))->Ok_0, die1, die2))) == played(
            b,
            hops_text(hops),
        ),
{
    law_dice_lose_no_hit(b, hops, die1, die2);
    law_notation_stands_for_move(b, hops_text(hops), die1, die2);
}

proof fn lemma_in_order_swapped(u: (int, int), v: (int, int))
    ensures
        in_order(seq![u, v]) == in_order(seq![v, u]),
{
    let uv = seq![u, v];
    let vu = seq![v, u];
    let none = Seq::<(int, int)>::empty();
    assert(uv.drop_last() == seq![u]);
    assert(vu.drop_last() == seq![v]);
    assert(seq![u].drop_last() == none);
    assert(seq![v].drop_last() == none);
    reveal_with_fuel(in_order, 3);
    reveal_with_fuel(placed, 3);
    assert(in_order(seq![u]) == seq![u]);
    assert(in_order(seq![v]) == seq![v]);
    assert(placed(seq![u], v) == if ahead(v, u) { seq![v, u] } else { seq![u, v] });
    assert(placed(seq![v], u) == if ahead(u, v) { seq![u, v] } else { seq![v, u] });
    if !ahead(u, v) && !ahead(v, u) {
        assert(u == v);
    }
}

/// Hops that span neither both dice nor a hit are not broken.
proof fn lemma_unbroken(u: (int, int), v: (int, int), d1: int, d2: int, open_hits: Set<int>)
    requires
        d1 != d2,
        u.0 - u.1 != d1 + d2,
        v.0 - v.1 != d1 + d2,
    ensures
        broken(seq![u, v], d1, d2, open_hits).0 == seq![u, v],
{
    let uv = seq![u, v];
    let none = Seq::<(int, int)>::empty();
    assert(uv.drop_last() == seq![u]);
    assert(seq![u].drop_last() == none);
    reveal_with_fuel(broken, 3);
    reveal_with_fuel(chain, 2);
    let rest = without_points(open_hits, Seq::empty());
    assert(broken(seq![u], d1, d2, rest).0 == none + seq![u]);
    assert(broken(uv, d1, d2, open_hits).0 == (none + seq![u]) + seq![v]);
    assert((none + seq![u]) + seq![v] == uv);
}

proof fn lemma_single_broken(hop: (int, int), d1: int, d2: int, open_hits: Set<int>)
    ensures
        broken(seq![hop], d1, d2, open_hits).0 == chain(
            hop.0,
            breaks(hop, d1, d2, open_hits),
            hop.1,
        ),
{
    let none = Seq::<(int, int)>::empty();
    assert(seq![hop].drop_last() == none);
    reveal_with_fuel(broken, 2);
    let links = chain(hop.0, breaks(hop, d1, d2, open_hits), hop.1);
    assert(none + links == links);
}

/// The hops of a play, with the hop of the first die first.
proof fn lemma_by_dice_turned(hops: Seq<(int, int)>, d1: int, d2: int)
    requires
        by_dice(hops, d1, d2),
    ensures
        by_dice(hops, d2, d1),
{
}

// Plays found as they were made

/// A list of two from the highest down.
spec fn pair_down(x: int, y: int) -> Seq<int> {
    if x >= y {
        seq![x, y]
    } else {
        seq![y, x]
    }
}

proof fn lemma_pair_down(x: int, y: int, r: int)
    ensures
        falling(pair_down(x, y)),
        occurs(pair_down(x, y), r) == (if x == r { 1int } else { 0 }) + (if y == r { 1int } else { 0 }),
{
    let xs = pair_down(x, y);
    assert(xs.drop_last().drop_last().len() == 0);
    assert(xs.drop_last().last() == xs[0]);
    reveal_with_fuel(occurs, 3);
}

/// No hop goes on from where another came down.
pub open spec fn unchained(hops: Seq<(int, int)>) -> bool {
    forall|i: int, j: int|
        0 <= i < hops.len() && 0 <= j < hops.len() ==> (#[trigger] hops[i]).1 != (#[trigger] hops[j]).0
}

/// Two hops that do not follow on one another leave and come to points of their own.
proof fn lemma_two_ends(b: Seq<int>, c: Seq<int>, hops: Seq<(int, int)>)
    requires
        made(b, c, hops),
        hops.len() == 2,
        unchained(hops),
    ensures
        sources(b, c) == pair_down(hops[0].0, hops[1].0),
        targets(b, c) == pair_down(hops[0].1, hops[1].1),
{
    let froms = sources(b, c);
    let tos = targets(b, c);
    let fs = pair_down(hops[0].0, hops[1].0);
    let ts = pair_down(hops[0].1, hops[1].1);
    lemma_sources_falling(b, c, 25);
    lemma_targets_falling(b, c, 24);
    lemma_pair_down(hops[0].0, hops[1].0, 0);
    lemma_pair_down(hops[0].1, hops[1].1, 0);
    assert forall|r: int| #[trigger] occurs(froms, r) == occurs(fs, r - 0) by {
        lemma_occurs_sources(b, c, 25, r);
        lemma_pair_down(hops[0].0, hops[1].0, r);
        lemma_two(hops, r);
        if 1 <= r <= 25 {
            assert(balanced(b, c, hops, r));
        }
    }
    assert forall|r: int| #[trigger] occurs(tos, r) == occurs(ts, r - 0) by {
        lemma_occurs_targets(b, c, 24, r);
        lemma_pair_down(hops[0].1, hops[1].1, r);
        lemma_two(hops, r);
        if 0 <= r <= 24 {
            assert(balanced(b, c, hops, r));
        }
    }
    lemma_falling_unique(froms, fs, 0);
    lemma_falling_unique(tos, ts, 0);
    assert(froms == fs);
    assert(tos == ts);
}

/// One source and what a die finds for it among two targets.
proof fn lemma_fit_two(tos: Seq<int>, used: Seq<bool>, want: int)
    requires
        tos.len() == 2,
        used.len() == 2,
    ensures
        first_fit(tos, used, want, 0) == (if !used[0] && reaches(tos[0], want) {
            0int
        } else if !used[1] && reaches(tos[1], want) {
            1int
        } else {
            2int
        }),
        first_free(used, 0) == (if !used[0] {
            0int
        } else if !used[1] {
            1int
        } else {
            2int
        }),
{
    reveal_with_fuel(first_fit, 3);
    reveal_with_fuel(first_free, 3);
}

/// The first die pairs its own hop; the other hop is paired by then or by the second.
#[verifier::rlimit(60)]
proof fn lemma_paired_two(first: (int, int), second: (int, int), d1: int, d2: int)
    requires
        d1 != d2,
        d1 > 0,
        d2 > 0,
        first.1 >= 0,
        second.1 >= 0,
        first.0 - first.1 == d1,
        second.0 - second.1 == d2,
    ensures
        paired(pair_down(first.0, second.0), pair_down(first.1, second.1), dice_of(d1, d2)) == seq![
            first,
            second,
        ],
{
    let froms = pair_down(first.0, second.0);
    let tos = pair_down(first.1, second.1);
    let start = unpaired(2, 2);
    let dice = dice_of(d1, d2);
    assert(froms.len() == 2 && tos.len() == 2);
    let one = die_round(froms, tos, d1, 0, false, start);
    let two = die_round(froms, tos, d2, 0, false, one);
    reveal_with_fuel(dice_rounds, 3);
    assert(dice[0] == d1 && dice[1] == d2 && dice.len() == 2);
    assert(dice_rounds(froms, tos, dice, 0, start) == two);

    // Which entries the two hops are.
    let f1: int = if froms[0] == first.0 { 0 } else { 1 };
    let f2: int = 1 - f1;
    let t1: int = if tos[0] == first.1 { 0 } else { 1 };
    let t2: int = 1 - t1;
    assert(froms[f1] == first.0 && froms[f2] == second.0);
    assert(tos[t1] == first.1 && tos[t2] == second.1);
    let half = coupled(froms, tos, f1, t1, start);
    let full = coupled(froms, tos, f2, t2, half);
    assert(half.hops == seq![first]);
    assert(full.hops == seq![first, second]);
    lemma_fit_two(tos, start.to_used, froms[0] - d1);
    lemma_fit_two(tos, start.to_used, froms[1] - d1);
    lemma_fit_two(tos, half.to_used, froms[f2] - d1);
    lemma_fit_two(tos, half.to_used, froms[f2] - d2);
    lemma_fit_two(tos, full.to_used, 0);
    reveal_with_fuel(die_round, 4);
    reveal_with_fuel(leftovers, 4);
    if f1 == 0 {
        assert(pick(tos, start.to_used, froms[0] - d1, false) == Some(t1));
        if pick(tos, half.to_used, froms[1] - d1, true) is Some {
            assert(pick(tos, half.to_used, froms[1] - d1, true) == Some(t2));
            assert(one == full);
        } else {
            assert(one == half);
        }
    } else {
        assert(second.0 > first.0);
        assert(pick(tos, start.to_used, froms[0] - d1, false) is None);
        assert(pick(tos, start.to_used, froms[1] - d1, false) == Some(t1));
        assert(one == half);
    }
    if one == half {
        assert(pick(tos, half.to_used, froms[f2] - d2, false) == Some(t2));
        assert(two == full);
    } else {
        assert(two == full);
    }
    assert(leftovers(froms, tos, 0, full) == full);
}

/// Two hops that do not follow on one another are found as they were played, that of
/// the first die first.
proof fn lemma_apart_found(
    b: Seq<int>,
    c: Seq<int>,
    hops: Seq<(int, int)>,
    d1: int,
    d2: int,
    first: (int, int),
    second: (int, int),
)
    requires
        made(b, c, hops),
        d1 != d2,
        d1 > 0,
        d2 > 0,
        hops == seq![first, second] || hops == seq![second, first],
        first.0 - first.1 == d1,
        second.0 - second.1 == d2,
        first.1 != second.0,
        second.1 != first.0,
    ensures
        whole_hops(b, c, d1, d2) == seq![first, second],
{
    assert(hops[0] == first || hops[0] == second);
    assert(hops[1] == first || hops[1] == second);
    lemma_two_ends(b, c, hops);
    lemma_paired_two(first, second, d1, d2);
    assert(pair_down(hops[0].0, hops[1].0) =~= pair_down(first.0, second.0));
    assert(pair_down(hops[0].1, hops[1].1) =~= pair_down(first.1, second.1));
}

proof fn lemma_two_in_order(u: (int, int), v: (int, int))
    ensures
        in_order(seq![u, v]) == (if u.0 > v.0 || (u.0 == v.0 && u.1 >= v.1) {
            seq![u, v]
        } else {
            seq![v, u]
        }),
        in_order(seq![u]) == seq![u],
        in_order(Seq::<(int, int)>::empty()) == Seq::<(int, int)>::empty(),
{
    let uv = seq![u, v];
    let none = Seq::<(int, int)>::empty();
    assert(uv.drop_last() == seq![u]);
    assert(seq![u].drop_last() == none);
    reveal_with_fuel(in_order, 3);
    reveal_with_fuel(placed, 3);
    assert(in_order(seq![u]) == seq![u]);
    assert(placed(seq![u], v) == if ahead(v, u) { seq![v, u] } else { seq![u, v] });
}

proof fn lemma_single_found(b: Seq<int>, c: Seq<int>, hops: Seq<(int, int)>, d1: int, d2: int)
    requires
        made(b, c, hops),
        hops.len() <= 1,
        unchained(hops),
    ensures
        whole_hops(b, c, d1, d2) == hops,
{
    let whole = whole_hops(b, c, d1, d2);
    lemma_whole_counts(b, c, d1, d2, 0);
    assert forall|r: int| 1 <= r <= 25 implies #[trigger] leaving(whole, r) == leaving(hops, r) by {
        lemma_whole_counts(b, c, d1, d2, r);
        assert(balanced(b, c, hops, r));
        if hops.len() == 1 {
            lemma_one(hops, r);
        }
    }
    lemma_leaving_upto_same(whole, hops, 25);
    lemma_leaving_total(whole);
    lemma_leaving_total(hops);
    if hops.len() == 1 {
        let w = whole[0];
        lemma_hop_counted(whole, 0);
        assert(leaving(whole, w.0) == leaving(hops, w.0));
        lemma_one(hops, w.0);
        lemma_whole_counts(b, c, d1, d2, w.1);
        if w.1 >= 1 {
            assert(balanced(b, c, hops, w.1));
        }
        lemma_one(hops, w.1);
        assert(w == hops[0]);
    }
    assert(whole == hops);
}

/// A play of two different dice that each carry a checker exactly as far as its hop
/// goes, off the board too, neither on from where the other came down, is found as it was
/// played: the same hops, from the highest point down. None of them goes backwards or
/// further than its die.
#[verifier::rlimit(30)]
pub proof fn law_exact_play_found(b: Seq<int>, hops: Seq<(int, int)>, die1: int, die2: int)
    requires
        b.len() == 26,
        die1 > 0,
        die2 > 0,
        die1 != die2,
        by_dice(hops, die1, die2),
        unchained(hops),
        played(b, hops_text(hops)) is Ok,
    ensures
        ({
            let found = move_hops(b, played(b, hops_text(hops))->Ok_0, die1, die2);
            &&& hops.len() < 2 ==> found == hops
            &&& hops.len() == 2 && (hops[0].0 > hops[1].0 || (hops[0].0 == hops[1].0 && hops[0].1
                >= hops[1].1)) ==> found == hops
            &&& hops.len() == 2 && (hops[0].0 < hops[1].0 || (hops[0].0 == hops[1].0 && hops[0].1
                < hops[1].1)) ==> found == seq![hops[1], hops[0]]
            &&& forall|i: int|
                0 <= i < found.len() ==> (#[trigger] found[i]).0 - found[i].1 == die1 || found[i].0
                    - found[i].1 == die2
        }),
{
    let c = played(b, hops_text(hops))->Ok_0;
    lemma_play_made(b, hops);
    let whole = whole_hops(b, c, die1, die2);
    let open_hits = passed_hits(b, c, whole);
    let found = move_hops(b, c, die1, die2);
    if hops.len() < 2 {
        lemma_single_found(b, c, hops, die1, die2);
        if hops.len() == 1 {
            assert(hops == seq![hops[0]]);
            lemma_single_broken(hops[0], die1, die2, open_hits);
            lemma_two_in_order(hops[0], hops[0]);
            assert(chain(hops[0].0, Seq::empty(), hops[0].1) == seq![hops[0]]);
        } else {
            assert(hops == Seq::<(int, int)>::empty());
        }
    } else {
        let x = hops[0];
        let y = hops[1];
        assert(hops == seq![x, y]);
        let u = if x.0 - x.1 == die1 { x } else { y };
        let v = if x.0 - x.1 == die1 { y } else { x };
        lemma_apart_found(b, c, hops, die1, die2, u, v);
        lemma_unbroken(u, v, die1, die2, open_hits);
        lemma_two_in_order(u, v);
    }
}

/// A checker that two different dice carry on, off the board too, is written as one
/// hop over both; where it hit a checker on the way, as two that meet there.
#[verifier::rlimit(30)]
pub proof fn law_carried_on_found(
    b: Seq<int>,
    hops: Seq<(int, int)>,
    die1: int,
    die2: int,
    f: int,
    p: int,
    t: int,
)
    requires
        b.len() == 26,
        die1 > 0,
        die2 > 0,
        die1 != die2,
        hops == seq![(f, p), (p, t)] || hops == seq![(p, t), (f, p)],
        (f - p == die1 && p - t == die2) || (f - p == die2 && p - t == die1),
        f <= 25,
        t >= 0,
        played(b, hops_text(hops)) is Ok,
    ensures
        b[p] == -1 ==> move_hops(b, played(b, hops_text(hops))->Ok_0, die1, die2) == seq![(f, p), (p, t)],
        b[p] != -1 ==> move_hops(b, played(b, hops_text(hops))->Ok_0, die1, die2) == seq![(f, t)],
{
    let c = played(b, hops_text(hops))->Ok_0;
    assert(hops[0] == (f, p) || hops[0] == (p, t));
    assert(hops[1] == (f, p) || hops[1] == (p, t));
    assert(hops_on_board(hops));
    lemma_play_made(b, hops);
    lemma_chain_found(b, c, hops, die1, die2, f, p, t);
    let whole = whole_hops(b, c, die1, die2);
    let open_hits = passed_hits(b, c, whole);
    let hop = (f, t);
    lemma_single_broken(hop, die1, die2, open_hits);
    lemma_two_in_order((f, p), (p, t));
    lemma_two_in_order(hop, hop);
    lemma_two(hops, p);
    assert(balanced(b, c, hops, p));
    lemma_text_made(b, hops);
    lemma_made(b, hops);
    assert(settled(b, hops, c, p));
    reveal_with_fuel(chain, 3);
    if b[p] == -1 {
        assert(was_hit(b, c, p));
        assert(open_hits.contains(p));
        assert(breaks(hop, die1, die2, open_hits) == seq![p]);
        assert(seq![p].drop_first() == Seq::<int>::empty());
        assert(seq![(f, p)] + seq![(p, t)] == seq![(f, p), (p, t)]);
        assert(chain(f, seq![p], t) == seq![(f, p), (p, t)]);
    } else {
        assert(!open_hits.contains(p));
        assert(breaks(hop, die1, die2, open_hits) == Seq::<int>::empty());
        assert(chain(f, Seq::empty(), t) == seq![hop]);
    }
}

/// The two dice of a move that they carry exactly may be given in either order: the hops
/// found, and so the notation, are the same.
#[verifier::rlimit(30)]
pub proof fn law_dice_in_either_order(b: Seq<int>, hops: Seq<(int, int)>, die1: int, die2: int)
    requires
        b.len() == 26,
        die1 > 0,
        die2 > 0,
        by_dice(hops, die1, die2),
        played(b, hops_text(hops)) is Ok,
    ensures
        move_hops(b, played(b, hops_text(hops))->Ok_0, die1, die2) == move_hops(
            b,
            played(b, hops_text(hops))->Ok_0,
            die2,
            die1,
        ),
        hops_text(move_hops(b, played(b, hops_text(hops))->Ok_0, die1, die2)) == hops_text(
            move_hops(b, played(b, hops_text(hops))->Ok_0, die2, die1),
        ),
{
    let c = played(b, hops_text(hops))->Ok_0;
    lemma_play_made(b, hops);
    if die1 != die2 {
        lemma_by_dice_turned(hops, die1, die2);
        let one = whole_hops(b, c, die1, die2);
        let other = whole_hops(b, c, die2, die1);
        if hops.len() < 2 {
            lemma_single_found(b, c, hops, die1, die2);
            lemma_single_found(b, c, hops, die2, die1);
            if hops.len() == 1 {
                assert(hops == seq![hops[0]]);
                let open_hits = passed_hits(b, c, hops);
                lemma_single_broken(hops[0], die1, die2, open_hits);
                lemma_single_broken(hops[0], die2, die1, open_hits);
            } else {
                assert(hops == Seq::<(int, int)>::empty());
            }
        } else {
            let x = hops[0];
            let y = hops[1];
            assert(hops == seq![x, y]);
            if x.1 == y.0 || y.1 == x.0 {
                let p = if x.1 == y.0 { x.1 } else { y.1 };
                let f = if x.1 == y.0 { x.0 } else { y.0 };
                let t = if x.1 == y.0 { y.1 } else { x.1 };
                lemma_chain_found(b, c, hops, die1, die2, f, p, t);
                lemma_chain_found(b, c, hops, die2, die1, f, p, t);
                let hop = one[0];
                let open_hits = passed_hits(b, c, one);
                lemma_single_broken(hop, die1, die2, open_hits);
                lemma_single_broken(hop, die2, die1, open_hits);
                assert(breaks(hop, die1, die2, open_hits) == breaks(hop, die2, die1, open_hits)) by {
                    if open_hits.contains(hop.0 - die1) {
                        assert(hop.0 - die1 == p);
                    }
                    if open_hits.contains(hop.0 - die2) {
                        assert(hop.0 - die2 == p);
                    }
                }
            } else {
                let u = if x.0 - x.1 == die1 { x } else { y };
                let v = if x.0 - x.1 == die1 { y } else { x };
                lemma_apart_found(b, c, hops, die1, die2, u, v);
                lemma_apart_found(b, c, hops, die2, die1, v, u);
                let open_one = passed_hits(b, c, one);
                let open_other = passed_hits(b, c, other);
                lemma_unbroken(u, v, die1, die2, open_one);
                lemma_unbroken(v, u, die2, die1, open_other);
                lemma_in_order_swapped(u, v);
            }
        }
    }
}

// Doubles

proof fn lemma_count_spans(hops: Seq<(int, int)>, die: int, hop: (int, int))
    requires
        spans(hops, die),
    ensures
        hops.to_multiset().count(hop) == (if hop.0 - hop.1 == die {
            leaving(hops, hop.0)
        } else {
            0
        }),
    decreases hops.len(),
{
    broadcast use vstd::seq_lib::group_to_multiset_ensures;

    if hops.len() == 0 {
        assert(!hops.contains(hop));
        assert(hops.to_multiset().count(hop) == 0);
    } else {
        let prev = hops.drop_last();
        assert(hops.last() == hops[hops.len() - 1]);
        assert forall|i: int| 0 <= i < prev.len() implies (#[trigger] prev[i]).0 - prev[i].1 == die by {
            assert(prev[i] == hops[i]);
        }
        lemma_count_spans(prev, die, hop);
        assert(prev.push(hops.last()) == hops);
    }
}

proof fn lemma_leftovers_none(froms: Seq<int>, tos: Seq<int>, fi: int, st: Pairing)
    requires
        0 <= fi,
        forall|i: int| 0 <= i < froms.len() ==> #[trigger] st.from_used[i],
    ensures
        leftovers(froms, tos, fi, st) == st,
    decreases froms.len() - fi,
{
    if fi < froms.len() {
        lemma_leftovers_none(froms, tos, fi + 1, st);
    }
}

/// Hops that a double is not broken on stay as they are.
proof fn lemma_spans_unbroken(hops: Seq<(int, int)>, die: int, open_hits: Set<int>)
    requires
        spans(hops, die),
    ensures
        broken(hops, die, die, open_hits).0 == hops,
    decreases hops.len(),
{
    if hops.len() > 0 {
        let prev = hops.drop_last();
        let hop = hops.last();
        assert(hop == hops[hops.len() - 1]);
        assert forall|i: int| 0 <= i < prev.len() implies (#[trigger] prev[i]).0 - prev[i].1 == die by {
            assert(prev[i] == hops[i]);
        }
        let mids = breaks(hop, die, die, open_hits);
        assert(mids == Seq::<int>::empty());
        lemma_spans_unbroken(prev, die, without_points(open_hits, mids));
        assert(chain(hop.0, mids, hop.1) == seq![hop]);
        assert(prev + seq![hop] == hops);
    }
}

/// The four dice of a double pair every hop of a play whose hops do not follow on one
/// another.
#[verifier::rlimit(60)]
proof fn lemma_double_paired(b: Seq<int>, c: Seq<int>, hops: Seq<(int, int)>, die: int)
    requires
        made(b, c, hops),
        hops.len() <= 4,
        spans(hops, die),
        die > 0,
        unchained(hops),
    ensures
        spans(whole_hops(b, c, die, die), die),
        forall|p: int| #[trigger] leaving(whole_hops(b, c, die, die), p) == leaving(hops, p),
{
    let froms = sources(b, c);
    let tos = targets(b, c);
    let start = unpaired(froms.len(), tos.len());
    let st = after_dice(b, c, die);
    let n = froms.len() as int;
    lemma_ends_on_board(b, c);
    lemma_lengths(b, c, 24);
    assert(froms.len() == tos.len());
    lemma_sources_few(b, c, hops, 25);
    lemma_leaving_total(hops);

    // What left and what came down.
    assert forall|p: int| leaving(hops, p) > 0 implies #[trigger] coming(hops, p) == 0 by {
        lemma_counts_nonneg(hops, p);
        if coming(hops, p) > 0 {
            lemma_coming_lands(hops, p);
            lemma_leaving_starts(hops, p);
            let i = choose|i: int| 0 <= i < hops.len() && (#[trigger] hops[i]).1 == p;
            let j = choose|j: int| 0 <= j < hops.len() && (#[trigger] hops[j]).0 == p;
            assert(hops[i].1 != hops[j].0);
        }
    }
    assert forall|p: int| #[trigger] occurs(froms, p) == leaving(hops, p) by {
        lemma_occurs_sources(b, c, 25, p);
        lemma_ends(hops, p);
        lemma_counts_nonneg(hops, p);
        if 1 <= p <= 25 {
            assert(balanced(b, c, hops, p));
            assert(coming(hops, p) == 0 || leaving(hops, p) == 0);
        }
    }
    assert forall|p: int| #[trigger] occurs(tos, p) == coming(hops, p) by {
        lemma_occurs_targets(b, c, 24, p);
        lemma_ends(hops, p);
        lemma_counts_nonneg(hops, p);
        if 0 <= p <= 24 {
            assert(balanced(b, c, hops, p));
            assert(coming(hops, p) == 0 || leaving(hops, p) == 0);
        }
    }
    lemma_reached_exactly(b, c, hops, die);

    // The rounds pair them all.
    lemma_unpaired(froms, tos);
    lemma_dice_rounds(froms, tos, dice_of(die, die), 0, start);
    assert(dice_of(die, die) == seq![die, die, die, die]);
    lemma_rounds(froms, tos, die, 0, start);
    assert(spans(st.hops, die));
    lemma_all_used(st.from_used, n);
    assert forall|i: int| 0 <= i < n implies #[trigger] st.from_used[i] by {
        if !st.from_used[i] {
            let p = froms[i];
            lemma_unused(froms, st.from_used, p, n);
            lemma_unused(tos, st.to_used, p - die, n);
            assert(froms.take(n) == froms);
            assert(tos.take(n) == tos);
            assert(leaving(st.hops, p) == used_at(froms, st.from_used, p, n));
            assert(coming(st.hops, p - die) == used_at(tos, st.to_used, p - die, n));
            lemma_spans(st.hops, die, p - die);
            lemma_spans(hops, die, p - die);
            assert(occurs(froms, p) == leaving(hops, p));
            assert(occurs(tos, p - die) == coming(hops, p - die));
            let j = choose|j: int| 0 <= j < n && !(#[trigger] st.to_used[j]) && tos[j] == p - die;
            assert(apart(froms, tos, st, die, i, j));
        }
    }
    lemma_leftovers_none(froms, tos, 0, st);
    assert(whole_hops(b, c, die, die) == st.hops);
    assert forall|p: int| #[trigger] leaving(st.hops, p) == leaving(hops, p) by {
        lemma_unused(froms, st.from_used, p, n);
        assert(froms.take(n) == froms);
        assert(leaving(st.hops, p) == used_at(froms, st.from_used, p, n));
        assert(occurs(froms, p) == leaving(hops, p));
    }
}

/// From the highest point down, and from one point the shortest hop first.
pub open spec fn written_down(hops: Seq<(int, int)>) -> bool {
    forall|i: int, j: int|
        0 <= i < j < hops.len() ==> (#[trigger] hops[i]).0 > (#[trigger] hops[j]).0 || (hops[i].0 == hops[j].0
            && hops[i].1 >= hops[j].1)
}

/// The hops of a move stand from the highest point down, and those from one point from
/// the highest they come to down, whatever the boards and the dice.
pub proof fn law_highest_first(before: Seq<int>, after: Seq<int>, die1: int, die2: int)
    ensures
        written_down(move_hops(before, after, die1, die2)),
{
    let whole = whole_hops(before, after, die1, die2);
    let found = move_hops(before, after, die1, die2);
    lemma_in_order(broken(whole, die1, die2, passed_hits(before, after, whole)).0, 0);
    assert forall|i: int, j: int| 0 <= i < j < found.len() implies (#[trigger] found[i]).0 > (
    #[trigger] found[j]).0 || (found[i].0 == found[j].0 && found[i].1 >= found[j].1) by {
        assert(!ahead(found[j], found[i]));
    }
}

/// A play of a double whose hops each span the die exactly, off the board too, and do
/// not follow on one another is found as it was played: the same hops, as often.
#[verifier::rlimit(30)]
pub proof fn law_double_play_found(b: Seq<int>, hops: Seq<(int, int)>, die: int)
    requires
        b.len() == 26,
        die > 0,
        by_dice(hops, die, die),
        unchained(hops),
        played(b, hops_text(hops)) is Ok,
    ensures
        move_hops(b, played(b, hops_text(hops))->Ok_0, die, die).to_multiset() == hops.to_multiset(),
{
    let c = played(b, hops_text(hops))->Ok_0;
    lemma_play_made(b, hops);
    lemma_double_paired(b, c, hops, die);
    let whole = whole_hops(b, c, die, die);
    let open_hits = passed_hits(b, c, whole);
    let found = move_hops(b, c, die, die);
    lemma_spans_unbroken(whole, die, open_hits);
    lemma_in_order(whole, 0);
    assert(spans(found, die)) by {
        assert forall|i: int| 0 <= i < found.len() implies (#[trigger] found[i]).0 - found[i].1 == die by {
            assert(whole.contains(found[i]));
            let k = choose|k: int| 0 <= k < whole.len() && whole[k] == found[i];
            assert(whole[k].0 - whole[k].1 == die);
        }
    }
    assert forall|hop: (int, int)| #[trigger] found.to_multiset().count(hop) == hops.to_multiset().count(
        hop,
    ) by {
        lemma_count_spans(found, die, hop);
        lemma_count_spans(hops, die, hop);
        lemma_in_order(whole, hop.0);
        assert(leaving(whole, hop.0) == leaving(hops, hop.0));
    }
    assert(found.to_multiset() =~= hops.to_multiset());
}

/// What the hops found name of each point, for a play that the dice carry exactly: where more checkers left than came, the difference leaves, and where more came
/// than left, it comes; a point that was only passed over is named if a checker was hit
/// there, once, and not otherwise.
#[verifier::rlimit(30)]
pub proof fn law_points_named(b: Seq<int>, hops: Seq<(int, int)>, die1: int, die2: int, p: int)
    requires
        b.len() == 26,
        die1 > 0,
        die2 > 0,
        by_dice(hops, die1, die2),
        played(b, hops_text(hops)) is Ok,
        0 <= p <= 25,
    ensures
        ({
            let found = move_hops(b, played(b, hops_text(hops))->Ok_0, die1, die2);
            let left = leaving(hops, p);
            let came = coming(hops, p);
            &&& left > came ==> leaving(found, p) == left - came && coming(found, p) == 0
            &&& came > left ==> coming(found, p) == came - left && leaving(found, p) == 0
            &&& came == left && came > 0 && b[p] == -1 ==> coming(found, p) == 1 && leaving(found, p) == 1
            &&& came == left && !(came > 0 && b[p] == -1) ==> coming(found, p) == 0 && leaving(found, p)
                == 0
        }),
{
    let c = played(b, hops_text(hops))->Ok_0;
    lemma_play_made(b, hops);
    law_dice_lose_no_hit(b, hops, die1, die2);
    lemma_text_made(b, hops);
    lemma_made(b, hops);
    if 1 <= p <= 24 {
        assert(settled(b, hops, c, p));
    }
    lemma_ends(hops, p);
    assert(balanced(b, c, hops, p));
    lemma_counts_nonneg(hops, p);
    let whole = whole_hops(b, c, die1, die2);
    let open_hits = passed_hits(b, c, whole);
    let parts = broken(whole, die1, die2, open_hits).0;
    lemma_whole_counts(b, c, die1, die2, p);
    lemma_coming_lands(whole, p);
    assert forall|i: int| 0 <= i < whole.len() implies !open_hits.contains((#[trigger] whole[i]).1) by {
        assert(lands_on(whole, whole[i].1));
    }
    lemma_broken(whole, die1, die2, open_hits, open_hits, p);
    lemma_in_order(parts, p);
    assert(!lost_hits(b, c, die1, die2).contains(p));
    if lands_on(whole, p) {
        let i = choose|i: int| 0 <= i < whole.len() && (#[trigger] whole[i]).1 == p;
        lemma_hop_counted(whole, i);
    }
}

proof fn lemma_none_off(hops: Seq<(int, int)>)
    requires
        forall|i: int| 0 <= i < hops.len() ==> (#[trigger] hops[i]).1 >= 1,
    ensures
        coming(hops, 0) == 0,
{
    lemma_coming_lands(hops, 0);
    lemma_counts_nonneg(hops, 0);
}

/// A play of the dice that bears nothing off is found with nothing borne off.
pub proof fn law_nothing_borne_off(b: Seq<int>, hops: Seq<(int, int)>, die1: int, die2: int, i: int)
    requires
        b.len() == 26,
        die1 > 0,
        die2 > 0,
        by_dice(hops, die1, die2),
        forall|k: int| 0 <= k < hops.len() ==> (#[trigger] hops[k]).1 >= 1,
        played(b, hops_text(hops)) is Ok,
        0 <= i < move_hops(b, played(b, hops_text(hops))->Ok_0, die1, die2).len(),
    ensures
        move_hops(b, played(b, hops_text(hops))->Ok_0, die1, die2)[i].1 != 0,
{
    law_points_named(b, hops, die1, die2, 0);
    lemma_none_off(hops);
    lemma_ends(hops, 0);
    lemma_hop_counted(move_hops(b, played(b, hops_text(hops))->Ok_0, die1, die2), i);
}

/// With no hit to break at, no hop is broken.
proof fn lemma_nothing_to_break(hops: Seq<(int, int)>, d1: int, d2: int, open_hits: Set<int>)
    requires
        forall|p: int| !(#[trigger] open_hits.contains(p)),
    ensures
        broken(hops, d1, d2, open_hits).0 == hops,
    decreases hops.len(),
{
    if hops.len() > 0 {
        let hop = hops.last();
        let prev = hops.drop_last();
        let mids = breaks(hop, d1, d2, open_hits);
        lemma_none_between(hop.0, hop.1, d1, open_hits);
        assert(mids == Seq::<int>::empty());
        lemma_nothing_to_break(prev, d1, d2, without_points(open_hits, mids));
        assert(chain(hop.0, mids, hop.1) == seq![hop]);
        assert(prev + seq![hop] == hops);
    }
}

proof fn lemma_none_between(at: int, to: int, die: int, open_hits: Set<int>)
    requires
        forall|p: int| !(#[trigger] open_hits.contains(p)),
    ensures
        hits_between(at, to, die, open_hits) == Seq::<int>::empty(),
    decreases at - to,
{
    if die > 0 && at - die > to {
        lemma_none_between(at - die, to, die, open_hits);
    }
}

/// One checker that moved is found as it moved, whatever the dice.
pub proof fn law_one_checker_found(b: Seq<int>, f: int, t: int, die1: int, die2: int)
    requires
        b.len() == 26,
        1 <= f <= 25,
        0 <= t <= 24,
        f != t,
        played(b, hop_text((f, t))) is Ok,
    ensures
        move_hops(b, played(b, hop_text((f, t)))->Ok_0, die1, die2) == seq![(f, t)],
{
    let hops = seq![(f, t)];
    assert(hop_texts(hops) == seq![hop_text((f, t))]);
    assert(hops_text(hops) == hop_text((f, t)));
    let c = played(b, hop_text((f, t)))->Ok_0;
    assert(hops_on_board(hops));
    lemma_play_made(b, hops);
    lemma_single_found(b, c, hops, die1, die2);
    let open_hits = passed_hits(b, c, hops);
    assert forall|p: int| !(#[trigger] open_hits.contains(p)) by {
        if was_hit(b, c, p) {
            assert(balanced(b, c, hops, p));
            lemma_one(hops, p);
            assert(hops[0].1 == p);
            assert(lands_on(hops, p));
        }
    }
    lemma_nothing_to_break(hops, die1, die2, open_hits);
    lemma_two_in_order((f, t), (f, t));
}

/// How often a hop off the board stands among some that all go there.
proof fn lemma_count_off(hops: Seq<(int, int)>, hop: (int, int))
    requires
        forall|i: int| 0 <= i < hops.len() ==> (#[trigger] hops[i]).1 == 0,
    ensures
        hops.to_multiset().count(hop) == (if hop.1 == 0 {
            leaving(hops, hop.0)
        } else {
            0
        }),
    decreases hops.len(),
{
    broadcast use vstd::seq_lib::group_to_multiset_ensures;

    if hops.len() == 0 {
        assert(!hops.contains(hop));
        assert(hops.to_multiset().count(hop) == 0);
    } else {
        let prev = hops.drop_last();
        assert(hops.last() == hops[hops.len() - 1]);
        assert forall|i: int| 0 <= i < prev.len() implies (#[trigger] prev[i]).1 == 0 by {
            assert(prev[i] == hops[i]);
        }
        lemma_count_off(prev, hop);
        assert(prev.push(hops.last()) == hops);
    }
}

/// Checkers that were all borne off are found as they were, each from its own point, as
/// often, whatever the dice.
#[verifier::rlimit(30)]
pub proof fn law_all_borne_off(b: Seq<int>, hops: Seq<(int, int)>, die1: int, die2: int)
    requires
        b.len() == 26,
        hops_on_board(hops),
        forall|i: int| 0 <= i < hops.len() ==> (#[trigger] hops[i]).1 == 0,
        played(b, hops_text(hops)) is Ok,
    ensures
        move_hops(b, played(b, hops_text(hops))->Ok_0, die1, die2).to_multiset() == hops.to_multiset(),
{
    let c = played(b, hops_text(hops))->Ok_0;
    lemma_play_made(b, hops);
    let whole = whole_hops(b, c, die1, die2);
    let open_hits = passed_hits(b, c, whole);
    let found = move_hops(b, c, die1, die2);
    assert forall|q: int| q != 0 implies #[trigger] coming(hops, q) == 0 by {
        lemma_counts_nonneg(hops, q);
        lemma_coming_lands(hops, q);
    }
    assert forall|p: int| !(#[trigger] open_hits.contains(p)) by {
        if was_hit(b, c, p) {
            assert(balanced(b, c, hops, p));
            assert(coming(hops, p) == 0);
        }
    }
    lemma_nothing_to_break(whole, die1, die2, open_hits);
    lemma_in_order(whole, 0);
    lemma_whole_counts(b, c, die1, die2, 0);
    assert forall|i: int| 0 <= i < found.len() implies (#[trigger] found[i]).1 == 0 by {
        assert(whole.contains(found[i]));
        let k = choose|k: int| 0 <= k < whole.len() && whole[k] == found[i];
        let q = whole[k].1;
        lemma_hop_counted(whole, k);
        lemma_whole_counts(b, c, die1, die2, q);
        if q != 0 {
            assert(balanced(b, c, hops, q));
            assert(coming(hops, q) == 0);
            lemma_counts_nonneg(hops, q);
        }
    }
    assert forall|hop: (int, int)| #[trigger] found.to_multiset().count(hop) == hops.to_multiset().count(
        hop,
    ) by {
        lemma_count_off(found, hop);
        lemma_count_off(hops, hop);
        lemma_in_order(whole, hop.0);
        lemma_whole_counts(b, c, die1, die2, hop.0);
        lemma_ends(hops, hop.0);
        lemma_counts_nonneg(hops, hop.0);
        if 1 <= hop.0 <= 25 {
            assert(balanced(b, c, hops, hop.0));
            assert(coming(hops, hop.0) == 0);
        }
    }
    assert(found.to_multiset() =~= hops.to_multiset());
}

/// A die that has been offered keeps what was paired before it.
proof fn lemma_round_goes_on(froms: Seq<int>, tos: Seq<int>, die: int, fi: int, spent: bool, st: Pairing)
    requires
        0 <= fi,
        st.from_used.len() == froms.len(),
        st.to_used.len() == tos.len(),
    ensures
        ({
            let r = die_round(froms, tos, die, fi, spent, st);
            &&& r.from_used.len() == froms.len()
            &&& r.to_used.len() == tos.len()
            &&& st.hops.len() <= r.hops.len()
            &&& forall|i: int| 0 <= i < st.hops.len() ==> #[trigger] r.hops[i] == st.hops[i]
        }),
    decreases froms.len() - fi,
{
    if fi < froms.len() {
        if st.from_used[fi] {
            lemma_round_goes_on(froms, tos, die, fi + 1, spent, st);
        } else {
            lemma_first_free(st.to_used, 0);
            lemma_first_fit(tos, st.to_used, froms[fi] - die, 0);
            match pick(tos, st.to_used, froms[fi] - die, spent) {
                Some(ti) => {
                    let next = coupled(froms, tos, fi, ti, st);
                    lemma_round_goes_on(froms, tos, die, fi + 1, true, next);
                    let r = die_round(froms, tos, die, fi, spent, st);
                    assert forall|i: int| 0 <= i < st.hops.len() implies #[trigger] r.hops[i] == st.hops[i] by {
                        assert(next.hops[i] == st.hops[i]);
                    }
                },
                None => {
                    lemma_round_goes_on(froms, tos, die, fi + 1, spent, st);
                },
            }
        }
    }
}

proof fn lemma_rounds_go_on(froms: Seq<int>, tos: Seq<int>, dice: Seq<int>, k: int, st: Pairing)
    requires
        0 <= k,
        st.from_used.len() == froms.len(),
        st.to_used.len() == tos.len(),
    ensures
        ({
            let r = dice_rounds(froms, tos, dice, k, st);
            &&& r.from_used.len() == froms.len()
            &&& r.to_used.len() == tos.len()
            &&& st.hops.len() <= r.hops.len()
            &&& forall|i: int| 0 <= i < st.hops.len() ==> #[trigger] r.hops[i] == st.hops[i]
        }),
    decreases dice.len() - k,
{
    if k < dice.len() {
        let mid = die_round(froms, tos, dice[k], 0, false, st);
        lemma_round_goes_on(froms, tos, dice[k], 0, false, st);
        lemma_rounds_go_on(froms, tos, dice, k + 1, mid);
        let r = dice_rounds(froms, tos, dice, k, st);
        assert forall|i: int| 0 <= i < st.hops.len() implies #[trigger] r.hops[i] == st.hops[i] by {
            assert(mid.hops[i] == st.hops[i]);
        }
    }
}

/// A hop that spans no more than the first die is never broken.
proof fn lemma_short_kept(hops: Seq<(int, int)>, d1: int, d2: int, open_hits: Set<int>, k: int)
    requires
        0 <= k < hops.len(),
        d2 > 0,
        hops[k].0 - hops[k].1 <= d1,
    ensures
        broken(hops, d1, d2, open_hits).0.contains(hops[k]),
    decreases hops.len(),
{
    let hop = hops.last();
    let prev = hops.drop_last();
    let mids = breaks(hop, d1, d2, open_hits);
    let parts = broken(hops, d1, d2, open_hits).0;
    let rest = broken(prev, d1, d2, without_points(open_hits, mids)).0;
    if k == prev.len() {
        assert(mids == Seq::<int>::empty());
        assert(chain(hop.0, mids, hop.1) == seq![hop]);
        assert(parts[rest.len() as int] == hop);
    } else {
        assert(prev[k] == hops[k]);
        lemma_short_kept(prev, d1, d2, without_points(open_hits, mids), k);
        let i = choose|i: int| 0 <= i < rest.len() && rest[i] == hops[k];
        assert(parts[i] == hops[k]);
    }
}

proof fn lemma_placed_holds(hops: Seq<(int, int)>, hop: (int, int), x: (int, int))
    requires
        x == hop || hops.contains(x),
    ensures
        placed(hops, hop).contains(x),
    decreases hops.len(),
{
    let all = placed(hops, hop);
    if hops.len() > 0 && ahead(hop, hops.last()) {
        let prev = hops.drop_last();
        let inner = placed(prev, hop);
        if x == hops.last() {
            assert(all[inner.len() as int] == x);
        } else {
            if x != hop {
                let i = choose|i: int| 0 <= i < hops.len() && hops[i] == x;
                assert(prev[i] == x);
            }
            lemma_placed_holds(prev, hop, x);
            let i = choose|i: int| 0 <= i < inner.len() && inner[i] == x;
            assert(all[i] == x);
        }
    } else if x == hop {
        assert(all[hops.len() as int] == x);
    } else {
        let i = choose|i: int| 0 <= i < hops.len() && hops[i] == x;
        assert(all[i] == x);
    }
}

proof fn lemma_in_order_holds(hops: Seq<(int, int)>, x: (int, int))
    requires
        hops.contains(x),
    ensures
        in_order(hops).contains(x),
    decreases hops.len(),
{
    let prev = hops.drop_last();
    if x != hops.last() {
        let i = choose|i: int| 0 <= i < hops.len() && hops[i] == x;
        assert(prev[i] == x);
        lemma_in_order_holds(prev, x);
    }
    lemma_placed_holds(in_order(prev), hops.last(), x);
}

/// The first source is paired with a checker borne off, where the first die carries it
/// that far.
proof fn lemma_first_borne_off(froms: Seq<int>, tos: Seq<int>, dice: Seq<int>)
    requires
        froms.len() > 0,
        dice.len() > 0,
        ends_on_board(froms, tos),
        froms[0] <= dice[0],
        exists|j: int| 0 <= j < tos.len() && #[trigger] tos[j] == 0,
    ensures
        paired(froms, tos, dice).len() > 0,
        paired(froms, tos, dice)[0] == (froms[0], 0int),
{
    let start = unpaired(froms.len(), tos.len());
    let j = choose|j: int| 0 <= j < tos.len() && #[trigger] tos[j] == 0;
    let want = froms[0] - dice[0];
    lemma_first_fit(tos, start.to_used, want, 0);
    let ti = first_fit(tos, start.to_used, want, 0);
    assert(ti <= j) by {
        if ti > j {
            assert(start.to_used[j] || !reaches(tos[j], want));
        }
    }
    assert(tos[ti] == 0);
    assert(pick(tos, start.to_used, want, false) == Some(ti));
    let next = coupled(froms, tos, 0, ti, start);
    assert(next.hops[0] == (froms[0], 0int));
    let one = die_round(froms, tos, dice[0], 0, false, start);
    assert(one == die_round(froms, tos, dice[0], 1, true, next));
    lemma_round_goes_on(froms, tos, dice[0], 1, true, next);
    lemma_rounds_go_on(froms, tos, dice, 1, one);
    let st = dice_rounds(froms, tos, dice, 0, start);
    assert(st == dice_rounds(froms, tos, dice, 1, one));
    lemma_leftovers_go_on(froms, tos, 0, st);
    assert(one.hops[0] == next.hops[0]);
    assert(st.hops[0] == one.hops[0]);
    assert(paired(froms, tos, dice)[0] == st.hops[0]);
}

/// The first die bears off the highest checker that left, where it carries it to the
/// end of the board or past it and a checker was borne off.
#[verifier::rlimit(60)]
pub proof fn law_first_die_bears_off(before: Seq<int>, after: Seq<int>, die1: int, die2: int, f: int)
    requires
        die1 > 0,
        die2 > 0,
        1 <= f <= 24,
        f <= die1,
        before[f] > 0,
        after[f] < before[f],
        before[25] <= after[25],
        forall|q: int| f < q <= 24 ==> mine(#[trigger] before[q]) <= mine(after[q]),
        on_board(after) < on_board(before),
    ensures
        move_hops(before, after, die1, die2).contains((f, 0int)),
{
    let froms = sources(before, after);
    let tos = targets(before, after);
    lemma_ends_on_board(before, after);
    lemma_sources_falling(before, after, 25);
    lemma_occurs_sources(before, after, 25, f);
    lemma_occurs_some(froms, f);
    let at = choose|i: int| 0 <= i < froms.len() && #[trigger] froms[i] == f;
    assert(froms[0] >= froms[at]);
    assert(froms[0] == f) by {
        let q = froms[0];
        lemma_occurs_sources(before, after, 25, q);
        lemma_occurs_some(froms, q);
        if q > f && q <= 24 {
            assert(before[q] == before[q]);
        }
    }
    lemma_occurs_targets(before, after, 24, 0);
    lemma_occurs_some(tos, 0);
    let whole = whole_hops(before, after, die1, die2);
    lemma_first_borne_off(froms, tos, dice_of(die1, die2));
    let open_hits = passed_hits(before, after, whole);
    lemma_short_kept(whole, die1, die2, open_hits, 0);
    lemma_in_order_holds(broken(whole, die1, die2, open_hits).0, whole[0]);
}

// Moves that the dice do not explain

/// No die carries a source to a target.
pub open spec fn unexplained(froms: Seq<int>, tos: Seq<int>, dice: Seq<int>) -> bool {
    forall|i: int, j: int, k: int|
        0 <= i < froms.len() && 0 <= j < tos.len() && 0 <= k < dice.len() ==> {
            &&& #[trigger] tos[j] != #[trigger] froms[i] - #[trigger] dice[k]
            &&& tos[j] == 0 ==> froms[i] > dice[k]
        }
}

proof fn lemma_round_idle(froms: Seq<int>, tos: Seq<int>, dice: Seq<int>, k: int, fi: int, st: Pairing)
    requires
        0 <= k < dice.len(),
        0 <= fi,
        st.to_used.len() == tos.len(),
        unexplained(froms, tos, dice),
    ensures
        die_round(froms, tos, dice[k], fi, false, st) == st,
    decreases froms.len() - fi,
{
    if fi < froms.len() {
        lemma_first_fit(tos, st.to_used, froms[fi] - dice[k], 0);
        lemma_round_idle(froms, tos, dice, k, fi + 1, st);
    }
}

proof fn lemma_rounds_idle(froms: Seq<int>, tos: Seq<int>, dice: Seq<int>, k: int, st: Pairing)
    requires
        0 <= k,
        st.to_used.len() == tos.len(),
        unexplained(froms, tos, dice),
    ensures
        dice_rounds(froms, tos, dice, k, st) == st,
    decreases dice.len() - k,
{
    if k < dice.len() {
        lemma_round_idle(froms, tos, dice, k, 0, st);
        lemma_rounds_idle(froms, tos, dice, k + 1, st);
    }
}

/// Where no die carries a checker that left to where one came down, the checkers are
/// put together in order, the highest with the highest.
pub proof fn law_unexplained_in_order(froms: Seq<int>, tos: Seq<int>, dice: Seq<int>)
    requires
        froms.len() == tos.len(),
        unexplained(froms, tos, dice),
    ensures
        paired(froms, tos, dice).len() == froms.len(),
        forall|i: int| 0 <= i < froms.len() ==> #[trigger] paired(froms, tos, dice)[i] == (froms[i], tos[i]),
{
    let start = unpaired(froms.len(), tos.len());
    lemma_rounds_idle(froms, tos, dice, 0, start);
    assert(start.hops == Seq::new(0, |i: int| (froms[i], tos[i])));
    assert(start.from_used == Seq::new(froms.len(), |i: int| i < 0));
    assert(start.to_used == Seq::new(froms.len(), |i: int| i < 0));
    lemma_leftovers_zip(froms, tos, 0, start);
}

/// A die that has paired a hop looks no further than the highest open target: where it
/// carries the next checker there, that is paired, and where it carries none there,
/// nothing more is.
pub proof fn law_played_die(froms: Seq<int>, tos: Seq<int>, die: int, fi: int, st: Pairing, top: int)
    requires
        0 <= fi < froms.len(),
        st.from_used.len() == froms.len(),
        st.to_used.len() == tos.len(),
        0 <= top < tos.len(),
        !st.to_used[top],
        forall|j: int| 0 <= j < top ==> #[trigger] st.to_used[j],
    ensures
        (forall|i: int|
            fi <= i < froms.len() ==> tos[top] != #[trigger] froms[i] - die && (tos[top] == 0 ==> froms[i]
                > die)) ==> die_round(froms, tos, die, fi, true, st) == st,
        !st.from_used[fi] && tos[top] == froms[fi] - die ==> {
            let r = die_round(froms, tos, die, fi, true, st);
            st.hops.len() < r.hops.len() && r.hops[st.hops.len() as int] == (froms[fi], tos[top])
        },
    decreases froms.len() - fi,
{
    lemma_first_free(st.to_used, 0);
    assert(first_free(st.to_used, 0) == top) by {
        if first_free(st.to_used, 0) < top {
            assert(st.to_used[first_free(st.to_used, 0)]);
        }
    }
    if forall|i: int|
        fi <= i < froms.len() ==> tos[top] != #[trigger] froms[i] - die && (tos[top] == 0 ==> froms[i] > die) {
        assert(tos[top] != froms[fi] - die);
        assert(pick(tos, st.to_used, froms[fi] - die, true) is None);
        if fi + 1 < froms.len() {
            law_played_die(froms, tos, die, fi + 1, st, top);
        }
    }
    if !st.from_used[fi] && tos[top] == froms[fi] - die {
        assert(pick(tos, st.to_used, froms[fi] - die, true) == Some(top));
        let next = coupled(froms, tos, fi, top, st);
        lemma_round_goes_on(froms, tos, die, fi + 1, true, next);
        assert(next.hops[st.hops.len() as int] == (froms[fi], tos[top]));
    }
}

/// A hit that two hops pass over is given to the last of them, once.
pub proof fn law_hit_taken_once(x: (int, int), y: (int, int), die1: int, die2: int, p: int)
    requires
        die1 > 0,
        die2 > 0,
        die1 != die2,
        x.0 - x.1 == die1 + die2,
        y.0 - y.1 == die1 + die2,
        1 <= p <= 24,
        p == x.0 - die1 || p == x.0 - die2,
        p == y.0 - die1 || p == y.0 - die2,
    ensures
        broken(seq![x, y], die1, die2, set![p]).0 == seq![x, (y.0, p), (p, y.1)],
        !broken(seq![x, y], die1, die2, set![p]).1.contains(p),
{
    let xy = seq![x, y];
    let open_hits = set![p];
    let rest = without_points(open_hits, seq![p]);
    assert(xy.drop_last() == seq![x]);
    assert(breaks(y, die1, die2, open_hits) == seq![p]);
    assert(seq![p][0] == p);
    assert(!rest.contains(p));
    assert(forall|q: int| !rest.contains(q));
    lemma_single_broken(x, die1, die2, rest);
    assert(breaks(x, die1, die2, rest) == Seq::<int>::empty());
    reveal_with_fuel(chain, 3);
    assert(seq![p].drop_first() == Seq::<int>::empty());
    assert(chain(y.0, seq![p], y.1) == seq![(y.0, p)] + seq![(p, y.1)]);
    assert(seq![x] + (seq![(y.0, p)] + seq![(p, y.1)]) == seq![x, (y.0, p), (p, y.1)]);
    lemma_left_open(seq![x], die1, die2, rest, p);
}

} // verus!
