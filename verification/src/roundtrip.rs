//! The notation of a move, applied to the board before it, gives the board after
//! it.
use vstd::prelude::*;

#[allow(unused_imports)]
use crate::board::{mine, mover_sum};
#[allow(unused_imports)]
use crate::hops::{
    ahead, breaks, broken, chain, coming, copies, dice_of, end_pairing, gained, hits_between,
    hop_text, hop_texts, hops_on_board, hops_text, in_order, label, lands_on, leaving,
    lemma_ends_on_board, lemma_paired, lost, lost_hits, move_hops, on_board, passed_hits, placed,
    sources, sources_from, targets, targets_from, used_at, used_total, was_hit, whole_hops,
    without_points,
};
#[allow(unused_imports)]
use crate::notation::{
    is_number, landed, lifted, played, played_words, repeated, stepped, steps_of, stops_of,
    stops_read, token_of, walked, StepFault, BAR_TOKEN, OFF_TOKEN,
};
#[allow(unused_imports)]
use crate::text::{
    all_digits, decimal, digit_char, digit_value, digits_value, is_digit, is_space, joined,
    lemma_span_len_is, lemma_word_len, lemma_word_len_is, lower, natural_of, split_on, without_plus,
    without_stars, word_len, words,
};

verus! {

// Text

/// A digit or a small letter.
pub open spec fn plain(c: char) -> bool {
    is_digit(c) || ('a' <= c && c <= 'z')
}

pub open spec fn all_plain(s: Seq<char>) -> bool {
    forall|i: int| 0 <= i < s.len() ==> plain(#[trigger] s[i])
}

proof fn lemma_digit_char(d: nat)
    requires
        d < 10,
    ensures
        is_digit(digit_char(d)),
        digit_value(digit_char(d)) == d,
{
}

/// A numeral is a row of digits, and reads back as its number.
pub proof fn lemma_decimal(n: nat)
    ensures
        decimal(n).len() > 0,
        all_digits(decimal(n)),
        digits_value(decimal(n)) == n,
    decreases n,
{
    reveal_with_fuel(digits_value, 2);
    if n < 10 {
        lemma_digit_char(n);
        assert(decimal(n).drop_last() == Seq::<char>::empty());
    } else {
        lemma_decimal(n / 10);
        lemma_digit_char(n % 10);
        assert(decimal(n).drop_last() == decimal(n / 10));
    }
}

/// Two moves written one after the other, with a space between them, read as the
/// words of the first and then those of the second.
pub proof fn lemma_words_joined(s: Seq<char>, t: Seq<char>)
    ensures
        words(s + seq![' '] + t) == words(s) + words(t),
    decreases s.len(),
{
    let all = s + seq![' '] + t;
    if s.len() == 0 {
        assert(all.drop_first() == t);
        assert(words(s) + words(t) == words(t));
    } else if is_space(s[0]) {
        assert(all.drop_first() == s.drop_first() + seq![' '] + t);
        lemma_words_joined(s.drop_first(), t);
    } else {
        let n = word_len(s) as int;
        lemma_word_len(s);
        assert forall|i: int| 0 <= i < n implies !is_space(#[trigger] all[i]) by {
            assert(all[i] == s[i]);
        }
        if n < s.len() {
            assert(all[n] == s[n]);
        } else {
            assert(all[n] == ' ');
        }
        lemma_word_len_is(all, n);
        assert(all.take(n) == s.take(n));
        assert(all.skip(n) == s.skip(n) + seq![' '] + t);
        lemma_words_joined(s.skip(n), t);
        assert(words(all) == seq![s.take(n)] + (words(s.skip(n)) + words(t)));
        assert(words(all) == words(s) + words(t));
    }
}

pub(crate) proof fn lemma_one_word(s: Seq<char>)
    requires
        s.len() > 0,
        forall|i: int| 0 <= i < s.len() ==> !is_space(#[trigger] s[i]),
    ensures
        words(s) == seq![s],
{
    lemma_word_len_is(s, s.len() as int);
    assert(s.take(s.len() as int) == s);
    assert(words(s.skip(s.len() as int)) == Seq::<Seq<char>>::empty());
    assert(words(s) == seq![s]);
}

pub(crate) proof fn lemma_words_of_joined(texts: Seq<Seq<char>>)
    requires
        forall|k: int| 0 <= k < texts.len() ==> (#[trigger] texts[k]).len() > 0,
        forall|k: int, i: int|
            0 <= k < texts.len() && 0 <= i < texts[k].len() ==> !is_space(#[trigger] texts[k][i]),
    ensures
        words(joined(texts, seq![' '])) == texts,
    decreases texts.len(),
{
    if texts.len() == 0 {
    } else if texts.len() == 1 {
        lemma_one_word(texts[0]);
        assert(texts == seq![texts[0]]);
    } else {
        let rest = texts.drop_last();
        let last = texts.last();
        assert forall|k: int| 0 <= k < rest.len() implies (#[trigger] rest[k]).len() > 0 by {
            assert(rest[k] == texts[k]);
        }
        assert forall|k: int, i: int| 0 <= k < rest.len() && 0 <= i < rest[k].len() implies !is_space(
            #[trigger] rest[k][i],
        ) by {
            assert(rest[k][i] == texts[k][i]);
        }
        lemma_words_of_joined(rest);
        lemma_words_joined(joined(rest, seq![' ']), last);
        lemma_one_word(last);
        assert(rest + seq![last] == texts);
    }
}

pub(crate) proof fn lemma_tokens_plain()
    ensures
        all_plain(BAR_TOKEN@),
        all_plain(OFF_TOKEN@),
        BAR_TOKEN@.len() == 3,
        OFF_TOKEN@.len() == 3,
        !all_digits(BAR_TOKEN@),
        !all_digits(OFF_TOKEN@),
{
    reveal_strlit("bar");
    reveal_strlit("off");
    assert(!is_digit(BAR_TOKEN@[0]));
    assert(!is_digit(OFF_TOKEN@[0]));
}

pub(crate) proof fn lemma_label(v: int, name: Seq<char>)
    requires
        0 <= v <= 25,
        all_plain(name),
        name.len() > 0,
    ensures
        all_plain(label(v, name)),
        label(v, name).len() > 0,
        1 <= v <= 24 ==> label(v, name) == decimal(v as nat) && all_digits(label(v, name))
            && digits_value(label(v, name)) == v,
{
    if 1 <= v <= 24 {
        lemma_decimal(v as nat);
        assert forall|i: int| 0 <= i < label(v, name).len() implies plain(
            #[trigger] label(v, name)[i],
        ) by {
            assert(is_digit(decimal(v as nat)[i]));
        }
    }
}

pub(crate) proof fn lemma_no_stars(s: Seq<char>)
    requires
        all_plain(s),
    ensures
        without_stars(s) == s,
{
    if s.len() > 0 {
        assert(plain(s[s.len() - 1]));
    }
}

proof fn lemma_two_pieces(x: Seq<char>, y: Seq<char>)
    requires
        all_plain(x),
        all_plain(y),
    ensures
        split_on(x + seq!['/'] + y, '/') == seq![x, y],
{
    let s = x + seq!['/'] + y;
    assert forall|i: int| 0 <= i < x.len() implies #[trigger] s[i] != '/' by {
        assert(s[i] == x[i]);
    }
    lemma_span_len_is(s, '/', x.len() as int);
    assert(s.take(x.len() as int) == x);
    assert(s.skip(x.len() as int + 1) == y);
    assert forall|i: int| 0 <= i < y.len() implies #[trigger] y[i] != '/' by {
        assert(plain(y[i]));
    }
    lemma_span_len_is(y, '/', y.len() as int);
    assert(split_on(y, '/') == seq![y]);
    assert(seq![x] + seq![y] == seq![x, y]);
}

/// A hop written out reads as itself, once.
pub(crate) proof fn lemma_hop_reads(hop: (int, int))
    requires
        1 <= hop.0 <= 25,
        0 <= hop.1 <= 24,
    ensures
        hop_text(hop).len() > 0,
        forall|i: int| 0 <= i < hop_text(hop).len() ==> !is_space(#[trigger] hop_text(hop)[i]),
        token_of(hop_text(hop)) == Some(
            (seq![(label(hop.0, BAR_TOKEN@), label(hop.1, OFF_TOKEN@))], 1nat),
        ),
{
    let x = label(hop.0, BAR_TOKEN@);
    let y = label(hop.1, OFF_TOKEN@);
    let s = hop_text(hop);
    lemma_tokens_plain();
    lemma_label(hop.0, BAR_TOKEN@);
    lemma_label(hop.1, OFF_TOKEN@);
    assert forall|i: int| 0 <= i < s.len() implies (plain(#[trigger] s[i]) || s[i] == '/') by {
        if i < x.len() {
            assert(s[i] == x[i]);
        } else if i > x.len() {
            assert(s[i] == y[i - x.len() - 1]);
        }
    }
    assert forall|i: int| 0 <= i < s.len() implies !is_space(#[trigger] s[i]) by {
        assert(plain(s[i]) || s[i] == '/');
    }
    assert(lower(s) == s) by {
        assert forall|i: int| 0 <= i < s.len() implies lower(s)[i] == s[i] by {
            assert(plain(s[i]) || s[i] == '/');
        }
    }
    assert forall|i: int| 0 <= i < s.len() implies #[trigger] s[i] != '(' by {
        assert(plain(s[i]) || s[i] == '/');
    }
    lemma_span_len_is(s, '(', s.len() as int);
    assert(s.take(s.len() as int) == s);
    lemma_two_pieces(x, y);
    lemma_no_stars(x);
    lemma_no_stars(y);
    assert(stops_of(s) == seq![x, y]);
    let stops = stops_of(s);
    assert(stops_read(stops)) by {
        assert(stops[0] == x && stops[1] == y);
        assert forall|i: int| 1 <= i < stops.len() implies (#[trigger] stops[i] == OFF_TOKEN@ || is_number(
            stops[i],
        )) by {
            assert(i == 1);
        }
    }
    assert(steps_of(stops) == seq![(x, y)]);
}

// Hops on a board

/// The board after a checker has left `f`, if there is one.
pub open spec fn left_at(b: Seq<int>, f: int) -> Option<Seq<int>> {
    if b[f] > 0 {
        Some(b.update(f, b[f] - 1))
    } else {
        None
    }
}

/// The board after a checker has come to `t`, if the point is open to it.
pub open spec fn came_to(b: Seq<int>, t: int) -> Option<Seq<int>> {
    if t == 0 {
        Some(b)
    } else if b[t] < -1 {
        None
    } else if b[t] == -1 {
        Some(b.update(t, 1).update(0, b[0] + 1))
    } else {
        Some(b.update(t, b[t] + 1))
    }
}

/// The board after one hop.
pub open spec fn hopped(b: Seq<int>, hop: (int, int)) -> Option<Seq<int>> {
    match left_at(b, hop.0) {
        Some(b1) => came_to(b1, hop.1),
        None => None,
    }
}

/// The board after some hops in order.
pub open spec fn after_hops(b: Seq<int>, hops: Seq<(int, int)>) -> Option<Seq<int>>
    decreases hops.len(),
{
    if hops.len() == 0 {
        Some(b)
    } else {
        match after_hops(b, hops.drop_last()) {
            Some(b1) => hopped(b1, hops.last()),
            None => None,
        }
    }
}

pub(crate) proof fn lemma_label_number(v: int, name: Seq<char>)
    requires
        1 <= v <= 24,
        name == BAR_TOKEN@ || name == OFF_TOKEN@,
    ensures
        natural_of(label(v, name), usize::MAX as nat) == Some(v as nat),
        label(v, name) != BAR_TOKEN@,
        label(v, name) != OFF_TOKEN@,
{
    lemma_tokens_plain();
    lemma_label(v, name);
    let s = label(v, name);
    assert(is_digit(s[0]));
    assert(without_plus(s) == s);
}

proof fn lemma_hop_steps(b: Seq<int>, hop: (int, int))
    requires
        1 <= hop.0 <= 25,
        0 <= hop.1 <= 24,
        hopped(b, hop) is Some,
    ensures
        repeated(b, seq![(label(hop.0, BAR_TOKEN@), label(hop.1, OFF_TOKEN@))], 1) == Ok::<
            Seq<int>,
            StepFault,
        >(hopped(b, hop).unwrap()),
{
    let x = label(hop.0, BAR_TOKEN@);
    let y = label(hop.1, OFF_TOKEN@);
    if hop.0 <= 24 {
        lemma_label_number(hop.0, BAR_TOKEN@);
    }
    if hop.1 >= 1 {
        lemma_label_number(hop.1, OFF_TOKEN@);
    }
    let one = seq![(x, y)];
    assert(one.drop_last() == Seq::<(Seq<char>, Seq<char>)>::empty());
    assert(one.last() == (x, y));
    reveal_with_fuel(walked, 2);
    reveal_with_fuel(repeated, 2);
    assert(lifted(b, x) == Ok::<Seq<int>, StepFault>(left_at(b, hop.0).unwrap()));
    let b1 = left_at(b, hop.0).unwrap();
    assert(landed(b1, y) == Ok::<Seq<int>, StepFault>(came_to(b1, hop.1).unwrap()));
    assert(stepped(b, (x, y)) == Ok::<Seq<int>, StepFault>(hopped(b, hop).unwrap()));
    assert(walked(b, one) == Ok::<Seq<int>, StepFault>(hopped(b, hop).unwrap()));
}

proof fn lemma_play_hops(b: Seq<int>, hops: Seq<(int, int)>)
    requires
        hops_on_board(hops),
        after_hops(b, hops) is Some,
    ensures
        played_words(b, hop_texts(hops)) == Ok::<Seq<int>, (StepFault, Seq<char>)>(
            after_hops(b, hops).unwrap(),
        ),
    decreases hops.len(),
{
    if hops.len() > 0 {
        let rest = hops.drop_last();
        let hop = hops.last();
        assert forall|i: int| 0 <= i < rest.len() implies 1 <= (#[trigger] rest[i]).0 <= 25 && 0
            <= rest[i].1 <= 24 by {
            assert(rest[i] == hops[i]);
        }
        assert(hop == hops[hops.len() - 1]);
        lemma_play_hops(b, rest);
        assert(hop_texts(hops).drop_last() == hop_texts(rest));
        assert(hop_texts(hops).last() == hop_text(hop));
        lemma_hop_reads(hop);
        lemma_hop_steps(after_hops(b, rest).unwrap(), hop);
    }
}

/// Hops that can be made one after the other, written out, play as themselves.
proof fn lemma_play_text(b: Seq<int>, hops: Seq<(int, int)>)
    requires
        hops_on_board(hops),
        after_hops(b, hops) is Some,
    ensures
        played(b, hops_text(hops)) == Ok::<Seq<int>, (StepFault, Seq<char>)>(
            after_hops(b, hops).unwrap(),
        ),
{
    let texts = hop_texts(hops);
    assert forall|k: int| 0 <= k < texts.len() implies (#[trigger] texts[k]).len() > 0 by {
        lemma_hop_reads(hops[k]);
    }
    assert forall|k: int, i: int| 0 <= k < texts.len() && 0 <= i < texts[k].len() implies !is_space(
        #[trigger] texts[k][i],
    ) by {
        lemma_hop_reads(hops[k]);
        assert(texts[k] == hop_text(hops[k]));
    }
    lemma_words_of_joined(texts);
    lemma_play_hops(b, hops);
}

// Counting

/// How often `p` occurs.
pub open spec fn occurs(xs: Seq<int>, p: int) -> int
    decreases xs.len(),
{
    if xs.len() == 0 {
        0
    } else {
        occurs(xs.drop_last(), p) + (if xs.last() == p {
            1int
        } else {
            0int
        })
    }
}

proof fn lemma_occurs_joined(xs: Seq<int>, ys: Seq<int>, p: int)
    ensures
        occurs(xs + ys, p) == occurs(xs, p) + occurs(ys, p),
    decreases ys.len(),
{
    if ys.len() == 0 {
        assert(xs + ys == xs);
    } else {
        lemma_occurs_joined(xs, ys.drop_last(), p);
        assert((xs + ys).drop_last() == xs + ys.drop_last());
    }
}

proof fn lemma_occurs_copies(q: int, n: int, p: int)
    requires
        n >= 0,
    ensures
        occurs(copies(q, n), p) == if p == q {
            n
        } else {
            0
        },
    decreases n,
{
    if n > 0 {
        lemma_occurs_copies(q, n - 1, p);
        assert(copies(q, n).drop_last() == copies(q, n - 1));
    }
}

pub(crate) proof fn lemma_occurs_sources(b: Seq<int>, a: Seq<int>, n: int, p: int)
    requires
        0 <= n,
    ensures
        occurs(sources_from(b, a, n), p) == if 1 <= p <= n {
            lost(b, a, p)
        } else {
            0
        },
    decreases n,
{
    if n > 0 {
        lemma_occurs_sources(b, a, n - 1, p);
        lemma_occurs_copies(n, lost(b, a, n), p);
        lemma_occurs_joined(copies(n, lost(b, a, n)), sources_from(b, a, n - 1), p);
    }
}

pub(crate) proof fn lemma_occurs_targets(b: Seq<int>, a: Seq<int>, n: int, p: int)
    requires
        -1 <= n,
    ensures
        occurs(targets_from(b, a, n), p) == if 0 <= p <= n {
            gained(b, a, p)
        } else {
            0
        },
    decreases n + 1,
{
    if n >= 0 {
        lemma_occurs_targets(b, a, n - 1, p);
        lemma_occurs_copies(n, gained(b, a, n), p);
        lemma_occurs_joined(copies(n, gained(b, a, n)), targets_from(b, a, n - 1), p);
    }
}

/// On the points the checkers that left exceed those that came down by the
/// difference of the totals.
pub(crate) proof fn lemma_lengths(b: Seq<int>, a: Seq<int>, n: int)
    requires
        0 <= n <= 24,
    ensures
        sources_from(b, a, n).len() - (targets_from(b, a, n).len() - gained(b, a, 0)) == mover_sum(b, n)
            - mover_sum(a, n),
    decreases n,
{
    if n == 0 {
        reveal_with_fuel(targets_from, 2);
    } else {
        lemma_lengths(b, a, n - 1);
    }
}

/// `after` can come of `before` by moving the mover's checkers: none is added, a
/// point that the opponent holds stays as it is unless its single checker goes to
/// the bar, and nothing else comes to the bar.
pub open spec fn may_become(before: Seq<int>, after: Seq<int>) -> bool {
    &&& before.len() == 26
    &&& after.len() == 26
    &&& after[25] <= before[25]
    &&& after[25] < before[25] ==> after[25] >= 0
    &&& on_board(after) <= on_board(before)
    &&& forall|p: int|
        1 <= p <= 24 ==> {
            ||| before[p] >= 0 && #[trigger] after[p] >= 0
            ||| before[p] == -1 && after[p] >= 0
            ||| before[p] < 0 && after[p] == before[p]
        }
    &&& after[0] == before[0] + hit_sum(before, after, 24)
}

/// How many of the points 1 to `n` a checker was hit on.
pub open spec fn hit_sum(before: Seq<int>, after: Seq<int>, n: int) -> int
    decreases n,
{
    if n <= 0 {
        0
    } else {
        hit_sum(before, after, n - 1) + (if was_hit(before, after, n) {
            1int
        } else {
            0int
        })
    }
}

pub(crate) proof fn lemma_all_used(used: Seq<bool>, n: int)
    requires
        0 <= n <= used.len(),
    ensures
        used_total(used, n) <= n,
        used_total(used, n) == n <==> forall|k: int| 0 <= k < n ==> #[trigger] used[k],
    decreases n,
{
    if n > 0 {
        lemma_all_used(used, n - 1);
        if used_total(used, n) == n {
            assert(used[n - 1]);
            assert forall|k: int| 0 <= k < n implies #[trigger] used[k] by {
                if k < n - 1 {
                }
            }
        }
    }
}

proof fn lemma_used_occurs(xs: Seq<int>, used: Seq<bool>, p: int, n: int)
    requires
        0 <= n <= used.len(),
        used.len() == xs.len(),
        forall|k: int| 0 <= k < used.len() ==> #[trigger] used[k],
    ensures
        used_at(xs, used, p, n) == occurs(xs.take(n), p),
    decreases n,
{
    if n > 0 {
        lemma_used_occurs(xs, used, p, n - 1);
        assert(xs.take(n).drop_last() == xs.take(n - 1));
    }
}

/// The hops of a move take every checker that left from its point and bring every
/// one that came down to its own.
pub(crate) proof fn lemma_whole_counts(b: Seq<int>, a: Seq<int>, d1: int, d2: int, p: int)
    requires
        may_become(b, a),
    ensures
        hops_on_board(whole_hops(b, a, d1, d2)),
        leaving(whole_hops(b, a, d1, d2), p) == if 1 <= p <= 25 {
            lost(b, a, p)
        } else {
            0
        },
        coming(whole_hops(b, a, d1, d2), p) == if 0 <= p <= 24 {
            gained(b, a, p)
        } else {
            0
        },
{
    let froms = sources(b, a);
    let tos = targets(b, a);
    let dice = dice_of(d1, d2);
    let end = end_pairing(froms, tos, dice);
    lemma_ends_on_board(b, a);
    lemma_paired(froms, tos, dice);
    lemma_lengths(b, a, 24);
    assert(froms.len() == tos.len());
    let n = froms.len() as int;
    lemma_all_used(end.from_used, n);
    lemma_all_used(end.to_used, n);
    lemma_used_occurs(froms, end.from_used, p, n);
    lemma_used_occurs(tos, end.to_used, p, n);
    assert(froms.take(n) == froms);
    assert(tos.take(n) == tos);
    lemma_occurs_sources(b, a, 25, p);
    lemma_occurs_targets(b, a, 24, p);
    assert(leaving(end.hops, p) == used_at(froms, end.from_used, p, n));
    assert(coming(end.hops, p) == used_at(tos, end.to_used, p, n));
}

pub(crate) proof fn lemma_counts_nonneg(hops: Seq<(int, int)>, p: int)
    ensures
        leaving(hops, p) >= 0,
        coming(hops, p) >= 0,
    decreases hops.len(),
{
    if hops.len() > 0 {
        lemma_counts_nonneg(hops.drop_last(), p);
    }
}

pub(crate) proof fn lemma_coming_lands(hops: Seq<(int, int)>, p: int)
    ensures
        lands_on(hops, p) <==> coming(hops, p) > 0,
    decreases hops.len(),
{
    if hops.len() > 0 {
        let rest = hops.drop_last();
        lemma_coming_lands(rest, p);
        lemma_counts_nonneg(rest, p);
        if lands_on(rest, p) {
            let i = choose|i: int| 0 <= i < rest.len() && (#[trigger] rest[i]).1 == p;
            assert(hops[i].1 == p);
        }
        if hops.last().1 == p {
            assert(hops[hops.len() - 1].1 == p);
        } else if lands_on(hops, p) {
            let i = choose|i: int| 0 <= i < hops.len() && (#[trigger] hops[i]).1 == p;
            assert(rest[i].1 == p);
        }
    }
}

proof fn lemma_counts_joined(xs: Seq<(int, int)>, ys: Seq<(int, int)>, p: int)
    ensures
        leaving(xs + ys, p) == leaving(xs, p) + leaving(ys, p),
        coming(xs + ys, p) == coming(xs, p) + coming(ys, p),
    decreases ys.len(),
{
    if ys.len() == 0 {
        assert(xs + ys == xs);
    } else {
        lemma_counts_joined(xs, ys.drop_last(), p);
        assert((xs + ys).drop_last() == xs + ys.drop_last());
    }
}

// Breaking

/// Points from the highest down, each once.
pub open spec fn descending(mids: Seq<int>) -> bool {
    forall|i: int, j: int| 0 <= i < j < mids.len() ==> #[trigger] mids[i] > #[trigger] mids[j]
}

proof fn lemma_hits_between(at: int, to: int, die: int, open_hits: Set<int>)
    ensures
        descending(hits_between(at, to, die, open_hits)),
        forall|i: int|
            0 <= i < hits_between(at, to, die, open_hits).len() ==> {
                let m = #[trigger] hits_between(at, to, die, open_hits)[i];
                open_hits.contains(m) && to < m < at && 1 <= m <= 24
            },
    decreases at - to,
{
    let mid = at - die;
    if !(die <= 0 || mid <= to) {
        lemma_hits_between(mid, to, die, open_hits);
        let rest = hits_between(mid, to, die, open_hits);
        let all = hits_between(at, to, die, open_hits);
        if 1 <= mid <= 24 && open_hits.contains(mid) {
            assert forall|i: int, j: int| 0 <= i < j < all.len() implies #[trigger] all[i]
                > #[trigger] all[j] by {
                assert(all[j] == rest[j - 1]);
                if i > 0 {
                    assert(all[i] == rest[i - 1]);
                }
            }
            assert forall|i: int| 0 <= i < all.len() implies {
                let m = #[trigger] all[i];
                open_hits.contains(m) && to < m < at && 1 <= m <= 24
            } by {
                if i > 0 {
                    assert(all[i] == rest[i - 1]);
                }
            }
        }
    }
}

proof fn lemma_breaks(hop: (int, int), d1: int, d2: int, open_hits: Set<int>)
    requires
        d1 > 0,
        d2 > 0,
    ensures
        descending(breaks(hop, d1, d2, open_hits)),
        forall|i: int|
            0 <= i < breaks(hop, d1, d2, open_hits).len() ==> {
                let m = #[trigger] breaks(hop, d1, d2, open_hits)[i];
                open_hits.contains(m) && m < hop.0 && 1 <= m <= 24
            },
{
    lemma_hits_between(hop.0, hop.1, d1, open_hits);
}

proof fn lemma_occurs_first(mids: Seq<int>, p: int)
    requires
        mids.len() > 0,
    ensures
        occurs(mids, p) == occurs(mids.drop_first(), p) + (if mids[0] == p {
            1int
        } else {
            0int
        }),
{
    let one = seq![mids[0]];
    lemma_occurs_joined(one, mids.drop_first(), p);
    assert(one + mids.drop_first() == mids);
    assert(one.drop_last() == Seq::<int>::empty());
    reveal_with_fuel(occurs, 2);
    assert(occurs(one, p) == if mids[0] == p {
        1int
    } else {
        0int
    });
}

proof fn lemma_occurs_descending(mids: Seq<int>, p: int)
    requires
        descending(mids),
    ensures
        occurs(mids, p) == if mids.contains(p) {
            1int
        } else {
            0int
        },
    decreases mids.len(),
{
    if mids.len() > 0 {
        let rest = mids.drop_first();
        lemma_occurs_first(mids, p);
        assert forall|i: int, j: int| 0 <= i < j < rest.len() implies #[trigger] rest[i]
            > #[trigger] rest[j] by {
            assert(rest[i] == mids[i + 1] && rest[j] == mids[j + 1]);
        }
        lemma_occurs_descending(rest, p);
        if rest.contains(p) {
            let i = choose|i: int| 0 <= i < rest.len() && rest[i] == p;
            assert(mids[i + 1] == p);
            assert(mids[0] > mids[i + 1]);
        } else if mids.contains(p) {
            let i = choose|i: int| 0 <= i < mids.len() && mids[i] == p;
            if i > 0 {
                assert(rest[i - 1] == p);
            }
            assert(mids[0] == p);
        }
        if mids[0] == p {
            assert(mids.contains(p));
        }
    }
}

proof fn lemma_chain(from: int, mids: Seq<int>, to: int, p: int)
    ensures
        leaving(chain(from, mids, to), p) == occurs(mids, p) + (if from == p {
            1int
        } else {
            0int
        }),
        coming(chain(from, mids, to), p) == occurs(mids, p) + (if to == p {
            1int
        } else {
            0int
        }),
    decreases mids.len(),
{
    reveal_with_fuel(leaving, 2);
    reveal_with_fuel(coming, 2);
    if mids.len() == 0 {
        let one = seq![(from, to)];
        assert(one.drop_last() == Seq::<(int, int)>::empty());
        assert(one.last() == (from, to));
    } else {
        let head = seq![(from, mids[0])];
        assert(head.drop_last() == Seq::<(int, int)>::empty());
        assert(head.last() == (from, mids[0]));
        lemma_chain(mids[0], mids.drop_first(), to, p);
        lemma_counts_joined(head, chain(mids[0], mids.drop_first(), to), p);
        lemma_occurs_first(mids, p);
    }
}

/// Every hop that comes to one of some points falls to it.
pub open spec fn falls_to(hops: Seq<(int, int)>, s: Set<int>) -> bool {
    forall|i: int| 0 <= i < hops.len() && s.contains((#[trigger] hops[i]).1) ==> hops[i].0 > hops[i].1
}

proof fn lemma_chain_falls(from: int, mids: Seq<int>, to: int, s: Set<int>)
    requires
        descending(mids),
        forall|i: int| 0 <= i < mids.len() ==> #[trigger] mids[i] < from && 1 <= mids[i] <= 24,
        1 <= from <= 25,
        0 <= to <= 24,
        !s.contains(to),
    ensures
        falls_to(chain(from, mids, to), s),
        hops_on_board(chain(from, mids, to)),
    decreases mids.len(),
{
    if mids.len() > 0 {
        let rest = mids.drop_first();
        assert forall|i: int, j: int| 0 <= i < j < rest.len() implies #[trigger] rest[i]
            > #[trigger] rest[j] by {
            assert(rest[i] == mids[i + 1] && rest[j] == mids[j + 1]);
        }
        assert forall|i: int| 0 <= i < rest.len() implies #[trigger] rest[i] < mids[0] && 1 <= rest[i]
            <= 24 by {
            assert(rest[i] == mids[i + 1]);
            assert(mids[0] > mids[i + 1]);
        }
        assert(mids[0] < from);
        lemma_chain_falls(mids[0], rest, to, s);
        let tail = chain(mids[0], rest, to);
        let all = chain(from, mids, to);
        assert forall|i: int| 0 <= i < all.len() && s.contains((#[trigger] all[i]).1) implies all[i].0
            > all[i].1 by {
            if i > 0 {
                assert(all[i] == tail[i - 1]);
            }
        }
        assert forall|i: int| 0 <= i < all.len() implies 1 <= (#[trigger] all[i]).0 <= 25 && 0
            <= all[i].1 <= 24 by {
            if i > 0 {
                assert(all[i] == tail[i - 1]);
            }
        }
    }
}

/// Breaking adds, for each hit that it takes, one hop to the point and one from
/// it.
pub(crate) proof fn lemma_broken(
    hops: Seq<(int, int)>,
    d1: int,
    d2: int,
    open_hits: Set<int>,
    s: Set<int>,
    p: int,
)
    requires
        d1 > 0,
        d2 > 0,
        hops_on_board(hops),
        forall|i: int| 0 <= i < hops.len() ==> !s.contains((#[trigger] hops[i]).1),
        forall|q: int| #[trigger] open_hits.contains(q) ==> s.contains(q),
    ensures
        ({
            let (parts, left) = broken(hops, d1, d2, open_hits);
            let taken = if open_hits.contains(p) && !left.contains(p) {
                1int
            } else {
                0int
            };
            &&& leaving(parts, p) == leaving(hops, p) + taken
            &&& coming(parts, p) == coming(hops, p) + taken
            &&& left.contains(p) ==> open_hits.contains(p)
            &&& falls_to(parts, s)
            &&& hops_on_board(parts)
        }),
    decreases hops.len(),
{
    if hops.len() > 0 {
        let hop = hops.last();
        let rest = hops.drop_last();
        let mids = breaks(hop, d1, d2, open_hits);
        let now = without_points(open_hits, mids);
        assert(hop == hops[hops.len() - 1]);
        lemma_breaks(hop, d1, d2, open_hits);
        assert forall|i: int| 0 <= i < rest.len() implies !s.contains((#[trigger] rest[i]).1) by {
            assert(rest[i] == hops[i]);
        }
        assert(hops_on_board(rest)) by {
            assert forall|i: int| 0 <= i < rest.len() implies 1 <= (#[trigger] rest[i]).0 <= 25 && 0
                <= rest[i].1 <= 24 by {
                assert(rest[i] == hops[i]);
            }
        }
        lemma_broken(rest, d1, d2, now, s, p);
        let (done, left) = broken(rest, d1, d2, now);
        let links = chain(hop.0, mids, hop.1);
        lemma_chain(hop.0, mids, hop.1, p);
        lemma_chain_falls(hop.0, mids, hop.1, s);
        lemma_counts_joined(done, links, p);
        lemma_occurs_descending(mids, p);
        if mids.contains(p) {
            let i = choose|i: int| 0 <= i < mids.len() && mids[i] == p;
            assert(open_hits.contains(mids[i]));
            assert(!now.contains(p));
        }
        let parts = done + links;
        assert forall|i: int| 0 <= i < parts.len() && s.contains((#[trigger] parts[i]).1) implies parts[i].0
            > parts[i].1 by {
            if i < done.len() {
                assert(parts[i] == done[i]);
            } else {
                assert(parts[i] == links[i - done.len()]);
            }
        }
        assert forall|i: int| 0 <= i < parts.len() implies 1 <= (#[trigger] parts[i]).0 <= 25 && 0
            <= parts[i].1 <= 24 by {
            if i < done.len() {
                assert(parts[i] == done[i]);
            } else {
                assert(parts[i] == links[i - done.len()]);
            }
        }
    }
}

// Order

/// No hop stands after one that it is written before.
pub open spec fn ordered(hops: Seq<(int, int)>) -> bool {
    forall|i: int, j: int|
        0 <= i < j < hops.len() ==> !ahead(#[trigger] hops[j], #[trigger] hops[i])
}

proof fn lemma_placed(hops: Seq<(int, int)>, hop: (int, int), p: int)
    requires
        ordered(hops),
    ensures
        ordered(placed(hops, hop)),
        placed(hops, hop).len() == hops.len() + 1,
        forall|i: int|
            0 <= i < placed(hops, hop).len() ==> #[trigger] placed(hops, hop)[i] == hop || hops.contains(
                placed(hops, hop)[i],
            ),
        leaving(placed(hops, hop), p) == leaving(hops, p) + (if hop.0 == p {
            1int
        } else {
            0int
        }),
        coming(placed(hops, hop), p) == coming(hops, p) + (if hop.1 == p {
            1int
        } else {
            0int
        }),
    decreases hops.len(),
{
    let all = placed(hops, hop);
    if hops.len() > 0 && ahead(hop, hops.last()) {
        let rest = hops.drop_last();
        let last = hops.last();
        lemma_placed(rest, hop, p);
        let inner = placed(rest, hop);
        assert(all.drop_last() == inner);
        assert forall|i: int| 0 <= i < all.len() implies #[trigger] all[i] == hop || hops.contains(
            all[i],
        ) by {
            if i < inner.len() {
                assert(all[i] == inner[i]);
                if inner[i] != hop {
                    let k = choose|k: int| 0 <= k < rest.len() && rest[k] == inner[i];
                    assert(hops[k] == all[i]);
                }
            } else {
                assert(hops[hops.len() - 1] == all[i]);
            }
        }
        assert forall|i: int, j: int| 0 <= i < j < all.len() implies !ahead(
            #[trigger] all[j],
            #[trigger] all[i],
        ) by {
            if j < inner.len() {
                assert(all[i] == inner[i] && all[j] == inner[j]);
            } else {
                assert(all[j] == last);
                assert(all[i] == inner[i]);
                if inner[i] != hop {
                    let k = choose|k: int| 0 <= k < rest.len() && rest[k] == inner[i];
                    assert(hops[k] == inner[i]);
                    assert(!ahead(hops[hops.len() - 1], hops[k]));
                }
            }
        }
    } else {
        assert(all.drop_last() == hops);
        assert forall|i: int| 0 <= i < all.len() implies #[trigger] all[i] == hop || hops.contains(
            all[i],
        ) by {
            if i < hops.len() {
                assert(all[i] == hops[i]);
            }
        }
        assert forall|i: int, j: int| 0 <= i < j < all.len() implies !ahead(
            #[trigger] all[j],
            #[trigger] all[i],
        ) by {
            assert(all[i] == hops[i]);
            if j < hops.len() {
                assert(all[j] == hops[j]);
            } else {
                assert(!ahead(hop, hops[hops.len() - 1]));
                if i < hops.len() - 1 {
                    assert(!ahead(hops[hops.len() - 1], hops[i]));
                }
            }
        }
    }
}

pub(crate) proof fn lemma_in_order(hops: Seq<(int, int)>, p: int)
    ensures
        ordered(in_order(hops)),
        in_order(hops).len() == hops.len(),
        forall|i: int|
            0 <= i < in_order(hops).len() ==> hops.contains(#[trigger] in_order(hops)[i]),
        leaving(in_order(hops), p) == leaving(hops, p),
        coming(in_order(hops), p) == coming(hops, p),
    decreases hops.len(),
{
    if hops.len() > 0 {
        let rest = hops.drop_last();
        lemma_in_order(rest, p);
        lemma_placed(in_order(rest), hops.last(), p);
        assert forall|i: int| 0 <= i < in_order(hops).len() implies hops.contains(
            #[trigger] in_order(hops)[i],
        ) by {
            let h = in_order(hops)[i];
            if h == hops.last() {
                assert(hops[hops.len() - 1] == h);
            } else {
                let k = choose|k: int| 0 <= k < in_order(rest).len() && in_order(rest)[k] == h;
                assert(rest.contains(in_order(rest)[k]));
                let m = choose|m: int| 0 <= m < rest.len() && rest[m] == h;
                assert(hops[m] == h);
            }
        }
    }
}

// The law

/// How many of the points 1 to `n` some hop hits a checker on.
pub open spec fn bar_sum(b: Seq<int>, hops: Seq<(int, int)>, n: int) -> int
    decreases n,
{
    if n <= 0 {
        0
    } else {
        bar_sum(b, hops, n - 1) + (if b[n] == -1 && coming(hops, n) > 0 {
            1int
        } else {
            0int
        })
    }
}

/// The board that some hops leave, by what they bring to and take from each
/// point.
pub open spec fn tally_board(b: Seq<int>, hops: Seq<(int, int)>) -> Seq<int> {
    Seq::new(
        26,
        |p: int|
            if p == 0 {
                b[0] + bar_sum(b, hops, 24)
            } else if p == 25 {
                b[25] - leaving(hops, 25)
            } else {
                b[p] + coming(hops, p) - leaving(hops, p) + (if b[p] == -1 && coming(hops, p) > 0 {
                    1int
                } else {
                    0int
                })
            },
    )
}

/// What the hops of a move take from and bring to one point.
pub open spec fn point_counts(b: Seq<int>, a: Seq<int>, hops: Seq<(int, int)>, p: int) -> bool {
    if b[p] >= 0 {
        leaving(hops, p) == mine(b[p] - a[p]) && coming(hops, p) == mine(a[p] - b[p])
    } else if b[p] == -1 && a[p] == 0 {
        leaving(hops, p) == 1 && coming(hops, p) == 1
    } else if b[p] == -1 && a[p] > 0 {
        leaving(hops, p) == 0 && coming(hops, p) == a[p]
    } else {
        leaving(hops, p) == 0 && coming(hops, p) == 0
    }
}

/// A list of hops that turns `b` into `a`.
pub open spec fn leads_to(b: Seq<int>, a: Seq<int>, hops: Seq<(int, int)>) -> bool {
    &&& may_become(b, a)
    &&& hops_on_board(hops)
    &&& ordered(hops)
    &&& forall|p: int| 1 <= p <= 24 ==> #[trigger] point_counts(b, a, hops, p)
    &&& leaving(hops, 25) == b[25] - a[25]
    &&& forall|i: int|
        0 <= i < hops.len() && 1 <= (#[trigger] hops[i]).1 && b[hops[i].1] == -1 && a[hops[i].1] == 0
            ==> hops[i].0 > hops[i].1
}

proof fn lemma_counts_prefix(hops: Seq<(int, int)>, k: int, p: int)
    requires
        0 <= k <= hops.len(),
    ensures
        0 <= leaving(hops.take(k), p) <= leaving(hops, p),
        0 <= coming(hops.take(k), p) <= coming(hops, p),
    decreases hops.len(),
{
    lemma_counts_nonneg(hops.take(k), p);
    if k == hops.len() {
        assert(hops.take(k) == hops);
    } else {
        assert(hops.drop_last().take(k) == hops.take(k));
        lemma_counts_prefix(hops.drop_last(), k, p);
    }
}

proof fn lemma_leaving_none(hops: Seq<(int, int)>, p: int)
    requires
        forall|i: int| 0 <= i < hops.len() ==> (#[trigger] hops[i]).0 != p,
    ensures
        leaving(hops, p) == 0,
    decreases hops.len(),
{
    if hops.len() > 0 {
        let rest = hops.drop_last();
        assert forall|i: int| 0 <= i < rest.len() implies (#[trigger] rest[i]).0 != p by {
            assert(rest[i] == hops[i]);
        }
        assert(hops[hops.len() - 1].0 != p);
        lemma_leaving_none(rest, p);
    }
}

pub(crate) proof fn lemma_bar_sum_same(b: Seq<int>, xs: Seq<(int, int)>, ys: Seq<(int, int)>, n: int)
    requires
        forall|p: int|
            1 <= p <= n && #[trigger] b[p] == -1 ==> (coming(xs, p) > 0 <==> coming(ys, p) > 0),
    ensures
        bar_sum(b, xs, n) == bar_sum(b, ys, n),
    decreases n,
{
    if n > 0 {
        assert(b[n] == b[n]);
        lemma_bar_sum_same(b, xs, ys, n - 1);
    }
}

pub(crate) proof fn lemma_bar_sum_one_more(
    b: Seq<int>,
    xs: Seq<(int, int)>,
    ys: Seq<(int, int)>,
    t: int,
    n: int,
)
    requires
        b[t] == -1,
        coming(xs, t) == 0,
        coming(ys, t) > 0,
        1 <= t,
        forall|p: int| 1 <= p <= n && p != t ==> #[trigger] coming(xs, p) == coming(ys, p),
    ensures
        bar_sum(b, ys, n) == bar_sum(b, xs, n) + (if t <= n {
            1int
        } else {
            0int
        }),
    decreases n,
{
    if n > 0 {
        if n != t {
            assert(coming(xs, n) == coming(ys, n));
        }
        lemma_bar_sum_one_more(b, xs, ys, t, n - 1);
    }
}

/// After the first `k` hops the board is the one that they tally to.
#[verifier::rlimit(40)]
proof fn lemma_prefix(b: Seq<int>, a: Seq<int>, hops: Seq<(int, int)>, k: int)
    requires
        leads_to(b, a, hops),
        0 <= k <= hops.len(),
    ensures
        after_hops(b, hops.take(k)) == Some(tally_board(b, hops.take(k))),
    decreases k,
{
    let now = hops.take(k);
    if k == 0 {
        assert(now == Seq::<(int, int)>::empty());
        lemma_bar_sum_empty(b, 24);
        assert(tally_board(b, now) == b);
    } else {
        let prev = hops.take(k - 1);
        assert(now.drop_last() == prev);
        let hop = hops[k - 1];
        assert(now.last() == hop);
        let f = hop.0;
        let t = hop.1;
        lemma_prefix(b, a, hops, k - 1);
        let s = tally_board(b, prev);
        lemma_counts_prefix(hops, k, f);
        lemma_counts_prefix(hops, k - 1, f);
        lemma_counts_prefix(hops, k, t);
        lemma_counts_prefix(hops, k - 1, t);

        // The checker is there.
        assert(s[f] > 0) by {
            if f < 25 {
                assert(point_counts(b, a, hops, f));
                if b[f] == -1 && a[f] == 0 {
                    lemma_coming_lands(hops, f);
                    let j = choose|j: int| 0 <= j < hops.len() && (#[trigger] hops[j]).1 == f;
                    assert(hops[j].0 > f);
                    if j > k - 1 {
                        assert(!ahead(hops[j], hops[k - 1]));
                    }
                    assert(j < k - 1);
                    assert(prev[j].1 == f);
                    lemma_coming_lands(prev, f);
                }
            }
        }
        let s1 = s.update(f, s[f] - 1);
        if t == 0 {
            assert forall|p: int| 1 <= p <= 24 && #[trigger] b[p] == -1 implies (coming(prev, p) > 0
                <==> coming(now, p) > 0) by {}
            lemma_bar_sum_same(b, prev, now, 24);
            assert(s1 == tally_board(b, now));
        } else {
            assert(point_counts(b, a, hops, t));
            if b[t] == -1 && coming(prev, t) == 0 {
                // The first checker to come to a blot hits it.
                assert(leaving(prev, t) == 0) by {
                    if a[t] == 0 {
                        assert(hops[k - 1].0 > hops[k - 1].1);
                        assert forall|i: int| 0 <= i < prev.len() implies (#[trigger] prev[i]).0 != t by {
                            assert(prev[i] == hops[i]);
                            assert(!ahead(hops[k - 1], hops[i]));
                        }
                        lemma_leaving_none(prev, t);
                    }
                }
                assert(f != t);
                assert(s1[t] == -1);
                assert forall|p: int| 1 <= p <= 24 && p != t implies #[trigger] coming(prev, p)
                    == coming(now, p) by {}
                lemma_bar_sum_one_more(b, prev, now, t, 24);
                assert(s1.update(t, 1).update(0, s1[0] + 1) == tally_board(b, now));
            } else {
                assert forall|p: int| 1 <= p <= 24 && #[trigger] b[p] == -1 implies (coming(prev, p) > 0
                    <==> coming(now, p) > 0) by {
                    lemma_counts_nonneg(prev, p);
                }
                lemma_bar_sum_same(b, prev, now, 24);
                assert(s1[t] >= 0);
                assert(s1.update(t, s1[t] + 1) == tally_board(b, now));
            }
        }
    }
}

pub(crate) proof fn lemma_bar_sum_empty(b: Seq<int>, n: int)
    ensures
        bar_sum(b, Seq::empty(), n) == 0,
    decreases n,
{
    if n > 0 {
        lemma_bar_sum_empty(b, n - 1);
    }
}

proof fn lemma_bar_sum_hits(b: Seq<int>, a: Seq<int>, hops: Seq<(int, int)>, n: int)
    requires
        may_become(b, a),
        n <= 24,
        forall|p: int| 1 <= p <= 24 ==> #[trigger] point_counts(b, a, hops, p),
    ensures
        bar_sum(b, hops, n) == hit_sum(b, a, n),
    decreases n,
{
    if n > 0 {
        lemma_bar_sum_hits(b, a, hops, n - 1);
        assert(point_counts(b, a, hops, n));
        assert(a[n] == a[n]);
    }
}

proof fn lemma_leads_there(b: Seq<int>, a: Seq<int>, hops: Seq<(int, int)>)
    requires
        leads_to(b, a, hops),
    ensures
        after_hops(b, hops) == Some(a),
{
    lemma_prefix(b, a, hops, hops.len() as int);
    assert(hops.take(hops.len() as int) == hops);
    lemma_bar_sum_hits(b, a, hops, 24);
    assert forall|p: int| 0 <= p < 26 implies tally_board(b, hops)[p] == a[p] by {
        if 1 <= p <= 24 {
            assert(point_counts(b, a, hops, p));
            assert(a[p] == a[p]);
        }
    }
    assert(tally_board(b, hops) == a);
}

proof fn lemma_move_leads(b: Seq<int>, a: Seq<int>, d1: int, d2: int)
    requires
        may_become(b, a),
        d1 > 0,
        d2 > 0,
        lost_hits(b, a, d1, d2) == Set::<int>::empty(),
    ensures
        leads_to(b, a, move_hops(b, a, d1, d2)),
{
    let whole = whole_hops(b, a, d1, d2);
    let open_hits = passed_hits(b, a, whole);
    let (parts, left) = broken(whole, d1, d2, open_hits);
    let hops = move_hops(b, a, d1, d2);
    lemma_whole_counts(b, a, d1, d2, 0);
    assert forall|i: int| 0 <= i < whole.len() implies !open_hits.contains((#[trigger] whole[i]).1) by {
        assert(lands_on(whole, whole[i].1));
    }
    lemma_broken(whole, d1, d2, open_hits, open_hits, 25);
    lemma_in_order(parts, 25);
    lemma_whole_counts(b, a, d1, d2, 25);
    assert(hops_on_board(hops)) by {
        assert forall|i: int| 0 <= i < hops.len() implies 1 <= (#[trigger] hops[i]).0 <= 25 && 0
            <= hops[i].1 <= 24 by {
            assert(parts.contains(hops[i]));
            let k = choose|k: int| 0 <= k < parts.len() && parts[k] == hops[i];
            assert(1 <= parts[k].0 <= 25);
        }
    }
    assert forall|p: int| 1 <= p <= 24 implies #[trigger] point_counts(b, a, hops, p) by {
        lemma_broken(whole, d1, d2, open_hits, open_hits, p);
        lemma_in_order(parts, p);
        lemma_whole_counts(b, a, d1, d2, p);
        lemma_coming_lands(whole, p);
        assert(a[p] == a[p]);
        assert(!left.contains(p));
    }
    assert forall|i: int|
        0 <= i < hops.len() && 1 <= (#[trigger] hops[i]).1 && b[hops[i].1] == -1 && a[hops[i].1]
            == 0 implies hops[i].0 > hops[i].1 by {
        assert(parts.contains(hops[i]));
        let k = choose|k: int| 0 <= k < parts.len() && parts[k] == hops[i];
        let p = hops[i].1;
        lemma_whole_counts(b, a, d1, d2, p);
        lemma_coming_lands(whole, p);
        assert(was_hit(b, a, p));
        assert(open_hits.contains(parts[k].1));
    }
}

/// The notation of a move gives the board after it: if `after` can come of
/// `before` by moving the mover's checkers, and every hit on the way lies where a
/// whole number of the dice reaches, then the notation found from the two boards,
/// played on `before`, gives `after`.
pub proof fn law_notation_replays(before: Seq<int>, after: Seq<int>, die1: int, die2: int)
    requires
        may_become(before, after),
        die1 > 0,
        die2 > 0,
        lost_hits(before, after, die1, die2) == Set::<int>::empty(),
    ensures
        played(before, hops_text(move_hops(before, after, die1, die2))) == Ok::<
            Seq<int>,
            (StepFault, Seq<char>),
        >(after),
{
    lemma_move_leads(before, after, die1, die2);
    let hops = move_hops(before, after, die1, die2);
    lemma_leads_there(before, after, hops);
    lemma_play_text(before, hops);
}

} // verus!
