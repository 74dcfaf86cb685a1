//! What holds of moves and their notations as a whole.
use vstd::prelude::*;

#[allow(unused_imports)]
use crate::board::lemma_mover_sum_update;
#[allow(unused_imports)]
use crate::hops::{
    broken, dice_of, hop_text, hop_texts, hops_on_board, hops_text, label, lemma_ends_on_board,
    lemma_paired, lost_hits, move_hops, on_board, sources, targets, was_hit, whole_hops,
    passed_hits,
};
#[allow(unused_imports)]
use crate::notation::{
    chain_of, collapsed, compared, count_of, is_number, landed, lifted, played,
    played_words, repeated, stepped, steps_of, stops_of, stops_read, token_of, walked, StepFault,
    BAR_TOKEN, OFF_TOKEN,
};
#[allow(unused_imports)]
use crate::roundtrip::{
    hit_sum, law_notation_replays, lemma_broken, lemma_decimal, lemma_hop_reads, lemma_in_order,
    lemma_label, lemma_label_number, lemma_no_stars, lemma_one_word, lemma_tokens_plain, lemma_words_joined, lemma_words_of_joined,
    may_become, ordered, plain,
};
#[allow(unused_imports)]
use crate::text::{
    decimal, integer_of, is_digit, is_space, joined, lemma_span_len,
    lemma_span_len_is, lemma_word_len, lemma_word_len_is, lower, lower_char, natural_of,
    signed_decimal, span_len, split_on, without_plus, without_stars, word_len, words,
};

verus! {

// Moves one after the other

proof fn lemma_played_joined(b: Seq<int>, xs: Seq<Seq<char>>, ys: Seq<Seq<char>>)
    ensures
        played_words(b, xs + ys) == (match played_words(b, xs) {
            Ok(b1) => played_words(b1, ys),
            Err(fault) => Err(fault),
        }),
    decreases ys.len(),
{
    if ys.len() == 0 {
        assert(xs + ys == xs);
    } else {
        let all = xs + ys;
        assert(all.drop_last() == xs + ys.drop_last());
        assert(all.last() == ys.last());
        lemma_played_joined(b, xs, ys.drop_last());
    }
}

/// A move written as two parts with a space between them is the first part and
/// then the second; where the first cannot be made, neither can the whole, for
/// the same reason.
pub proof fn law_parts_in_sequence(b: Seq<int>, first: Seq<char>, second: Seq<char>)
    ensures
        played(b, first + seq![' '] + second) == (match played(b, first) {
            Ok(b1) => played(b1, second),
            Err(fault) => Err(fault),
        }),
{
    lemma_words_joined(first, second);
    lemma_played_joined(b, words(first), words(second));
}

// What a move keeps

proof fn lemma_hit_sum_same(b: Seq<int>, x: Seq<int>, y: Seq<int>, n: int)
    requires
        forall|p: int| 1 <= p <= n ==> (#[trigger] was_hit(b, x, p) <==> was_hit(b, y, p)),
    ensures
        hit_sum(b, x, n) == hit_sum(b, y, n),
    decreases n,
{
    if n > 0 {
        assert(was_hit(b, x, n) <==> was_hit(b, y, n));
        lemma_hit_sum_same(b, x, y, n - 1);
    }
}

proof fn lemma_hit_sum_one_more(b: Seq<int>, x: Seq<int>, y: Seq<int>, t: int, n: int)
    requires
        1 <= t,
        !was_hit(b, x, t),
        was_hit(b, y, t),
        forall|p: int| 1 <= p <= n && p != t ==> (#[trigger] was_hit(b, x, p) <==> was_hit(b, y, p)),
    ensures
        hit_sum(b, y, n) == hit_sum(b, x, n) + (if t <= n {
            1int
        } else {
            0int
        }),
    decreases n,
{
    if n > 0 {
        if n != t {
            assert(was_hit(b, x, n) <==> was_hit(b, y, n));
        }
        lemma_hit_sum_one_more(b, x, y, t, n - 1);
    }
}

proof fn lemma_hit_sum_none(b: Seq<int>, n: int)
    ensures
        hit_sum(b, b, n) == 0,
    decreases n,
{
    if n > 0 {
        lemma_hit_sum_none(b, n - 1);
    }
}

proof fn lemma_step_keeps(b: Seq<int>, now: Seq<int>, step: (Seq<char>, Seq<char>))
    requires
        may_become(b, now),
        stepped(now, step) is Ok,
    ensures
        may_become(b, stepped(now, step)->Ok_0),
{
    let up = lifted(now, step.0)->Ok_0;
    let next = landed(up, step.1)->Ok_0;
    let f: int = if step.0 == BAR_TOKEN@ {
        25
    } else {
        natural_of(step.0, usize::MAX as nat)->0 as int
    };
    assert(up == now.update(f, now[f] - 1));
    assert(now[f] == now[f] && now[f] > 0);
    lemma_mover_sum_update(now, f, now[f] - 1, 24);
    assert(on_board(up) == on_board(now) - 1);
    assert forall|p: int| 1 <= p <= 24 implies (#[trigger] was_hit(b, now, p) <==> was_hit(b, up, p)) by {
        assert(now[p] == now[p]);
    }
    lemma_hit_sum_same(b, now, up, 24);
    assert(may_become(b, up)) by {
        assert forall|p: int| 1 <= p <= 24 implies {
            ||| b[p] >= 0 && #[trigger] up[p] >= 0
            ||| b[p] == -1 && up[p] >= 0
            ||| b[p] < 0 && up[p] == b[p]
        } by {
            assert(now[p] == now[p]);
        }
    }
    if step.1 != OFF_TOKEN@ {
        let t = natural_of(step.1, usize::MAX as nat)->0 as int;
        assert(1 <= t <= 24);
        assert(up[t] == up[t]);
        if up[t] == -1 {
            lemma_mover_sum_update(up, t, 1, 24);
            lemma_mover_sum_update(up.update(t, 1), 0, up[0] + 1, 24);
            assert forall|p: int| 1 <= p <= 24 && p != t implies (#[trigger] was_hit(b, up, p)
                <==> was_hit(b, next, p)) by {}
            lemma_hit_sum_one_more(b, up, next, t, 24);
        } else {
            lemma_mover_sum_update(up, t, up[t] + 1, 24);
            assert forall|p: int| 1 <= p <= 24 implies (#[trigger] was_hit(b, up, p) <==> was_hit(
                b,
                next,
                p,
            )) by {
                assert(up[p] == up[p]);
            }
            lemma_hit_sum_same(b, up, next, 24);
        }
        assert forall|p: int| 1 <= p <= 24 implies {
            ||| b[p] >= 0 && #[trigger] next[p] >= 0
            ||| b[p] == -1 && next[p] >= 0
            ||| b[p] < 0 && next[p] == b[p]
        } by {
            assert(up[p] == up[p]);
        }
    }
}

proof fn lemma_walk_keeps(b: Seq<int>, now: Seq<int>, steps: Seq<(Seq<char>, Seq<char>)>)
    requires
        may_become(b, now),
        walked(now, steps) is Ok,
    ensures
        may_become(b, walked(now, steps)->Ok_0),
    decreases steps.len(),
{
    if steps.len() > 0 {
        lemma_walk_keeps(b, now, steps.drop_last());
        lemma_step_keeps(b, walked(now, steps.drop_last())->Ok_0, steps.last());
    }
}

proof fn lemma_repeat_keeps(b: Seq<int>, now: Seq<int>, steps: Seq<(Seq<char>, Seq<char>)>, n: nat)
    requires
        may_become(b, now),
        repeated(now, steps, n) is Ok,
    ensures
        may_become(b, repeated(now, steps, n)->Ok_0),
    decreases n,
{
    if n > 0 {
        lemma_repeat_keeps(b, now, steps, (n - 1) as nat);
        lemma_walk_keeps(b, repeated(now, steps, (n - 1) as nat)->Ok_0, steps);
    }
}

proof fn lemma_words_keep(b: Seq<int>, tokens: Seq<Seq<char>>)
    requires
        b.len() == 26,
        played_words(b, tokens) is Ok,
    ensures
        may_become(b, played_words(b, tokens)->Ok_0),
    decreases tokens.len(),
{
    if tokens.len() == 0 {
        lemma_hit_sum_none(b, 24);
    } else {
        lemma_words_keep(b, tokens.drop_last());
        let b1 = played_words(b, tokens.drop_last())->Ok_0;
        let read = token_of(tokens.last())->0;
        lemma_repeat_keeps(b, b1, read.0, read.1);
    }
}

/// A move that can be made adds no checker of the mover's, leaves every point
/// that the opponent holds with two checkers or more as it is, and sends to the
/// opponent's bar exactly the single checkers that it hits.
pub proof fn law_move_keeps(b: Seq<int>, notation: Seq<char>)
    requires
        b.len() == 26,
        played(b, notation) is Ok,
    ensures
        may_become(b, played(b, notation)->Ok_0),
{
    lemma_words_keep(b, words(notation));
}

/// However a move was written, the notation found from the boards before and
/// after it makes the same move.
pub proof fn law_notation_stands_for_move(b: Seq<int>, notation: Seq<char>, die1: int, die2: int)
    requires
        b.len() == 26,
        played(b, notation) is Ok,
        die1 > 0,
        die2 > 0,
        lost_hits(b, played(b, notation)->Ok_0, die1, die2) == Set::<int>::empty(),
    ensures
        played(b, hops_text(move_hops(b, played(b, notation)->Ok_0, die1, die2))) == played(b, notation),
{
    law_move_keeps(b, notation);
    law_notation_replays(b, played(b, notation)->Ok_0, die1, die2);
}

// Groups and chains

/// A piece of a move word: no white space and no repeat count.
pub open spec fn is_piece(s: Seq<char>) -> bool {
    forall|i: int| 0 <= i < s.len() ==> !is_space(#[trigger] s[i]) && s[i] != '('
}

/// A word with a repeat count behind it.
pub open spec fn grouped(word: Seq<char>, n: nat) -> Seq<char> {
    word + seq!['('] + decimal(n) + seq![')']
}

/// A word written `n` times over.
pub open spec fn spelled(word: Seq<char>, n: nat) -> Seq<char> {
    joined(Seq::new(n, |i: int| word), seq![' '])
}

/// The steps of a word that can be read.
pub open spec fn word_steps(word: Seq<char>) -> Seq<(Seq<char>, Seq<char>)> {
    steps_of(stops_of(word))
}

proof fn lemma_piece_reads(word: Seq<char>)
    requires
        is_piece(word),
    ensures
        chain_of(word) == lower(word),
        count_of(word) == Some(1nat),
{
    let text = lower(word);
    assert forall|i: int| 0 <= i < text.len() implies #[trigger] text[i] != '(' by {
        assert(text[i] == lower_char(word[i]));
    }
    lemma_span_len_is(text, '(', text.len() as int);
    assert(text.take(text.len() as int) == text);
}

proof fn lemma_group_reads(word: Seq<char>, n: nat)
    requires
        is_piece(word),
        n <= 0xffff_ffff,
    ensures
        chain_of(grouped(word, n)) == lower(word),
        count_of(grouped(word, n)) == Some(n),
        forall|i: int| 0 <= i < grouped(word, n).len() ==> !is_space(#[trigger] grouped(word, n)[i]),
{
    let all = grouped(word, n);
    let digits = decimal(n);
    let k = word.len() as int;
    lemma_decimal(n);
    let text = lower(all);
    assert forall|i: int| 0 <= i < k implies #[trigger] text[i] != '(' by {
        assert(text[i] == lower_char(word[i]));
    }
    assert(text[k] == '(');
    lemma_span_len_is(text, '(', k);
    assert(text.take(k) == lower(word));
    let rest = text.skip(k + 1);
    assert(rest.last() == ')');
    assert(rest.drop_last() == digits) by {
        assert forall|i: int| 0 <= i < digits.len() implies rest.drop_last()[i] == digits[i] by {
            assert(all[k + 1 + i] == digits[i]);
            assert(is_digit(digits[i]));
        }
    }
    assert(is_digit(digits[0]));
    assert(without_plus(digits) == digits);
    assert forall|i: int| 0 <= i < all.len() implies !is_space(#[trigger] all[i]) by {
        if i < k {
            assert(all[i] == word[i]);
        } else if k < i < k + 1 + digits.len() {
            assert(all[i] == digits[i - k - 1]);
            assert(is_digit(digits[i - k - 1]));
        }
    }
}

proof fn lemma_copies_play(b: Seq<int>, word: Seq<char>, n: nat)
    requires
        is_piece(word),
        token_of(word) is Some,
    ensures
        played_words(b, Seq::new(n, |i: int| word)) == (match repeated(b, word_steps(word), n) {
            Ok(b1) => Ok(b1),
            Err(fault) => Err((fault, word)),
        }),
    decreases n,
{
    lemma_piece_reads(word);
    let steps = word_steps(word);
    if n > 0 {
        let all = Seq::new(n, |i: int| word);
        let rest = Seq::new((n - 1) as nat, |i: int| word);
        lemma_copies_play(b, word, (n - 1) as nat);
        assert(all.drop_last() == rest);
        assert(all.last() == word);
        if let Ok(b1) = played_words(b, rest) {
            reveal_with_fuel(repeated, 2);
        }
    }
}

/// A word with a repeat count is the word written that many times over.
pub proof fn law_group_repeats(b: Seq<int>, word: Seq<char>, n: nat)
    requires
        is_piece(word),
        token_of(word) is Some,
        n <= 0xffff_ffff,
    ensures
        match played(b, grouped(word, n)) {
            Ok(b1) => played(b, spelled(word, n)) == Ok::<Seq<int>, (StepFault, Seq<char>)>(b1),
            Err((fault, _)) => played(b, spelled(word, n)) == Err::<
                Seq<int>,
                (StepFault, Seq<char>),
            >((fault, word)),
        },
{
    let all = grouped(word, n);
    let copies = Seq::new(n, |i: int| word);
    lemma_piece_reads(word);
    lemma_group_reads(word, n);
    lemma_one_word(all);
    assert(stops_of(all) == stops_of(word));
    assert(token_of(all) == Some((word_steps(word), n)));
    assert(word.len() > 0) by {
        if word.len() == 0 {
            assert(lower(word) == Seq::<char>::empty());
            assert(split_on(lower(word), '/').len() == 1);
        }
    }
    lemma_words_of_joined(copies);
    lemma_copies_play(b, word, n);
    assert(seq![all].drop_last() == Seq::<Seq<char>>::empty());
    reveal_with_fuel(played_words, 2);
    assert(played_words(b, seq![all]) == (match repeated(b, word_steps(word), n) {
        Ok(b1) => Ok::<Seq<int>, (StepFault, Seq<char>)>(b1),
        Err(fault) => Err((fault, all)),
    }));
}

proof fn lemma_split_joined(s: Seq<char>, t: Seq<char>, sep: char)
    requires
        forall|i: int| 0 <= i < t.len() ==> #[trigger] t[i] != sep,
    ensures
        split_on(s + seq![sep] + t, sep) == split_on(s, sep).push(t),
    decreases s.len(),
{
    let all = s + seq![sep] + t;
    let n = span_len(s, sep) as int;
    lemma_span_len(s, sep);
    assert forall|i: int| 0 <= i < n implies #[trigger] all[i] != sep by {
        assert(all[i] == s[i]);
    }
    if n >= s.len() {
        lemma_span_len_is(all, sep, n);
        assert(all.take(n) == s);
        assert(all.skip(n + 1) == t);
        lemma_span_len_is(t, sep, t.len() as int);
        assert(split_on(t, sep) == seq![t]);
        assert(seq![s] + seq![t] == seq![s].push(t));
    } else {
        assert(all[n] == s[n]);
        lemma_span_len_is(all, sep, n);
        assert(all.take(n) == s.take(n));
        assert(all.skip(n + 1) == s.skip(n + 1) + seq![sep] + t);
        lemma_split_joined(s.skip(n + 1), t, sep);
        assert(split_on(all, sep) == seq![s.take(n)] + split_on(s.skip(n + 1), sep).push(t));
        assert(split_on(all, sep) == split_on(s, sep).push(t));
    }
}

/// A stop that a chain can go on to: off, or a number, with or without stars.
pub open spec fn is_stop(s: Seq<char>) -> bool {
    &&& is_piece(s)
    &&& forall|i: int| 0 <= i < s.len() ==> #[trigger] s[i] != '/'
    &&& (without_stars(lower(s)) == OFF_TOKEN@ || is_number(without_stars(lower(s))))
}

proof fn lemma_longer_reads(word: Seq<char>, stop: Seq<char>)
    requires
        is_piece(word),
        is_stop(stop),
    ensures
        is_piece(word + seq!['/'] + stop),
        stops_of(word + seq!['/'] + stop) == stops_of(word).push(without_stars(lower(stop))),
        count_of(word + seq!['/'] + stop) == Some(1nat),
{
    let all = word + seq!['/'] + stop;
    assert forall|i: int| 0 <= i < all.len() implies !is_space(#[trigger] all[i]) && all[i] != '(' by {
        if i < word.len() {
            assert(all[i] == word[i]);
        } else if i > word.len() {
            assert(all[i] == stop[i - word.len() - 1]);
        }
    }
    lemma_piece_reads(word);
    lemma_piece_reads(all);
    assert(lower(all) == lower(word) + seq!['/'] + lower(stop));
    assert forall|i: int| 0 <= i < lower(stop).len() implies #[trigger] lower(stop)[i] != '/' by {
        assert(lower(stop)[i] == lower_char(stop[i]));
        assert(stop[i] != '/');
    }
    lemma_split_joined(lower(word), lower(stop), '/');
    assert(stops_of(all) == stops_of(word).push(without_stars(lower(stop))));
}

proof fn lemma_walked_push(b: Seq<int>, steps: Seq<(Seq<char>, Seq<char>)>, step: (Seq<char>, Seq<char>))
    ensures
        walked(b, steps.push(step)) == (match walked(b, steps) {
            Ok(b1) => stepped(b1, step),
            Err(fault) => Err(fault),
        }),
{
    assert(steps.push(step).drop_last() == steps);
}

proof fn lemma_number_is_stop(m: Seq<char>)
    requires
        is_number(m),
    ensures
        is_piece(m),
        lower(m) == m,
        without_stars(m) == m,
        stops_of(m) == seq![m],
{
    assert forall|i: int| 0 <= i < m.len() implies plain(#[trigger] m[i]) by {
        assert(is_digit(m[i]));
    }
    assert forall|i: int| 0 <= i < m.len() implies !is_space(#[trigger] m[i]) && m[i] != '(' by {
        assert(is_digit(m[i]));
    }
    assert(lower(m) == m) by {
        assert forall|i: int| 0 <= i < m.len() implies lower(m)[i] == m[i] by {
            assert(is_digit(m[i]));
        }
    }
    lemma_no_stars(m);
    lemma_piece_reads(m);
    assert forall|i: int| 0 <= i < m.len() implies #[trigger] m[i] != '/' by {
        assert(is_digit(m[i]));
    }
    lemma_span_len_is(m, '/', m.len() as int);
    assert(split_on(m, '/') == seq![m]);
    assert(stops_of(m) == seq![m]);
}

/// A chain is its steps one after the other: going on from the last stop of a
/// word is the word and then a step from that stop.
pub proof fn law_chain_steps(b: Seq<int>, word: Seq<char>, stop: Seq<char>)
    requires
        is_piece(word),
        token_of(word) is Some,
        is_number(stops_of(word).last()),
        is_stop(stop),
    ensures
        ({
            let whole = word + seq!['/'] + stop;
            let parts = word + seq![' '] + stops_of(word).last() + seq!['/'] + stop;
            match played(b, parts) {
                Ok(b1) => played(b, whole) == Ok::<Seq<int>, (StepFault, Seq<char>)>(b1),
                Err((fault, _)) => played(b, whole) == Err::<Seq<int>, (StepFault, Seq<char>)>(
                    (fault, whole),
                ),
            }
        }),
{
    let stops = stops_of(word);
    let m = stops.last();
    let end = without_stars(lower(stop));
    let whole = word + seq!['/'] + stop;
    let last = m + seq!['/'] + stop;
    let parts = word + seq![' '] + m + seq!['/'] + stop;
    assert(parts == word + seq![' '] + last);
    lemma_piece_reads(word);
    lemma_number_is_stop(m);
    lemma_longer_reads(word, stop);
    lemma_longer_reads(m, stop);
    assert(stops_of(last) == seq![m, end]);
    let more = stops.push(end);
    assert(stops_read(more)) by {
        assert(more[0] == stops[0]);
        assert forall|i: int| 1 <= i < more.len() implies (#[trigger] more[i] == OFF_TOKEN@ || is_number(
            more[i],
        )) by {
            if i < stops.len() {
                assert(more[i] == stops[i]);
            }
        }
    }
    let two = seq![m, end];
    assert(stops_read(two)) by {
        assert(two[0] == m && two[1] == end);
        assert forall|i: int| 1 <= i < two.len() implies (#[trigger] two[i] == OFF_TOKEN@ || is_number(
            two[i],
        )) by {
            assert(i == 1);
        }
    }
    assert(steps_of(more) == steps_of(stops).push((m, end)));
    assert(steps_of(two) == seq![(m, end)]);
    assert(word.len() > 0) by {
        if word.len() == 0 {
            assert(lower(word) == Seq::<char>::empty());
            assert(split_on(lower(word), '/').len() == 1);
        }
    }
    lemma_one_word(word);
    lemma_one_word(whole);
    lemma_one_word(last);
    law_parts_in_sequence(b, word, last);
    lemma_alone(b, word);
    lemma_alone(b, whole);
    lemma_walked_push(b, steps_of(stops), (m, end));
    if let Ok(b1) = played(b, word) {
        lemma_alone(b1, last);
        assert(seq![(m, end)] == Seq::<(Seq<char>, Seq<char>)>::empty().push((m, end)));
        lemma_walked_push(b1, Seq::empty(), (m, end));
    }
}

/// A word on its own, once.
proof fn lemma_alone(b: Seq<int>, word: Seq<char>)
    requires
        words(word) == seq![word],
        token_of(word) is Some,
        count_of(word) == Some(1nat),
    ensures
        played(b, word) == (match walked(b, word_steps(word)) {
            Ok(b1) => Ok::<Seq<int>, (StepFault, Seq<char>)>(b1),
            Err(fault) => Err((fault, word)),
        }),
{
    reveal_with_fuel(played_words, 2);
    reveal_with_fuel(repeated, 2);
    assert(seq![word].drop_last() == Seq::<Seq<char>>::empty());
    assert(seq![word].last() == word);
}

// Comparing notations

proof fn lemma_lower_filter(s: Seq<char>)
    ensures
        lower(s).filter(|c: char| compared(c)) == lower(s.filter(|c: char| compared(c))),
    decreases s.len(),
{
    reveal(Seq::filter);
    let keep = |c: char| compared(c);
    if s.len() == 0 {
        assert(lower(s) == s);
    } else {
        let rest = s.drop_last();
        lemma_lower_filter(rest);
        assert(lower(s).drop_last() == lower(rest));
        assert(lower(s).last() == lower_char(s.last()));
        assert(compared(lower_char(s.last())) == compared(s.last()));
        if keep(s.last()) {
            assert(lower(rest.filter(keep).push(s.last())) == lower(rest.filter(keep)).push(
                lower_char(s.last()),
            ));
        }
    }
}

proof fn lemma_filter_twice(s: Seq<char>)
    ensures
        s.filter(|c: char| compared(c)).filter(|c: char| compared(c)) == s.filter(|c: char| compared(c)),
    decreases s.len(),
{
    reveal(Seq::filter);
    let keep = |c: char| compared(c);
    if s.len() > 0 {
        lemma_filter_twice(s.drop_last());
        if keep(s.last()) {
            let f = s.drop_last().filter(keep);
            assert(f.push(s.last()).drop_last() == f);
        }
    }
}

proof fn lemma_filter_joined(s: Seq<char>, t: Seq<char>)
    ensures
        (s + t).filter(|c: char| compared(c)) == s.filter(|c: char| compared(c)) + t.filter(
            |c: char| compared(c),
        ),
    decreases t.len(),
{
    reveal(Seq::filter);
    let keep = |c: char| compared(c);
    if t.len() == 0 {
        assert(s + t == s);
        assert(s.filter(keep) + t.filter(keep) == s.filter(keep));
    } else {
        assert((s + t).drop_last() == s + t.drop_last());
        assert((s + t).last() == t.last());
        lemma_filter_joined(s, t.drop_last());
        if keep(t.last()) {
            assert(s.filter(keep) + t.drop_last().filter(keep).push(t.last()) == (s.filter(keep)
                + t.drop_last().filter(keep)).push(t.last()));
        }
    }
}

/// What is compared of a notation is compared of itself as it stands.
pub proof fn law_collapse_once(s: Seq<char>)
    ensures
        collapsed(collapsed(s)) == collapsed(s),
{
    let f = s.filter(|c: char| compared(c));
    lemma_lower_filter(f);
    lemma_filter_twice(s);
    assert(lower(lower(f)) == lower(f));
}

/// Notations are compared without regard to capitals.
pub proof fn law_collapse_ignores_case(s: Seq<char>, t: Seq<char>)
    requires
        lower(s) == lower(t),
    ensures
        collapsed(s) == collapsed(t),
{
    lemma_lower_filter(s);
    lemma_lower_filter(t);
}

/// Notations are compared without regard to spaces and hit stars, wherever they
/// stand.
pub proof fn law_collapse_ignores_marks(s: Seq<char>, c: char, t: Seq<char>)
    requires
        c == ' ' || c == '*',
    ensures
        collapsed(s + seq![c] + t) == collapsed(s + t),
{
    reveal(Seq::filter);
    let keep = |c: char| compared(c);
    lemma_filter_joined(s + seq![c], t);
    lemma_filter_joined(s, seq![c]);
    lemma_filter_joined(s, t);
    let mark = seq![c];
    assert(mark.drop_last() == Seq::<char>::empty());
    assert(mark.last() == c && !keep(c));
    assert(Seq::<char>::empty().filter(keep) == Seq::<char>::empty());
    assert(mark.filter(keep) == mark.drop_last().filter(keep));
    assert(s.filter(keep) + Seq::<char>::empty() == s.filter(keep));
}

// The notation of a move

/// The hops of a move stand from the highest point down, and those from one point
/// from the highest they come to down.
pub proof fn law_hops_in_order(before: Seq<int>, after: Seq<int>, die1: int, die2: int)
    ensures
        ordered(move_hops(before, after, die1, die2)),
{
    let whole = whole_hops(before, after, die1, die2);
    lemma_in_order(broken(whole, die1, die2, passed_hits(before, after, whole)).0, 0);
}

/// A character of a notation found from two boards.
pub open spec fn unmarked(c: char) -> bool {
    plain(c) || c == '/' || c == ' '
}

proof fn lemma_joined_unmarked(hops: Seq<(int, int)>)
    requires
        hops_on_board(hops),
    ensures
        forall|i: int| 0 <= i < hops_text(hops).len() ==> unmarked(#[trigger] hops_text(hops)[i]),
    decreases hops.len(),
{
    let text = hops_text(hops);
    if hops.len() > 0 {
        let hop = hops.last();
        assert(hop == hops[hops.len() - 1]);
        let x = label(hop.0, BAR_TOKEN@);
        let y = label(hop.1, OFF_TOKEN@);
        let end = hop_text(hop);
        lemma_tokens_plain();
        lemma_label(hop.0, BAR_TOKEN@);
        lemma_label(hop.1, OFF_TOKEN@);
        assert forall|i: int| 0 <= i < end.len() implies unmarked(#[trigger] end[i]) by {
            if i < x.len() {
                assert(end[i] == x[i]);
            } else if i > x.len() {
                assert(end[i] == y[i - x.len() - 1]);
            }
        }
        if hops.len() == 1 {
            assert(text == end);
        } else {
            let rest = hops.drop_last();
            assert(hops_on_board(rest)) by {
                assert forall|i: int| 0 <= i < rest.len() implies 1 <= (#[trigger] rest[i]).0 <= 25 && 0
                    <= rest[i].1 <= 24 by {
                    assert(rest[i] == hops[i]);
                }
            }
            lemma_joined_unmarked(rest);
            assert(hop_texts(hops).drop_last() == hop_texts(rest));
            let front = hops_text(rest);
            assert(text == front + seq![' '] + end);
            assert forall|i: int| 0 <= i < text.len() implies unmarked(#[trigger] text[i]) by {
                if i < front.len() {
                    assert(text[i] == front[i]);
                } else if i > front.len() {
                    assert(text[i] == end[i - front.len() - 1]);
                }
            }
        }
    }
}

/// The notation of a move is made of digits, small letters, slashes and spaces:
/// no stars, no grouping, no capitals.
pub proof fn law_notation_unmarked(before: Seq<int>, after: Seq<int>, die1: int, die2: int)
    requires
        die1 > 0,
        die2 > 0,
    ensures
        forall|i: int|
            0 <= i < hops_text(move_hops(before, after, die1, die2)).len() ==> unmarked(
                #[trigger] hops_text(move_hops(before, after, die1, die2))[i],
            ),
{
    let whole = whole_hops(before, after, die1, die2);
    let open_hits = passed_hits(before, after, whole);
    let parts = broken(whole, die1, die2, open_hits).0;
    let hops = move_hops(before, after, die1, die2);
    lemma_ends_on_board(before, after);
    lemma_paired(sources(before, after), targets(before, after), dice_of(die1, die2));
    assert forall|i: int| 0 <= i < whole.len() implies !open_hits.contains((#[trigger] whole[i]).1) by {
        assert(crate::hops::lands_on(whole, whole[i].1));
    }
    lemma_broken(whole, die1, die2, open_hits, open_hits, 0);
    lemma_in_order(parts, 0);
    assert(hops_on_board(hops)) by {
        assert forall|i: int| 0 <= i < hops.len() implies 1 <= (#[trigger] hops[i]).0 <= 25 && 0
            <= hops[i].1 <= 24 by {
            assert(parts.contains(hops[i]));
            let k = choose|k: int| 0 <= k < parts.len() && parts[k] == hops[i];
            assert(1 <= parts[k].0 <= 25);
        }
    }
    lemma_joined_unmarked(hops);
}

// One hop

/// What one hop does to a board, written as `from/to`. It can be made exactly if the mover
/// has a checker where it starts and the opponent does not hold the point where it comes
/// down with two or more; then one checker less stands where it starts, one more where
/// it comes down, where it hits a single opposing checker that goes to the bar, and
/// nothing else changes. Where it cannot be made, it is told why.
pub proof fn law_hop_made(b: Seq<int>, f: int, t: int)
    requires
        b.len() == 26,
        1 <= f <= 25,
        0 <= t <= 24,
        f != t,
    ensures
        ({
            let text = hop_text((f, t));
            let r = played(b, text);
            &&& r is Ok <==> b[f] > 0 && (t == 0 || b[t] >= -1)
            &&& r matches Ok(c) ==> {
                &&& c.len() == 26
                &&& c[f] == b[f] - 1
                &&& t > 0 && b[t] >= 0 ==> c[t] == b[t] + 1 && c[0] == b[0]
                &&& t > 0 && b[t] == -1 ==> c[t] == 1 && c[0] == b[0] + 1
                &&& t == 0 ==> c[0] == b[0]
                &&& forall|q: int| 1 <= q <= 25 && q != f && q != t ==> #[trigger] c[q] == b[q]
            }
            &&& b[f] <= 0 && f == 25 ==> r == Err::<Seq<int>, (StepFault, Seq<char>)>(
                (StepFault::EmptyBar, text),
            )
            &&& b[f] <= 0 && f <= 24 ==> r == Err::<Seq<int>, (StepFault, Seq<char>)>(
                (StepFault::EmptyPoint(f as usize), text),
            )
            &&& b[f] > 0 && t > 0 && b[t] < -1 ==> r == Err::<Seq<int>, (StepFault, Seq<char>)>(
                (StepFault::Blocked, text),
            )
        }),
{
    let text = hop_text((f, t));
    let x = label(f, BAR_TOKEN@);
    let y = label(t, OFF_TOKEN@);
    lemma_hop_reads((f, t));
    lemma_one_word(text);
    if f <= 24 {
        lemma_label_number(f, BAR_TOKEN@);
    }
    if t >= 1 {
        lemma_label_number(t, OFF_TOKEN@);
    }
    let one = seq![(x, y)];
    assert(one.drop_last() == Seq::<(Seq<char>, Seq<char>)>::empty());
    assert(one.last() == (x, y));
    assert(seq![text].drop_last() == Seq::<Seq<char>>::empty());
    assert(seq![text].last() == text);
    reveal_with_fuel(walked, 2);
    reveal_with_fuel(repeated, 2);
    reveal_with_fuel(played_words, 2);
    assert(walked(b, one) == stepped(b, (x, y)));
    assert(repeated(b, one, 1) == stepped(b, (x, y)));
}

/// A move with no words leaves the board as it is.
pub proof fn law_no_words(b: Seq<int>, notation: Seq<char>)
    requires
        forall|i: int| 0 <= i < notation.len() ==> is_space(#[trigger] notation[i]),
    ensures
        played(b, notation) == Ok::<Seq<int>, (StepFault, Seq<char>)>(b),
    decreases notation.len(),
{
    if notation.len() > 0 {
        let rest = notation.drop_first();
        assert forall|i: int| 0 <= i < rest.len() implies is_space(#[trigger] rest[i]) by {
            assert(rest[i] == notation[i + 1]);
        }
        assert(is_space(notation[0]));
        law_no_words(b, rest);
    }
}

// How words are read

/// Capitals make no difference to how a word is read.
pub proof fn law_case_ignored(word: Seq<char>, other: Seq<char>)
    requires
        lower(word) == lower(other),
    ensures
        token_of(word) == token_of(other),
{
}

proof fn lemma_split_longer(s: Seq<char>, c: char, sep: char)
    requires
        c != sep,
    ensures
        split_on(s, sep).len() > 0,
        split_on(s.push(c), sep) == split_on(s, sep).update(
            split_on(s, sep).len() - 1,
            split_on(s, sep).last().push(c),
        ),
    decreases s.len(),
{
    let all = s.push(c);
    let n = span_len(s, sep) as int;
    lemma_span_len(s, sep);
    assert forall|i: int| 0 <= i < n implies #[trigger] all[i] != sep by {
        assert(all[i] == s[i]);
    }
    if n >= s.len() {
        assert(all[s.len() as int] == c);
        lemma_span_len_is(all, sep, all.len() as int);
        assert(split_on(all, sep) =~= split_on(s, sep).update(0, s.push(c)));
    } else {
        assert(all[n] == s[n]);
        lemma_span_len_is(all, sep, n);
        assert(all.take(n) == s.take(n));
        assert(all.skip(n + 1) == s.skip(n + 1).push(c));
        lemma_split_longer(s.skip(n + 1), c, sep);
        let rest = split_on(s.skip(n + 1), sep);
        assert(split_on(s, sep).last() == rest.last());
        assert(split_on(all, sep) =~= split_on(s, sep).update(
            split_on(s, sep).len() - 1,
            split_on(s, sep).last().push(c),
        ));
    }
}

/// A star on the last stop of a word makes no difference to how it is read, nor do more.
pub proof fn law_star_ignored(word: Seq<char>)
    requires
        is_piece(word),
    ensures
        is_piece(word.push('*')),
        token_of(word.push('*')) == token_of(word),
{
    let starred = word.push('*');
    assert forall|i: int| 0 <= i < starred.len() implies !is_space(#[trigger] starred[i]) && starred[i]
        != '(' by {
        if i < word.len() {
            assert(starred[i] == word[i]);
        }
    }
    lemma_piece_reads(word);
    lemma_piece_reads(starred);
    assert(lower(starred) =~= lower(word).push('*'));
    lemma_split_longer(lower(word), '*', '/');
    let pieces = split_on(lower(word), '/');
    assert(pieces.last().push('*').drop_last() == pieces.last());
    assert(without_stars(pieces.last().push('*')) == without_stars(pieces.last()));
    assert(stops_of(starred) =~= stops_of(word));
}

/// A word that can be read is a chain of one step at least: each goes on from where the
/// one before it ended, the first starts at the bar or on a number, and each ends on a
/// number or off the board.
pub proof fn law_steps_follow(word: Seq<char>)
    requires
        token_of(word) is Some,
    ensures
        ({
            let read = token_of(word)->0;
            let steps = read.0;
            &&& steps.len() >= 1
            &&& forall|i: int, j: int|
                0 <= i && j == i + 1 && j < steps.len() ==> (#[trigger] steps[j]).0 == (#[trigger] steps[i]).1
            &&& steps[0].0 == BAR_TOKEN@ || is_number(steps[0].0)
            &&& forall|i: int|
                0 <= i < steps.len() ==> (#[trigger] steps[i]).1 == OFF_TOKEN@ || is_number(steps[i].1)
        }),
{
    let stops = stops_of(word);
    let steps = steps_of(stops);
    assert forall|i: int| 0 <= i < steps.len() implies (#[trigger] steps[i]).1 == OFF_TOKEN@ || is_number(
        steps[i].1,
    ) by {
        assert(stops[i + 1] == OFF_TOKEN@ || is_number(stops[i + 1]));
    }
}

/// Whatever white space stands between two moves, they are made one after the other.
pub proof fn law_any_space_parts(b: Seq<int>, first: Seq<char>, c: char, second: Seq<char>)
    requires
        c == ' ' || c == '\t' || c == '\n' || c == '\r',
    ensures
        played(b, first + seq![c] + second) == played(b, first + seq![' '] + second),
{
    lemma_words_around(first, c, second);
    lemma_words_joined(first, second);
}

proof fn lemma_words_around(s: Seq<char>, c: char, t: Seq<char>)
    requires
        is_space(c),
    ensures
        words(s + seq![c] + t) == words(s) + words(t),
    decreases s.len(),
{
    let all = s + seq![c] + t;
    if s.len() == 0 {
        assert(all.drop_first() == t);
        assert(words(s) + words(t) == words(t));
    } else if is_space(s[0]) {
        assert(all.drop_first() == s.drop_first() + seq![c] + t);
        lemma_words_around(s.drop_first(), c, t);
    } else {
        let n = word_len(s) as int;
        lemma_word_len(s);
        assert forall|i: int| 0 <= i < n implies !is_space(#[trigger] all[i]) by {
            assert(all[i] == s[i]);
        }
        if n < s.len() {
            assert(all[n] == s[n]);
        } else {
            assert(all[n] == c);
        }
        lemma_word_len_is(all, n);
        assert(all.take(n) == s.take(n));
        assert(all.skip(n) == s.skip(n) + seq![c] + t);
        lemma_words_around(s.skip(n), c, t);
        assert(words(all) == seq![s.take(n)] + (words(s.skip(n)) + words(t)));
        assert(words(all) == words(s) + words(t));
    }
}

/// A text of small letters, digits and slashes is compared as it stands, and what is
/// compared of any text holds no space, no star and no capital.
pub proof fn law_collapse_keeps(s: Seq<char>)
    ensures
        (forall|i: int|
            0 <= i < s.len() ==> #[trigger] s[i] != ' ' && s[i] != '*' && !('A' <= s[i] && s[i] <= 'Z'))
            ==> collapsed(s) == s,
        forall|i: int|
            0 <= i < collapsed(s).len() ==> #[trigger] collapsed(s)[i] != ' ' && collapsed(s)[i] != '*' && !(
            'A' <= collapsed(s)[i] && collapsed(s)[i] <= 'Z'),
    decreases s.len(),
{
    reveal(Seq::filter);
    let keep = |c: char| compared(c);
    if s.len() == 0 {
        assert(s.filter(keep) =~= s);
        assert(lower(s) =~= s);
    } else {
        let rest = s.drop_last();
        let last = s.last();
        law_collapse_keeps(rest);
        assert(s[s.len() - 1] == last);
        assert(s.filter(keep) == if keep(last) {
            rest.filter(keep).push(last)
        } else {
            rest.filter(keep)
        });
        if keep(last) {
            assert(collapsed(s) =~= collapsed(rest).push(lower_char(last)));
        }
        if forall|i: int|
            0 <= i < s.len() ==> #[trigger] s[i] != ' ' && s[i] != '*' && !('A' <= s[i] && s[i] <= 'Z') {
            assert forall|i: int| 0 <= i < rest.len() implies #[trigger] rest[i] != ' ' && rest[i] != '*' && !(
            'A' <= rest[i] && rest[i] <= 'Z') by {
                assert(rest[i] == s[i]);
            }
            assert(collapsed(rest) == rest);
            assert(collapsed(s) =~= s);
        }
    }
}

// Numerals

/// A whole number written out reads back as itself, if it fits a signed word, and as
/// none if it does not.
pub proof fn law_integer_reads_back(n: int)
    ensures
        i32::MIN <= n <= i32::MAX ==> integer_of(signed_decimal(n)) == Some(n),
        !(i32::MIN <= n <= i32::MAX) ==> integer_of(signed_decimal(n)) is None,
{
    if n < 0 {
        let digits = decimal((-n) as nat);
        lemma_decimal((-n) as nat);
        assert(signed_decimal(n).drop_first() =~= digits);
    } else {
        let digits = decimal(n as nat);
        lemma_decimal(n as nat);
        assert(is_digit(digits[0]));
        assert(without_plus(digits) == digits);
    }
}

/// A count in parentheses reads back as the number that was written, with or without a
/// plus sign in front, if it is no more than may be.
pub proof fn law_natural_reads_back(n: nat, max: nat)
    ensures
        n <= max ==> natural_of(decimal(n), max) == Some(n),
        n > max ==> natural_of(decimal(n), max) is None,
        natural_of(seq!['+'] + decimal(n), max) == natural_of(decimal(n), max),
{
    let digits = decimal(n);
    lemma_decimal(n);
    assert(is_digit(digits[0]));
    assert(without_plus(digits) == digits);
    assert((seq!['+'] + digits).drop_first() =~= digits);
}

/// Reading a text in small letters keeps its length and whatever is no capital, and turns
/// each capital into its small letter.
pub proof fn law_small_letters(s: Seq<char>, i: int)
    requires
        0 <= i < s.len(),
    ensures
        lower(s).len() == s.len(),
        !('A' <= s[i] && s[i] <= 'Z') ==> lower(s)[i] == s[i],
        'A' <= s[i] && s[i] <= 'Z' ==> 'a' <= lower(s)[i] && lower(s)[i] <= 'z' && lower(s)[i] as int - 'a' as int
            == s[i] as int - 'A' as int,
{
}

// Moves that cannot be made or read

/// A step between two numbers: it fails of its start where that is no point with a
/// checker of the mover's, whatever its end; and of its end where that is no point of the
/// board.
pub proof fn law_number_step(b: Seq<int>, f: nat, t: nat)
    requires
        b.len() == 26,
        f <= 0xffff,
        t <= 0xffff,
    ensures
        ({
            let text = decimal(f) + seq!['/'] + decimal(t);
            let r = played(b, text);
            &&& !(1 <= f <= 24 && b[f as int] > 0) ==> r == Err::<Seq<int>, (StepFault, Seq<char>)>(
                (StepFault::EmptyPoint(f as usize), text),
            )
            &&& 1 <= f <= 24 && b[f as int] > 0 && !(1 <= t <= 24) ==> r == Err::<
                Seq<int>,
                (StepFault, Seq<char>),
            >((StepFault::OutsideBoard, text))
        }),
{
    let x = decimal(f);
    let y = decimal(t);
    let text = x + seq!['/'] + y;
    lemma_decimal(f);
    lemma_decimal(t);
    lemma_number_is_stop(x);
    lemma_number_is_stop(y);
    assert(is_stop(y)) by {
        assert forall|i: int| 0 <= i < y.len() implies #[trigger] y[i] != '/' by {
            assert(is_digit(y[i]));
        }
    }
    lemma_longer_reads(x, y);
    let stops = stops_of(text);
    assert(stops =~= seq![x, y]);
    assert(stops_read(stops)) by {
        assert(stops[0] == x && stops[1] == y);
        assert forall|i: int| 1 <= i < stops.len() implies (#[trigger] stops[i] == OFF_TOKEN@ || is_number(
            stops[i],
        )) by {
            assert(i == 1);
        }
    }
    assert(steps_of(stops) =~= seq![(x, y)]);
    lemma_one_word(text);
    lemma_alone(b, text);
    lemma_walked_push(b, Seq::empty(), (x, y));
    assert(Seq::<(Seq<char>, Seq<char>)>::empty().push((x, y)) =~= seq![(x, y)]);
    lemma_tokens_plain();
    assert(x != BAR_TOKEN@ && y != OFF_TOKEN@);
    law_natural_reads_back(f, usize::MAX as nat);
    law_natural_reads_back(t, usize::MAX as nat);
}

/// What makes a word unreadable: a chain of one stop, a start that is neither the bar nor
/// a number, a later stop that is neither off nor a number, and an opening parenthesis
/// that no number and closing one follow. A move with such a word fails of it.
pub proof fn law_unreadable_word(b: Seq<int>, word: Seq<char>, i: int)
    requires
        word.len() > 0,
        forall|k: int| 0 <= k < word.len() ==> !is_space(#[trigger] word[k]),
    ensures
        stops_of(word).len() < 2 ==> token_of(word) is None,
        stops_of(word)[0] != BAR_TOKEN@ && !is_number(stops_of(word)[0]) ==> token_of(word) is None,
        1 <= i < stops_of(word).len() && stops_of(word)[i] != OFF_TOKEN@ && !is_number(stops_of(word)[i])
            ==> token_of(word) is None,
        word.contains('(') && word.last() != ')' ==> token_of(word) is None,
        token_of(word) is None ==> played(b, word) == Err::<Seq<int>, (StepFault, Seq<char>)>(
            (StepFault::Unreadable, word),
        ),
{
    lemma_one_word(word);
    assert(seq![word].drop_last() == Seq::<Seq<char>>::empty());
    assert(seq![word].last() == word);
    reveal_with_fuel(played_words, 2);
    let text = lower(word);
    lemma_span_len(text, '(');
    if word.contains('(') {
        let k = choose|k: int| 0 <= k < word.len() && word[k] == '(';
        assert(text[k] == '(');
        assert(text.contains('('));
        assert(text.last() == lower_char(word.last()));
    }
}

} // verus!
