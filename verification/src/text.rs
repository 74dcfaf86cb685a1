//! Text helpers: decimal numerals, whitespace words, separators and quoting,
//! each stated over the characters of a string.
use vstd::prelude::*;

verus! {

/// `String::push` appends one character at the end.
pub assume_specification[ String::push ](s: &mut String, c: char)
    ensures
        final(s)@ == old(s)@.push(c),
;

/// What `{:?}` writes for a string: the text between double quotes, with the
/// characters that Rust escapes in a string literal escaped.
pub uninterp spec fn quoted_text(s: Seq<char>) -> Seq<char>;

/// `format!("{:?}", ..)` on a string. Nothing is claimed of the escapes beyond
/// their being a function of the text.
#[verifier::external_body]
pub(crate) fn quoted(s: &str) -> (r: String)
    ensures
        r@ == quoted_text(s@),
{
    format!("{:?}", s)
}

/// The characters of a string.
pub(crate) fn chars_of(s: &str) -> (r: Vec<char>)
    ensures
        r@ == s@,
{
    let mut r: Vec<char> = Vec::new();
    for c in it: s.chars()
        invariant
            r@ == it.seq().take(it.index() as int),
            it.seq() == s@,
    {
        r.push(c);
    }
    assert(r@ == s@);
    r
}

/// The string made of the given characters.
pub(crate) fn string_of(cs: &Vec<char>) -> (r: String)
    ensures
        r@ == cs@,
{
    let mut r = String::new();
    let mut i: usize = 0;
    while i < cs.len()
        invariant
            i <= cs.len(),
            r@ == cs@.take(i as int),
        decreases cs.len() - i,
    {
        r.push(cs[i]);
        i = i + 1;
    }
    assert(r@ == cs@);
    r
}

/// Whether two strings hold the same characters.
pub(crate) fn same_text(a: &str, b: &str) -> (r: bool)
    ensures
        r == (a@ == b@),
{
    a.to_owned() == b.to_owned()
}

/// The characters `from..to` of a buffer.
pub(crate) fn slice_of(cs: &Vec<char>, from: usize, to: usize) -> (r: Vec<char>)
    requires
        from <= to <= cs.len(),
    ensures
        r@ == cs@.subrange(from as int, to as int),
{
    let mut r: Vec<char> = Vec::new();
    let mut i: usize = from;
    while i < to
        invariant
            from <= i <= to <= cs.len(),
            r@ == cs@.subrange(from as int, i as int),
        decreases to - i,
    {
        r.push(cs[i]);
        i = i + 1;
    }
    r
}

/// Whether two buffers hold the same characters.
pub(crate) fn same_chars(a: &Vec<char>, b: &Vec<char>) -> (r: bool)
    ensures
        r == (a@ == b@),
{
    if a.len() != b.len() {
        return false;
    }
    let mut i: usize = 0;
    while i < a.len()
        invariant
            i <= a.len(),
            a.len() == b.len(),
            a@.take(i as int) == b@.take(i as int),
        decreases a.len() - i,
    {
        if a[i] != b[i] {
            return false;
        }
        assert(a@.take(i + 1) == a@.take(i as int).push(a@[i as int]));
        assert(b@.take(i + 1) == b@.take(i as int).push(b@[i as int]));
        i = i + 1;
    }
    assert(a@.take(i as int) == a@);
    assert(b@.take(i as int) == b@);
    true
}

// Case

/// One character with an ASCII capital made small.
pub open spec fn lower_char(c: char) -> char {
    if 'A' <= c && c <= 'Z' {
        ((c as u8) + 32) as char
    } else {
        c
    }
}

/// A text with its ASCII capitals made small.
pub open spec fn lower(s: Seq<char>) -> Seq<char> {
    Seq::new(s.len(), |i: int| lower_char(s[i]))
}

pub(crate) fn ascii_lower(c: char) -> (r: char)
    ensures
        r == lower_char(c),
{
    if 'A' <= c && c <= 'Z' {
        ((c as u8) + 32) as char
    } else {
        c
    }
}

pub(crate) fn lowered(cs: &Vec<char>) -> (r: Vec<char>)
    ensures
        r@ == lower(cs@),
{
    let mut r: Vec<char> = Vec::new();
    let mut i: usize = 0;
    while i < cs.len()
        invariant
            i <= cs.len(),
            r@ == lower(cs@.take(i as int)),
        decreases cs.len() - i,
    {
        r.push(ascii_lower(cs[i]));
        i = i + 1;
        assert(r@ == lower(cs@.take(i as int)));
    }
    assert(cs@.take(i as int) == cs@);
    r
}

// Numerals

pub open spec fn is_digit(c: char) -> bool {
    '0' <= c && c <= '9'
}

pub open spec fn digit_value(c: char) -> nat {
    (c as u32 - '0' as u32) as nat
}

pub open spec fn digit_char(d: nat) -> char {
    ((d + '0' as u32) as u32) as char
}

/// The shortest decimal numeral of a number.
pub open spec fn decimal(n: nat) -> Seq<char>
    decreases n,
{
    if n < 10 {
        seq![digit_char(n)]
    } else {
        decimal(n / 10).push(digit_char(n % 10))
    }
}

/// The shortest decimal numeral of an integer, with a minus sign where it is
/// negative.
pub open spec fn signed_decimal(n: int) -> Seq<char> {
    if n < 0 {
        seq!['-'] + decimal((-n) as nat)
    } else {
        decimal(n as nat)
    }
}

/// Every character is a decimal digit.
pub open spec fn all_digits(s: Seq<char>) -> bool {
    forall|i: int| 0 <= i < s.len() ==> is_digit(#[trigger] s[i])
}

/// The number that a row of digits writes.
pub open spec fn digits_value(s: Seq<char>) -> nat
    decreases s.len(),
{
    if s.len() == 0 {
        0
    } else {
        digits_value(s.drop_last()) * 10 + digit_value(s.last())
    }
}

/// The text without one leading plus sign.
pub open spec fn without_plus(s: Seq<char>) -> Seq<char> {
    if s.len() > 0 && s[0] == '+' {
        s.drop_first()
    } else {
        s
    }
}

/// The number that a text writes: digits, with one plus sign allowed in front,
/// and no more than `max`.
pub open spec fn natural_of(s: Seq<char>, max: nat) -> Option<nat> {
    let digits = without_plus(s);
    if digits.len() > 0 && all_digits(digits) && digits_value(digits) <= max {
        Some(digits_value(digits))
    } else {
        None
    }
}

/// The 32-bit integer that a text writes: digits, with one plus or minus sign
/// allowed in front.
pub open spec fn integer_of(s: Seq<char>) -> Option<int> {
    if s.len() > 0 && s[0] == '-' {
        let digits = s.drop_first();
        if digits.len() > 0 && all_digits(digits) && digits_value(digits) <= 0x8000_0000 {
            Some(-(digits_value(digits) as int))
        } else {
            None
        }
    } else {
        match natural_of(s, 0x7fff_ffff) {
            Some(n) => Some(n as int),
            None => None,
        }
    }
}

pub(crate) proof fn lemma_digits_value_monotone(s: Seq<char>, k: int)
    requires
        0 <= k <= s.len(),
    ensures
        digits_value(s.take(k)) <= digits_value(s),
    decreases s.len() - k,
{
    if k < s.len() {
        let next = s.take(k + 1);
        assert(next.drop_last() == s.take(k));
        lemma_digits_value_monotone(s, k + 1);
    } else {
        assert(s.take(k) == s);
    }
}

/// The digits of `cs` from `from` on as a number, if there is one digit at
/// least, nothing else, and the number is no more than `max`.
fn parse_digits(cs: &Vec<char>, from: usize, max: u64) -> (r: Option<u64>)
    requires
        from <= cs.len(),
    ensures
        ({
            let digits = cs@.skip(from as int);
            match r {
                Some(n) => digits.len() > 0 && all_digits(digits) && n == digits_value(digits) && n <= max,
                None => !(digits.len() > 0 && all_digits(digits) && digits_value(digits) <= max),
            }
        }),
{
    let ghost digits = cs@.skip(from as int);
    if from == cs.len() {
        return None;
    }
    let mut n: u64 = 0;
    let mut i: usize = from;
    while i < cs.len()
        invariant
            from <= i <= cs.len(),
            digits == cs@.skip(from as int),
            all_digits(digits.take(i - from)),
            n == digits_value(digits.take(i - from)),
            n <= max,
        decreases cs.len() - i,
    {
        let c = cs[i];
        assert(c == digits[i - from]);
        if !('0' <= c && c <= '9') {
            return None;
        }
        let d: u64 = (c as u32 - '0' as u32) as u64;
        proof {
            let next = digits.take(i - from + 1);
            assert(next.drop_last() == digits.take(i - from));
            assert(next.last() == c);
            assert(digits_value(next) == n * 10 + d);
            lemma_digits_value_monotone(digits, i - from + 1);
        }
        match n.checked_mul(10) {
            None => {
                return None;
            },
            Some(tens) => match tens.checked_add(d) {
                None => {
                    return None;
                },
                Some(sum) => {
                    if sum > max {
                        return None;
                    }
                    n = sum;
                },
            },
        }
        proof {
            let next = digits.take(i - from + 1);
            assert forall|k: int| 0 <= k < next.len() implies is_digit(#[trigger] next[k]) by {
                if k < i - from {
                    assert(is_digit(digits.take(i - from)[k]));
                }
            }
        }
        i = i + 1;
    }
    assert(digits.take(i - from) == digits);
    Some(n)
}

/// Reads an unsigned number as `str::parse` does: digits, with one plus sign
/// allowed in front.
pub(crate) fn parse_natural(cs: &Vec<char>, max: u64) -> (r: Option<u64>)
    ensures
        match r {
            Some(n) => natural_of(cs@, max as nat) == Some(n as nat),
            None => natural_of(cs@, max as nat) is None,
        },
{
    assert(cs@.skip(0) == cs@);
    if cs.len() > 0 && cs[0] == '+' {
        assert(cs@.skip(1) == cs@.drop_first());
        parse_digits(cs, 1, max)
    } else {
        parse_digits(cs, 0, max)
    }
}

/// Reads a 32-bit integer as `str::parse` does: digits, with one sign allowed
/// in front.
pub(crate) fn parse_integer(cs: &Vec<char>) -> (r: Option<i32>)
    ensures
        match r {
            Some(n) => integer_of(cs@) == Some(n as int),
            None => integer_of(cs@) is None,
        },
{
    if cs.len() > 0 && cs[0] == '-' {
        assert(cs@.skip(1) == cs@.drop_first());
        match parse_digits(cs, 1, 0x8000_0000) {
            Some(n) => Some((-(n as i64)) as i32),
            None => None,
        }
    } else {
        match parse_natural(cs, 0x7fff_ffff) {
            Some(n) => Some(n as i32),
            None => None,
        }
    }
}

/// Appends the decimal numeral of `n`.
pub(crate) fn push_decimal(out: &mut String, n: u64)
    ensures
        final(out)@ == old(out)@ + decimal(n as nat),
    decreases n,
{
    if n >= 10 {
        push_decimal(out, n / 10);
    }
    let d: u32 = (n % 10) as u32;
    let c: char = digit(d);
    out.push(c);
    assert(out@ == old(out)@ + decimal(n as nat));
}

fn digit(d: u32) -> (c: char)
    requires
        d < 10,
    ensures
        c == digit_char(d as nat),
{
    ((d + '0' as u32) as u8) as char
}

/// Appends the decimal numeral of `n`, with a minus sign where it is negative.
pub(crate) fn push_signed(out: &mut String, n: i64)
    requires
        n > i64::MIN,
    ensures
        final(out)@ == old(out)@ + signed_decimal(n as int),
{
    if n < 0 {
        out.push('-');
        push_decimal(out, (-n) as u64);
        assert(out@ == old(out)@ + (seq!['-'] + decimal((-n) as nat)));
    } else {
        push_decimal(out, n as u64);
    }
}

// Words

/// The characters that Unicode counts as white space.
pub open spec fn is_space(c: char) -> bool {
    let u = c as u32;
    ||| 0x09 <= u <= 0x0d
    ||| u == 0x20
    ||| u == 0x85
    ||| u == 0xa0
    ||| u == 0x1680
    ||| 0x2000 <= u <= 0x200a
    ||| u == 0x2028
    ||| u == 0x2029
    ||| u == 0x202f
    ||| u == 0x205f
    ||| u == 0x3000
}

fn space(c: char) -> (r: bool)
    ensures
        r == is_space(c),
{
    let u = c as u32;
    (0x09 <= u && u <= 0x0d) || u == 0x20 || u == 0x85 || u == 0xa0 || u == 0x1680 || (0x2000 <= u
        && u <= 0x200a) || u == 0x2028 || u == 0x2029 || u == 0x202f || u == 0x205f || u == 0x3000
}

/// How many characters stand before the first white space.
pub open spec fn word_len(s: Seq<char>) -> nat
    decreases s.len(),
{
    if s.len() == 0 || is_space(s[0]) {
        0
    } else {
        1 + word_len(s.drop_first())
    }
}

/// The words of a text: its longest runs without white space, in order.
pub open spec fn words(s: Seq<char>) -> Seq<Seq<char>>
    decreases s.len(),
    via words_shrink
{
    if s.len() == 0 {
        Seq::empty()
    } else if is_space(s[0]) {
        words(s.drop_first())
    } else {
        seq![s.take(word_len(s) as int)] + words(s.skip(word_len(s) as int))
    }
}

#[via_fn]
proof fn words_shrink(s: Seq<char>) {
    lemma_word_len(s);
}

pub(crate) proof fn lemma_word_len(s: Seq<char>)
    ensures
        word_len(s) <= s.len(),
        forall|i: int| 0 <= i < word_len(s) ==> !is_space(#[trigger] s[i]),
        word_len(s) < s.len() ==> is_space(s[word_len(s) as int]),
    decreases s.len(),
{
    if s.len() > 0 && !is_space(s[0]) {
        let rest = s.drop_first();
        lemma_word_len(rest);
        assert forall|i: int| 0 <= i < word_len(s) implies !is_space(#[trigger] s[i]) by {
            if i > 0 {
                assert(s[i] == rest[i - 1]);
            }
        }
        if word_len(s) < s.len() {
            assert(s[word_len(s) as int] == rest[word_len(rest) as int]);
        }
    }
}

/// `word_len` is the only number with these properties.
pub(crate) proof fn lemma_word_len_is(s: Seq<char>, n: int)
    requires
        0 <= n <= s.len(),
        forall|i: int| 0 <= i < n ==> !is_space(#[trigger] s[i]),
        n < s.len() ==> is_space(s[n]),
    ensures
        word_len(s) == n,
{
    lemma_word_len(s);
    if word_len(s) < n {
        assert(is_space(s[word_len(s) as int]));
    } else if n < word_len(s) {
        assert(!is_space(s[n]));
    }
}

/// The views of a list of buffers.
pub open spec fn views(v: Seq<Vec<char>>) -> Seq<Seq<char>> {
    Seq::new(v.len(), |i: int| v[i]@)
}

/// The words of a text, as `split_whitespace` gives them.
pub(crate) fn split_words(cs: &Vec<char>) -> (r: Vec<Vec<char>>)
    ensures
        views(r@) == words(cs@),
{
    let mut out: Vec<Vec<char>> = Vec::new();
    let mut i: usize = 0;
    assert(cs@.skip(0) == cs@);
    assert(views(out@) + words(cs@) == words(cs@));
    while i < cs.len()
        invariant
            i <= cs.len(),
            views(out@) + words(cs@.skip(i as int)) == words(cs@),
        decreases cs.len() - i,
    {
        let ghost rest = cs@.skip(i as int);
        if space(cs[i]) {
            assert(rest.drop_first() == cs@.skip(i + 1));
            i = i + 1;
        } else {
            let mut j: usize = i + 1;
            while j < cs.len() && !space(cs[j])
                invariant
                    i < j <= cs.len(),
                    forall|k: int| i <= k < j ==> !is_space(#[trigger] cs@[k]),
                decreases cs.len() - j,
            {
                j = j + 1;
            }
            proof {
                lemma_word_len_is(rest, j - i);
                assert(rest.take(j - i) == cs@.subrange(i as int, j as int));
                assert(rest.skip(j - i) == cs@.skip(j as int));
            }
            let word = slice_of(cs, i, j);
            let ghost before = out@;
            out.push(word);
            assert(views(out@) == views(before).push(word@));
            assert(views(out@) + words(cs@.skip(j as int)) == views(before) + (seq![word@] + words(
                cs@.skip(j as int),
            )));
            i = j;
        }
    }
    assert(cs@.skip(i as int) == Seq::<char>::empty());
    assert(views(out@) + words(cs@.skip(i as int)) == views(out@));
    out
}

// Separators

/// How many characters stand before the first `sep`.
pub open spec fn span_len(s: Seq<char>, sep: char) -> nat
    decreases s.len(),
{
    if s.len() == 0 || s[0] == sep {
        0
    } else {
        1 + span_len(s.drop_first(), sep)
    }
}

/// The pieces of a text between its `sep` characters, empty ones too.
pub open spec fn split_on(s: Seq<char>, sep: char) -> Seq<Seq<char>>
    decreases s.len(),
    via split_shrinks
{
    let n = span_len(s, sep);
    if n >= s.len() {
        seq![s]
    } else {
        seq![s.take(n as int)] + split_on(s.skip(n as int + 1), sep)
    }
}

#[via_fn]
proof fn split_shrinks(s: Seq<char>, sep: char) {
}

pub(crate) proof fn lemma_span_len_is(s: Seq<char>, sep: char, n: int)
    requires
        0 <= n <= s.len(),
        forall|i: int| 0 <= i < n ==> #[trigger] s[i] != sep,
        n < s.len() ==> s[n] == sep,
    ensures
        span_len(s, sep) == n,
    decreases n,
{
    if n > 0 {
        let rest = s.drop_first();
        assert forall|i: int| 0 <= i < n - 1 implies #[trigger] rest[i] != sep by {
            assert(rest[i] == s[i + 1]);
        }
        lemma_span_len_is(rest, sep, n - 1);
    }
}

pub(crate) proof fn lemma_span_len(s: Seq<char>, sep: char)
    ensures
        span_len(s, sep) <= s.len(),
        forall|i: int| 0 <= i < span_len(s, sep) ==> #[trigger] s[i] != sep,
        span_len(s, sep) < s.len() ==> s[span_len(s, sep) as int] == sep,
        span_len(s, sep) == s.len() ==> !s.contains(sep),
    decreases s.len(),
{
    if s.len() > 0 && s[0] != sep {
        let rest = s.drop_first();
        lemma_span_len(rest, sep);
        assert forall|i: int| 0 <= i < span_len(s, sep) implies #[trigger] s[i] != sep by {
            if i > 0 {
                assert(s[i] == rest[i - 1]);
            }
        }
        if span_len(s, sep) < s.len() {
            assert(s[span_len(s, sep) as int] == rest[span_len(rest, sep) as int]);
        }
    }
}

/// The index of the first `sep` at or after `from`, or the length.
pub(crate) fn find_char(cs: &Vec<char>, sep: char, from: usize) -> (r: usize)
    requires
        from <= cs.len(),
    ensures
        from <= r <= cs.len(),
        r - from == span_len(cs@.skip(from as int), sep),
{
    let mut i: usize = from;
    while i < cs.len() && cs[i] != sep
        invariant
            from <= i <= cs.len(),
            forall|k: int| from <= k < i ==> #[trigger] cs@[k] != sep,
        decreases cs.len() - i,
    {
        i = i + 1;
    }
    proof {
        lemma_span_len_is(cs@.skip(from as int), sep, i - from);
    }
    i
}

/// The pieces of a text between its `sep` characters.
pub(crate) fn split_chars(cs: &Vec<char>, sep: char) -> (r: Vec<Vec<char>>)
    ensures
        views(r@) == split_on(cs@, sep),
{
    let mut out: Vec<Vec<char>> = Vec::new();
    let mut i: usize = 0;
    assert(cs@.skip(0) == cs@);
    assert(views(out@) + split_on(cs@, sep) == split_on(cs@, sep));
    loop
        invariant
            i <= cs.len(),
            views(out@) + split_on(cs@.skip(i as int), sep) == split_on(cs@, sep),
        decreases cs.len() - i,
    {
        let ghost rest = cs@.skip(i as int);
        let j = find_char(cs, sep, i);
        let piece = slice_of(cs, i, j);
        let ghost before = out@;
        out.push(piece);
        assert(views(out@) == views(before).push(piece@));
        if j == cs.len() {
            assert(piece@ == rest);
            assert(views(out@) == split_on(cs@, sep));
            return out;
        }
        assert(rest.take(j - i) == piece@);
        assert(rest.skip(j - i + 1) == cs@.skip(j + 1));
        assert(views(out@) + split_on(cs@.skip(j + 1), sep) == views(before) + (seq![piece@]
            + split_on(cs@.skip(j + 1), sep)));
        i = j + 1;
    }
}

/// The text without the `*` characters at its end.
pub open spec fn without_stars(s: Seq<char>) -> Seq<char>
    decreases s.len(),
{
    if s.len() > 0 && s.last() == '*' {
        without_stars(s.drop_last())
    } else {
        s
    }
}

pub(crate) fn strip_stars(cs: Vec<char>) -> (r: Vec<char>)
    ensures
        r@ == without_stars(cs@),
{
    let mut r = cs;
    while r.len() > 0 && r[r.len() - 1] == '*'
        invariant
            without_stars(r@) == without_stars(cs@),
        decreases r.len(),
    {
        let ghost before = r@;
        r.pop();
        assert(r@ == before.drop_last());
    }
    r
}

/// The pieces with `sep` between each two of them.
pub open spec fn joined(parts: Seq<Seq<char>>, sep: Seq<char>) -> Seq<char>
    decreases parts.len(),
{
    if parts.len() == 0 {
        Seq::empty()
    } else if parts.len() == 1 {
        parts[0]
    } else {
        joined(parts.drop_last(), sep) + sep + parts.last()
    }
}

/// The views of a list of strings.
pub open spec fn strings(v: Seq<String>) -> Seq<Seq<char>> {
    Seq::new(v.len(), |i: int| v[i]@)
}

/// Writes the strings out with `sep` between each two of them.
pub(crate) fn join_strings(parts: &Vec<String>, sep: &str) -> (r: String)
    ensures
        r@ == joined(strings(parts@), sep@),
{
    let mut r = String::new();
    let mut i: usize = 0;
    let ghost all = strings(parts@);
    while i < parts.len()
        invariant
            i <= parts.len(),
            all == strings(parts@),
            r@ == joined(all.take(i as int), sep@),
        decreases parts.len() - i,
    {
        proof {
            let next = all.take(i + 1);
            assert(next.drop_last() == all.take(i as int));
            assert(next.last() == parts@[i as int]@);
            if i == 0 {
                assert(next[0] == parts@[0]@);
            }
        }
        if i > 0 {
            r.append(sep);
        }
        r.append(parts[i].as_str());
        i = i + 1;
        assert(r@ == joined(all.take(i as int), sep@));
    }
    assert(all.take(i as int) == all);
    r
}

/// Whether one of the strings is the given one.
pub(crate) fn holds_text(parts: &Vec<String>, text: &str) -> (r: bool)
    ensures
        r == strings(parts@).contains(text@),
{
    let mut i: usize = 0;
    while i < parts.len()
        invariant
            i <= parts.len(),
            forall|k: int| 0 <= k < i ==> (#[trigger] parts@[k])@ != text@,
        decreases parts.len() - i,
    {
        if same_text(parts[i].as_str(), text) {
            assert(strings(parts@)[i as int] == text@);
            return true;
        }
        i = i + 1;
    }
    proof {
        assert forall|k: int| 0 <= k < strings(parts@).len() implies strings(parts@)[k] != text@ by {
            assert(parts@[k]@ != text@);
        }
    }
    false
}

} // verus!
