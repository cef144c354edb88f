//! Character sequences: the mathematical view of every string in this crate,
//! and the executable helpers that move between `String` and `Vec<char>`.

use vstd::prelude::*;

verus! {

/// `String::push` appends one character to the end of the string.
pub assume_specification[ String::push ](s: &mut String, ch: char)
    ensures
        final(s)@ == old(s)@.push(ch),
;

/// The characters of a string, in order.
pub fn chars_of(s: &str) -> (out: Vec<char>)
    ensures
        out@ == s@,
{
    let mut out: Vec<char> = Vec::new();
    for c in it: s.chars()
        invariant
            out@ == it.seq().take(it.index() as int),
    {
        out.push(c);
    }
    out
}

/// The string made of the characters `chars[from..to]`.
pub fn string_of(chars: &Vec<char>, from: usize, to: usize) -> (out: String)
    requires
        from <= to <= chars.len(),
    ensures
        out@ == chars@.subrange(from as int, to as int),
{
    let mut out = String::new();
    let mut i: usize = from;
    while i < to
        invariant
            from <= i <= to <= chars.len(),
            out@ == chars@.subrange(from as int, i as int),
        decreases to - i,
    {
        out.push(chars[i]);
        i += 1;
    }
    out
}

/// Appends the characters `chars[from..to]` to `out`.
pub fn push_range(out: &mut String, chars: &Vec<char>, from: usize, to: usize)
    requires
        from <= to <= chars.len(),
    ensures
        final(out)@ == old(out)@ + chars@.subrange(from as int, to as int),
{
    let mut i: usize = from;
    while i < to
        invariant
            from <= i <= to <= chars.len(),
            out@ == old(out)@ + chars@.subrange(from as int, i as int),
        decreases to - i,
    {
        out.push(chars[i]);
        i += 1;
    }
}

// ---------------------------------------------------------------------------
// Whitespace and words
// ---------------------------------------------------------------------------

/// The characters with the Unicode property `White_Space`.
pub open spec fn is_space(c: char) -> bool {
    let u = c as u32;
    ||| 0x09 <= u <= 0x0D
    ||| u == 0x20
    ||| u == 0x85
    ||| u == 0xA0
    ||| u == 0x1680
    ||| 0x2000 <= u <= 0x200A
    ||| u == 0x2028
    ||| u == 0x2029
    ||| u == 0x202F
    ||| u == 0x205F
    ||| u == 0x3000
}

/// Whether `c` separates words.
pub fn is_whitespace(c: char) -> (b: bool)
    ensures
        b == is_space(c),
{
    let u: u32 = c as u32;
    (0x09 <= u && u <= 0x0D) || u == 0x20 || u == 0x85 || u == 0xA0 || u == 0x1680 || (0x2000 <= u
        && u <= 0x200A) || u == 0x2028 || u == 0x2029 || u == 0x202F || u == 0x205F || u == 0x3000
}

/// A word starts at `i`: a character that is no whitespace, at the start of
/// the text or right after whitespace.
pub open spec fn is_word_start(s: Seq<char>, i: int) -> bool {
    &&& 0 <= i < s.len()
    &&& !is_space(s[i])
    &&& (i == 0 || is_space(s[i - 1]))
}

/// The number of maximal runs of non-whitespace characters in `s`: the
/// number of positions at which a word starts.
pub open spec fn word_count(s: Seq<char>) -> nat
    decreases s.len(),
{
    if s.len() == 0 {
        0
    } else {
        word_count(s.drop_last()) + if is_word_start(s, s.len() - 1) {
            1nat
        } else {
            0nat
        }
    }
}

/// Counts the whitespace-separated words of `text`.
pub fn count_words(text: &str) -> (n: usize)
    ensures
        n == word_count(text@),
{
    let chars = chars_of(text);
    let mut n: usize = 0;
    let mut after_space: bool = true;
    let mut i: usize = 0;
    while i < chars.len()
        invariant
            i <= chars.len(),
            n == word_count(chars@.take(i as int)),
            n <= i,
            after_space == (i == 0 || is_space(chars@[i - 1])),
        decreases chars.len() - i,
    {
        let space = is_whitespace(chars[i]);
        proof {
            let next = chars@.take(i + 1);
            assert(next.drop_last() =~= chars@.take(i as int));
            assert(is_word_start(next, i as int) == (!space && after_space));
        }
        if !space && after_space {
            n += 1;
        }
        after_space = space;
        i += 1;
    }
    proof {
        assert(chars@.take(i as int) =~= chars@);
    }
    n
}

// ---------------------------------------------------------------------------
// Searching and splitting
// ---------------------------------------------------------------------------

/// `pat` occurs in `s` at position `i`.
pub open spec fn matches_at(s: Seq<char>, pat: Seq<char>, i: int) -> bool {
    &&& 0 <= i
    &&& i + pat.len() <= s.len()
    &&& s.subrange(i, i + pat.len()) == pat
}

/// The first position at or after `from` at which `pat` occurs in `s`.
pub open spec fn find_from(s: Seq<char>, pat: Seq<char>, from: int) -> Option<int>
    decreases s.len() + 1 - from,
{
    if from < 0 || from + pat.len() > s.len() {
        None
    } else if matches_at(s, pat, from) {
        Some(from)
    } else {
        find_from(s, pat, from + 1)
    }
}

/// The first position at which `pat` occurs in `s`.
pub open spec fn first_match(s: Seq<char>, pat: Seq<char>) -> Option<int> {
    find_from(s, pat, 0)
}

/// `find_from` returns the least occurrence at or after `from`, and `None`
/// exactly when there is none.
pub proof fn lemma_find_from(s: Seq<char>, pat: Seq<char>, from: int)
    requires
        0 <= from,
    ensures
        match find_from(s, pat, from) {
            Some(k) => from <= k && matches_at(s, pat, k) && forall|j: int|
                from <= j < k ==> !matches_at(s, pat, j),
            None => forall|j: int| from <= j ==> !matches_at(s, pat, j),
        },
    decreases s.len() + 1 - from,
{
    if from + pat.len() > s.len() {
    } else if matches_at(s, pat, from) {
    } else {
        lemma_find_from(s, pat, from + 1);
    }
}

/// An occurrence with none before it is the first match.
pub proof fn lemma_first_match_is(s: Seq<char>, pat: Seq<char>, k: int)
    requires
        matches_at(s, pat, k),
        forall|j: int| 0 <= j < k ==> !matches_at(s, pat, j),
    ensures
        first_match(s, pat) == Some(k),
{
    lemma_find_from(s, pat, 0);
}

/// Without an occurrence there is no first match.
pub proof fn lemma_first_match_none(s: Seq<char>, pat: Seq<char>)
    requires
        forall|j: int| 0 <= j ==> !matches_at(s, pat, j),
    ensures
        first_match(s, pat) is None,
{
    lemma_find_from(s, pat, 0);
}

/// The pieces of `s` between the occurrences of `pat`, taken from the left
/// and without overlap. There is always at least one piece; a text without
/// an occurrence is its own single piece.
pub open spec fn split_on(s: Seq<char>, pat: Seq<char>) -> Seq<Seq<char>>
    decreases s.len(),
    via split_on_decreases
{
    match first_match(s, pat) {
        Some(k) if pat.len() > 0 => seq![s.take(k)] + split_on(s.skip(k + pat.len()), pat),
        _ => seq![s],
    }
}

#[via_fn]
proof fn split_on_decreases(s: Seq<char>, pat: Seq<char>) {
    lemma_find_from(s, pat, 0);
}

/// The pieces `parts` with `sep` between each two neighbours.
pub open spec fn join(parts: Seq<Seq<char>>, sep: Seq<char>) -> Seq<char>
    decreases parts.len(),
{
    if parts.len() == 0 {
        Seq::empty()
    } else if parts.len() == 1 {
        parts[0]
    } else {
        join(parts.drop_last(), sep) + sep + parts.last()
    }
}

/// Joining a first piece and then others puts the first piece and a
/// separator before the join of the others.
pub proof fn lemma_join_prepend(first: Seq<char>, rest: Seq<Seq<char>>, sep: Seq<char>)
    requires
        rest.len() >= 1,
    ensures
        join(seq![first] + rest, sep) == first + sep + join(rest, sep),
    decreases rest.len(),
{
    let all = seq![first] + rest;
    if rest.len() == 1 {
        assert(all.drop_last() =~= seq![first]);
        assert(join(seq![first], sep) == first);
        assert(all.last() == rest[0]);
        assert(join(rest, sep) == rest[0]);
    } else {
        lemma_join_prepend(first, rest.drop_last(), sep);
        assert(all.drop_last() =~= seq![first] + rest.drop_last());
        assert(all.last() == rest.last());
        assert(join(all, sep) =~= first + sep + join(rest, sep));
    }
}

/// Splitting a text and joining the pieces with the separator gives back
/// the text.
pub proof fn lemma_join_split(s: Seq<char>, sep: Seq<char>)
    requires
        sep.len() > 0,
    ensures
        join(split_on(s, sep), sep) == s,
    decreases s.len(),
{
    lemma_find_from(s, sep, 0);
    match first_match(s, sep) {
        Some(k) => {
            let rest = s.skip(k + sep.len());
            lemma_join_split(rest, sep);
            lemma_split_nonempty(rest, sep);
            lemma_join_prepend(s.take(k), split_on(rest, sep), sep);
            assert(s.take(k) + sep + rest =~= s) by {
                assert(s.subrange(k, k + sep.len()) == sep);
            }
        },
        None => {},
    }
}

/// A split gives at least one piece.
pub proof fn lemma_split_nonempty(s: Seq<char>, sep: Seq<char>)
    ensures
        split_on(s, sep).len() >= 1,
{
}

/// A text that starts with a piece, and then the separator, splits into
/// that piece and the pieces of what follows, where the separator does not
/// occur before the end of the piece.
pub proof fn lemma_split_cons(a: Seq<char>, sep: Seq<char>, b: Seq<char>)
    requires
        sep.len() > 0,
        forall|j: int| 0 <= j < a.len() ==> !matches_at(a + sep + b, sep, j),
    ensures
        split_on(a + sep + b, sep) == seq![a] + split_on(b, sep),
{
    let s = a + sep + b;
    let k = a.len() as int;
    assert(s.subrange(k, k + sep.len()) =~= sep);
    lemma_first_match_is(s, sep, k);
    assert(s.take(k) =~= a);
    assert(s.skip(k + sep.len()) =~= b);
}

/// The character `c` does not occur in `s`.
pub open spec fn avoids(s: Seq<char>, c: char) -> bool {
    forall|i: int| 0 <= i < s.len() ==> s[i] != c
}

/// A one-character pattern occurs where the character stands.
pub proof fn lemma_matches_char(s: Seq<char>, c: char, i: int)
    ensures
        matches_at(s, seq![c], i) <==> (0 <= i < s.len() && s[i] == c),
{
    if 0 <= i < s.len() {
        assert(s.subrange(i, i + 1)[0] == s[i]);
        if s[i] == c {
            assert(s.subrange(i, i + 1) =~= seq![c]);
        }
    }
}

/// A text without the separating character is its own single piece.
pub proof fn lemma_split_char_none(a: Seq<char>, c: char)
    requires
        avoids(a, c),
    ensures
        split_on(a, seq![c]) == seq![a],
{
    assert forall|j: int| 0 <= j implies !matches_at(a, seq![c], j) by {
        lemma_matches_char(a, c, j);
    }
    lemma_first_match_none(a, seq![c]);
}

/// A text that starts with a piece without the separating character, and
/// then the character, splits into that piece and the pieces of what
/// follows.
pub proof fn lemma_split_char_cons(a: Seq<char>, c: char, b: Seq<char>)
    requires
        avoids(a, c),
    ensures
        split_on(a + seq![c] + b, seq![c]) == seq![a] + split_on(b, seq![c]),
{
    let s = a + seq![c] + b;
    let k = a.len() as int;
    lemma_matches_char(s, c, k);
    assert forall|j: int| 0 <= j < k implies !matches_at(s, seq![c], j) by {
        lemma_matches_char(s, c, j);
        assert(s[j] == a[j]);
    }
    lemma_first_match_is(s, seq![c], k);
    assert(s.take(k) =~= a);
    assert(s.skip(k + 1) =~= b);
}

/// No piece of a split on a character holds the character.
pub proof fn lemma_split_char_parts(s: Seq<char>, c: char)
    ensures
        forall|k: int|
            0 <= k < split_on(s, seq![c]).len() ==> avoids(#[trigger] split_on(s, seq![c])[k], c),
    decreases s.len(),
{
    let sep = seq![c];
    lemma_find_from(s, sep, 0);
    match first_match(s, sep) {
        Some(at) => {
            let rest = s.skip(at + 1);
            lemma_split_char_parts(rest, c);
            assert forall|i: int| 0 <= i < at implies s.take(at)[i] != c by {
                lemma_matches_char(s, c, i);
            }
            assert forall|k: int| 0 <= k < split_on(s, sep).len() implies avoids(
                #[trigger] split_on(s, sep)[k],
                c,
            ) by {
                if k > 0 {
                    assert(split_on(s, sep)[k] == split_on(rest, sep)[k - 1]);
                }
            }
        },
        None => {
            assert forall|i: int| 0 <= i < s.len() implies s[i] != c by {
                lemma_matches_char(s, c, i);
            }
        },
    }
}

/// Joining pieces without the separating character and splitting the
/// result gives back the pieces.
pub proof fn lemma_split_join_char(parts: Seq<Seq<char>>, c: char)
    requires
        parts.len() >= 1,
        forall|k: int| 0 <= k < parts.len() ==> avoids(#[trigger] parts[k], c),
    ensures
        split_on(join(parts, seq![c]), seq![c]) == parts,
    decreases parts.len(),
{
    if parts.len() == 1 {
        lemma_split_char_none(parts[0], c);
        assert(parts =~= seq![parts[0]]);
    } else {
        let rest = parts.drop_first();
        assert(parts =~= seq![parts[0]] + rest);
        lemma_join_prepend(parts[0], rest, seq![c]);
        assert forall|k: int| 0 <= k < rest.len() implies avoids(#[trigger] rest[k], c) by {
            assert(rest[k] == parts[k + 1]);
        }
        lemma_split_join_char(rest, c);
        lemma_split_char_cons(parts[0], c, join(rest, seq![c]));
    }
}

/// The subranges of `s` that `ranges` names, in order.
pub open spec fn pieces(s: Seq<char>, ranges: Seq<(usize, usize)>) -> Seq<Seq<char>> {
    Seq::new(ranges.len(), |k: int| s.subrange(ranges[k].0 as int, ranges[k].1 as int))
}

/// Every range lies inside `from..to`.
pub open spec fn ranges_within(ranges: Seq<(usize, usize)>, from: int, to: int) -> bool {
    forall|k: int| 0 <= k < ranges.len() ==> from <= (#[trigger] ranges[k]).0 <= ranges[k].1 <= to
}

/// An occurrence inside a window of `s` is an occurrence in `s` that ends
/// before the window does.
pub proof fn lemma_matches_in_window(s: Seq<char>, pat: Seq<char>, from: int, to: int, j: int)
    requires
        0 <= from <= to <= s.len(),
        0 <= j,
    ensures
        matches_at(s.subrange(from, to), pat, j) <==> (from + j + pat.len() <= to && s.subrange(
            from + j,
            from + j + pat.len(),
        ) == pat),
{
    if from + j + pat.len() <= to {
        assert(s.subrange(from, to).subrange(j, j + pat.len()) =~= s.subrange(
            from + j,
            from + j + pat.len(),
        ));
    }
}

/// Whether `pat` occurs in `chars` at `at` and ends no later than `to`.
pub fn occurs_at(chars: &Vec<char>, pat: &Vec<char>, at: usize, to: usize) -> (b: bool)
    requires
        at <= to <= chars.len(),
    ensures
        b <==> (at + pat.len() <= to && chars@.subrange(at as int, at + pat.len()) == pat@),
{
    if pat.len() > to - at {
        return false;
    }
    let mut k: usize = 0;
    while k < pat.len()
        invariant
            k <= pat.len(),
            at + pat.len() <= to <= chars.len(),
            forall|j: int| 0 <= j < k ==> chars@[at + j] == pat@[j],
        decreases pat.len() - k,
    {
        if chars[at + k] != pat[k] {
            proof {
                let window = chars@.subrange(at as int, at + pat.len());
                assert(window[k as int] != pat@[k as int]);
            }
            return false;
        }
        k += 1;
    }
    proof {
        assert(chars@.subrange(at as int, at + pat.len()) =~= pat@);
    }
    true
}

/// Splits the window `chars[from..to]` on `pat` and returns the pieces as
/// index ranges into `chars`.
pub fn split_ranges(chars: &Vec<char>, from: usize, to: usize, pat: &Vec<char>) -> (out: Vec<
    (usize, usize),
>)
    requires
        from <= to <= chars.len(),
        pat.len() > 0,
    ensures
        ranges_within(out@, from as int, to as int),
        pieces(chars@, out@) == split_on(chars@.subrange(from as int, to as int), pat@),
{
    let mut out: Vec<(usize, usize)> = Vec::new();
    let mut seg: usize = from;
    let mut i: usize = from;
    while i < to
        invariant
            from <= seg <= i <= to <= chars.len(),
            pat.len() > 0,
            ranges_within(out@, from as int, to as int),
            split_on(chars@.subrange(from as int, to as int), pat@) == pieces(chars@, out@)
                + split_on(chars@.subrange(seg as int, to as int), pat@),
            forall|j: int|
                0 <= j < i - seg ==> !matches_at(chars@.subrange(seg as int, to as int), pat@, j),
        decreases to - i,
    {
        if occurs_at(chars, pat, i, to) {
            proof {
                let window = chars@.subrange(seg as int, to as int);
                let k = i - seg;
                lemma_matches_in_window(chars@, pat@, seg as int, to as int, k);
                lemma_first_match_is(window, pat@, k);
                assert(window.take(k) =~= chars@.subrange(seg as int, i as int));
                assert(window.skip(k + pat.len()) =~= chars@.subrange(i + pat.len(), to as int));
                assert(pieces(chars@, out@.push((seg, i))) =~= pieces(chars@, out@) + seq![
                    window.take(k),
                ]);
            }
            out.push((seg, i));
            i = i + pat.len();
            seg = i;
        } else {
            proof {
                lemma_matches_in_window(chars@, pat@, seg as int, to as int, i - seg);
            }
            i += 1;
        }
    }
    proof {
        let window = chars@.subrange(seg as int, to as int);
        lemma_first_match_none(window, pat@);
        assert(pieces(chars@, out@.push((seg, to))) =~= pieces(chars@, out@) + seq![window]);
    }
    out.push((seg, to));
    out
}

/// Joins the pieces `ranges[from..to]` of `chars` with `sep` between them.
pub fn join_ranges(
    chars: &Vec<char>,
    ranges: &Vec<(usize, usize)>,
    from: usize,
    to: usize,
    sep: &Vec<char>,
) -> (out: String)
    requires
        from <= to <= ranges.len(),
        ranges_within(ranges@, 0, chars.len() as int),
    ensures
        out@ == join(pieces(chars@, ranges@).subrange(from as int, to as int), sep@),
{
    let ghost all = pieces(chars@, ranges@);
    let mut out = String::new();
    let mut k: usize = from;
    while k < to
        invariant
            from <= k <= to <= ranges.len(),
            ranges_within(ranges@, 0, chars.len() as int),
            all == pieces(chars@, ranges@),
            out@ == join(all.subrange(from as int, k as int), sep@),
        decreases to - k,
    {
        let (a, b) = ranges[k];
        proof {
            let before = all.subrange(from as int, k as int);
            let after = all.subrange(from as int, k + 1);
            assert(after.drop_last() =~= before);
            assert(after.last() == chars@.subrange(a as int, b as int));
            if k == from {
                assert(out@ + after.last() =~= after.last());
            }
        }
        if k > from {
            push_range(&mut out, sep, 0, sep.len());
            proof {
                assert(sep@.subrange(0, sep.len() as int) =~= sep@);
            }
        }
        push_range(&mut out, chars, a, b);
        k += 1;
    }
    out
}

// ---------------------------------------------------------------------------
// Decimal numbers
// ---------------------------------------------------------------------------

/// The ASCII digits `0` to `9`.
pub open spec fn is_digit(c: char) -> bool {
    0x30 <= c as u32 <= 0x39
}

/// The number that the digit `c` stands for.
pub open spec fn digit_value(c: char) -> nat {
    (c as u32 - 0x30) as nat
}

/// The digit that stands for `d`, for `d` below ten.
pub open spec fn digit_char(d: nat) -> char {
    ((0x30 + d) as u8) as char
}

/// Every character of `s` is a digit.
pub open spec fn all_digits(s: Seq<char>) -> bool {
    forall|i: int| 0 <= i < s.len() ==> is_digit(#[trigger] s[i])
}

/// The number that the digits `s` write in base ten; zero for no digits.
pub open spec fn decimal_value(s: Seq<char>) -> nat
    decreases s.len(),
{
    if s.len() == 0 {
        0
    } else {
        10 * decimal_value(s.drop_last()) + digit_value(s.last())
    }
}

/// The digits of `n` in base ten, without leading zeros.
pub open spec fn decimal_digits(n: nat) -> Seq<char>
    decreases n,
{
    if n < 10 {
        seq![digit_char(n)]
    } else {
        decimal_digits(n / 10).push(digit_char(n % 10))
    }
}

/// Writing a number and reading it back gives the number.
pub proof fn lemma_decimal_round_trip(n: nat)
    ensures
        decimal_digits(n).len() > 0,
        all_digits(decimal_digits(n)),
        decimal_value(decimal_digits(n)) == n,
    decreases n,
{
    if n < 10 {
        let s = decimal_digits(n);
        assert(s.drop_last() =~= Seq::<char>::empty());
        assert(decimal_value(s.drop_last()) == 0);
    } else {
        lemma_decimal_round_trip(n / 10);
        let s = decimal_digits(n);
        assert(s.drop_last() =~= decimal_digits(n / 10));
    }
}

/// The outcome of reading a decimal number.
#[derive(Debug, Clone, Copy, PartialEq, Eq, Structural)]
pub enum Decimal {
    /// The text is not a number: it is empty or holds something else than
    /// digits after an optional `+`.
    Malformed,
    /// The text is a number, and the number is greater than `usize::MAX`.
    Overflow,
    /// The number that the text writes.
    Value(usize),
}

/// The digits of a number written with an optional leading `+`.
pub open spec fn unsigned_digits(s: Seq<char>) -> Seq<char> {
    if s.len() > 0 && s[0] == '+' {
        s.drop_first()
    } else {
        s
    }
}

/// `s` writes a non-negative integer: an optional `+`, then one digit or
/// more, and nothing else.
pub open spec fn is_unsigned(s: Seq<char>) -> bool {
    unsigned_digits(s).len() > 0 && all_digits(unsigned_digits(s))
}

/// The number that `s` writes.
pub open spec fn unsigned_value(s: Seq<char>) -> nat {
    decimal_value(unsigned_digits(s))
}

/// What reading `s` as a `usize` gives.
pub open spec fn read_decimal(s: Seq<char>) -> Decimal {
    if !is_unsigned(s) {
        Decimal::Malformed
    } else if unsigned_value(s) > usize::MAX {
        Decimal::Overflow
    } else {
        Decimal::Value(unsigned_value(s) as usize)
    }
}

/// The digits of a number read back as that number.
pub proof fn lemma_read_decimal_digits(n: nat)
    ensures
        is_unsigned(decimal_digits(n)),
        unsigned_value(decimal_digits(n)) == n,
{
    lemma_decimal_round_trip(n);
    let s = decimal_digits(n);
    assert(is_digit(s[0]));
}

/// Reads the window `chars[from..to]` as a `usize`.
pub fn parse_decimal(chars: &Vec<char>, from: usize, to: usize) -> (out: Decimal)
    requires
        from <= to <= chars.len(),
    ensures
        out == read_decimal(chars@.subrange(from as int, to as int)),
{
    let ghost line = chars@.subrange(from as int, to as int);
    let start: usize = if from < to && chars[from] == '+' {
        from + 1
    } else {
        from
    };
    proof {
        assert(unsigned_digits(line) =~= chars@.subrange(start as int, to as int));
    }
    let ghost digits = chars@.subrange(start as int, to as int);
    if start == to {
        return Decimal::Malformed;
    }
    let mut acc: usize = 0;
    let mut overflow: bool = false;
    let mut i: usize = start;
    while i < to
        invariant
            from <= start <= i <= to <= chars.len(),
            digits == chars@.subrange(start as int, to as int),
            digits == unsigned_digits(chars@.subrange(from as int, to as int)),
            all_digits(digits.take(i - start)),
            !overflow ==> acc == decimal_value(digits.take(i - start)),
            overflow ==> decimal_value(digits.take(i - start)) > usize::MAX,
        decreases to - i,
    {
        let c = chars[i];
        let u: u32 = c as u32;
        if u < 0x30 || u > 0x39 {
            proof {
                assert(digits[i - start] == c);
                assert(!is_digit(digits[i - start]));
            }
            return Decimal::Malformed;
        }
        let d: usize = (u - 0x30) as usize;
        proof {
            let next = digits.take(i + 1 - start);
            assert(next.drop_last() =~= digits.take(i - start));
            assert(next.last() == c);
            assert(decimal_value(next) == 10 * decimal_value(digits.take(i - start)) + d);
            assert forall|j: int| 0 <= j < next.len() implies is_digit(#[trigger] next[j]) by {
                if j < i - start {
                    assert(next[j] == digits.take(i - start)[j]);
                }
            }
        }
        if !overflow {
            match acc.checked_mul(10) {
                Some(tens) => match tens.checked_add(d) {
                    Some(sum) => {
                        acc = sum;
                    },
                    None => {
                        overflow = true;
                    },
                },
                None => {
                    overflow = true;
                },
            }
        }
        i += 1;
    }
    proof {
        assert(digits.take(i - start) =~= digits);
    }
    if overflow {
        Decimal::Overflow
    } else {
        Decimal::Value(acc)
    }
}

/// Appends the decimal digits of `n` to `out`.
pub fn push_decimal(out: &mut String, n: usize)
    ensures
        final(out)@ == old(out)@ + decimal_digits(n as nat),
    decreases n,
{
    if n >= 10 {
        push_decimal(out, n / 10);
    }
    let d: u8 = (n % 10) as u8;
    out.push((0x30u8 + d) as char);
    proof {
        if n >= 10 {
            assert(old(out)@ + decimal_digits((n / 10) as nat).push(digit_char((n % 10) as nat))
                =~= (old(out)@ + decimal_digits((n / 10) as nat)).push(
                digit_char((n % 10) as nat),
            ));
        } else {
            assert(old(out)@ + seq![digit_char(n as nat)] =~= old(out)@.push(digit_char(n as nat)));
        }
    }
}

} // verus!
