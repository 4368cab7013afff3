//! Lines, words and decimal numbers in text given as bytes.

use vstd::prelude::*;
use vstd::slice::slice_subrange;

verus! {

/// The white space that separates words: space, tab, line feed, vertical
/// tab, form feed and carriage return.
pub open spec fn is_space(b: u8) -> bool {
    b == 0x20 || 0x09 <= b <= 0x0d
}

/// A decimal digit.
pub open spec fn is_digit(b: u8) -> bool {
    0x30 <= b <= 0x39
}

/// The first place at or after `from` that holds no white space, or the end.
pub open spec fn skip_spaces(s: Seq<u8>, from: int) -> int
    decreases s.len() - from,
{
    if 0 <= from < s.len() && is_space(s[from]) {
        skip_spaces(s, from + 1)
    } else {
        from
    }
}

/// The first place at or after `from` that holds white space, or the end.
pub open spec fn skip_word(s: Seq<u8>, from: int) -> int
    decreases s.len() - from,
{
    if 0 <= from < s.len() && !is_space(s[from]) {
        skip_word(s, from + 1)
    } else {
        from
    }
}

/// The first place at or after `from` that holds the byte `b`, or the end.
pub open spec fn find_byte(s: Seq<u8>, b: u8, from: int) -> int
    decreases s.len() - from,
{
    if 0 <= from < s.len() && s[from] != b {
        find_byte(s, b, from + 1)
    } else {
        from
    }
}

/// The first place at or after `from` that holds a line feed, or the end.
pub open spec fn line_end(s: Seq<u8>, from: int) -> int {
    find_byte(s, 0x0a, from)
}

/// The scans never move backwards and never leave the text.
pub proof fn lemma_scan_bounds(s: Seq<u8>, from: int)
    requires
        0 <= from <= s.len(),
    ensures
        from <= skip_spaces(s, from) <= s.len(),
        from <= skip_word(s, from) <= s.len(),
        from <= line_end(s, from) <= s.len(),
    decreases s.len() - from,
{
    lemma_find_bounds(s, 0x0a, from);
    if from < s.len() {
        lemma_scan_bounds(s, from + 1);
    }
}

/// A search for a byte ends at that byte or at the end of the text, and
/// passes over no such byte on its way.
pub proof fn lemma_find_bounds(s: Seq<u8>, b: u8, from: int)
    requires
        0 <= from <= s.len(),
    ensures
        from <= find_byte(s, b, from) <= s.len(),
        find_byte(s, b, from) < s.len() ==> s[find_byte(s, b, from)] == b,
        forall|i: int| from <= i < find_byte(s, b, from) ==> s[i] != b,
    decreases s.len() - from,
{
    if from < s.len() && s[from] != b {
        lemma_find_bounds(s, b, from + 1);
    }
}

/// The words of `s` that begin at or after `from`: the maximal runs of bytes
/// without white space, in order.
pub open spec fn words_from(s: Seq<u8>, from: int) -> Seq<Seq<u8>>
    decreases s.len() - from,
{
    let start = skip_spaces(s, from);
    if 0 <= from && start < s.len() {
        let end = skip_word(s, start + 1);
        proof {
            lemma_scan_bounds(s, from);
            lemma_scan_bounds(s, start + 1);
        }
        seq![s.subrange(start, end)] + words_from(s, end)
    } else {
        Seq::empty()
    }
}

/// The words of a text.
pub open spec fn words(s: Seq<u8>) -> Seq<Seq<u8>> {
    words_from(s, 0)
}

/// The lines of `s` that begin at or after `from`. A line ends before a line
/// feed or at the end of the text; a line feed at the very end starts no
/// further line.
pub open spec fn lines_from(s: Seq<u8>, from: int) -> Seq<Seq<u8>>
    decreases s.len() - from,
{
    if 0 <= from < s.len() {
        let end = line_end(s, from);
        proof {
            lemma_scan_bounds(s, from);
        }
        if end < s.len() {
            seq![s.subrange(from, end)] + lines_from(s, end + 1)
        } else {
            seq![s.subrange(from, end)]
        }
    } else {
        Seq::empty()
    }
}

/// The lines of a text.
pub open spec fn lines(s: Seq<u8>) -> Seq<Seq<u8>> {
    lines_from(s, 0)
}

/// Every byte is a decimal digit.
pub open spec fn all_digits(s: Seq<u8>) -> bool {
    forall|i: int| 0 <= i < s.len() ==> is_digit(#[trigger] s[i])
}

/// The number that a sequence of decimal digits denotes.
pub open spec fn decimal_value(digits: Seq<u8>) -> nat
    decreases digits.len(),
{
    if digits.len() == 0 {
        0
    } else {
        decimal_value(digits.drop_last()) * 10 + (digits.last() - 0x30) as nat
    }
}

/// The number written by one or more decimal digits and nothing else, where
/// it is no larger than `max`.
pub open spec fn digits_number(word: Seq<u8>, max: u64) -> Option<u64> {
    if word.len() > 0 && all_digits(word) && decimal_value(word) <= max {
        Some(decimal_value(word) as u64)
    } else {
        None
    }
}

/// The number written by an optional `+` and then digits, where it is no
/// larger than `max`.
pub open spec fn signed_number(word: Seq<u8>, max: u64) -> Option<u64> {
    if word.len() > 0 && word[0] == 0x2b {
        digits_number(word.skip(1), max)
    } else {
        digits_number(word, max)
    }
}

/// A number in decimal digits, without leading zeros.
pub open spec fn decimal_text(n: nat) -> Seq<u8>
    decreases n,
{
    if n < 10 {
        seq![(0x30 + n) as u8]
    } else {
        decimal_text(n / 10).push((0x30 + n % 10) as u8)
    }
}

/// The views of a list of slices.
pub open spec fn views(parts: Seq<&[u8]>) -> Seq<Seq<u8>> {
    Seq::new(parts.len(), |i: int| parts[i]@)
}

/// The text holds the byte `b` nowhere.
pub open spec fn has_no(s: Seq<u8>, b: u8) -> bool {
    forall|i: int| 0 <= i < s.len() ==> #[trigger] s[i] != b
}

/// The text holds no white space.
pub open spec fn has_no_space(s: Seq<u8>) -> bool {
    forall|i: int| 0 <= i < s.len() ==> !is_space(#[trigger] s[i])
}

/// `skip_spaces` passes over white space only and stops before a byte that
/// is none; `skip_word` does the opposite.
pub proof fn lemma_skip_bounds(s: Seq<u8>, from: int)
    requires
        0 <= from <= s.len(),
    ensures
        from <= skip_spaces(s, from) <= s.len(),
        skip_spaces(s, from) < s.len() ==> !is_space(s[skip_spaces(s, from)]),
        forall|i: int| from <= i < skip_spaces(s, from) ==> is_space(#[trigger] s[i]),
        from <= skip_word(s, from) <= s.len(),
        skip_word(s, from) < s.len() ==> is_space(s[skip_word(s, from)]),
        forall|i: int| from <= i < skip_word(s, from) ==> !is_space(#[trigger] s[i]),
    decreases s.len() - from,
{
    if from < s.len() {
        lemma_skip_bounds(s, from + 1);
    }
}

/// A search that ends inside a text ends at the same place when more text
/// follows.
pub proof fn lemma_find_byte_within(x: Seq<u8>, y: Seq<u8>, b: u8, k: int)
    requires
        0 <= k <= x.len(),
        find_byte(x, b, k) < x.len(),
    ensures
        find_byte(x + y, b, k) == find_byte(x, b, k),
    decreases x.len() - k,
{
    if k < x.len() && x[k] != b {
        assert((x + y)[k] == x[k]);
        lemma_find_byte_within(x, y, b, k + 1);
    }
}

/// A search in the second of two joined texts is the search in that text
/// alone, moved by the length of the first.
pub proof fn lemma_find_byte_shift(p: Seq<u8>, s: Seq<u8>, b: u8, k: int)
    requires
        0 <= k <= s.len(),
    ensures
        find_byte(p + s, b, p.len() + k) == p.len() + find_byte(s, b, k),
    decreases s.len() - k,
{
    if k < s.len() {
        assert((p + s)[p.len() + k] == s[k]);
        if s[k] != b {
            lemma_find_byte_shift(p, s, b, k + 1);
        }
    }
}

/// The lines of the second of two joined texts, read from inside it, are
/// the lines of that text alone.
pub proof fn lemma_lines_from_shift(p: Seq<u8>, s: Seq<u8>, k: int)
    requires
        0 <= k <= s.len(),
    ensures
        lines_from(p + s, p.len() + k) == lines_from(s, k),
    decreases s.len() - k,
{
    if k < s.len() {
        let end = line_end(s, k);
        lemma_find_bounds(s, 0x0a, k);
        lemma_find_byte_shift(p, s, 0x0a, k);
        assert((p + s).subrange(p.len() + k, p.len() + end) =~= s.subrange(k, end));
        if end < s.len() {
            lemma_lines_from_shift(p, s, end + 1);
        }
    }
}

/// Where a text is empty or ends in a line feed, the lines of that text
/// joined with another are the lines of the one, then those of the other.
pub proof fn lemma_lines_append(x: Seq<u8>, y: Seq<u8>, k: int)
    requires
        0 <= k <= x.len(),
        x.len() == 0 || x.last() == 0x0a,
    ensures
        lines_from(x + y, k) == lines_from(x, k) + lines(y),
    decreases x.len() - k,
{
    if k < x.len() {
        let end = line_end(x, k);
        lemma_find_bounds(x, 0x0a, k);
        assert(end < x.len()) by {
            if end == x.len() {
                assert(x[x.len() - 1] != 0x0a);
            }
        }
        lemma_find_byte_within(x, y, 0x0a, k);
        assert((x + y).subrange(k, end) =~= x.subrange(k, end));
        lemma_lines_append(x, y, end + 1);
        assert(seq![x.subrange(k, end)] + (lines_from(x, end + 1) + lines(y)) =~= (seq![
            x.subrange(k, end),
        ] + lines_from(x, end + 1)) + lines(y));
    } else {
        lemma_lines_from_shift(x, y, 0);
        assert(lines_from(x, k) + lines(y) =~= lines(y));
    }
}

/// A text that begins with a line and its line feed has that line first and
/// then the lines of what follows.
pub proof fn lemma_lines_of_line(line: Seq<u8>, rest: Seq<u8>)
    requires
        has_no(line, 0x0a),
    ensures
        lines(line.push(0x0a) + rest) == seq![line] + lines(rest),
{
    let first = line.push(0x0a);
    let text = first + rest;
    lemma_find_bounds(first, 0x0a, 0);
    let end = line_end(first, 0);
    assert(end == line.len()) by {
        if end < line.len() {
            assert(first[end] == line[end]);
        }
        if end > line.len() {
            assert(first[line.len() as int] == 0x0a);
        }
    }
    assert(first.subrange(0, end) =~= line);
    assert(lines_from(first, end + 1) =~= Seq::<Seq<u8>>::empty());
    assert(lines(first) =~= seq![line]);
    lemma_lines_append(first, rest, 0);
}

/// White space that ends inside a text ends at the same place when more text
/// follows.
pub proof fn lemma_skip_spaces_within(x: Seq<u8>, y: Seq<u8>, k: int)
    requires
        0 <= k <= x.len(),
        skip_spaces(x, k) < x.len(),
    ensures
        skip_spaces(x + y, k) == skip_spaces(x, k),
    decreases x.len() - k,
{
    if k < x.len() && is_space(x[k]) {
        assert((x + y)[k] == x[k]);
        lemma_skip_spaces_within(x, y, k + 1);
    } else if k < x.len() {
        assert((x + y)[k] == x[k]);
    }
}

/// A word of a text ends at the same place when what follows the text begins
/// with white space.
pub proof fn lemma_skip_word_within(x: Seq<u8>, y: Seq<u8>, k: int)
    requires
        0 <= k <= x.len(),
        skip_word(x, k) < x.len() || y.len() == 0 || is_space(y[0]),
    ensures
        skip_word(x + y, k) == skip_word(x, k),
    decreases x.len() - k,
{
    if k < x.len() {
        assert((x + y)[k] == x[k]);
        if !is_space(x[k]) {
            lemma_skip_word_within(x, y, k + 1);
        }
    } else if y.len() > 0 {
        assert((x + y)[k] == y[0]);
    }
}

/// The scans for white space in the second of two joined texts are the
/// scans in that text alone, moved by the length of the first.
pub proof fn lemma_skip_shift(p: Seq<u8>, s: Seq<u8>, k: int)
    requires
        0 <= k <= s.len(),
    ensures
        skip_spaces(p + s, p.len() + k) == p.len() + skip_spaces(s, k),
        skip_word(p + s, p.len() + k) == p.len() + skip_word(s, k),
    decreases s.len() - k,
{
    if k < s.len() {
        assert((p + s)[p.len() + k] == s[k]);
        lemma_skip_shift(p, s, k + 1);
    }
}

/// The words of the second of two joined texts, read from inside it, are
/// the words of that text alone.
pub proof fn lemma_words_from_shift(p: Seq<u8>, s: Seq<u8>, k: int)
    requires
        0 <= k <= s.len(),
    ensures
        words_from(p + s, p.len() + k) == words_from(s, k),
    decreases s.len() - k,
{
    let start = skip_spaces(s, k);
    lemma_skip_bounds(s, k);
    lemma_skip_shift(p, s, k);
    if start < s.len() {
        let end = skip_word(s, start + 1);
        lemma_skip_bounds(s, start + 1);
        lemma_skip_shift(p, s, start + 1);
        assert((p + s).subrange(p.len() + start, p.len() + end) =~= s.subrange(start, end));
        lemma_words_from_shift(p, s, end);
    }
}

/// Where what follows a text is empty or begins with white space, the words
/// of both joined are the words of the text, then those of what follows.
pub proof fn lemma_words_append(x: Seq<u8>, y: Seq<u8>, k: int)
    requires
        0 <= k <= x.len(),
        y.len() == 0 || is_space(y[0]),
    ensures
        words_from(x + y, k) == words_from(x, k) + words(y),
    decreases x.len() - k,
{
    let start = skip_spaces(x, k);
    lemma_skip_bounds(x, k);
    if start < x.len() {
        let end = skip_word(x, start + 1);
        lemma_skip_bounds(x, start + 1);
        lemma_skip_spaces_within(x, y, k);
        lemma_skip_word_within(x, y, start + 1);
        assert((x + y).subrange(start, end) =~= x.subrange(start, end));
        lemma_words_append(x, y, end);
        assert(seq![x.subrange(start, end)] + (words_from(x, end) + words(y)) =~= (seq![
            x.subrange(start, end),
        ] + words_from(x, end)) + words(y));
    } else {
        lemma_skip_shift(x, y, 0);
        lemma_skip_bounds(y, 0);
        lemma_spaces_then(x + y, k, x.len() as int);
        lemma_words_from_shift(x, y, 0);
        assert(words_from(x, k) + words(y) =~= words(y));
    }
}

/// White space before a place adds no word: the words from `k` on are the
/// words from `m` on where only white space lies between the two.
pub proof fn lemma_spaces_then(s: Seq<u8>, k: int, m: int)
    requires
        0 <= k <= m <= s.len(),
        forall|i: int| k <= i < m ==> is_space(#[trigger] s[i]),
    ensures
        skip_spaces(s, k) == skip_spaces(s, m),
        words_from(s, k) == words_from(s, m),
    decreases m - k,
{
    if k < m {
        assert(is_space(s[k]));
        lemma_spaces_then(s, k + 1, m);
    }
}

/// A text without white space is one word, also after a single space.
pub proof fn lemma_words_single(word: Seq<u8>)
    requires
        word.len() > 0,
        has_no_space(word),
    ensures
        words(word) == seq![word],
        words(seq![0x20u8] + word) == seq![word],
{
    lemma_skip_bounds(word, 0);
    lemma_skip_bounds(word, 1);
    assert(skip_spaces(word, 0) == 0);
    let end = skip_word(word, 1);
    assert(end == word.len()) by {
        if end < word.len() {
            assert(!is_space(word[end]));
        }
    }
    assert(word.subrange(0, end) =~= word);
    assert(words_from(word, end) =~= Seq::<Seq<u8>>::empty());
    assert(words(word) =~= seq![word]);
    let spaced = seq![0x20u8] + word;
    assert(is_space(spaced[0]));
    lemma_spaces_then(spaced, 0, 1);
    lemma_words_from_shift(seq![0x20u8], word, 0);
}

/// The value of a run of digits never falls when digits are appended.
pub proof fn lemma_decimal_prefix(digits: Seq<u8>, k: int)
    requires
        0 <= k <= digits.len(),
        all_digits(digits),
    ensures
        decimal_value(digits.take(k)) <= decimal_value(digits),
    decreases digits.len() - k,
{
    if k < digits.len() {
        lemma_decimal_prefix(digits, k + 1);
        assert(digits.take(k + 1).drop_last() =~= digits.take(k));
        assert(is_digit(digits[k]));
    } else {
        assert(digits.take(k) =~= digits);
    }
}

/// The digits written for a number denote that number.
pub proof fn lemma_decimal_round_trip(n: nat)
    ensures
        decimal_text(n).len() >= 1,
        all_digits(decimal_text(n)),
        decimal_value(decimal_text(n)) == n,
    decreases n,
{
    if n >= 10 {
        lemma_decimal_round_trip(n / 10);
        let text = decimal_text(n);
        assert(text.drop_last() =~= decimal_text(n / 10));
    } else {
        let text = decimal_text(n);
        assert(text.drop_last() =~= Seq::<u8>::empty());
        assert(decimal_value(text.drop_last()) == 0);
    }
}

/// Appends a number in decimal digits.
pub fn push_decimal(out: &mut Vec<u8>, n: u64)
    ensures
        final(out)@ == old(out)@ + decimal_text(n as nat),
    decreases n,
{
    if n >= 10 {
        push_decimal(out, n / 10);
    }
    let digit: u8 = (n % 10) as u8;
    out.push(0x30 + digit);
    proof {
        if n >= 10 {
            assert(final(out)@ =~= old(out)@ + decimal_text(n as nat));
        } else {
            assert(final(out)@ =~= old(out)@ + decimal_text(n as nat));
        }
    }
}

/// Whether a byte is white space.
pub fn is_space_byte(b: u8) -> (space: bool)
    ensures
        space == is_space(b),
{
    b == 0x20 || (0x09 <= b && b <= 0x0d)
}

/// Reads a number written in decimal digits only.
pub fn parse_digits(word: &[u8], max: u64) -> (value: Option<u64>)
    ensures
        value == digits_number(word@, max),
{
    if word.len() == 0 {
        return None;
    }
    let mut acc: u64 = 0;
    let mut i: usize = 0;
    while i < word.len()
        invariant
            i <= word@.len(),
            all_digits(word@.take(i as int)),
            acc == decimal_value(word@.take(i as int)),
            acc <= max,
        decreases word@.len() - i,
    {
        let b: u8 = word[i];
        if b < 0x30 || b > 0x39 {
            assert(!is_digit(word@[i as int]));
            return None;
        }
        let digit: u64 = (b - 0x30) as u64;
        assert(word@.take(i + 1).drop_last() =~= word@.take(i as int));
        assert(decimal_value(word@.take(i + 1)) == acc * 10 + digit);
        if digit > max || acc > (max - digit) / 10 {
            proof {
                if all_digits(word@) {
                    lemma_decimal_prefix(word@, i + 1);
                }
            }
            return None;
        }
        acc = acc * 10 + digit;
        i = i + 1;
    }
    assert(word@.take(i as int) =~= word@);
    Some(acc)
}

/// Reads a number written in decimal digits, with or without a leading `+`.
pub fn parse_number(word: &[u8], max: u64) -> (value: Option<u64>)
    ensures
        value == signed_number(word@, max),
{
    if word.len() > 0 && word[0] == 0x2b {
        parse_digits(slice_subrange(word, 1, word.len()), max)
    } else {
        parse_digits(word, max)
    }
}

/// Splits a line into its words.
pub fn split_words(line: &[u8]) -> (parts: Vec<&[u8]>)
    ensures
        views(parts@) == words(line@),
{
    let mut parts: Vec<&[u8]> = Vec::new();
    let mut pos: usize = 0;
    loop
        invariant
            pos <= line@.len(),
            words(line@) == views(parts@) + words_from(line@, pos as int),
        ensures
            views(parts@) == words(line@),
        decreases line@.len() - pos,
    {
        let mut start: usize = pos;
        while start < line.len() && is_space_byte(line[start])
            invariant
                pos <= start <= line@.len(),
                skip_spaces(line@, pos as int) == skip_spaces(line@, start as int),
            decreases line@.len() - start,
        {
            start = start + 1;
        }
        if start >= line.len() {
            assert(views(parts@) + Seq::<Seq<u8>>::empty() =~= views(parts@));
            break;
        }
        let mut end: usize = start + 1;
        while end < line.len() && !is_space_byte(line[end])
            invariant
                start < end <= line@.len(),
                skip_word(line@, start + 1) == skip_word(line@, end as int),
            decreases line@.len() - end,
        {
            end = end + 1;
        }
        let word = slice_subrange(line, start, end);
        let ghost before = views(parts@);
        parts.push(word);
        proof {
            let rest = words_from(line@, end as int);
            assert(views(parts@) =~= before.push(word@));
            assert(words_from(line@, pos as int) == seq![word@] + rest);
            assert(before + (seq![word@] + rest) =~= before.push(word@) + rest);
        }
        pos = end;
    }
    parts
}

/// Splits a text into its lines.
pub fn split_lines(text: &[u8]) -> (parts: Vec<&[u8]>)
    ensures
        views(parts@) == lines(text@),
{
    let mut parts: Vec<&[u8]> = Vec::new();
    let mut pos: usize = 0;
    while pos < text.len()
        invariant
            lines(text@) == views(parts@) + lines_from(text@, pos as int),
        decreases text@.len() - pos,
    {
        let mut end: usize = pos;
        while end < text.len() && text[end] != 0x0a
            invariant
                pos <= end <= text@.len(),
                line_end(text@, pos as int) == line_end(text@, end as int),
            decreases text@.len() - end,
        {
            end = end + 1;
        }
        let line = slice_subrange(text, pos, end);
        let ghost before = views(parts@);
        parts.push(line);
        proof {
            let rest = if end < text@.len() {
                lines_from(text@, end + 1)
            } else {
                Seq::empty()
            };
            assert(views(parts@) =~= before.push(line@));
            assert(lines_from(text@, pos as int) =~= seq![line@] + rest);
            assert(before + (seq![line@] + rest) =~= before.push(line@) + rest);
        }
        if end < text.len() {
            pos = end + 1;
        } else {
            pos = end;
        }
    }
    assert(views(parts@) + Seq::<Seq<u8>>::empty() =~= views(parts@));
    parts
}

} // verus!
