//! Text as sequences of characters: lines, words, separators and decimal numbers.
//!
//! Configuration files and kernel tables are read as `&str` and taken apart here. Each
//! executable function states its result over the sequence of characters it was given.
use vstd::prelude::*;
use vstd::slice::slice_subrange;

verus! {

/// `String::push` appends the given character to the end of the string.
pub assume_specification[ String::push ](s: &mut String, c: char)
    ensures
        final(s)@ == old(s)@.push(c),
;

/// The characters with the Unicode `White_Space` property.
pub open spec fn is_space(c: char) -> bool {
    ||| '\u{9}' <= c <= '\u{d}'
    ||| c == '\u{20}'
    ||| c == '\u{85}'
    ||| c == '\u{a0}'
    ||| c == '\u{1680}'
    ||| '\u{2000}' <= c <= '\u{200a}'
    ||| c == '\u{2028}'
    ||| c == '\u{2029}'
    ||| c == '\u{202f}'
    ||| c == '\u{205f}'
    ||| c == '\u{3000}'
}

/// Whether `c` is white space.
pub fn is_whitespace(c: char) -> (r: bool)
    ensures
        r == is_space(c),
{
    ('\u{9}' <= c && c <= '\u{d}') || c == '\u{20}' || c == '\u{85}' || c == '\u{a0}' || c
        == '\u{1680}' || ('\u{2000}' <= c && c <= '\u{200a}') || c == '\u{2028}' || c == '\u{2029}'
        || c == '\u{202f}' || c == '\u{205f}' || c == '\u{3000}'
}

/// The character sequences of a list of slices.
pub open spec fn views(parts: Seq<&[char]>) -> Seq<Seq<char>> {
    Seq::new(parts.len(), |i: int| parts[i]@)
}

/// The characters of `text`, in order.
pub fn to_chars(text: &str) -> (r: Vec<char>)
    ensures
        r@ == text@,
{
    let mut out: Vec<char> = Vec::new();
    for c in it: text.chars()
        invariant
            out@ == it.seq().take(it.index()),
    {
        out.push(c);
    }
    out
}

/// The string with the characters of `text`.
pub fn to_text(text: &[char]) -> (r: String)
    ensures
        r@ == text@,
{
    let mut out = String::new();
    push_chars(&mut out, text);
    out
}

/// Appends the characters of `text` to `out`.
pub fn push_chars(out: &mut String, text: &[char])
    ensures
        final(out)@ == old(out)@ + text@,
{
    let ghost start = out@;
    let mut i: usize = 0;
    while i < text.len()
        invariant
            i <= text@.len(),
            out@ == start + text@.take(i as int),
        decreases text@.len() - i,
    {
        out.push(text[i]);
        i += 1;
    }
    assert(text@.take(text@.len() as int) == text@);
}

/// Whether `text` reads exactly `word`.
pub fn reads(text: &[char], word: &str) -> (r: bool)
    ensures
        r == (text@ == word@),
{
    let chars = to_chars(word);
    if text.len() != chars.len() {
        return false;
    }
    let mut i: usize = 0;
    while i < text.len()
        invariant
            i <= text@.len(),
            chars@ == word@,
            text@.len() == chars@.len(),
            text@.take(i as int) == chars@.take(i as int),
        decreases text@.len() - i,
    {
        if text[i] != chars[i] {
            assert(text@[i as int] != word@[i as int]);
            return false;
        }
        i += 1;
    }
    assert(text@.take(text@.len() as int) == text@);
    assert(chars@.take(text@.len() as int) == chars@);
    true
}

/// The number of characters of `s` before the first `c`; all of them when there is none.
pub open spec fn find(s: Seq<char>, c: char) -> nat
    decreases s.len(),
{
    if s.len() == 0 || s[0] == c {
        0
    } else {
        1 + find(s.drop_first(), c)
    }
}

/// `find` stops at the first occurrence.
pub proof fn lemma_find(s: Seq<char>, c: char, at: int)
    requires
        0 <= at <= s.len(),
        forall|i: int| 0 <= i < at ==> s[i] != c,
        at < s.len() ==> s[at] == c,
    ensures
        find(s, c) == at,
    decreases s.len(),
{
    if s.len() > 0 && s[0] != c {
        lemma_find(s.drop_first(), c, at - 1);
    }
}

/// What `find` says of the characters before and at its result.
pub proof fn lemma_find_meaning(s: Seq<char>, c: char)
    ensures
        find(s, c) <= s.len(),
        forall|i: int| 0 <= i < find(s, c) ==> s[i] != c,
        find(s, c) < s.len() ==> s[find(s, c) as int] == c,
    decreases s.len(),
{
    if s.len() > 0 && s[0] != c {
        let rest = s.drop_first();
        lemma_find_meaning(rest, c);
        assert forall|i: int| 0 <= i < find(s, c) implies s[i] != c by {
            if i > 0 {
                assert(rest[i - 1] == s[i]);
            }
        }
    }
}

/// The position of the first `c` in `text`, or its length.
pub fn position(text: &[char], c: char) -> (r: usize)
    ensures
        r == find(text@, c),
        r <= text@.len(),
{
    let mut i: usize = 0;
    while i < text.len()
        invariant
            i <= text@.len(),
            forall|j: int| 0 <= j < i ==> text@[j] != c,
        decreases text@.len() - i,
    {
        if text[i] == c {
            proof {
                lemma_find(text@, c, i as int);
            }
            return i;
        }
        i += 1;
    }
    proof {
        lemma_find(text@, c, i as int);
    }
    i
}

/// `s` without its leading white space.
pub open spec fn trimmed_start(s: Seq<char>) -> Seq<char>
    decreases s.len(),
{
    if s.len() > 0 && is_space(s[0]) {
        trimmed_start(s.drop_first())
    } else {
        s
    }
}

/// `s` without its trailing white space.
pub open spec fn trimmed_end(s: Seq<char>) -> Seq<char>
    decreases s.len(),
{
    if s.len() > 0 && is_space(s.last()) {
        trimmed_end(s.drop_last())
    } else {
        s
    }
}

/// `s` without the white space around it.
pub open spec fn trimmed(s: Seq<char>) -> Seq<char> {
    trimmed_end(trimmed_start(s))
}

/// `text` without the white space around it.
pub fn trim<'a>(text: &'a [char]) -> (r: &'a [char])
    ensures
        r@ == trimmed(text@),
{
    let mut start: usize = 0;
    assert(text@.skip(0) == text@);
    while start < text.len() && is_whitespace(text[start])
        invariant
            start <= text@.len(),
            trimmed_start(text@) == trimmed_start(text@.skip(start as int)),
        decreases text@.len() - start,
    {
        assert(text@.skip(start as int).drop_first() == text@.skip(start + 1));
        start += 1;
    }
    let ghost tail = text@.skip(start as int);
    assert(trimmed_start(text@) == tail);
    let mut end: usize = text.len();
    assert(text@.subrange(start as int, end as int) == tail);
    while start < end && is_whitespace(text[end - 1])
        invariant
            start <= end <= text@.len(),
            trimmed_end(tail) == trimmed_end(text@.subrange(start as int, end as int)),
        decreases end,
    {
        assert(text@.subrange(start as int, end as int).drop_last() == text@.subrange(
            start as int,
            end - 1,
        ));
        end -= 1;
    }
    slice_subrange(text, start, end)
}

/// `s` without the quotation marks at its beginning.
pub open spec fn unquoted_start(s: Seq<char>) -> Seq<char>
    decreases s.len(),
{
    if s.len() > 0 && s[0] == '"' {
        unquoted_start(s.drop_first())
    } else {
        s
    }
}

/// `s` without the quotation marks at its end.
pub open spec fn unquoted_end(s: Seq<char>) -> Seq<char>
    decreases s.len(),
{
    if s.len() > 0 && s.last() == '"' {
        unquoted_end(s.drop_last())
    } else {
        s
    }
}

/// `s` without the quotation marks around it.
pub open spec fn unquoted(s: Seq<char>) -> Seq<char> {
    unquoted_end(unquoted_start(s))
}

/// `text` without the quotation marks around it, however many there are.
pub fn unquote<'a>(text: &'a [char]) -> (r: &'a [char])
    ensures
        r@ == unquoted(text@),
{
    let mut start: usize = 0;
    assert(text@.skip(0) == text@);
    while start < text.len() && text[start] == '"'
        invariant
            start <= text@.len(),
            unquoted_start(text@) == unquoted_start(text@.skip(start as int)),
        decreases text@.len() - start,
    {
        assert(text@.skip(start as int).drop_first() == text@.skip(start + 1));
        start += 1;
    }
    let ghost tail = text@.skip(start as int);
    assert(unquoted_start(text@) == tail);
    let mut end: usize = text.len();
    assert(text@.subrange(start as int, end as int) == tail);
    while start < end && text[end - 1] == '"'
        invariant
            start <= end <= text@.len(),
            unquoted_end(tail) == unquoted_end(text@.subrange(start as int, end as int)),
        decreases end,
    {
        assert(text@.subrange(start as int, end as int).drop_last() == text@.subrange(
            start as int,
            end - 1,
        ));
        end -= 1;
    }
    slice_subrange(text, start, end)
}

/// `s` without one carriage return at its end.
pub open spec fn without_return(s: Seq<char>) -> Seq<char> {
    if s.len() > 0 && s.last() == '\r' {
        s.drop_last()
    } else {
        s
    }
}

/// The lines of `s`: each ends with a line feed, or a carriage return and a line feed, which is
/// not part of it. The ending of the last line may be missing.
pub open spec fn lines_of(s: Seq<char>) -> Seq<Seq<char>>
    decreases s.len(),
{
    let end = find(s, '\n') as int;
    if s.len() == 0 {
        seq![]
    } else if end >= s.len() {
        seq![s]
    } else {
        seq![without_return(s.take(end))] + lines_of(s.skip(end + 1))
    }
}

/// The lines of `text`.
pub fn lines<'a>(text: &'a [char]) -> (r: Vec<&'a [char]>)
    ensures
        views(r@) == lines_of(text@),
{
    let mut out: Vec<&'a [char]> = Vec::new();
    let mut rest = text;
    assert(views(out@) + lines_of(rest@) == lines_of(text@));
    while rest.len() > 0
        invariant
            views(out@) + lines_of(rest@) == lines_of(text@),
        decreases rest@.len(),
    {
        let ghost before = out@;
        let end = position(rest, '\n');
        if end == rest.len() {
            out.push(rest);
            assert(views(out@) == views(before).push(rest@));
            assert(views(out@) == lines_of(text@));
            return out;
        }
        let mut stop = end;
        if end > 0 && rest[end - 1] == '\r' {
            stop = end - 1;
        }
        assert(rest@.take(stop as int) == without_return(rest@.take(end as int)));
        let ghost previous = rest@;
        out.push(slice_subrange(rest, 0, stop));
        rest = slice_subrange(rest, end + 1, rest.len());
        assert(rest@ == previous.skip(end + 1));
        assert(views(out@) == views(before).push(without_return(previous.take(end as int))));
        assert(views(out@) + lines_of(rest@) == views(before) + lines_of(previous));
    }
    out
}

/// The number of characters of `s` before its first white space.
pub open spec fn word_length(s: Seq<char>) -> nat
    decreases s.len(),
{
    if s.len() == 0 || is_space(s[0]) {
        0
    } else {
        1 + word_length(s.drop_first())
    }
}

/// The longest runs of characters of `s` that are not white space.
pub open spec fn words_of(s: Seq<char>) -> Seq<Seq<char>>
    decreases s.len(),
{
    if s.len() == 0 {
        seq![]
    } else if is_space(s[0]) {
        words_of(s.drop_first())
    } else {
        let end = word_length(s) as int;
        proof {
            lemma_word_length_bound(s);
        }
        seq![s.take(end)] + words_of(s.skip(end))
    }
}

/// A word of `s` is no longer than `s`.
pub proof fn lemma_word_length_bound(s: Seq<char>)
    ensures
        word_length(s) <= s.len(),
    decreases s.len(),
{
    if s.len() > 0 && !is_space(s[0]) {
        lemma_word_length_bound(s.drop_first());
    }
}

/// A word of `at` characters that ends at white space, or at the end of `s`.
pub proof fn lemma_word_length(s: Seq<char>, at: int)
    requires
        0 <= at <= s.len(),
        forall|i: int| 0 <= i < at ==> !is_space(s[i]),
        at < s.len() ==> is_space(s[at]),
    ensures
        word_length(s) == at,
    decreases s.len(),
{
    if s.len() > 0 && !is_space(s[0]) {
        lemma_word_length(s.drop_first(), at - 1);
    }
}

/// The words of `text`.
pub fn split_whitespace<'a>(text: &'a [char]) -> (r: Vec<&'a [char]>)
    ensures
        views(r@) == words_of(text@),
{
    let mut out: Vec<&'a [char]> = Vec::new();
    let mut start: usize = 0;
    assert(text@.skip(0) == text@);
    assert(views(out@) + words_of(text@) == words_of(text@));
    while start < text.len()
        invariant
            start <= text@.len(),
            views(out@) + words_of(text@.skip(start as int)) == words_of(text@),
        decreases text@.len() - start,
    {
        let ghost rest = text@.skip(start as int);
        if is_whitespace(text[start]) {
            assert(rest.drop_first() == text@.skip(start + 1));
            start += 1;
        } else {
            let mut end: usize = start;
            while end < text.len() && !is_whitespace(text[end])
                invariant
                    start <= end <= text@.len(),
                    forall|i: int| start <= i < end ==> !is_space(text@[i]),
                    end == start ==> start < text@.len() && !is_space(text@[start as int]),
                decreases text@.len() - end,
            {
                end += 1;
            }
            let ghost before = out@;
            proof {
                lemma_word_length(rest, end - start);
            }
            out.push(slice_subrange(text, start, end));
            assert(text@.subrange(start as int, end as int) == rest.take(end - start));
            assert(text@.skip(end as int) == rest.skip(end - start));
            assert(views(out@) == views(before).push(rest.take(end - start)));
            assert(views(out@) + words_of(text@.skip(end as int)) == views(before) + words_of(rest));
            start = end;
        }
    }
    assert(text@.skip(start as int).len() == 0);
    out
}

/// What stands before and after the first `c` of `s`, when it has one.
pub open spec fn split_first(s: Seq<char>, c: char) -> Option<(Seq<char>, Seq<char>)> {
    let at = find(s, c) as int;
    if at < s.len() {
        Some((s.take(at), s.skip(at + 1)))
    } else {
        None
    }
}

/// What stands before and after the first `c` of `text`, when it has one.
pub fn split_once<'a>(text: &'a [char], c: char) -> (r: Option<(&'a [char], &'a [char])>)
    ensures
        match r {
            Some(parts) => split_first(text@, c) == Some((parts.0@, parts.1@)),
            None => split_first(text@, c) is None,
        },
{
    let at = position(text, c);
    if at < text.len() {
        let head = slice_subrange(text, 0, at);
        let tail = slice_subrange(text, at + 1, text.len());
        assert(head@ == text@.take(at as int));
        assert(tail@ == text@.skip(at + 1));
        Some((head, tail))
    } else {
        None
    }
}

/// The parts of `s` between one `c` and the next; there is always one.
pub open spec fn pieces(s: Seq<char>, c: char) -> Seq<Seq<char>>
    decreases s.len(),
{
    let at = find(s, c) as int;
    if at >= s.len() {
        seq![s]
    } else {
        seq![s.take(at)] + pieces(s.skip(at + 1), c)
    }
}

/// The parts of `text` between one `c` and the next.
pub fn split<'a>(text: &'a [char], c: char) -> (r: Vec<&'a [char]>)
    ensures
        views(r@) == pieces(text@, c),
{
    let mut out: Vec<&'a [char]> = Vec::new();
    let mut rest = text;
    assert(views(out@) + pieces(rest@, c) == pieces(text@, c));
    loop
        invariant
            views(out@) + pieces(rest@, c) == pieces(text@, c),
        decreases rest@.len(),
    {
        let ghost before = out@;
        let at = position(rest, c);
        if at == rest.len() {
            out.push(rest);
            assert(views(out@) == views(before).push(rest@));
            assert(views(out@) == pieces(text@, c));
            return out;
        }
        let ghost previous = rest@;
        out.push(slice_subrange(rest, 0, at));
        rest = slice_subrange(rest, at + 1, rest.len());
        assert(rest@ == previous.skip(at + 1));
        assert(previous.subrange(0, at as int) == previous.take(at as int));
        assert(views(out@) == views(before).push(previous.take(at as int)));
        assert(views(out@) + pieces(rest@, c) == views(before) + pieces(previous, c));
    }
}

/// The decimal digits.
pub open spec fn is_digit(c: char) -> bool {
    '0' <= c <= '9'
}

/// What a digit stands for.
pub open spec fn digit_value(c: char) -> nat {
    (c as int - '0' as int) as nat
}

/// Whether every character of `s` is a digit.
pub open spec fn all_digits(s: Seq<char>) -> bool {
    forall|i: int| 0 <= i < s.len() ==> is_digit(#[trigger] s[i])
}

/// The number that the digits of `s` write down.
pub open spec fn value_of(s: Seq<char>) -> nat
    decreases s.len(),
{
    if s.len() == 0 {
        0
    } else {
        value_of(s.drop_last()) * 10 + digit_value(s.last())
    }
}

/// `s` without one plus sign at its beginning.
pub open spec fn unsigned_digits(s: Seq<char>) -> Seq<char> {
    if s.len() > 0 && s[0] == '+' {
        s.drop_first()
    } else {
        s
    }
}

/// The unsigned decimal number that `s` writes down, if it is at most `max`: an optional plus
/// sign and one or more digits.
pub open spec fn number(s: Seq<char>, max: nat) -> Option<nat> {
    let digits = unsigned_digits(s);
    if digits.len() > 0 && all_digits(digits) && value_of(digits) <= max {
        Some(value_of(digits))
    } else {
        None
    }
}

/// More digits never make a number smaller.
proof fn lemma_value_grows(s: Seq<char>, n: int)
    requires
        0 <= n <= s.len(),
    ensures
        value_of(s.take(n)) <= value_of(s),
    decreases s.len(),
{
    if n == s.len() {
        assert(s.take(n) == s);
    } else {
        lemma_value_grows(s.drop_last(), n);
        assert(s.drop_last().take(n) == s.take(n));
    }
}

/// Reads `text` as an unsigned decimal number.
pub fn parse_u64(text: &[char]) -> (r: Option<u64>)
    ensures
        match r {
            Some(n) => number(text@, u64::MAX as nat) == Some(n as nat),
            None => number(text@, u64::MAX as nat) is None,
        },
{
    let digits = if text.len() > 0 && text[0] == '+' {
        slice_subrange(text, 1, text.len())
    } else {
        text
    };
    assert(digits@ == unsigned_digits(text@));
    if digits.len() == 0 {
        return None;
    }
    let mut total: u64 = 0;
    let mut i: usize = 0;
    while i < digits.len()
        invariant
            digits@ == unsigned_digits(text@),
            i <= digits@.len(),
            all_digits(digits@.take(i as int)),
            total == value_of(digits@.take(i as int)),
        decreases digits@.len() - i,
    {
        let c = digits[i];
        assert(digits@[i as int] == c);
        if c < '0' || c > '9' {
            return None;
        }
        let digit: u64 = c as u64 - '0' as u64;
        let ghost next = digits@.take(i + 1);
        assert(next.drop_last() == digits@.take(i as int));
        proof {
            if all_digits(digits@) {
                lemma_value_grows(digits@, i + 1);
            }
        }
        assert(value_of(next) == total * 10 + digit);
        if total > u64::MAX / 10 || total * 10 > u64::MAX - digit {
            return None;
        }
        total = total * 10 + digit;
        assert(all_digits(next)) by {
            assert forall|j: int| 0 <= j < next.len() implies is_digit(#[trigger] next[j]) by {
                if j < i {
                    assert(digits@.take(i as int)[j] == next[j]);
                }
            }
        }
        i += 1;
    }
    assert(digits@.take(i as int) == digits@);
    Some(total)
}

/// Reads `text` as an unsigned decimal number of at most 32 bits.
pub fn parse_u32(text: &[char]) -> (r: Option<u32>)
    ensures
        match r {
            Some(n) => number(text@, u32::MAX as nat) == Some(n as nat),
            None => number(text@, u32::MAX as nat) is None,
        },
{
    match parse_u64(text) {
        Some(n) => if n <= u32::MAX as u64 {
            Some(n as u32)
        } else {
            None
        },
        None => None,
    }
}

/// The digit that stands for `n`.
pub open spec fn digit_char(n: nat) -> char {
    (('0' as int) + n) as char
}

/// `n` in decimal, without leading zeros.
pub open spec fn decimal(n: nat) -> Seq<char>
    decreases n,
{
    if n < 10 {
        seq![digit_char(n)]
    } else {
        decimal(n / 10).push(digit_char(n % 10))
    }
}

/// Appends `n` in decimal to `out`.
pub fn push_decimal(out: &mut String, n: u64)
    ensures
        final(out)@ == old(out)@ + decimal(n as nat),
    decreases n,
{
    if n >= 10 {
        push_decimal(out, n / 10);
    }
    let digit: u8 = 48 + (n % 10) as u8;
    assert(digit as char == digit_char((n % 10) as nat));
    out.push(digit as char);
}

/// A decimal number is made of digits and reads back as itself.
pub proof fn lemma_decimal(n: nat)
    ensures
        decimal(n).len() > 0,
        all_digits(decimal(n)),
        value_of(decimal(n)) == n,
    decreases n,
{
    if n < 10 {
        assert(decimal(n).drop_last() == Seq::<char>::empty());
        assert(value_of(Seq::<char>::empty()) == 0);
    } else {
        lemma_decimal(n / 10);
        assert(decimal(n).drop_last() == decimal(n / 10));
        assert forall|i: int| 0 <= i < decimal(n).len() implies is_digit(#[trigger] decimal(n)[i]) by {
            if i < decimal(n / 10).len() {
                assert(decimal(n)[i] == decimal(n / 10)[i]);
            }
        }
    }
}

/// Writing a number in decimal and reading it gives the number back.
pub proof fn lemma_number_of_decimal(n: nat, max: nat)
    requires
        n <= max,
    ensures
        number(decimal(n), max) == Some(n),
{
    lemma_decimal(n);
    assert(is_digit(decimal(n)[0]));
    assert(unsigned_digits(decimal(n)) == decimal(n));
}

/// The lower-case form of an ASCII letter; other characters are left alone.
pub open spec fn lower(c: char) -> char {
    if 'A' <= c <= 'Z' {
        (c as int + 32) as char
    } else {
        c
    }
}

/// `s` with its ASCII letters in lower case.
pub open spec fn lowered(s: Seq<char>) -> Seq<char> {
    Seq::new(s.len(), |i: int| lower(s[i]))
}

/// `text` with its ASCII letters in lower case.
pub fn to_ascii_lowercase(text: &[char]) -> (r: Vec<char>)
    ensures
        r@ == lowered(text@),
{
    let mut out: Vec<char> = Vec::new();
    let mut i: usize = 0;
    while i < text.len()
        invariant
            i <= text@.len(),
            out@ == lowered(text@).take(i as int),
        decreases text@.len() - i,
    {
        let c = text[i];
        if 'A' <= c && c <= 'Z' {
            let byte: u8 = c as u8 + 32;
            assert(byte as char == lower(c));
            out.push(byte as char);
        } else {
            out.push(c);
        }
        i += 1;
    }
    out
}

/// The upper-case form of an ASCII letter; other characters stay.
pub open spec fn upper(c: char) -> char {
    if 'a' <= c <= 'z' {
        (c as int - 32) as char
    } else {
        c
    }
}

/// `s` with its ASCII letters in upper case.
pub open spec fn uppered(s: Seq<char>) -> Seq<char> {
    Seq::new(s.len(), |i: int| upper(s[i]))
}

/// `text` with its ASCII letters in upper case.
pub fn to_ascii_uppercase(text: &[char]) -> (r: Vec<char>)
    ensures
        r@ == uppered(text@),
{
    let mut out: Vec<char> = Vec::new();
    let mut i: usize = 0;
    while i < text.len()
        invariant
            i <= text@.len(),
            out@ == uppered(text@).take(i as int),
        decreases text@.len() - i,
    {
        let c = text[i];
        out.push(
            if 'a' <= c && c <= 'z' {
                (c as u8 - 32) as char
            } else {
                c
            },
        );
        assert(out@ =~= uppered(text@).take(i + 1));
        i += 1;
    }
    assert(out@ =~= uppered(text@));
    out
}

/// Whether `c` does not occur in `s`.
pub open spec fn free_of(s: Seq<char>, c: char) -> bool {
    forall|i: int| 0 <= i < s.len() ==> s[i] != c
}

/// Whether `c` does not occur in the first `n` characters of `s`.
pub open spec fn free_upto(s: Seq<char>, c: char, n: nat) -> bool
    decreases n,
{
    n == 0 || (s[n - 1] != c && free_upto(s, c, (n - 1) as nat))
}

/// Looking at the characters one by one.
pub proof fn lemma_free_upto(s: Seq<char>, c: char, n: nat)
    requires
        free_upto(s, c, n),
    ensures
        forall|i: int| 0 <= i < n ==> s[i] != c,
    decreases n,
{
    if n > 0 {
        lemma_free_upto(s, c, (n - 1) as nat);
    }
}

/// Whether `s` is a word: not empty, and without white space.
pub open spec fn is_word(s: Seq<char>) -> bool {
    s.len() > 0 && forall|i: int| 0 <= i < s.len() ==> !is_space(#[trigger] s[i])
}

/// Whether the first `n` characters of `s` are not white space.
pub open spec fn word_upto(s: Seq<char>, n: nat) -> bool
    decreases n,
{
    n == 0 || (!is_space(s[n - 1]) && word_upto(s, (n - 1) as nat))
}

/// Looking at the characters of a word one by one.
pub proof fn lemma_word_upto(s: Seq<char>, n: nat)
    requires
        word_upto(s, n),
    ensures
        forall|i: int| 0 <= i < n ==> !is_space(#[trigger] s[i]),
    decreases n,
{
    if n > 0 {
        lemma_word_upto(s, (n - 1) as nat);
    }
}

/// A line and its ending, then more text.
pub proof fn lemma_line(line: Seq<char>, rest: Seq<char>)
    requires
        free_of(line, '\n'),
        line.len() > 0 ==> line.last() != '\r',
    ensures
        lines_of(line + seq!['\n'] + rest) == seq![line] + lines_of(rest),
{
    let all = line + seq!['\n'] + rest;
    assert(all[line.len() as int] == '\n');
    lemma_find(all, '\n', line.len() as int);
    assert(all.take(line.len() as int) == line);
    assert(all.skip(line.len() as int + 1) == rest);
}

/// A word and a space, then more text.
pub proof fn lemma_word(word: Seq<char>, rest: Seq<char>)
    requires
        is_word(word),
    ensures
        words_of(word + seq![' '] + rest) == seq![word] + words_of(rest),
{
    let all = word + seq![' '] + rest;
    let n = word.len() as int;
    assert(all[n] == ' ');
    assert(!is_space(word[0]));
    assert forall|i: int| 0 <= i < n implies !is_space(all[i]) by {
        assert(all[i] == word[i]);
    }
    lemma_word_length(all, n);
    assert(all.take(n) == word);
    assert(all.skip(n)[0] == ' ');
    assert(all.skip(n).drop_first() == rest);
    assert(words_of(all.skip(n)) == words_of(rest));
}

/// A word by itself.
pub proof fn lemma_last_word(word: Seq<char>)
    requires
        is_word(word),
    ensures
        words_of(word) == seq![word],
{
    let n = word.len() as int;
    assert(!is_space(word[0]));
    lemma_word_length(word, n);
    assert(word.take(n) == word);
    assert(word.skip(n).len() == 0);
    assert(words_of(word.skip(n)).len() == 0);
    assert(words_of(word) =~= seq![word]);
}

/// The words of a text are words.
pub proof fn lemma_words_are_words(s: Seq<char>)
    ensures
        forall|i: int| 0 <= i < words_of(s).len() ==> is_word(#[trigger] words_of(s)[i]),
    decreases s.len(),
{
    if s.len() == 0 {
        assert(words_of(s).len() == 0);
    } else if is_space(s[0]) {
        lemma_words_are_words(s.drop_first());
        assert(words_of(s) == words_of(s.drop_first()));
    } else {
        let end = word_length(s) as int;
        lemma_word_length_bound(s);
        lemma_word_has_no_space(s);
        lemma_words_are_words(s.skip(end));
        assert(is_word(s.take(end)));
        assert forall|i: int| 0 <= i < words_of(s).len() implies is_word(
            #[trigger] words_of(s)[i],
        ) by {
            if i > 0 {
                assert(words_of(s)[i] == words_of(s.skip(end))[i - 1]);
            }
        }
    }
}

/// No white space stands inside the first word.
proof fn lemma_word_has_no_space(s: Seq<char>)
    ensures
        word_length(s) <= s.len(),
        forall|i: int| 0 <= i < word_length(s) ==> !is_space(#[trigger] s[i]),
    decreases s.len(),
{
    if s.len() > 0 && !is_space(s[0]) {
        lemma_word_has_no_space(s.drop_first());
        assert forall|i: int| 0 <= i < word_length(s) implies !is_space(#[trigger] s[i]) by {
            if i > 0 {
                assert(s.drop_first()[i - 1] == s[i]);
            }
        }
    }
}

/// A part and a separator, then more text.
pub proof fn lemma_piece(part: Seq<char>, c: char, rest: Seq<char>)
    requires
        free_of(part, c),
    ensures
        pieces(part + seq![c] + rest, c) == seq![part] + pieces(rest, c),
        split_first(part + seq![c] + rest, c) == Some((part, rest)),
{
    let all = part + seq![c] + rest;
    assert(all[part.len() as int] == c);
    lemma_find(all, c, part.len() as int);
    assert(all.take(part.len() as int) == part);
    assert(all.skip(part.len() as int + 1) == rest);
}

/// More text, then a separator and a last part.
pub proof fn lemma_pieces_append(s: Seq<char>, c: char, part: Seq<char>)
    requires
        free_of(part, c),
    ensures
        pieces(s + seq![c] + part, c) == pieces(s, c).push(part),
    decreases s.len(),
{
    let at = find(s, c) as int;
    lemma_find_meaning(s, c);
    let all = s + seq![c] + part;
    if at >= s.len() {
        lemma_piece(s, c, part);
        lemma_last_piece(part, c);
        assert(seq![s] + seq![part] =~= seq![s].push(part));
    } else {
        let head = s.take(at);
        let tail = s.skip(at + 1);
        lemma_pieces_append(tail, c, part);
        lemma_piece(head, c, tail + seq![c] + part);
        assert(all =~= head + seq![c] + (tail + seq![c] + part));
        assert(pieces(s, c) == seq![head] + pieces(tail, c));
        assert(pieces(all, c) =~= pieces(s, c).push(part));
    }
}

/// A text without the separator is one part.
pub proof fn lemma_last_piece(part: Seq<char>, c: char)
    requires
        free_of(part, c),
    ensures
        pieces(part, c) == seq![part],
{
    lemma_find(part, c, part.len() as int);
}

/// Text that neither begins nor ends with white space is left as it is.
pub proof fn lemma_trimmed(s: Seq<char>)
    requires
        s.len() > 0,
        !is_space(s[0]),
        !is_space(s.last()),
    ensures
        trimmed(s) == s,
{
}

/// Quotation marks around text that neither begins nor ends with one.
pub proof fn lemma_unquoted(s: Seq<char>)
    requires
        s.len() > 0 ==> s[0] != '"' && s.last() != '"',
    ensures
        unquoted(seq!['"'] + s + seq!['"']) == s,
{
    let all = seq!['"'] + s + seq!['"'];
    let tail = all.drop_first();
    assert(tail =~= s + seq!['"']);
    assert(unquoted_start(all) == unquoted_start(tail));
    if s.len() == 0 {
        assert(tail.drop_first() =~= s);
        assert(unquoted_start(tail) == unquoted_start(s));
        assert(unquoted_start(s) == s);
        assert(unquoted_end(s) == s);
    } else {
        assert(tail[0] == s[0]);
        assert(unquoted_start(tail) == tail);
        assert(tail.drop_last() =~= s);
        assert(unquoted_end(tail) == unquoted_end(s));
        assert(unquoted_end(s) == s);
    }
}

/// Decimal numbers are words, and free of other characters.
pub proof fn lemma_decimal_word(n: nat, c: char)
    requires
        !is_digit(c),
    ensures
        is_word(decimal(n)),
        free_of(decimal(n), c),
{
    lemma_decimal(n);
    assert forall|i: int| 0 <= i < decimal(n).len() implies !is_space(#[trigger] decimal(n)[i]) by {
        assert(is_digit(decimal(n)[i]));
    }
    assert forall|i: int| 0 <= i < decimal(n).len() implies decimal(n)[i] != c by {
        assert(is_digit(decimal(n)[i]));
    }
}

/// Lines that say nothing: empty ones and comments.
pub open spec fn is_blank(line: Seq<char>) -> bool {
    line.len() == 0 || line[0] == '#'
}

/// Whether a line says nothing.
pub fn says_nothing(line: &[char]) -> (r: bool)
    ensures
        r == is_blank(line@),
{
    line.len() == 0 || line[0] == '#'
}

/// Whether `s` begins with `word`.
pub open spec fn begins(s: Seq<char>, word: Seq<char>) -> bool {
    word.len() <= s.len() && s.take(word.len() as int) == word
}

/// Whether `s` ends with `word`.
pub open spec fn ends(s: Seq<char>, word: Seq<char>) -> bool {
    word.len() <= s.len() && s.skip(s.len() - word.len()) == word
}

/// Whether `word` occurs in `s`.
pub open spec fn holds(s: Seq<char>, word: Seq<char>) -> bool {
    exists|i: int| 0 <= i <= s.len() && #[trigger] begins(s.skip(i), word)
}

/// Whether `text` begins with `word`.
pub fn starts_with(text: &[char], word: &str) -> (r: bool)
    ensures
        r == begins(text@, word@),
{
    let chars = to_chars(word);
    assert(text@.skip(0) =~= text@);
    begins_at(text, 0, chars.as_slice())
}

/// Whether `word` stands in `text` at `start`.
fn begins_at(text: &[char], start: usize, word: &[char]) -> (r: bool)
    requires
        start <= text@.len(),
    ensures
        r == begins(text@.skip(start as int), word@),
{
    if text.len() - start < word.len() {
        return false;
    }
    let ghost part = text@.skip(start as int).take(word@.len() as int);
    let mut i: usize = 0;
    while i < word.len()
        invariant
            start + word@.len() <= text@.len() <= usize::MAX,
            part == text@.skip(start as int).take(word@.len() as int),
            i <= word@.len(),
            forall|k: int| 0 <= k < i ==> part[k] == word@[k],
        decreases word@.len() - i,
    {
        assert(part[i as int] == text@[start + i]);
        if text[start + i] != word[i] {
            return false;
        }
        i += 1;
    }
    assert(part =~= word@);
    true
}

/// Whether `text` ends with `word`.
pub fn ends_with(text: &[char], word: &str) -> (r: bool)
    ensures
        r == ends(text@, word@),
{
    let chars = to_chars(word);
    if text.len() < chars.len() {
        return false;
    }
    let start = text.len() - chars.len();
    let found = begins_at(text, start, chars.as_slice());
    assert(text@.skip(start as int).take(word@.len() as int) =~= text@.skip(start as int));
    found
}

/// Whether `word` occurs in `text`.
pub fn contains(text: &[char], word: &str) -> (r: bool)
    ensures
        r == holds(text@, word@),
{
    let chars = to_chars(word);
    let mut i: usize = 0;
    while i < text.len()
        invariant
            chars@ == word@,
            i <= text@.len(),
            forall|k: int| 0 <= k < i ==> !#[trigger] begins(text@.skip(k), word@),
        decreases text@.len() - i,
    {
        if begins_at(text, i, chars.as_slice()) {
            return true;
        }
        i += 1;
    }
    begins_at(text, i, chars.as_slice())
}

/// Where `word` first occurs in `s`; the length of `s` where it does not.
pub open spec fn find_word(s: Seq<char>, word: Seq<char>) -> nat
    decreases s.len(),
{
    if s.len() == 0 || begins(s, word) {
        0
    } else {
        1 + find_word(s.drop_first(), word)
    }
}

/// The text before and behind the first occurrence of `word`.
pub open spec fn split_at_word(s: Seq<char>, word: Seq<char>) -> Option<(Seq<char>, Seq<char>)> {
    let at = find_word(s, word) as int;
    if at < s.len() {
        Some((s.take(at), s.skip(at + word.len())))
    } else {
        None
    }
}

/// The text before and behind the first occurrence of `word`, which is not empty.
pub fn split_once_at<'a>(text: &'a [char], word: &str) -> (r: Option<(&'a [char], &'a [char])>)
    requires
        word@.len() > 0,
    ensures
        match r {
            Some(parts) => split_at_word(text@, word@) == Some((parts.0@, parts.1@)),
            None => split_at_word(text@, word@) is None,
        },
{
    let chars = to_chars(word);
    let mut i: usize = 0;
    assert(text@.skip(0) =~= text@);
    while i < text.len()
        invariant
            chars@ == word@,
            word@.len() > 0,
            i <= text@.len(),
            find_word(text@, word@) == i + find_word(text@.skip(i as int), word@),
        decreases text@.len() - i,
    {
        if begins_at(text, i, chars.as_slice()) {
            let first = slice_subrange(text, 0, i);
            let second = slice_subrange(text, i + chars.len(), text.len());
            assert(first@ =~= text@.take(i as int));
            assert(second@ =~= text@.skip(i + word@.len()));
            return Some((first, second));
        }
        assert(text@.skip(i as int).drop_first() =~= text@.skip(i + 1));
        i += 1;
    }
    None
}

/// `s` with `c` in place of every occurrence of `word`, found from left to right.
pub open spec fn replaced(s: Seq<char>, word: Seq<char>, c: char) -> Seq<char>
    decreases s.len(),
{
    if s.len() == 0 || word.len() == 0 {
        s
    } else if begins(s, word) {
        seq![c] + replaced(s.skip(word.len() as int), word, c)
    } else {
        seq![s[0]] + replaced(s.drop_first(), word, c)
    }
}

/// `text` with `c` in place of every occurrence of `word`, which is not empty.
pub fn replace(text: &[char], word: &str, c: char) -> (r: Vec<char>)
    requires
        word@.len() > 0,
    ensures
        r@ == replaced(text@, word@, c),
{
    let chars = to_chars(word);
    let mut out: Vec<char> = Vec::new();
    let mut i: usize = 0;
    assert(text@.skip(0) =~= text@);
    while i < text.len()
        invariant
            chars@ == word@,
            word@.len() > 0,
            i <= text@.len(),
            out@ + replaced(text@.skip(i as int), word@, c) == replaced(text@, word@, c),
        decreases text@.len() - i,
    {
        let ghost rest = text@.skip(i as int);
        let ghost before = out@;
        if begins_at(text, i, chars.as_slice()) {
            out.push(c);
            assert(rest.skip(word@.len() as int) =~= text@.skip(i + word@.len()));
            assert(before + replaced(rest, word@, c) =~= out@ + replaced(
                text@.skip(i + word@.len()),
                word@,
                c,
            ));
            i += chars.len();
        } else {
            out.push(text[i]);
            assert(rest.drop_first() =~= text@.skip(i + 1));
            assert(before + replaced(rest, word@, c) =~= out@ + replaced(
                text@.skip(i + 1),
                word@,
                c,
            ));
            i += 1;
        }
    }
    assert(out@ + replaced(text@.skip(i as int), word@, c) =~= out@);
    out
}

/// Whether `a` comes before `b` in the order of their characters.
pub open spec fn before(a: Seq<char>, b: Seq<char>) -> bool
    decreases a.len(),
{
    if b.len() == 0 {
        false
    } else if a.len() == 0 {
        true
    } else if a[0] != b[0] {
        a[0] < b[0]
    } else {
        before(a.drop_first(), b.drop_first())
    }
}

/// The order is one: of two different texts, one comes before the other.
pub proof fn lemma_before_is_total(a: Seq<char>, b: Seq<char>)
    ensures
        before(a, b) <==> !before(b, a) && a != b,
    decreases a.len(),
{
    if a.len() > 0 && b.len() > 0 && a[0] == b[0] {
        lemma_before_is_total(a.drop_first(), b.drop_first());
        if a.drop_first() == b.drop_first() {
            assert(a =~= seq![a[0]] + a.drop_first());
            assert(b =~= seq![b[0]] + b.drop_first());
        }
    } else if a.len() == 0 && b.len() == 0 {
        assert(a =~= b);
    }
}

pub proof fn lemma_before_is_transitive(a: Seq<char>, b: Seq<char>, c: Seq<char>)
    requires
        before(a, b),
        before(b, c),
    ensures
        before(a, c),
    decreases a.len(),
{
    if a.len() > 0 && a[0] == b[0] && b[0] == c[0] {
        lemma_before_is_transitive(a.drop_first(), b.drop_first(), c.drop_first());
    }
}

/// Whether `a` comes before `b` in the order of their characters.
pub fn precedes(a: &[char], b: &[char]) -> (r: bool)
    ensures
        r == before(a@, b@),
{
    let mut i: usize = 0;
    assert(a@.skip(0) =~= a@);
    assert(b@.skip(0) =~= b@);
    while i < a.len() && i < b.len()
        invariant
            i <= a@.len(),
            i <= b@.len(),
            before(a@, b@) == before(a@.skip(i as int), b@.skip(i as int)),
        decreases a@.len() - i,
    {
        if a[i] != b[i] {
            return a[i] < b[i];
        }
        assert(a@.skip(i as int).drop_first() =~= a@.skip(i + 1));
        assert(b@.skip(i as int).drop_first() =~= b@.skip(i + 1));
        i += 1;
    }
    i < b.len()
}

/// Trimming takes white space off both ends and nothing else: what is left is a part of the text
/// that neither begins nor ends with white space, and all that was around it is white space.
pub proof fn law_trimming_takes_only_space(s: Seq<char>)
    ensures
        ({
            let rest = trimmed(s);
            &&& rest.len() > 0 ==> !is_space(rest[0]) && !is_space(rest.last())
            &&& exists|from: int, to: int|
                #![trigger s.subrange(from, to)]
                0 <= from <= to <= s.len() && rest == s.subrange(from, to) && (forall|i: int|
                    (0 <= i < from || to <= i < s.len()) ==> is_space(#[trigger] s[i]))
        }),
{
    let from = lemma_trimmed_start_part(s);
    let middle = trimmed_start(s);
    let length = lemma_trimmed_end_part(middle);
    assert(middle =~= s.subrange(from, s.len() as int));
    assert(trimmed(s) =~= s.subrange(from, from + length));
    assert forall|i: int| (0 <= i < from || from + length <= i < s.len()) implies is_space(
        #[trigger] s[i],
    ) by {
        if i >= from {
            assert(middle[i - from] == s[i]);
        }
    }
    if trimmed(s).len() > 0 {
        assert(trimmed(s)[0] == middle[0]);
    }
}

proof fn lemma_trimmed_start_part(s: Seq<char>) -> (from: int)
    ensures
        0 <= from <= s.len(),
        trimmed_start(s) == s.skip(from),
        forall|i: int| 0 <= i < from ==> is_space(#[trigger] s[i]),
        from < s.len() ==> !is_space(s[from]),
    decreases s.len(),
{
    if s.len() > 0 && is_space(s[0]) {
        let rest = s.drop_first();
        let from = lemma_trimmed_start_part(rest);
        assert(rest.skip(from) =~= s.skip(from + 1));
        assert forall|i: int| 0 <= i < from + 1 implies is_space(#[trigger] s[i]) by {
            if i > 0 {
                assert(rest[i - 1] == s[i]);
            }
        }
        from + 1
    } else {
        assert(s.skip(0) =~= s);
        0
    }
}

proof fn lemma_trimmed_end_part(s: Seq<char>) -> (length: int)
    ensures
        0 <= length <= s.len(),
        trimmed_end(s) == s.take(length),
        forall|i: int| length <= i < s.len() ==> is_space(#[trigger] s[i]),
        length > 0 ==> !is_space(s[length - 1]),
    decreases s.len(),
{
    if s.len() > 0 && is_space(s.last()) {
        let rest = s.drop_last();
        let length = lemma_trimmed_end_part(rest);
        assert(rest.take(length) =~= s.take(length));
        assert forall|i: int| length <= i < s.len() implies is_space(#[trigger] s[i]) by {
            if i < rest.len() {
                assert(rest[i] == s[i]);
            }
        }
        length
    } else {
        assert(s.take(s.len() as int) =~= s);
        s.len() as int
    }
}

/// The separator put back between the pieces gives the text.
pub open spec fn rejoined(parts: Seq<Seq<char>>, c: char) -> Seq<char>
    decreases parts.len(),
{
    if parts.len() == 0 {
        seq![]
    } else if parts.len() == 1 {
        parts[0]
    } else {
        parts[0] + seq![c] + rejoined(parts.drop_first(), c)
    }
}

/// The pieces are what stands between the separators: none holds a separator, and with the
/// separators between them they are the text again.
pub proof fn law_pieces_rejoin(s: Seq<char>, c: char)
    ensures
        pieces(s, c).len() > 0,
        rejoined(pieces(s, c), c) == s,
        forall|i: int, j: int|
            0 <= i < pieces(s, c).len() && 0 <= j < pieces(s, c)[i].len() ==> (
            #[trigger] pieces(s, c)[i][j]) != c,
    decreases s.len(),
{
    lemma_find_meaning(s, c);
    let at = find(s, c) as int;
    let all = pieces(s, c);
    if at < s.len() {
        let rest = s.skip(at + 1);
        law_pieces_rejoin(rest, c);
        let tail = pieces(rest, c);
        assert(all.drop_first() =~= tail);
        assert(all[0] == s.take(at));
        assert(s.take(at) + seq![c] + rest =~= s);
        assert forall|i: int, j: int| 0 <= i < all.len() && 0 <= j < all[i].len() implies (
        #[trigger] all[i][j]) != c by {
            if i > 0 {
                assert(all[i] == tail[i - 1]);
                assert(tail[i - 1][j] != c);
            }
        }
    } else {
        assert forall|i: int, j: int| 0 <= i < all.len() && 0 <= j < all[i].len() implies (
        #[trigger] all[i][j]) != c by {
            assert(all[i] == s);
        }
    }
}

/// A text is parted at the first place where the character stands, and only if it stands
/// somewhere.
pub proof fn law_parted_at_first(s: Seq<char>, c: char)
    ensures
        match split_first(s, c) {
            Some((first, second)) => s == first + seq![c] + second && !first.contains(c),
            None => !s.contains(c),
        },
{
    lemma_find_meaning(s, c);
    let at = find(s, c) as int;
    if at < s.len() {
        assert(s =~= s.take(at) + seq![c] + s.skip(at + 1));
    }
}

/// The lines of a text that ends with a line feed and of one behind it are the lines of both.
pub proof fn law_lines_join(a: Seq<char>, b: Seq<char>)
    requires
        a.len() > 0 ==> a.last() == '\n',
    ensures
        lines_of(a + b) == lines_of(a) + lines_of(b),
    decreases a.len(),
{
    if a.len() == 0 {
        assert(a + b =~= b);
        assert(lines_of(a) + lines_of(b) =~= lines_of(b));
    } else {
        lemma_find_meaning(a, '\n');
        let end = find(a, '\n') as int;
        if end >= a.len() {
            assert(a[a.len() - 1] != '\n');
        }
        assert forall|i: int| 0 <= i < end implies (a + b)[i] != '\n' by {
            assert(a[i] != '\n');
        }
        lemma_find(a + b, '\n', end);
        let rest = a.skip(end + 1);
        if rest.len() > 0 {
            assert(rest.last() == a.last());
        }
        law_lines_join(rest, b);
        assert((a + b).take(end) =~= a.take(end));
        assert((a + b).skip(end + 1) =~= rest + b);
        assert(lines_of(a + b) =~= lines_of(a) + lines_of(b));
    }
}

/// No line holds a line feed, and a text without one is its only line, as it stands.
pub proof fn law_lines_hold_no_line_feed(s: Seq<char>)
    ensures
        forall|i: int| 0 <= i < lines_of(s).len() ==> !(#[trigger] lines_of(s)[i]).contains('\n'),
        s.len() > 0 && !s.contains('\n') ==> lines_of(s) == seq![s],
        !s.contains('\n') && (s.len() > 0 ==> s.last() != '\r') ==> lines_of(s + seq!['\n'])
            == seq![s],
        !s.contains('\n') ==> lines_of(s + seq!['\r', '\n']) == seq![s],
    decreases s.len(),
{
    lemma_find_meaning(s, '\n');
    let end = find(s, '\n') as int;
    let all = lines_of(s);
    if s.len() > 0 && end < s.len() {
        let rest = s.skip(end + 1);
        law_lines_hold_no_line_feed(rest);
        assert(s[end] == '\n');
        assert forall|i: int| 0 <= i < all.len() implies !(#[trigger] all[i]).contains('\n') by {
            if i > 0 {
                assert(all[i] == lines_of(rest)[i - 1]);
            }
        }
    }
    if !s.contains('\n') {
        let n = s.len() as int;
        let one = s + seq!['\n'];
        let two = s + seq!['\r', '\n'];
        assert forall|i: int| 0 <= i < s.len() implies s[i] != '\n' by {
            assert(s.contains(s[i]));
        }
        lemma_find(one, '\n', n);
        lemma_find(two, '\n', n + 1);
        assert(one.take(n) =~= s);
        assert(one.skip(n + 1) =~= seq![]);
        assert(two.take(n + 1) =~= s + seq!['\r']);
        assert((s + seq!['\r']).drop_last() =~= s);
        assert(two.skip(n + 2) =~= seq![]);
        assert(lines_of(seq![]) =~= seq![]);
        assert(lines_of(two) =~= seq![s]);
        if s.len() > 0 ==> s.last() != '\r' {
            assert(lines_of(one) =~= seq![s]);
        }
    }
}

/// White space between two texts parts their words, and white space alone has none.
pub proof fn law_words_join(a: Seq<char>, space: char, b: Seq<char>)
    requires
        is_space(space),
    ensures
        words_of(a + seq![space] + b) == words_of(a) + words_of(b),
    decreases a.len(),
{
    let all = a + seq![space] + b;
    if a.len() == 0 {
        assert(all.drop_first() =~= b);
        assert(words_of(a) + words_of(b) =~= words_of(b));
    } else if is_space(a[0]) {
        assert(all.drop_first() =~= a.drop_first() + seq![space] + b);
        law_words_join(a.drop_first(), space, b);
    } else {
        lemma_word_length_bound(a);
        let end = word_length(a) as int;
        lemma_word_length_meaning(a);
        lemma_word_length(all, end);
        assert(all.take(end) =~= a.take(end));
        assert(all.skip(end) =~= a.skip(end) + seq![space] + b);
        assert(end > 0);
        law_words_join(a.skip(end), space, b);
        assert(words_of(all) =~= words_of(a) + words_of(b));
    }
}

proof fn lemma_word_length_meaning(s: Seq<char>)
    ensures
        word_length(s) <= s.len(),
        forall|i: int| 0 <= i < word_length(s) ==> !is_space(#[trigger] s[i]),
        word_length(s) < s.len() ==> is_space(s[word_length(s) as int]),
    decreases s.len(),
{
    if s.len() > 0 && !is_space(s[0]) {
        let rest = s.drop_first();
        lemma_word_length_meaning(rest);
        assert forall|i: int| 0 <= i < word_length(s) implies !is_space(#[trigger] s[i]) by {
            if i > 0 {
                assert(rest[i - 1] == s[i]);
            }
        }
        if word_length(s) < s.len() {
            assert(rest[word_length(rest) as int] == s[word_length(s) as int]);
        }
    }
}

/// A text without white space is its only word; the empty text has none.
pub proof fn law_one_word(s: Seq<char>)
    requires
        forall|i: int| 0 <= i < s.len() ==> !is_space(#[trigger] s[i]),
    ensures
        s.len() > 0 ==> words_of(s) == seq![s],
        s.len() == 0 ==> words_of(s).len() == 0,
{
    if s.len() > 0 {
        lemma_last_word(s);
    }
}

/// Among the ASCII characters, white space is the blank and the controls from tab to carriage
/// return.
pub proof fn law_ascii_space(c: char)
    requires
        c <= '\u{7f}',
    ensures
        is_space(c) <==> c == ' ' || c == '\t' || c == '\n' || c == '\u{b}' || c == '\u{c}' || c
            == '\r',
{
}

/// One more digit makes a number ten times as large and adds the digit; a plus sign in front
/// changes nothing, and whatever else is not a digit makes it no number.
pub proof fn law_digits_count_tenfold(s: Seq<char>, digit: char, max: nat)
    requires
        '0' <= digit <= '9',
    ensures
        value_of(seq![]) == 0,
        value_of(s.push(digit)) == value_of(s) * 10 + (digit as int - '0' as int),
        s.len() > 0 && s[0] != '+' ==> number(seq!['+'] + s, max) == number(s, max),
        number(s, max) matches Some(n) ==> n <= max && s.len() > 0 && forall|i: int|
            0 < i < s.len() ==> '0' <= #[trigger] s[i] <= '9',
        number(s, max) is Some ==> s[0] == '+' || '0' <= s[0] <= '9',
        s.len() > 0 && (forall|i: int| 0 <= i < s.len() ==> '0' <= #[trigger] s[i] <= '9')
            && value_of(s) <= max ==> number(s, max) == Some(value_of(s)),
{
    assert(s.push(digit).drop_last() =~= s);
    assert((seq!['+'] + s).drop_first() =~= s);
    if number(s, max) is Some && s[0] == '+' {
        assert forall|i: int| 0 < i < s.len() implies '0' <= #[trigger] s[i] <= '9' by {
            assert(is_digit(s.drop_first()[i - 1]));
        }
    } else if number(s, max) is Some {
        assert(is_digit(s[0]));
    }
}

/// A number in decimal is made of digits, has no leading zero, and means the number.
pub proof fn law_decimal_means_the_number(n: nat)
    ensures
        decimal(n).len() > 0,
        forall|i: int| 0 <= i < decimal(n).len() ==> '0' <= #[trigger] decimal(n)[i] <= '9',
        value_of(decimal(n)) == n,
        n > 0 ==> decimal(n)[0] != '0',
        decimal(0) == seq!['0'],
    decreases n,
{
    lemma_decimal(n);
    assert forall|i: int| 0 <= i < decimal(n).len() implies '0' <= #[trigger] decimal(n)[i]
        <= '9' by {
        assert(is_digit(decimal(n)[i]));
    }
    if n >= 10 {
        law_decimal_means_the_number(n / 10);
    } else if n == 0 {
        assert(decimal(0) =~= seq!['0']);
    }
}

/// Only the letters of the other case change, to their counterparts.
pub proof fn law_letter_case(s: Seq<char>, i: int)
    requires
        0 <= i < s.len(),
    ensures
        lowered(s).len() == s.len() && uppered(s).len() == s.len(),
        'A' <= s[i] <= 'Z' ==> lowered(s)[i] as int == s[i] as int + ('a' as int - 'A' as int)
            && uppered(s)[i] == s[i],
        'a' <= s[i] <= 'z' ==> uppered(s)[i] as int == s[i] as int - ('a' as int - 'A' as int)
            && lowered(s)[i] == s[i],
        !('A' <= s[i] <= 'Z') && !('a' <= s[i] <= 'z') ==> lowered(s)[i] == s[i] && uppered(s)[i]
            == s[i],
{
}

/// Quotes around a text are taken off, and nothing else is.
pub proof fn law_quotes_are_taken_off(s: Seq<char>)
    requires
        s.len() > 0 ==> s[0] != '"' && s.last() != '"',
    ensures
        unquoted(s) == s,
        unquoted(seq!['"'] + s + seq!['"']) == s,
        unquoted(seq!['"'] + s) == s,
        unquoted(s + seq!['"']) == s,
{
    lemma_unquoted(s);
    let left = seq!['"'] + s;
    assert(left.drop_first() =~= s);
    assert(unquoted_start(left) == unquoted_start(s));
    let right = s + seq!['"'];
    assert(right.drop_last() =~= s);
    if s.len() > 0 {
        assert(unquoted_start(right) == right);
    } else {
        assert(right.drop_first() =~= s);
        assert(unquoted_start(right) == unquoted_start(s));
    }
    assert(unquoted_end(right) == unquoted_end(s));
}

/// A text is parted at the first place where the word stands, and only if it stands somewhere.
pub proof fn law_parted_at_first_word(s: Seq<char>, word: Seq<char>)
    requires
        word.len() > 0,
    ensures
        match split_at_word(s, word) {
            Some((first, second)) => s == first + word + second && forall|i: int|
                0 <= i < first.len() ==> !begins(#[trigger] s.skip(i), word),
            None => forall|i: int| 0 <= i < s.len() ==> !begins(#[trigger] s.skip(i), word),
        },
{
    lemma_find_word_meaning(s, word);
    let at = find_word(s, word) as int;
    if at < s.len() {
        let rest = s.skip(at);
        assert(rest.take(word.len() as int) == word);
        assert(s =~= s.take(at) + word + s.skip(at + word.len())) by {
            assert forall|i: int| 0 <= i < word.len() implies s[at + i] == word[i] by {
                assert(rest.take(word.len() as int)[i] == rest[i]);
            }
        }
    }
}

proof fn lemma_find_word_meaning(s: Seq<char>, word: Seq<char>)
    requires
        word.len() > 0,
    ensures
        find_word(s, word) <= s.len(),
        forall|i: int| 0 <= i < find_word(s, word) ==> !begins(#[trigger] s.skip(i), word),
        find_word(s, word) < s.len() ==> begins(s.skip(find_word(s, word) as int), word),
    decreases s.len(),
{
    assert(s.skip(0) =~= s);
    if s.len() > 0 && !begins(s, word) {
        let rest = s.drop_first();
        lemma_find_word_meaning(rest, word);
        assert forall|i: int| 0 <= i < find_word(s, word) implies !begins(
            #[trigger] s.skip(i),
            word,
        ) by {
            if i > 0 {
                assert(rest.skip(i - 1) =~= s.skip(i));
            }
        }
        assert(rest.skip(find_word(rest, word) as int) =~= s.skip(find_word(s, word) as int));
    }
}

/// Replacing leaves a text without the word as it is, and puts one character in place of each
/// word between such texts.
pub proof fn law_replacing(s: Seq<char>, word: Seq<char>, c: char, rest: Seq<char>)
    requires
        word.len() > 0,
    ensures
        replaced(word + rest, word, c) == seq![c] + replaced(rest, word, c),
        (forall|i: int| 0 <= i < s.len() ==> !begins(#[trigger] s.skip(i), word)) ==> replaced(
            s,
            word,
            c,
        ) == s,
    decreases s.len(),
{
    assert((word + rest).take(word.len() as int) =~= word);
    assert((word + rest).skip(word.len() as int) =~= rest);
    if s.len() > 0 && forall|i: int| 0 <= i < s.len() ==> !begins(#[trigger] s.skip(i), word) {
        assert(s.skip(0) =~= s);
        let tail = s.drop_first();
        assert forall|i: int| 0 <= i < tail.len() implies !begins(#[trigger] tail.skip(i), word) by {
            assert(tail.skip(i) =~= s.skip(i + 1));
        }
        law_replacing(tail, word, c, rest);
        assert(seq![s[0]] + tail =~= s);
    }
}

/// Texts are in the order of a dictionary: the first place where they differ decides, and a text
/// comes before what begins with it.
pub proof fn law_dictionary_order(common: Seq<char>, a: Seq<char>, b: Seq<char>)
    ensures
        before(common + a, common + b) == before(a, b),
        a.len() > 0 && b.len() > 0 && a[0] != b[0] ==> before(a, b) == ((a[0] as int) < (
        b[0] as int)),
        b.len() > 0 ==> before(common, common + b),
        !before(common + a, common),
    decreases common.len(),
{
    if common.len() == 0 {
        assert(common + a =~= a);
        assert(common + b =~= b);
    } else {
        let rest = common.drop_first();
        assert((common + a).drop_first() =~= rest + a);
        assert((common + b).drop_first() =~= rest + b);
        law_dictionary_order(rest, a, b);
    }
}

/// A text holds a word that stands between two others.
pub proof fn lemma_holds_between(before_it: Seq<char>, word: Seq<char>, behind_it: Seq<char>)
    ensures
        holds(before_it + word + behind_it, word),
        begins(word + behind_it, word),
        ends(before_it + word, word),
{
    let n = before_it.len() as int;
    let all = before_it + word + behind_it;
    assert((word + behind_it).take(word.len() as int) =~= word);
    assert((before_it + word).skip(n) =~= word);
    assert(all.skip(n) =~= word + behind_it);
    assert(begins(all.skip(n), word));
}

/// A text ends with a word if the word stands behind something, or nothing; it begins with it if
/// something, or nothing, stands behind the word; and it holds it if it stands between two texts.
pub proof fn law_words_in_texts(before_it: Seq<char>, word: Seq<char>, behind_it: Seq<char>)
    ensures
        ends(before_it + word, word),
        begins(word + behind_it, word),
        holds(before_it + word + behind_it, word),
        forall|s: Seq<char>| #[trigger] ends(s, word) ==> s.take(s.len() - word.len()) + word == s,
        forall|s: Seq<char>| #[trigger] begins(s, word) ==> word + s.skip(word.len() as int) == s,
        forall|s: Seq<char>| #[trigger]
            holds(s, word) ==> exists|i: int|
                #![trigger s.take(i)]
                0 <= i <= s.len() - word.len() && s.take(i) + word + s.skip(i + word.len()) == s,
{
    lemma_holds_between(before_it, word, behind_it);
    assert forall|s: Seq<char>| #[trigger] ends(s, word) implies s.take(s.len() - word.len()) + word
        == s by {
        assert(s.take(s.len() - word.len()) + s.skip(s.len() - word.len()) =~= s);
    }
    assert forall|s: Seq<char>| #[trigger] begins(s, word) implies word + s.skip(
        word.len() as int,
    ) == s by {
        assert(s.take(word.len() as int) + s.skip(word.len() as int) =~= s);
    }
    assert forall|s: Seq<char>| #[trigger] holds(s, word) implies exists|i: int|
        #![trigger s.take(i)]
        0 <= i <= s.len() - word.len() && s.take(i) + word + s.skip(i + word.len()) == s by {
        let i = choose|i: int| 0 <= i <= s.len() && #[trigger] begins(s.skip(i), word);
        let rest = s.skip(i);
        assert(rest.take(word.len() as int) + rest.skip(word.len() as int) =~= rest);
        assert(rest.skip(word.len() as int) =~= s.skip(i + word.len()));
        assert(s.take(i) + rest =~= s);
        assert(s.take(i) + word + s.skip(i + word.len()) =~= s);
    }
}

/// Of any text all quotes at its ends are taken off, and nothing else is: what is left is a part
/// of it that neither begins nor ends with a quote, and all that was around it is quotes.
pub proof fn law_only_quotes_are_taken_off(s: Seq<char>)
    ensures
        ({
            let rest = unquoted(s);
            &&& rest.len() > 0 ==> rest[0] != '"' && rest.last() != '"'
            &&& exists|from: int, to: int|
                #![trigger s.subrange(from, to)]
                0 <= from <= to <= s.len() && rest == s.subrange(from, to) && (forall|i: int|
                    (0 <= i < from || to <= i < s.len()) ==> #[trigger] s[i] == '"')
        }),
{
    let from = lemma_unquoted_start_part(s);
    let middle = unquoted_start(s);
    let length = lemma_unquoted_end_part(middle);
    assert(middle =~= s.subrange(from, s.len() as int));
    assert(unquoted(s) =~= s.subrange(from, from + length));
    assert forall|i: int| (0 <= i < from || from + length <= i < s.len()) implies #[trigger] s[i]
        == '"' by {
        if i >= from {
            assert(middle[i - from] == s[i]);
        }
    }
    if unquoted(s).len() > 0 {
        assert(unquoted(s)[0] == middle[0]);
    }
}

proof fn lemma_unquoted_start_part(s: Seq<char>) -> (from: int)
    ensures
        0 <= from <= s.len(),
        unquoted_start(s) == s.skip(from),
        forall|i: int| 0 <= i < from ==> #[trigger] s[i] == '"',
        from < s.len() ==> s[from] != '"',
    decreases s.len(),
{
    if s.len() > 0 && s[0] == '"' {
        let rest = s.drop_first();
        let from = lemma_unquoted_start_part(rest);
        assert(rest.skip(from) =~= s.skip(from + 1));
        assert forall|i: int| 0 <= i < from + 1 implies #[trigger] s[i] == '"' by {
            if i > 0 {
                assert(rest[i - 1] == s[i]);
            }
        }
        from + 1
    } else {
        assert(s.skip(0) =~= s);
        0
    }
}

proof fn lemma_unquoted_end_part(s: Seq<char>) -> (length: int)
    ensures
        0 <= length <= s.len(),
        unquoted_end(s) == s.take(length),
        forall|i: int| length <= i < s.len() ==> #[trigger] s[i] == '"',
        length > 0 ==> s[length - 1] != '"',
    decreases s.len(),
{
    if s.len() > 0 && s.last() == '"' {
        let rest = s.drop_last();
        let length = lemma_unquoted_end_part(rest);
        assert(rest.take(length) =~= s.take(length));
        assert forall|i: int| length <= i < s.len() implies #[trigger] s[i] == '"' by {
            if i < rest.len() {
                assert(rest[i] == s[i]);
            }
        }
        length
    } else {
        assert(s.take(s.len() as int) =~= s);
        s.len() as int
    }
}

} // verus!
