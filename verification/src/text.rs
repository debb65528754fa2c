//! Text handling for the puzzle format: characters, their width in bytes,
//! lines, space-separated fields and decimal numbers.

use core::num::ParseIntError;
use vstd::prelude::*;
use vstd::utf8::{char_is_scalar, encode_scalar, encode_utf8};

verus! {

/// `core::num::ParseIntError`, the error of the standard integer parser.
/// It is carried through to the caller and never looked into.
#[verifier::external_type_specification]
#[verifier::external_body]
pub struct ExParseIntError(ParseIntError);

/// The number of bytes that the characters take in UTF-8.
pub open spec fn byte_len(chars: Seq<char>) -> nat {
    encode_utf8(chars).len()
}

/// The first position in `from..to` that holds `c`, or `to` if none does.
pub open spec fn next_in(text: Seq<char>, c: char, from: int, to: int) -> int
    decreases to - from,
{
    if from >= to {
        to
    } else if text[from] == c {
        from
    } else {
        next_in(text, c, from + 1, to)
    }
}

/// The lines of a text, each as the positions where it begins and ends,
/// found by reading on from position `at` in a line that began at `begin`.
/// Lines end at a line feed; a carriage return just before that line feed
/// is not part of the line. A text that ends with a line feed has no
/// further, empty line after it.
pub open spec fn scan_lines(text: Seq<char>, begin: int, at: int) -> Seq<(int, int)>
    decreases text.len() - at,
{
    if at >= text.len() {
        if begin < text.len() {
            seq![(begin, text.len() as int)]
        } else {
            Seq::empty()
        }
    } else if text[at] == '\n' {
        let end = if begin < at && text[at - 1] == '\r' {
            at - 1
        } else {
            at
        };
        seq![(begin, end)] + scan_lines(text, at + 1, at + 1)
    } else {
        scan_lines(text, begin, at + 1)
    }
}

/// The lines of a text, each as the positions where it begins and ends.
pub open spec fn line_spans(text: Seq<char>) -> Seq<(int, int)> {
    scan_lines(text, 0, 0)
}

/// Whether the character is a decimal digit.
pub open spec fn is_digit(c: char) -> bool {
    '0' as u32 <= c as u32 <= '9' as u32
}

/// The number that a string of digits denotes.
pub open spec fn digits_value(digits: Seq<char>) -> int
    decreases digits.len(),
{
    if digits.len() == 0 {
        0
    } else {
        digits_value(digits.drop_last()) * 10 + (digits.last() as u32 - '0' as u32)
    }
}

/// The `i32` that a field denotes: an optional sign, then one or more
/// digits, and a value that fits; `None` for anything else.
pub open spec fn decimal_i32(field: Seq<char>) -> Option<i32> {
    let signed = field.len() > 0 && (field[0] == '+' || field[0] == '-');
    let body = if signed {
        field.skip(1)
    } else {
        field
    };
    let value = if signed && field[0] == '-' {
        -digits_value(body)
    } else {
        digits_value(body)
    };
    if body.len() == 0 || !(forall|i: int| 0 <= i < body.len() ==> is_digit(#[trigger] body[i]))
        || value < i32::MIN || value > i32::MAX {
        None
    } else {
        Some(value as i32)
    }
}

/// `str::parse::<i32>` of the standard library, which reads an optional
/// sign followed by decimal digits and fails on anything else, on no
/// digits and on a value outside `i32`.
#[verifier::external_body]
pub(crate) fn parse_i32(field: &str) -> (r: Result<i32, ParseIntError>)
    ensures
        match r {
            Ok(v) => decimal_i32(field@) == Some(v),
            Err(_) => decimal_i32(field@) is None,
        },
{
    field.parse::<i32>()
}

/// What `next_in` finds: nothing before it holds `c`, and it holds `c`
/// unless it is `to`.
pub proof fn lemma_next_in(text: Seq<char>, c: char, from: int, to: int)
    requires
        from <= to,
    ensures
        from <= next_in(text, c, from, to) <= to,
        forall|i: int| from <= i < next_in(text, c, from, to) ==> #[trigger] text[i] != c,
        next_in(text, c, from, to) < to ==> text[next_in(text, c, from, to)] == c,
    decreases to - from,
{
    if from < to && text[from] != c {
        lemma_next_in(text, c, from + 1, to);
    }
}

/// The bytes of two texts one after the other are the bytes of the first
/// followed by the bytes of the second.
pub proof fn lemma_byte_len_concat(a: Seq<char>, b: Seq<char>)
    ensures
        byte_len(a + b) == byte_len(a) + byte_len(b),
    decreases a.len(),
{
    if a.len() == 0 {
        assert(a + b == b);
    } else {
        assert((a + b).drop_first() == a.drop_first() + b);
        lemma_byte_len_concat(a.drop_first(), b);
    }
}

/// A character takes between one and four bytes.
pub proof fn lemma_byte_len_one(c: char)
    ensures
        1 <= byte_len(seq![c]) <= 4,
        byte_len(seq![c]) == encode_scalar(c as u32).len(),
        c as u32 <= 0x7F ==> byte_len(seq![c]) == 1,
{
    assert(seq![c].drop_first() == Seq::<char>::empty());
    assert(encode_utf8(Seq::<char>::empty()).len() == 0);
}

/// A part of a text takes no more bytes than the whole, and no fewer
/// bytes than it has characters.
pub proof fn lemma_byte_len_part(text: Seq<char>, from: int, to: int)
    requires
        0 <= from <= to <= text.len(),
    ensures
        to - from <= byte_len(text.subrange(from, to)) <= byte_len(text),
{
    let part = text.subrange(from, to);
    assert(text == text.take(from) + part + text.skip(to));
    lemma_byte_len_concat(text.take(from) + part, text.skip(to));
    lemma_byte_len_concat(text.take(from), part);
    lemma_byte_len_chars(part);
}

/// A text takes at least one byte for each character.
pub proof fn lemma_byte_len_chars(text: Seq<char>)
    ensures
        text.len() <= byte_len(text),
    decreases text.len(),
{
    if text.len() > 0 {
        lemma_byte_len_chars(text.drop_first());
        lemma_byte_len_one(text[0]);
        assert(text == seq![text[0]] + text.drop_first());
        lemma_byte_len_concat(seq![text[0]], text.drop_first());
    }
}

/// The characters of a text, one by one.
pub fn to_chars(s: &str) -> (chars: Vec<char>)
    ensures
        chars@ == s@,
{
    broadcast use vstd::string::group_string_axioms;

    let mut chars: Vec<char> = Vec::new();
    for c in it: s.chars()
        invariant
            it.seq() == s@,
            chars@ == it.seq().take(it.index() as int),
    {
        assert(it.seq().take(it.index() + 1) == it.seq().take(it.index() as int).push(c));
        chars.push(c);
    }
    assert(s@.take(s@.len() as int) == s@);
    chars
}

/// The number of bytes that one character takes in UTF-8.
pub fn char_width(c: char) -> (n: usize)
    ensures
        n == byte_len(seq![c]),
        1 <= n <= 4,
{
    proof {
        char_is_scalar(c);
        lemma_byte_len_one(c);
    }
    let v = c as u32;
    if v <= 0x7F {
        1
    } else if v <= 0x7FF {
        2
    } else if v <= 0xFFFF {
        3
    } else {
        4
    }
}

/// The number of bytes that the characters at `from..to` take.
pub fn span_width(chars: &Vec<char>, from: usize, to: usize) -> (n: usize)
    requires
        from <= to <= chars@.len(),
        byte_len(chars@) <= usize::MAX,
    ensures
        n == byte_len(chars@.subrange(from as int, to as int)),
{
    let mut n: usize = 0;
    let mut i = from;
    while i < to
        invariant
            from <= i <= to <= chars@.len(),
            byte_len(chars@) <= usize::MAX,
            n == byte_len(chars@.subrange(from as int, i as int)),
        decreases to - i,
    {
        let w = char_width(chars[i]);
        proof {
            let done = chars@.subrange(from as int, i as int);
            assert(chars@.subrange(from as int, i + 1) == done + seq![chars@[i as int]]);
            lemma_byte_len_concat(done, seq![chars@[i as int]]);
            lemma_byte_len_part(chars@, from as int, i + 1);
        }
        n += w;
        i += 1;
    }
    n
}

/// The first position in `from..to` that holds `c`, or `to`.
pub fn find(chars: &Vec<char>, c: char, from: usize, to: usize) -> (at: usize)
    requires
        from <= to <= chars@.len(),
    ensures
        at == next_in(chars@, c, from as int, to as int),
        from <= at <= to,
{
    let mut i = from;
    while i < to && chars[i] != c
        invariant
            from <= i <= to <= chars@.len(),
            next_in(chars@, c, from as int, to as int) == next_in(chars@, c, i as int, to as int),
        decreases to - i,
    {
        i += 1;
    }
    i
}

/// Where each line of the text begins and ends.
pub fn split_lines(chars: &Vec<char>) -> (spans: Vec<(usize, usize)>)
    ensures
        spans@.len() == line_spans(chars@).len(),
        forall|i: int|
            0 <= i < spans@.len() ==> (#[trigger] spans@[i]).0 == line_spans(chars@)[i].0
                && spans@[i].1 == line_spans(chars@)[i].1 && spans@[i].0 <= spans@[i].1
                <= chars@.len(),
{
    let n = chars.len();
    let mut spans: Vec<(usize, usize)> = Vec::new();
    let mut begin: usize = 0;
    let mut at: usize = 0;
    while at < n
        invariant
            n == chars@.len(),
            begin <= at <= n,
            spans@.len() + scan_lines(chars@, begin as int, at as int).len() == line_spans(
                chars@,
            ).len(),
            forall|i: int|
                0 <= i < spans@.len() ==> (#[trigger] spans@[i]).0 == line_spans(chars@)[i].0
                    && spans@[i].1 == line_spans(chars@)[i].1 && spans@[i].0 <= spans@[i].1
                    <= chars@.len(),
            forall|i: int|
                0 <= i < scan_lines(chars@, begin as int, at as int).len() ==> scan_lines(
                    chars@,
                    begin as int,
                    at as int,
                )[i] == line_spans(chars@)[spans@.len() + i],
        decreases n - at,
    {
        if chars[at] == '\n' {
            let end = if begin < at && chars[at - 1] == '\r' {
                at - 1
            } else {
                at
            };
            proof {
                let here = scan_lines(chars@, begin as int, at as int);
                let rest = scan_lines(chars@, at + 1, at + 1);
                assert(here == seq![(begin as int, end as int)] + rest);
                assert(here[0] == (begin as int, end as int));
                assert forall|i: int| 0 <= i < rest.len() implies rest[i] == line_spans(
                    chars@,
                )[spans@.len() + 1 + i] by {
                    assert(rest[i] == here[i + 1]);
                }
            }
            spans.push((begin, end));
            begin = at + 1;
        }
        at += 1;
    }
    if begin < n {
        proof {
            let here = scan_lines(chars@, begin as int, at as int);
            assert(here[0] == (begin as int, n as int));
        }
        spans.push((begin, n));
    }
    spans
}

} // verus!
