//! Text helpers: ASCII bytes as `String`s, and the error messages built
//! from them.

use vstd::prelude::*;
use vstd::utf8::{decode_utf8, encode_utf8, is_ascii_chars, is_ascii_chars_encode_utf8, valid_utf8};
use crate::external::string_from_utf8;
use crate::numfmt::{decimal_bytes, decimal_digits, lemma_decimal_digits, is_digit};

verus! {

broadcast use vstd::utf8::group_utf8_lib;

/// The characters of a sequence of ASCII bytes.
pub open spec fn ascii_chars(b: Seq<u8>) -> Seq<char> {
    Seq::new(b.len(), |i: int| b[i] as char)
}

/// Every byte is below 128.
pub open spec fn all_ascii(b: Seq<u8>) -> bool {
    forall|i: int| 0 <= i < b.len() ==> #[trigger] b[i] < 128
}

pub proof fn lemma_ascii_utf8(b: Seq<u8>)
    requires
        all_ascii(b),
    ensures
        valid_utf8(b),
        decode_utf8(b) == ascii_chars(b),
        encode_utf8(ascii_chars(b)) == b,
{
    let c = ascii_chars(b);
    assert(is_ascii_chars(c)) by {
        assert forall|i: int| 0 <= i < c.len() implies '\0' <= #[trigger] c[i] <= '\u{7f}' by {
            assert(b[i] < 128);
        }
    }
    is_ascii_chars_encode_utf8(c);
    assert(encode_utf8(c) =~= b) by {
        assert forall|i: int| 0 <= i < b.len() implies encode_utf8(c)[i] == b[i] by {
            assert(c[i] as u8 == encode_utf8(c)[i]);
            let x = b[i];
            assert(x < 128);
            assert((x as char) as u8 == x);
        }
    }
}

/// A `String` holding ASCII bytes as characters.
pub fn ascii_string(b: Vec<u8>) -> (s: String)
    requires
        all_ascii(b@),
    ensures
        s@ == ascii_chars(b@),
{
    proof {
        lemma_ascii_utf8(b@);
    }
    let ghost bv = b@;
    match string_from_utf8(b) {
        Some(s) => s,
        None => {
            assert(false);
            String::new()
        },
    }
}

/// The decimal text of `n` as characters.
pub open spec fn decimal_chars(n: nat) -> Seq<char> {
    ascii_chars(decimal_digits(n))
}

/// The decimal text of `n` as a `String`.
pub fn decimal_string(n: u64) -> (s: String)
    ensures
        s@ == decimal_chars(n as nat),
{
    let d = decimal_bytes(n);
    proof {
        lemma_decimal_digits(n as nat);
        assert forall|i: int| 0 <= i < d@.len() implies #[trigger] d@[i] < 128 by {
            assert(is_digit(d@[i]));
        }
    }
    ascii_string(d)
}

/// Whether a character has the Unicode `White_Space` property, which is
/// what `char::is_whitespace` tests and `str::split_whitespace` splits at.
pub open spec fn is_white(c: char) -> bool {
    let u = c as u32;
    ||| 9 <= u <= 13
    ||| u == 32 || u == 0x85 || u == 0xa0 || u == 0x1680
    ||| 0x2000 <= u <= 0x200a
    ||| u == 0x2028 || u == 0x2029 || u == 0x202f || u == 0x205f || u == 0x3000
}

/// Tests a character for the Unicode `White_Space` property.
pub fn is_whitespace(c: char) -> (r: bool)
    ensures
        r == is_white(c),
{
    let u = c as u32;
    (9 <= u && u <= 13) || u == 32 || u == 0x85 || u == 0xa0 || u == 0x1680 || (0x2000 <= u && u
        <= 0x200a) || u == 0x2028 || u == 0x2029 || u == 0x202f || u == 0x205f || u == 0x3000
}

/// Where the first newline at or after `p` stands, or the end of the text.
pub open spec fn newline_from(t: Seq<char>, p: int) -> int
    decreases t.len() - p,
{
    if p < 0 || p >= t.len() {
        t.len() as int
    } else if t[p] == '\n' {
        p
    } else {
        newline_from(t, p + 1)
    }
}

/// The line that starts at `p`, as `str::lines` yields it: where it ends
/// (before its newline, and before a carriage return just ahead of that
/// newline) and where the next line starts.
pub open spec fn line_span(t: Seq<char>, p: int) -> (int, int) {
    let e = newline_from(t, p);
    if e < t.len() {
        (if e > p && t[e - 1] == '\r' { e - 1 } else { e }, e + 1)
    } else {
        (e, e)
    }
}

/// Where the first space in `t[i..end]` stands, or `end`.
pub open spec fn space_from(t: Seq<char>, i: int, end: int) -> int
    decreases end - i,
{
    if i >= end {
        end
    } else if t[i] == ' ' {
        i
    } else {
        space_from(t, i + 1, end)
    }
}

/// The spans of the whitespace-separated words of `t[i..end]`, as
/// `str::split_whitespace` yields them; `start` is where the word being
/// read began, if one is.
pub open spec fn word_spans(t: Seq<char>, i: int, end: int, start: Option<int>) -> Seq<(int, int)>
    decreases end - i,
{
    if i >= end {
        match start {
            Some(a) => seq![(a, end)],
            None => Seq::empty(),
        }
    } else if is_white(t[i]) {
        (match start {
            Some(a) => seq![(a, i)],
            None => Seq::empty(),
        }) + word_spans(t, i + 1, end, None)
    } else {
        word_spans(t, i + 1, end, if start is Some { start } else { Some(i) })
    }
}

/// The view of spans held as positions.
pub open spec fn span_views(w: Seq<(usize, usize)>) -> Seq<(int, int)> {
    w.map_values(|x: (usize, usize)| (x.0 as int, x.1 as int))
}

/// The line of `t` that starts at `p`: where it ends and where the next
/// one starts.
pub fn line_at(t: &Vec<char>, p: usize) -> (r: (usize, usize))
    requires
        p <= t.len(),
    ensures
        (r.0 as int, r.1 as int) == line_span(t@, p as int),
        p <= r.0 <= r.1 <= t.len(),
{
    let mut i = p;
    while i < t.len() && t[i] != '\n'
        invariant
            p <= i <= t.len(),
            newline_from(t@, p as int) == newline_from(t@, i as int),
        decreases t.len() - i,
    {
        i = i + 1;
    }
    if i < t.len() {
        if i > p && t[i - 1] == '\r' {
            (i - 1, i + 1)
        } else {
            (i, i + 1)
        }
    } else {
        (i, i)
    }
}

/// Where the first space in `t[i..end]` stands, or `end`.
pub fn first_space(t: &Vec<char>, i: usize, end: usize) -> (r: usize)
    requires
        i <= end <= t.len(),
    ensures
        r == space_from(t@, i as int, end as int),
        i <= r <= end,
{
    let mut k = i;
    while k < end && t[k] != ' '
        invariant
            i <= k <= end,
            end <= t.len(),
            space_from(t@, i as int, end as int) == space_from(t@, k as int, end as int),
        decreases end - k,
    {
        k = k + 1;
    }
    k
}

/// The spans of the whitespace-separated words of `t[i..end]`.
pub fn words_in(t: &Vec<char>, i: usize, end: usize) -> (w: Vec<(usize, usize)>)
    requires
        i <= end <= t.len(),
    ensures
        span_views(w@) == word_spans(t@, i as int, end as int, None),
        forall|k: int| 0 <= k < w@.len() ==> i <= #[trigger] w@[k].0 <= w@[k].1 <= end,
{
    let ghost total = word_spans(t@, i as int, end as int, None);
    let mut w: Vec<(usize, usize)> = Vec::new();
    let mut start: Option<usize> = None;
    let mut k = i;
    while k < end
        invariant
            i <= k <= end,
            end <= t.len(),
            total == word_spans(t@, i as int, end as int, None),
            total == span_views(w@) + word_spans(
                t@,
                k as int,
                end as int,
                match start {
                    Some(a) => Some(a as int),
                    None => None,
                },
            ),
            start matches Some(a) ==> i <= a < k,
            forall|m: int| 0 <= m < w@.len() ==> i <= #[trigger] w@[m].0 <= w@[m].1 <= k,
        decreases end - k,
    {
        let ghost prev = w@;
        if is_whitespace(t[k]) {
            if let Some(a) = start {
                w.push((a, k));
                assert(span_views(w@) =~= span_views(prev).push((a as int, k as int)));
                assert forall|m: int| 0 <= m < w@.len() implies i <= #[trigger] w@[m].0 <= w@[m].1
                    <= k by {
                    if m < prev.len() {
                        assert(w@[m] == prev[m]);
                    }
                }
            } else {
                assert(span_views(w@) =~= span_views(prev));
            }
            start = None;
        } else if start.is_none() {
            start = Some(k);
        }
        k = k + 1;
    }
    if let Some(a) = start {
        let ghost prev = w@;
        w.push((a, end));
        assert(span_views(w@) =~= span_views(prev).push((a as int, end as int)));
    }
    assert(total =~= span_views(w@));
    w
}

} // verus!
