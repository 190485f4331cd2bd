//! The smart-HTTP upload-pack exchange: ref advertisement, pkt-lines, the
//! want request and the pack that answers it.

use vstd::prelude::*;
use crate::{abort, Abort, GitError};
use crate::external::{hex_lower, sha1_checked_digest, zlib_decompress_stream, zlib_fast_compressed, zlib_stream_inflated};
use crate::object::{header_bytes, hex_ascii, loose_object_path, LooseFile, Object, ObjectType};
use crate::text::{decimal_chars, decimal_string};
use crate::bytes::{append_bytes, copy_range};
use crate::numfmt::strip_plus;
use vstd::string::{StringExecFns, StringSliceAdditionalSpecFns};
use vstd::utf8::{encode_utf8, is_ascii_chars, is_ascii_chars_encode_utf8};

verus! {

broadcast use vstd::string::group_string_axioms;

/// The value of an ASCII hex digit, or -1.
pub open spec fn hex_value(b: u8) -> int {
    if 48 <= b <= 57 {
        b - 48
    } else if 97 <= b <= 102 {
        b - 87
    } else if 65 <= b <= 70 {
        b - 55
    } else {
        -1
    }
}

/// Every byte is a hex digit.
pub open spec fn all_hex(d: Seq<u8>) -> bool {
    forall|i: int| 0 <= i < d.len() ==> hex_value(#[trigger] d[i]) >= 0
}

/// The value of hex digits.
pub open spec fn hex_digits_value(s: Seq<u8>) -> nat
    decreases s.len(),
{
    if s.len() == 0 {
        0
    } else {
        hex_digits_value(s.drop_last()) * 16 + hex_value(s.last()) as nat
    }
}

/// What `u32::from_str_radix(text, 16)` gives: an optional `+`, then at
/// least one hex digit, with a value that fits.
pub open spec fn parse_u32_hex_spec(s: Seq<u8>) -> Option<nat> {
    let d = strip_plus(s);
    if d.len() > 0 && all_hex(d) && hex_digits_value(d) <= u32::MAX {
        Some(hex_digits_value(d))
    } else {
        None
    }
}

/// Why a pkt-line cannot be read.
#[derive(Debug)]
pub enum PktError {
    /// Fewer than four bytes are left.
    Incomplete,
    /// The length is not hex.
    InvalidLength,
    /// The length is smaller than the bytes it must count.
    LengthUnderflow,
    /// The length runs past the end of the input.
    BadLength,
}

/// `0000`, the flush packet.
pub open spec fn flush_pkt() -> Seq<u8> {
    seq![48u8, 48u8, 48u8, 48u8]
}

/// What reading one pkt-line from the front of `s` gives: `None` for a
/// flush packet (four bytes), or the side-band designator (1, 2 or 3, and 0
/// where the first payload byte is none of these and is kept in the
/// payload), the payload and the number of bytes read.
pub open spec fn parse_pkt_line_spec(s: Seq<u8>) -> Result<Option<(u8, Seq<u8>, int)>, PktError> {
    if s.len() < 4 {
        Err(PktError::Incomplete)
    } else if s.take(4) == flush_pkt() {
        Ok(None)
    } else {
        match parse_u32_hex_spec(s.take(4)) {
            None => Err(PktError::InvalidLength),
            Some(n) => {
                let off: int = if s.len() > 4 && 1 <= s[4] <= 3 {
                    1
                } else {
                    0
                };
                let band: u8 = if off == 1 {
                    s[4]
                } else {
                    0
                };
                if n < 4 + off {
                    Err(PktError::LengthUnderflow)
                } else {
                    let m = n - 4 - off;
                    if 4 + off + m > s.len() {
                        Err(PktError::BadLength)
                    } else {
                        Ok(Some((band, s.subrange(4 + off, 4 + off + m), 4 + off + m)))
                    }
                }
            },
        }
    }
}

/// Reads the value of four length bytes as `u32::from_str_radix(_, 16)`.
#[verifier::rlimit(40)]
fn parse_hex4(s: &[u8]) -> (r: Option<u32>)
    requires
        s.len() == 4,
    ensures
        match parse_u32_hex_spec(s@) {
            Some(v) => r == Some(v as u32),
            None => r is None,
        },
{
    let start: usize = if s[0] == 43 {
        1
    } else {
        0
    };
    let ghost d = strip_plus(s@);
    assert(d =~= s@.skip(start as int));
    let mut v: u32 = 0;
    let mut i: usize = start;
    while i < 4
        invariant
            start <= i <= 4,
            s.len() == 4,
            d == strip_plus(s@),
            d =~= s@.skip(start as int),
            v == hex_digits_value(d.take(i - start)),
            v < pow16((i - start) as nat),
            pow16((i - start) as nat) <= 65536,
            forall|j: int| 0 <= j < i - start ==> hex_value(#[trigger] d[j]) >= 0,
        decreases 4 - i,
    {
        let c = s[i];
        assert(d[i - start] == c);
        let x: u32 = if 48 <= c && c <= 57 {
            (c - 48) as u32
        } else if 97 <= c && c <= 102 {
            (c - 87) as u32
        } else if 65 <= c && c <= 70 {
            (c - 55) as u32
        } else {
            assert(!all_hex(d));
            return None;
        };
        assert(d.take(i + 1 - start).drop_last() =~= d.take(i - start));
        let ghost p = pow16((i - start) as nat);
        assert(pow16((i + 1 - start) as nat) == p * 16);
        assert(v * 16 + x < p * 16) by (nonlinear_arith)
            requires
                v < p,
                x < 16,
        ;
        assert(pow16((i + 1 - start) as nat) <= 65536) by {
            reveal_with_fuel(pow16, 5);
        }
        v = v * 16 + x;
        i = i + 1;
    }
    assert(d.take(4 - start) =~= d);
    assert(all_hex(d));
    Some(v)
}

/// `16^k`.
pub open spec fn pow16(k: nat) -> nat
    decreases k,
{
    if k == 0 {
        1
    } else {
        16 * pow16((k - 1) as nat)
    }
}

/// Reads one pkt-line from the front of `s`.
pub fn parse_pkt_line(s: &[u8]) -> (r: Result<Option<(u8, Vec<u8>, usize)>, PktError>)
    ensures
        match parse_pkt_line_spec(s@) {
            Ok(None) => r matches Ok(None),
            Ok(Some((b, p, n))) => r matches Ok(Some((b2, p2, n2))) && b2 == b && p2@ == p && n2
                == n,
            Err(k) => r == Err::<Option<(u8, Vec<u8>, usize)>, PktError>(k),
        },
        r matches Ok(Some((_, _, n))) ==> 4 <= n <= s.len(),
{
    if s.len() < 4 {
        return Err(PktError::Incomplete);
    }
    let head = &s[0..4];
    assert(head@ =~= s@.take(4));
    if s[0] == 48 && s[1] == 48 && s[2] == 48 && s[3] == 48 {
        assert(s@.take(4) =~= flush_pkt());
        return Ok(None);
    }
    assert(s@.take(4) != flush_pkt()) by {
        if s@.take(4) == flush_pkt() {
            assert(s@[0] == 48 && s@[1] == 48 && s@[2] == 48 && s@[3] == 48);
        }
    }
    let n = match parse_hex4(head) {
        Some(n) => n,
        None => return Err(PktError::InvalidLength),
    };
    let (off, band): (usize, u8) = if s.len() > 4 && 1 <= s[4] && s[4] <= 3 {
        (1, s[4])
    } else {
        (0, 0)
    };
    if (n as usize) < 4 + off {
        return Err(PktError::LengthUnderflow);
    }
    let m = n as usize - 4 - off;
    if m > s.len() - 4 - off {
        return Err(PktError::BadLength);
    }
    let payload = copy_range(s, 4 + off, 4 + off + m);
    Ok(Some((band, payload, 4 + off + m)))
}

/// The ASCII hex digit for `d` (below sixteen): `0` to `9`, then `a` to
/// `f`, or `A` to `F` where `upper`.
pub open spec fn hex_digit_char(d: nat, upper: bool) -> u8 {
    if d < 10 {
        (48 + d) as u8
    } else if upper {
        (55 + d) as u8
    } else {
        (87 + d) as u8
    }
}

/// The four hex digits of `n` (below 65536), most significant first, each
/// in the case its flag picks.
pub open spec fn hex4_text(n: nat, u0: bool, u1: bool, u2: bool, u3: bool) -> Seq<u8> {
    seq![
        hex_digit_char(n / 4096, u0),
        hex_digit_char(n / 256 % 16, u1),
        hex_digit_char(n / 16 % 16, u2),
        hex_digit_char(n % 16, u3),
    ]
}

/// The four lower-case hex digits of `n`, as git writes a pkt-line length.
pub open spec fn hex4_lower(n: nat) -> Seq<u8> {
    hex4_text(n, false, false, false, false)
}

proof fn lemma_hex_digit_value(d: nat, upper: bool)
    requires
        d < 16,
    ensures
        hex_value(hex_digit_char(d, upper)) == d,
        hex_digit_char(d, upper) != 43u8,
{
}

/// Four hex digits, each `0` to `9`, `a` to `f` or `A` to `F`, read as the
/// number they write in base sixteen: every value below 65536 reads back
/// from its digits, in either case.
pub proof fn law_hex4_reads_its_value(n: nat, u0: bool, u1: bool, u2: bool, u3: bool)
    requires
        n < 65536,
    ensures
        parse_u32_hex_spec(hex4_text(n, u0, u1, u2, u3)) == Some(n),
{
    let a = n / 4096;
    let b = n / 256 % 16;
    let c = n / 16 % 16;
    let e = n % 16;
    let t = hex4_text(n, u0, u1, u2, u3);
    assert(a < 16);
    lemma_hex_digit_value(a, u0);
    lemma_hex_digit_value(b, u1);
    lemma_hex_digit_value(c, u2);
    lemma_hex_digit_value(e, u3);
    assert(strip_plus(t) == t);
    assert(all_hex(t));
    assert(hex_digits_value(t) == ((a * 16 + b) * 16 + c) * 16 + e) by {
        reveal_with_fuel(hex_digits_value, 5);
        assert(t.drop_last() =~= seq![t[0], t[1], t[2]]);
        assert(t.drop_last().drop_last() =~= seq![t[0], t[1]]);
        assert(t.drop_last().drop_last().drop_last() =~= seq![t[0]]);
        assert(t.drop_last().drop_last().drop_last().drop_last() =~= Seq::<u8>::empty());
    }
    assert(((a * 16 + b) * 16 + c) * 16 + e == n) by {
        let q1 = n / 16;
        let q2 = q1 / 16;
        let q3 = q2 / 16;
        assert(n == q1 * 16 + e);
        assert(q1 == q2 * 16 + c);
        assert(q2 == n / 256) by {
            vstd::arithmetic::div_mod::lemma_div_denominator(n as int, 16, 16);
        }
        assert(q3 == n / 4096) by {
            vstd::arithmetic::div_mod::lemma_div_denominator(n as int, 256, 16);
        }
        assert(q2 == q3 * 16 + b);
    }
}

/// A pkt-line written with a four-digit lower-case hex length that counts
/// the length itself and the payload reads back as that payload, whatever
/// follows it (where the payload starts with a byte that is no band
/// designator).
pub proof fn law_pkt_line_reads_back(payload: Seq<u8>, rest: Seq<u8>)
    requires
        payload.len() + 4 < 65536,
        payload.len() > 0,
        !(1 <= payload[0] <= 3),
    ensures
        parse_pkt_line_spec(hex4_lower((payload.len() + 4) as nat) + payload + rest) == Ok::<
            _,
            PktError,
        >(Some((0u8, payload, payload.len() + 4int))),
{
    let n = (payload.len() + 4) as nat;
    let h = hex4_lower(n);
    let s = h + payload + rest;
    law_hex4_reads_its_value(n, false, false, false, false);
    assert(s.take(4) =~= h);
    assert(h != flush_pkt()) by {
        if h == flush_pkt() {
            lemma_hex_digit_value(n / 4096, false);
            lemma_hex_digit_value(n / 256 % 16, false);
            lemma_hex_digit_value(n / 16 % 16, false);
            lemma_hex_digit_value(n % 16, false);
            assert(h[0] == 48u8 && h[1] == 48u8 && h[2] == 48u8 && h[3] == 48u8);
        }
    }
    assert(s[4] == payload[0]);
    assert(s.subrange(4, 4 + payload.len() as int) =~= payload);
}

/// A side-band pkt-line (band 1, 2 or 3) written with a four-digit
/// lower-case hex length that counts the length, the band byte and the
/// payload reads back as its band and payload, whatever follows it.
pub proof fn law_band_pkt_line_reads_back(band: u8, payload: Seq<u8>, rest: Seq<u8>)
    requires
        1 <= band <= 3,
        payload.len() + 5 < 65536,
    ensures
        parse_pkt_line_spec(hex4_lower((payload.len() + 5) as nat) + seq![band] + payload + rest)
            == Ok::<_, PktError>(Some((band, payload, payload.len() + 5int))),
{
    let n = (payload.len() + 5) as nat;
    let h = hex4_lower(n);
    let s = h + seq![band] + payload + rest;
    law_hex4_reads_its_value(n, false, false, false, false);
    assert(s.take(4) =~= h);
    assert(h != flush_pkt()) by {
        if h == flush_pkt() {
            lemma_hex_digit_value(n / 4096, false);
            lemma_hex_digit_value(n / 256 % 16, false);
            lemma_hex_digit_value(n / 16 % 16, false);
            lemma_hex_digit_value(n % 16, false);
            assert(h[0] == 48u8 && h[1] == 48u8 && h[2] == 48u8 && h[3] == 48u8);
        }
    }
    assert(s[4] == band);
    assert(s.subrange(5, 5 + payload.len() as int) =~= payload);
}

/// Why a pack header cannot be read.
#[derive(Debug)]
pub enum PackHeaderError {
    /// The data does not start with `PACK`.
    BadSignature,
    /// The data ends inside the header.
    Incomplete,
}

/// `PACK`.
pub open spec fn pack_signature() -> Seq<u8> {
    seq![80u8, 65u8, 67u8, 75u8]
}

/// A big-endian `u32` at `i`.
pub open spec fn be_u32_at(s: Seq<u8>, i: int) -> u32 {
    (s[i] as int * 16777216 + s[i + 1] as int * 65536 + s[i + 2] as int * 256 + s[i + 3] as int) as u32
}

/// What reading a pack header (`PACK`, version, object count; twelve
/// bytes) from the front of `s` gives: the object count.
pub open spec fn parse_pack_header_spec(s: Seq<u8>) -> Result<u32, PackHeaderError> {
    if s.len() < 4 || s.take(4) != pack_signature() {
        Err(PackHeaderError::BadSignature)
    } else if s.len() < 12 {
        Err(PackHeaderError::Incomplete)
    } else {
        Ok(be_u32_at(s, 8))
    }
}

/// Reads a pack header: the number of objects in the pack.
pub fn parse_pack_header(s: &[u8]) -> (r: Result<u32, PackHeaderError>)
    ensures
        r == parse_pack_header_spec(s@),
{
    if s.len() < 4 || !(s[0] == 80 && s[1] == 65 && s[2] == 67 && s[3] == 75) {
        assert(s@.len() < 4 || s@.take(4) != pack_signature()) by {
            if s@.len() >= 4 && s@.take(4) == pack_signature() {
                assert(s@.take(4)[0] == 80 && s@.take(4)[1] == 65 && s@.take(4)[2] == 67
                    && s@.take(4)[3] == 75);
            }
        }
        return Err(PackHeaderError::BadSignature);
    }
    assert(s@.take(4) =~= pack_signature());
    if s.len() < 12 {
        return Err(PackHeaderError::Incomplete);
    }
    let v: u32 = (s[8] as u32) * 16777216 + (s[9] as u32) * 65536 + (s[10] as u32) * 256
        + (s[11] as u32);
    Ok(v)
}

/// The four bytes of `n`, most significant first.
pub open spec fn be_bytes(n: u32) -> Seq<u8> {
    seq![(n / 16777216) as u8, (n / 65536 % 256) as u8, (n / 256 % 256) as u8, (n % 256) as u8]
}

/// A pack header holds its object count as a big-endian 32-bit number:
/// every count, written after `PACK` and any version, reads back whole,
/// whatever follows the header.
pub proof fn law_pack_header_count(version: Seq<u8>, n: u32, rest: Seq<u8>)
    requires
        version.len() == 4,
    ensures
        parse_pack_header_spec(pack_signature() + version + be_bytes(n) + rest) == Ok::<
            u32,
            PackHeaderError,
        >(n),
{
    let s = pack_signature() + version + be_bytes(n) + rest;
    assert(s.take(4) =~= pack_signature());
    let b0 = n / 16777216;
    let b1 = n / 65536 % 256;
    let b2 = n / 256 % 256;
    let b3 = n % 256;
    assert(s[8] == b0 as u8 && s[9] == b1 as u8 && s[10] == b2 as u8 && s[11] == b3 as u8);
    assert(b0 < 256);
    assert(b0 * 16777216 + b1 * 65536 + b2 * 256 + b3 == n) by {
        let x = n as int;
        let q1 = x / 256;
        let q2 = q1 / 256;
        let q3 = q2 / 256;
        assert(x == q1 * 256 + x % 256);
        assert(q1 == q2 * 256 + q1 % 256);
        assert(q2 == q3 * 256 + q2 % 256);
        assert(q1 == x / 256);
        assert(q2 == x / 65536) by {
            vstd::arithmetic::div_mod::lemma_div_denominator(x, 256, 256);
        }
        assert(q3 == x / 16777216) by {
            vstd::arithmetic::div_mod::lemma_div_denominator(x, 65536, 256);
        }
    }
}

/// Why a pack object header cannot be read.
#[derive(Debug)]
pub enum PackObjError {
    /// No byte is left.
    Empty,
    /// The data ends before the size does; the count of size bytes read.
    Truncated(usize),
    /// The size needs a shift wider than a `usize`.
    ShiftOverflow,
    /// The size does not fit a `usize`.
    AddOverflow,
}

/// The size bytes that follow the first byte of a pack object header, from
/// `i`: each adds its low seven bits shifted by `shift`, while its high bit
/// says another follows.
pub open spec fn obj_size_from(s: Seq<u8>, i: int, len: usize, shift: nat, c: nat) -> Result<
    (usize, int),
    PackObjError,
>
    decreases s.len() - i,
{
    if i < 0 || i >= s.len() {
        Err(PackObjError::Truncated(c as usize))
    } else if shift >= usize::BITS {
        Err(PackObjError::ShiftOverflow)
    } else {
        let b = s[i];
        let term = ((b & 0x7f) as usize) << (shift as usize);
        if len + term > usize::MAX {
            Err(PackObjError::AddOverflow)
        } else if b & 0x80 != 0 {
            obj_size_from(s, i + 1, (len + term) as usize, shift + 7, c + 1)
        } else {
            Ok(((len + term) as usize, i + 1))
        }
    }
}

/// What reading a pack object header from the front of `s` gives: the
/// object's size, its type code and the number of header bytes.
pub open spec fn parse_pack_object_header_spec(s: Seq<u8>) -> Result<(usize, u8, int), PackObjError> {
    if s.len() == 0 {
        Err(PackObjError::Empty)
    } else {
        let b = s[0];
        let t = (b >> 4u8) & 7u8;
        let l = (b & 15u8) as usize;
        if b & 0x80 != 0 {
            match obj_size_from(s, 1, l, 4, 0) {
                Ok((n, p)) => Ok((n, t, p)),
                Err(k) => Err(k),
            }
        } else {
            Ok((l, t, 1))
        }
    }
}

/// Reads a pack object header: the object's size, its type code and the
/// number of header bytes.
pub fn parse_pack_object_header(s: &[u8]) -> (r: Result<(usize, u8, usize), PackObjError>)
    ensures
        match parse_pack_object_header_spec(s@) {
            Ok((n, t, p)) => r matches Ok((n2, t2, p2)) && n2 == n && t2 == t && p2 == p,
            Err(k) => r == Err::<(usize, u8, usize), PackObjError>(k),
        },
        r matches Ok((_, _, p)) ==> 1 <= p <= s.len(),
{
    if s.len() == 0 {
        return Err(PackObjError::Empty);
    }
    let first = s[0];
    let object_type = (first >> 4u8) & 7u8;
    let mut object_len: usize = (first & 15u8) as usize;
    if first & 0x80 == 0 {
        return Ok((object_len, object_type, 1));
    }
    let mut shift: u32 = 4;
    let mut i: usize = 1;
    let mut c: usize = 0;
    loop
        invariant
            1 <= i <= s.len(),
            c == i - 1,
            shift < 0xffff_0000,
            first == s@[0],
            first & 0x80 != 0,
            object_type == (first >> 4u8) & 7u8,
            obj_size_from(s@, i as int, object_len, shift as nat, c as nat) == obj_size_from(
                s@,
                1,
                (first & 15u8) as usize,
                4,
                0,
            ),
        decreases s.len() - i,
    {
        if i >= s.len() {
            return Err(PackObjError::Truncated(c));
        }
        if shift >= usize::BITS {
            return Err(PackObjError::ShiftOverflow);
        }
        let b = s[i];
        let term: usize = ((b & 0x7f) as usize) << (shift as usize);
        if object_len > usize::MAX - term {
            return Err(PackObjError::AddOverflow);
        }
        object_len = object_len + term;
        if b & 0x80 == 0 {
            return Ok((object_len, object_type, i + 1));
        }
        shift = shift + 7;
        i = i + 1;
        c = c + 1;
    }
}

/// Why the base offset of an offset delta cannot be read.
#[derive(Debug)]
pub enum OfsError {
    /// The data ends inside the offset.
    Incomplete,
    /// The offset counter leaves its range.
    Overflow,
}

/// From the byte at `i` (already read), the end of an offset-delta base
/// offset; `base` counts as the reader does.
pub open spec fn ofs_from(s: Seq<u8>, i: int, base: int) -> Result<int, OfsError>
    decreases s.len() - i,
{
    if i < 0 || i >= s.len() {
        Err(OfsError::Incomplete)
    } else if s[i] & 128 == 0 {
        Ok(i + 1)
    } else if usize::BITS < 64 || base + 1 >= 0x40000000000000 {
        Err(OfsError::Overflow)
    } else if i + 1 >= s.len() {
        Err(OfsError::Incomplete)
    } else {
        ofs_from(s, i + 1, base + 1)
    }
}

/// What skipping the base offset of an offset delta at the front of `s`
/// gives: the number of bytes it takes.
pub open spec fn parse_ofs_delta_spec(s: Seq<u8>) -> Result<int, OfsError> {
    if s.len() == 0 {
        Err(OfsError::Incomplete)
    } else {
        ofs_from(s, 0, (s[0] & 127) as int)
    }
}

/// Skips the base offset of an offset delta: the number of bytes it takes.
pub fn parse_ofs_delta(s: &[u8]) -> (r: Result<usize, OfsError>)
    ensures
        match parse_ofs_delta_spec(s@) {
            Ok(n) => r matches Ok(m) && m == n,
            Err(k) => r == Err::<usize, OfsError>(k),
        },
        r matches Ok(n) ==> 1 <= n <= s.len(),
{
    if s.len() == 0 {
        return Err(OfsError::Incomplete);
    }
    let mut c = s[0];
    let mut base: u64 = (c & 127) as u64;
    let mut i: usize = 0;
    while c & 128 != 0
        invariant
            i < s.len(),
            c == s@[i as int],
            base < 0x40000000000000,
            ofs_from(s@, i as int, base as int) == parse_ofs_delta_spec(s@),
        decreases s.len() - i,
    {
        base = base + 1;
        if usize::BITS < 64 || base >= 0x40000000000000 {
            return Err(OfsError::Overflow);
        }
        if i + 1 >= s.len() {
            return Err(OfsError::Incomplete);
        }
        i = i + 1;
        c = s[i];
    }
    Ok(i + 1)
}

/// A ref the server advertises: the hash text and the ref name.
pub struct Ref {
    pub hash: Vec<u8>,
    pub name: Vec<u8>,
}

impl Ref {
    /// What a ref is shown as: its name.
    pub fn name(&self) -> (r: Vec<u8>)
        ensures
            r@ == self.name@,
    {
        let mut r: Vec<u8> = Vec::new();
        append_bytes(&mut r, &self.name);
        r
    }
}

/// An ASCII hex digit character.
pub open spec fn is_hex_char(b: u8) -> bool {
    hex_value(b) >= 0
}

/// The end of the run of hex digits that starts at `i`.
pub open spec fn hex_run(s: Seq<u8>, i: int) -> int
    decreases s.len() - i,
{
    if 0 <= i < s.len() && is_hex_char(s[i]) {
        hex_run(s, i + 1)
    } else {
        i
    }
}

/// `HEAD`.
pub open spec fn head_name() -> Seq<u8> {
    seq![72u8, 69u8, 65u8, 68u8]
}

/// Why a ref line does not give a ref.
#[derive(Debug)]
pub enum RefLineError {
    /// The line is not `<hex> <name>`.
    NotRef,
    /// The hex run is shorter than the four-digit pkt length it starts with.
    ShortHash,
}

/// What reading an advertised ref line (`<pkt-len><hash> <name>`, where the
/// name `HEAD` is followed by a NUL and the capabilities) gives: the hex
/// run without its first four digits, and the name.
pub open spec fn parse_ref_line_spec(s: Seq<u8>) -> Result<(Seq<u8>, Seq<u8>), RefLineError> {
    let h = hex_run(s, 0);
    if h == 0 || h >= s.len() || s[h] != 32 {
        Err(RefLineError::NotRef)
    } else if h < 4 {
        Err(RefLineError::ShortHash)
    } else {
        let rest = s.skip(h + 1);
        let name = if rest.len() >= 5 && rest.take(4) == head_name() && rest[4] == 0 {
            head_name()
        } else {
            rest
        };
        Ok((s.subrange(4, h), name))
    }
}

pub proof fn lemma_hex_run_bounds(s: Seq<u8>, i: int)
    requires
        0 <= i <= s.len(),
    ensures
        i <= hex_run(s, i) <= s.len(),
        forall|j: int| i <= j < hex_run(s, i) ==> is_hex_char(#[trigger] s[j]),
        hex_run(s, i) < s.len() ==> !is_hex_char(s[hex_run(s, i)]),
    decreases s.len() - i,
{
    if i < s.len() && is_hex_char(s[i]) {
        lemma_hex_run_bounds(s, i + 1);
    }
}

/// Reads an advertised ref line.
pub fn parse_ref_line(s: &[u8]) -> (r: Result<Ref, RefLineError>)
    ensures
        match parse_ref_line_spec(s@) {
            Ok((h, n)) => r matches Ok(x) && x.hash@ == h && x.name@ == n,
            Err(k) => r matches Err(k2) && k2 == k,
        },
{
    let mut h: usize = 0;
    while h < s.len() && ((48 <= s[h] && s[h] <= 57) || (97 <= s[h] && s[h] <= 102) || (65 <= s[h]
        && s[h] <= 70))
        invariant
            h <= s.len(),
            hex_run(s@, 0) == hex_run(s@, h as int),
        decreases s.len() - h,
    {
        h = h + 1;
    }
    if h == 0 || h >= s.len() || s[h] != 32 {
        return Err(RefLineError::NotRef);
    }
    if h < 4 {
        return Err(RefLineError::ShortHash);
    }
    let hash = copy_range(s, 4, h);
    let rest = &s[h + 1..s.len()];
    assert(rest@ =~= s@.skip(h + 1));
    let name = if rest.len() >= 5 && rest[0] == 72 && rest[1] == 69 && rest[2] == 65 && rest[3]
        == 68 && rest[4] == 0 {
        assert(rest@.take(4) =~= head_name());
        vec![72u8, 69u8, 65u8, 68u8]
    } else {
        assert(!(rest@.len() >= 5 && rest@.take(4) == head_name() && rest@[4] == 0)) by {
            if rest@.len() >= 5 && rest@.take(4) == head_name() {
                assert(rest@.take(4)[0] == 72 && rest@.take(4)[1] == 69 && rest@.take(4)[2] == 65
                    && rest@.take(4)[3] == 68);
            }
        }
        copy_range(rest, 0, rest.len())
    };
    assert(rest@.subrange(0, rest@.len() as int) =~= rest@);
    Ok(Ref { hash, name })
}

/// The end of the line that starts at `pos`: the first newline at or after
/// it, or the end of `s`.
pub open spec fn line_end(s: Seq<u8>, pos: int) -> int
    decreases s.len() - pos,
{
    if pos < 0 || pos >= s.len() || s[pos] == 10 {
        pos
    } else {
        line_end(s, pos + 1)
    }
}

/// The end of the text of the line that starts at `pos`, without its line
/// ending (`\n` or `\r\n`).
pub open spec fn line_text_end(s: Seq<u8>, pos: int) -> int {
    let e = line_end(s, pos);
    if e < s.len() && e > pos && s[e - 1] == 13 {
        e - 1
    } else {
        e
    }
}

/// Where the line after the one at `pos` starts.
pub open spec fn next_line(s: Seq<u8>, pos: int) -> int {
    let e = line_end(s, pos);
    if e < s.len() {
        e + 1
    } else {
        e
    }
}

pub proof fn lemma_line_end_bounds(s: Seq<u8>, pos: int)
    requires
        0 <= pos <= s.len(),
    ensures
        pos <= line_end(s, pos) <= s.len(),
        line_end(s, pos) < s.len() ==> s[line_end(s, pos)] == 10,
    decreases s.len() - pos,
{
    if pos < s.len() && s[pos] != 10 {
        lemma_line_end_bounds(s, pos + 1);
    }
}

/// The refs read from the lines from `pos` on, up to the first line that is
/// not a ref line; `None` where a line has too short a hash.
pub open spec fn refs_from(s: Seq<u8>, pos: int) -> Option<Seq<(Seq<u8>, Seq<u8>)>>
    decreases s.len() - pos,
{
    if pos < 0 || pos >= s.len() {
        Some(seq![])
    } else {
        let line = s.subrange(pos, line_text_end(s, pos));
        match parse_ref_line_spec(line) {
            Err(RefLineError::NotRef) => Some(seq![]),
            Err(RefLineError::ShortHash) => None,
            Ok(r) => {
                proof {
                    lemma_line_end_bounds(s, pos);
                }
                match refs_from(s, next_line(s, pos)) {
                    Some(rs) => Some(seq![r] + rs),
                    None => None,
                }
            },
        }
    }
}

/// The refs advertised by a discovery response: its lines after the first.
pub open spec fn advertised_refs(s: Seq<u8>) -> Option<Seq<(Seq<u8>, Seq<u8>)>> {
    if s.len() == 0 {
        Some(seq![])
    } else {
        refs_from(s, next_line(s, 0))
    }
}

/// The views of refs.
pub open spec fn ref_views(rs: Seq<Ref>) -> Seq<(Seq<u8>, Seq<u8>)> {
    rs.map_values(|r: Ref| (r.hash@, r.name@))
}

/// Finds the end of the line at `pos`, its text end and the next line.
fn line_at(s: &[u8], pos: usize) -> (r: (usize, usize))
    requires
        pos < s.len(),
    ensures
        r.0 == line_text_end(s@, pos as int),
        r.1 == next_line(s@, pos as int),
        pos <= r.0 <= s.len(),
        pos < r.1 <= s.len(),
{
    proof {
        lemma_line_end_bounds(s@, pos as int);
    }
    let mut e = pos;
    while e < s.len() && s[e] != 10
        invariant
            pos <= e <= s.len(),
            line_end(s@, pos as int) == line_end(s@, e as int),
        decreases s.len() - e,
    {
        e = e + 1;
    }
    let text_end = if e < s.len() && e > pos && s[e - 1] == 13 {
        e - 1
    } else {
        e
    };
    let next = if e < s.len() {
        e + 1
    } else {
        e
    };
    (text_end, next)
}

/// Reads the advertised refs from a discovery response body.
pub fn read_advertised_refs(body: &[u8]) -> (r: Result<Vec<Ref>, Abort>)
    ensures
        match advertised_refs(body@) {
            Some(rs) => r matches Ok(v) && ref_views(v@) == rs,
            None => r matches Err(a) && a.message@ == "byte index 4 is out of range"@,
        },
{
    let mut refs: Vec<Ref> = Vec::new();
    if body.len() == 0 {
        assert(ref_views(refs@) =~= Seq::<(Seq<u8>, Seq<u8>)>::empty());
        return Ok(refs);
    }
    let (_, first_next) = line_at(body, 0);
    let mut pos = first_next;
    let ghost total = advertised_refs(body@);
    while pos < body.len()
        invariant
            pos <= body.len(),
            total == advertised_refs(body@),
            body.len() > 0,
            total == (match refs_from(body@, pos as int) {
                Some(rs) => Some(ref_views(refs@) + rs),
                None => None::<Seq<(Seq<u8>, Seq<u8>)>>,
            }),
        decreases body.len() - pos,
    {
        let (text_end, next) = line_at(body, pos);
        let line = &body[pos..text_end];
        match parse_ref_line(line) {
            Err(RefLineError::NotRef) => {
                assert(ref_views(refs@) + Seq::<(Seq<u8>, Seq<u8>)>::empty() =~= ref_views(refs@));
                return Ok(refs);
            },
            Err(RefLineError::ShortHash) => {
                return Err(abort("byte index 4 is out of range"));
            },
            Ok(r) => {
                let ghost rv = (r.hash@, r.name@);
                let ghost prev = refs@;
                refs.push(r);
                assert(ref_views(refs@) =~= ref_views(prev).push(rv));
                proof {
                    match refs_from(body@, next as int) {
                        Some(rs) => {
                            assert(ref_views(prev) + (seq![rv] + rs) =~= ref_views(refs@) + rs);
                        },
                        None => {},
                    }
                }
                pos = next;
            },
        }
    }
    assert(ref_views(refs@) + Seq::<(Seq<u8>, Seq<u8>)>::empty() =~= ref_views(refs@));
    Ok(refs)
}

/// Where to reach a repository, and where its objects go.
pub struct GitClient {
    pub url: String,
    /// The path of the directory the repository goes into, as bytes.
    pub localdir: Vec<u8>,
}

impl GitClient {
    pub fn repo(url: String, localdir: Vec<u8>) -> (c: GitClient)
        ensures
            c.url == url,
            c.localdir == localdir,
    {
        GitClient { url, localdir }
    }

    /// The first step of the upload-pack exchange.
    pub fn upload_pack(self) -> (d: UploadPackDiscovery)
        ensures
            d.client == self,
    {
        UploadPackDiscovery { client: self }
    }
}

/// The first step of the upload-pack exchange: ref discovery.
pub struct UploadPackDiscovery {
    pub client: GitClient,
}

/// The second step of the upload-pack exchange: asking for objects.
pub struct UploadPackCompute {
    pub client: GitClient,
    pub advertised: Vec<Ref>,
    pub _common: Vec<Ref>,
}

impl UploadPackDiscovery {
    /// The URL of the ref discovery request.
    pub fn discovery_url(&self) -> (u: String)
        ensures
            u@ == self.client.url@ + "/info/refs?service=git-upload-pack"@,
    {
        let mut u = self.client.url.clone();
        u.append("/info/refs?service=git-upload-pack");
        u
    }

    /// Takes the discovery response and gives the next step, which holds
    /// the refs advertised in it.
    pub fn exec(self, body: &str) -> (r: Result<UploadPackCompute, Abort>)
        ensures
            match advertised_refs(body.spec_bytes()) {
                Some(rs) => r matches Ok(c) && ref_views(c.advertised@) == rs && c._common@.len()
                    == 0 && c.client == self.client,
                None => r matches Err(a) && a.message@ == "byte index 4 is out of range"@,
            },
    {
        let refs = read_advertised_refs(body.as_bytes())?;
        Ok(UploadPackCompute { client: self.client, advertised: refs, _common: Vec::new() })
    }
}

/// The two want lines for one ref.
pub open spec fn want_lines(hash: Seq<u8>) -> Seq<u8> {
    encode_utf8("0054want "@) + hash + encode_utf8(" multi_ack side-band-64k ofs-delta\n"@)
        + encode_utf8("0032want "@) + hash + encode_utf8("\n"@)
}

/// The want lines for refs from `i` on.
pub open spec fn wants_from(rs: Seq<(Seq<u8>, Seq<u8>)>, i: int) -> Seq<u8>
    decreases rs.len() - i,
{
    if i < 0 || i >= rs.len() {
        seq![]
    } else {
        want_lines(rs[i].0) + wants_from(rs, i + 1)
    }
}

/// The body of the upload-pack request for the advertised refs: two want
/// lines for each ref after the first, a flush packet and `done`.
pub open spec fn request_body_spec(rs: Seq<(Seq<u8>, Seq<u8>)>) -> Seq<u8> {
    wants_from(rs, 1) + encode_utf8("0000"@) + encode_utf8("0009done\n"@)
}

/// The bytes of ASCII text are its characters, one for one.
proof fn lemma_ascii_text_bytes(t: Seq<char>)
    requires
        is_ascii_chars(t),
    ensures
        encode_utf8(t) =~= t.map_values(|c: char| c as u8),
{
    is_ascii_chars_encode_utf8(t);
}

/// The pkt-line lengths the request writes count their lines exactly: each
/// pair of want lines for a 40-byte hash reads back, with the pkt-line
/// reader, as its two payloads, one after the other.
pub proof fn law_want_lines_read_back(hash: Seq<u8>, rest: Seq<u8>)
    requires
        hash.len() == 40,
    ensures
        ({
            let s = want_lines(hash) + rest;
            let first = encode_utf8("want "@) + hash + encode_utf8(
                " multi_ack side-band-64k ofs-delta\n"@,
            );
            let second = encode_utf8("want "@) + hash + encode_utf8("\n"@);
            &&& parse_pkt_line_spec(s) == Ok::<_, PktError>(Some((0u8, first, 84int)))
            &&& parse_pkt_line_spec(s.skip(84)) == Ok::<_, PktError>(Some((0u8, second, 50int)))
        }),
{
    reveal_strlit("0054want ");
    reveal_strlit(" multi_ack side-band-64k ofs-delta\n");
    reveal_strlit("0032want ");
    reveal_strlit("\n");
    reveal_strlit("want ");
    let a = "0054want "@;
    let b = " multi_ack side-band-64k ofs-delta\n"@;
    let c = "0032want "@;
    let d = "\n"@;
    let w = "want "@;
    assert(is_ascii_chars(a));
    assert(is_ascii_chars(b));
    assert(is_ascii_chars(c));
    assert(is_ascii_chars(d));
    assert(is_ascii_chars(w));
    lemma_ascii_text_bytes(a);
    lemma_ascii_text_bytes(b);
    lemma_ascii_text_bytes(c);
    lemma_ascii_text_bytes(d);
    lemma_ascii_text_bytes(w);
    let ea = encode_utf8(a);
    let eb = encode_utf8(b);
    let ec = encode_utf8(c);
    let ed = encode_utf8(d);
    let ew = encode_utf8(w);
    let s = want_lines(hash) + rest;
    assert(s =~= ea + hash + eb + ec + hash + ed + rest);
    let first = ew + hash + eb;
    let second = ew + hash + ed;
    assert(ea.len() == 9 && eb.len() == 35 && ec.len() == 9 && ed.len() == 1);
    // the first line
    assert(s.take(4) =~= seq![48u8, 48u8, 53u8, 52u8]);
    assert(s.take(4) != flush_pkt()) by {
        assert(s.take(4)[2] != flush_pkt()[2]);
    }
    assert(strip_plus(s.take(4)) == s.take(4));
    assert(hex_digits_value(s.take(4)) == 84) by {
        reveal_with_fuel(hex_digits_value, 5);
        assert(s.take(4).drop_last() =~= seq![48u8, 48u8, 53u8]);
        assert(s.take(4).drop_last().drop_last() =~= seq![48u8, 48u8]);
        assert(s.take(4).drop_last().drop_last().drop_last() =~= seq![48u8]);
        assert(s.take(4).drop_last().drop_last().drop_last().drop_last() =~= Seq::<u8>::empty());
    }
    assert(all_hex(s.take(4)));
    assert(s[4] == 119u8);
    assert(s.subrange(4, 84) =~= first);
    // the second line
    let t = s.skip(84);
    assert(t =~= ec + hash + ed + rest);
    assert(t.take(4) =~= seq![48u8, 48u8, 51u8, 50u8]);
    assert(t.take(4) != flush_pkt()) by {
        assert(t.take(4)[2] != flush_pkt()[2]);
    }
    assert(strip_plus(t.take(4)) == t.take(4));
    assert(hex_digits_value(t.take(4)) == 50) by {
        reveal_with_fuel(hex_digits_value, 5);
        assert(t.take(4).drop_last() =~= seq![48u8, 48u8, 51u8]);
        assert(t.take(4).drop_last().drop_last() =~= seq![48u8, 48u8]);
        assert(t.take(4).drop_last().drop_last().drop_last() =~= seq![48u8]);
        assert(t.take(4).drop_last().drop_last().drop_last().drop_last() =~= Seq::<u8>::empty());
    }
    assert(all_hex(t.take(4)));
    assert(t[4] == 119u8);
    assert(t.subrange(4, 50) =~= second);
}

impl UploadPackCompute {
    /// The URL of the upload-pack request.
    pub fn upload_pack_url(&self) -> (u: String)
        ensures
            u@ == self.client.url@ + "/git-upload-pack"@,
    {
        let mut u = self.client.url.clone();
        u.append("/git-upload-pack");
        u
    }

    /// The body of the upload-pack request.
    pub fn request_body(&self) -> (b: Vec<u8>)
        ensures
            b@ == request_body_spec(ref_views(self.advertised@)),
    {
        let ghost rs = ref_views(self.advertised@);
        let mut b: Vec<u8> = Vec::new();
        let mut i: usize = 1;
        while i < self.advertised.len()
            invariant
                rs == ref_views(self.advertised@),
                1 <= i,
                i <= self.advertised.len() || self.advertised.len() == 0,
                wants_from(rs, 1) == b@ + wants_from(rs, i as int),
            decreases self.advertised.len() - i,
        {
            let h = &self.advertised[i].hash;
            assert(rs[i as int].0 == h@);
            append_bytes(&mut b, "0054want ".as_bytes());
            append_bytes(&mut b, h);
            append_bytes(&mut b, " multi_ack side-band-64k ofs-delta\n".as_bytes());
            append_bytes(&mut b, "0032want ".as_bytes());
            append_bytes(&mut b, h);
            append_bytes(&mut b, "\n".as_bytes());
            i = i + 1;
        }
        assert(wants_from(rs, i as int) =~= Seq::<u8>::empty());
        append_bytes(&mut b, "0000".as_bytes());
        append_bytes(&mut b, "0009done\n".as_bytes());
        b
    }
}

/// The payload of the band-one pkt-lines from `pos` up to the flush packet.
pub open spec fn band1_from(s: Seq<u8>, pos: int) -> Result<Seq<u8>, PktError>
    decreases s.len() - pos,
{
    if pos < 0 || pos > s.len() {
        Err(PktError::Incomplete)
    } else {
        match parse_pkt_line_spec(s.skip(pos)) {
            Err(k) => Err(k),
            Ok(None) => Ok(seq![]),
            Ok(Some((b, p, n))) => if n <= 0 || pos + n > s.len() {
                Err(PktError::Incomplete)
            } else {
                match band1_from(s, pos + n) {
                    Ok(rest) => Ok(
                        if b == 1 {
                            p + rest
                        } else {
                            rest
                        },
                    ),
                    Err(k) => Err(k),
                }
            },
        }
    }
}

/// The message the exchange stops with when a pkt-line does not read.
pub open spec fn pkt_abort(k: PktError) -> Seq<char> {
    match k {
        PktError::Incomplete => "parse error"@,
        PktError::InvalidLength => "invalid pkt len"@,
        PktError::LengthUnderflow => "attempt to subtract with overflow"@,
        PktError::BadLength => "bad pkt length"@,
    }
}

fn pkt_abort_exec(k: PktError) -> (a: Abort)
    ensures
        a.message@ == pkt_abort(k),
{
    match k {
        PktError::Incomplete => abort("parse error"),
        PktError::InvalidLength => abort("invalid pkt len"),
        PktError::LengthUnderflow => abort("attempt to subtract with overflow"),
        PktError::BadLength => abort("bad pkt length"),
    }
}

/// Gathers the band-one payload of a response, up to its flush packet.
pub fn collect_band1(s: &[u8]) -> (r: Result<Vec<u8>, Abort>)
    ensures
        match band1_from(s@, 0) {
            Ok(p) => r matches Ok(v) && v@ == p,
            Err(k) => r matches Err(a) && a.message@ == pkt_abort(k),
        },
{
    let ghost total = band1_from(s@, 0);
    let mut out: Vec<u8> = Vec::new();
    let mut pos: usize = 0;
    loop
        invariant
            pos <= s.len(),
            total == band1_from(s@, 0),
            total == (match band1_from(s@, pos as int) {
                Ok(rest) => Ok(out@ + rest),
                Err(k) => Err(k),
            }),
        decreases s.len() - pos,
    {
        let rest = &s[pos..s.len()];
        assert(rest@ =~= s@.skip(pos as int));
        match parse_pkt_line(rest) {
            Err(k) => {
                return Err(pkt_abort_exec(k));
            },
            Ok(None) => {
                assert(out@ + Seq::<u8>::empty() =~= out@);
                return Ok(out);
            },
            Ok(Some((band, payload, n))) => {
                let ghost prev = out@;
                if band == 1 {
                    append_bytes(&mut out, &payload);
                }
                proof {
                    match band1_from(s@, pos + n) {
                        Ok(r2) => {
                            if band == 1 {
                                assert(prev + (payload@ + r2) =~= out@ + r2);
                            }
                        },
                        Err(_) => {},
                    }
                }
                pos = pos + n;
            },
        }
    }
}

/// The kinds of objects a pack holds.
#[derive(Debug, PartialEq, Eq, Structural, Clone, Copy)]
pub enum PackObjectType {
    Commit,
    Tree,
    Blob,
    Tag,
    OfsDelta,
    RefDelta,
}

/// The pack object type a type code names.
pub open spec fn pack_type_of(code: u8) -> Option<PackObjectType> {
    if code == 1 {
        Some(PackObjectType::Commit)
    } else if code == 2 {
        Some(PackObjectType::Tree)
    } else if code == 3 {
        Some(PackObjectType::Blob)
    } else if code == 4 {
        Some(PackObjectType::Tag)
    } else if code == 6 {
        Some(PackObjectType::OfsDelta)
    } else if code == 7 {
        Some(PackObjectType::RefDelta)
    } else {
        None
    }
}

/// A pack type that is a whole object.
pub open spec fn is_plain_object(t: PackObjectType) -> bool {
    t == PackObjectType::Commit || t == PackObjectType::Tree || t == PackObjectType::Blob
}

/// The object type of a pack type that is a whole object.
pub open spec fn object_type_of(t: PackObjectType) -> ObjectType {
    match t {
        PackObjectType::Commit => ObjectType::Commit,
        PackObjectType::Tree => ObjectType::Tree,
        _ => ObjectType::Blob,
    }
}

impl ObjectType {
    /// The object type of a pack object that is not a delta.
    pub fn from_pack_type(value: &PackObjectType) -> (t: ObjectType)
        requires
            is_plain_object(*value),
        ensures
            t == object_type_of(*value),
    {
        match value {
            PackObjectType::Commit => ObjectType::Commit,
            PackObjectType::Tree => ObjectType::Tree,
            _ => ObjectType::Blob,
        }
    }
}

/// The message the exchange stops with when an object header does not read.
pub open spec fn obj_header_abort(k: PackObjError) -> Seq<char> {
    match k {
        PackObjError::Empty => "invalid first size byte"@,
        PackObjError::Truncated(c) => "invalid size byte #"@ + decimal_chars(c as nat),
        PackObjError::ShiftOverflow => "attempt to shift left with overflow"@,
        PackObjError::AddOverflow => "attempt to add with overflow"@,
    }
}

fn obj_header_abort_exec(k: PackObjError) -> (a: Abort)
    ensures
        a.message@ == obj_header_abort(k),
{
    match k {
        PackObjError::Empty => abort("invalid first size byte"),
        PackObjError::Truncated(c) => {
            let mut m = "invalid size byte #".to_string();
            let d = decimal_string(c as u64);
            m.append(d.as_str());
            Abort { message: m }
        },
        PackObjError::ShiftOverflow => abort("attempt to shift left with overflow"),
        PackObjError::AddOverflow => abort("attempt to add with overflow"),
    }
}

/// The message the exchange stops with when a delta offset does not read.
pub open spec fn ofs_abort(k: OfsError) -> Seq<char> {
    match k {
        OfsError::Incomplete => "failed ofs delta offset calculation"@,
        OfsError::Overflow => "some how this is bad"@,
    }
}

/// One object of a pack at `pos`: its type, declared size, inflated data
/// and where the next object starts; or the message the exchange stops with.
pub open spec fn pack_entry_spec(s: Seq<u8>, pos: int) -> Result<
    (PackObjectType, usize, Seq<u8>, int),
    Seq<char>,
> {
    match parse_pack_object_header_spec(s.skip(pos)) {
        Err(k) => Err(obj_header_abort(k)),
        Ok((len, code, hl)) => match pack_type_of(code) {
            None => Err("bad pack object type encountered"@),
            Some(pt) => {
                let dstart: Result<int, Seq<char>> = if pt == PackObjectType::OfsDelta {
                    match parse_ofs_delta_spec(s.skip(pos + hl)) {
                        Ok(n) => Ok(pos + hl + n),
                        Err(k) => Err(ofs_abort(k)),
                    }
                } else {
                    Ok(pos + hl)
                };
                match dstart {
                    Err(m) => Err(m),
                    Ok(d) => match zlib_stream_inflated(s.skip(d)) {
                        None => Err("failed to inflate pack object"@),
                        Some((content, left)) => Ok((pt, len, content, s.len() - left)),
                    },
                }
            },
        },
    }
}

/// Reads the object of a pack at `pos`.
fn read_pack_entry(s: &[u8], pos: usize) -> (r: Result<(PackObjectType, usize, Vec<u8>, usize), Abort>)
    requires
        pos <= s.len(),
    ensures
        match pack_entry_spec(s@, pos as int) {
            Ok((t, n, c, np)) => r matches Ok((t2, n2, c2, np2)) && t2 == t && n2 == n && c2@ == c
                && np2 == np,
            Err(m) => r matches Err(a) && a.message@ == m,
        },
        r matches Ok((_, _, _, np)) ==> np <= s.len(),
{
    let rest = &s[pos..s.len()];
    assert(rest@ =~= s@.skip(pos as int));
    let (len, code, hl) = match parse_pack_object_header(rest) {
        Ok(x) => x,
        Err(k) => return Err(obj_header_abort_exec(k)),
    };
    let pt = if code == 1 {
        PackObjectType::Commit
    } else if code == 2 {
        PackObjectType::Tree
    } else if code == 3 {
        PackObjectType::Blob
    } else if code == 4 {
        PackObjectType::Tag
    } else if code == 6 {
        PackObjectType::OfsDelta
    } else if code == 7 {
        PackObjectType::RefDelta
    } else {
        return Err(abort("bad pack object type encountered"));
    };
    let tail = &s[pos + hl..s.len()];
    assert(tail@ =~= s@.skip(pos + hl));
    let d: usize = if pt == PackObjectType::OfsDelta {
        match parse_ofs_delta(tail) {
            Ok(n) => {
                assert(parse_ofs_delta_spec(s@.skip(pos + hl)) == Ok::<int, OfsError>(n as int));
                pos + hl + n
            },
            Err(OfsError::Incomplete) => return Err(abort("failed ofs delta offset calculation")),
            Err(OfsError::Overflow) => return Err(abort("some how this is bad")),
        }
    } else {
        pos + hl
    };
    let data = &s[d..s.len()];
    assert(data@ =~= s@.skip(d as int));
    assert(parse_pack_object_header_spec(s@.skip(pos as int)) == Ok::<(usize, u8, int), PackObjError>((len, code, hl as int)));
    assert(pack_type_of(code) == Some(pt));
    match zlib_decompress_stream(data) {
        Ok((content, left)) => Ok((pt, len, content, s.len() - left)),
        Err(_) => Err(abort("failed to inflate pack object")),
    }
}

/// How reading a pack ends, as the specification sees it.
pub enum PackEndView {
    /// With the hex name of the first commit in the pack.
    Head(Seq<char>),
    /// With the message the exchange stops on.
    Aborted(Seq<char>),
}

/// `rel` below the directory `dir`, as `Path::join` puts a relative path
/// below a directory: with one `/` between them.
pub open spec fn join_path(dir: Seq<u8>, rel: Seq<u8>) -> Seq<u8> {
    if dir.len() == 0 {
        rel
    } else if dir.last() == 47 {
        dir + rel
    } else {
        dir + seq![47u8] + rel
    }
}

/// `rel` below the directory `dir`.
pub fn join_path_exec(dir: &[u8], rel: &[u8]) -> (p: Vec<u8>)
    ensures
        p@ == join_path(dir@, rel@),
{
    let mut p: Vec<u8> = Vec::new();
    append_bytes(&mut p, dir);
    if dir.len() > 0 && dir[dir.len() - 1] != 47 {
        p.push(47u8);
    }
    append_bytes(&mut p, rel);
    proof {
        if dir.len() > 0 && dir@.last() != 47 {
            assert(p@ =~= dir@ + seq![47u8] + rel@);
        } else {
            assert(p@ =~= dir@ + rel@);
        }
    }
    p
}

/// The stored files (below the directory `dir`) and the ending from reading
/// `k` pack objects at `pos`; `head` is the first commit seen so far.
pub open spec fn pack_objects_spec(
    s: Seq<u8>,
    pos: int,
    k: nat,
    head: Option<Seq<char>>,
    dir: Seq<u8>,
) -> (
    Seq<(Seq<u8>, Seq<u8>)>,
    PackEndView,
)
    decreases k,
{
    if k == 0 {
        (
            seq![],
            match head {
                Some(h) => PackEndView::Head(h),
                None => PackEndView::Aborted("did not receive any commits"@),
            },
        )
    } else {
        match pack_entry_spec(s, pos) {
            Err(m) => (seq![], PackEndView::Aborted(m)),
            Ok((pt, len, content, np)) => if is_plain_object(pt) {
                let full = header_bytes(object_type_of(pt), len as nat) + content;
                let obj = (
                    join_path(dir, loose_object_path(hex_ascii(sha1_checked_digest(full)))),
                    zlib_fast_compressed(full),
                );
                let nh = if pt == PackObjectType::Commit && head is None {
                    Some(hex_lower(sha1_checked_digest(full)))
                } else {
                    head
                };
                let rest = pack_objects_spec(s, np, (k - 1) as nat, nh, dir);
                (seq![obj] + rest.0, rest.1)
            } else {
                pack_objects_spec(s, np, (k - 1) as nat, head, dir)
            },
        }
    }
}

/// The files to store and the ending from an upload-pack response: its
/// band-one payload is a pack whose whole objects are stored below the
/// directory `dir`, and the first commit among them is the result.
pub open spec fn pack_response_spec(s: Seq<u8>, dir: Seq<u8>) -> (
    Seq<(Seq<u8>, Seq<u8>)>,
    PackEndView,
) {
    match band1_from(s, 0) {
        Err(k) => (seq![], PackEndView::Aborted(pkt_abort(k))),
        Ok(p) => match parse_pack_header_spec(p) {
            Err(PackHeaderError::BadSignature) => (
                seq![],
                PackEndView::Aborted("invalid PACK signature"@),
            ),
            Err(PackHeaderError::Incomplete) => (seq![], PackEndView::Aborted("invalid band 1 pkt"@)),
            Ok(count) => pack_objects_spec(p, 12, count as nat, None, dir),
        },
    }
}

/// Reading `k` pack objects keeps a head it already has; one it finds is
/// the name of an object it stores.
proof fn lemma_pack_head(s: Seq<u8>, pos: int, k: nat, head: Option<Seq<char>>, dir: Seq<u8>)
    ensures
        ({
            let v = pack_objects_spec(s, pos, k, head, dir);
            v.1 matches PackEndView::Head(h) ==> (head == Some(h) || (head is None && exists|
                m: int,
            |
                0 <= m < v.0.len() && #[trigger] v.0[m].0 == join_path(
                    dir,
                    loose_object_path(encode_utf8(h)),
                )))
        }),
    decreases k,
{
    if k > 0 {
        match pack_entry_spec(s, pos) {
            Err(_) => {},
            Ok((pt, len, content, np)) => {
                if is_plain_object(pt) {
                    let full = header_bytes(object_type_of(pt), len as nat) + content;
                    let d = sha1_checked_digest(full);
                    let obj = (join_path(dir, loose_object_path(hex_ascii(d))), zlib_fast_compressed(full));
                    let nh = if pt == PackObjectType::Commit && head is None {
                        Some(hex_lower(d))
                    } else {
                        head
                    };
                    lemma_pack_head(s, np, (k - 1) as nat, nh, dir);
                    let rest = pack_objects_spec(s, np, (k - 1) as nat, nh, dir);
                    let all = seq![obj] + rest.0;
                    let v = pack_objects_spec(s, pos, k, head, dir);
                    assert(v.0 == all && v.1 == rest.1);
                    if let PackEndView::Head(h) = rest.1 {
                        if head is None {
                            if nh == Some(h) {
                                crate::object::lemma_hex_lower(d);
                                is_ascii_chars_encode_utf8(hex_lower(d));
                                assert(encode_utf8(h) =~= hex_ascii(d));
                                assert(v.0[0].0 == join_path(dir, loose_object_path(encode_utf8(h))));
                            } else {
                                let m = choose|m: int|
                                    0 <= m < rest.0.len() && #[trigger] rest.0[m].0 == join_path(
                                        dir,
                                        loose_object_path(encode_utf8(h)),
                                    );
                                assert(v.0[m + 1] == rest.0[m]);
                            }
                        }
                    }
                } else {
                    lemma_pack_head(s, np, (k - 1) as nat, head, dir);
                }
            },
        }
    }
}

/// The commit a pack read ends with is an object it stores: the file of
/// the object that name names, where `cat-file` looks for it below the
/// directory the objects go to, is among the files to store.
pub proof fn law_pack_head_is_stored(response: Seq<u8>, dir: Seq<u8>)
    ensures
        ({
            let v = pack_response_spec(response, dir);
            v.1 matches PackEndView::Head(h) ==> exists|m: int|
                0 <= m < v.0.len() && #[trigger] v.0[m].0 == join_path(
                    dir,
                    loose_object_path(encode_utf8(h)),
                )
        }),
{
    if let Ok(p) = band1_from(response, 0) {
        if let Ok(count) = parse_pack_header_spec(p) {
            lemma_pack_head(p, 12, count as nat, None, dir);
        }
    }
}

/// How reading a pack ends.
pub enum PackEnd {
    /// With the hex name of the first commit in the pack.
    Head(String),
    Aborted(Abort),
}

/// What reading a pack gives: the files to store, in order, and how it ended.
pub struct PackOutcome {
    pub objects: Vec<LooseFile>,
    pub end: PackEnd,
}

/// The views of files to store.
pub open spec fn stored_views(fs: Seq<LooseFile>) -> Seq<(Seq<u8>, Seq<u8>)> {
    fs.map_values(|f: LooseFile| (f.path@, f.data@))
}

/// An ending is the one the specification describes.
pub open spec fn pack_end_matches(e: PackEnd, v: PackEndView) -> bool {
    match v {
        PackEndView::Head(h) => e matches PackEnd::Head(x) && x@ == h,
        PackEndView::Aborted(m) => e matches PackEnd::Aborted(a) && a.message@ == m,
    }
}

/// The view of an optional hex name.
pub open spec fn head_view(h: Option<String>) -> Option<Seq<char>> {
    match h {
        Some(x) => Some(x@),
        None => None,
    }
}

impl UploadPackCompute {
    /// Reads the upload-pack response: gathers the band-one payload, reads
    /// the pack in it and prepares each whole object for storage below the
    /// client's local directory, in order; ends with the hex name of the
    /// first commit.
    pub fn exec(self, response: &[u8]) -> (r: PackOutcome)
        ensures
            ({
                let v = pack_response_spec(response@, self.client.localdir@);
                stored_views(r.objects@) == v.0 && pack_end_matches(r.end, v.1)
            }),
    {
        let mut objects: Vec<LooseFile> = Vec::new();
        let pack = match collect_band1(response) {
            Ok(p) => p,
            Err(a) => {
                assert(stored_views(objects@) =~= Seq::<(Seq<u8>, Seq<u8>)>::empty());
                return PackOutcome { objects, end: PackEnd::Aborted(a) };
            },
        };
        let count = match parse_pack_header(&pack) {
            Ok(c) => c,
            Err(PackHeaderError::BadSignature) => {
                assert(stored_views(objects@) =~= Seq::<(Seq<u8>, Seq<u8>)>::empty());
                return PackOutcome { objects, end: PackEnd::Aborted(abort("invalid PACK signature")) };
            },
            Err(PackHeaderError::Incomplete) => {
                assert(stored_views(objects@) =~= Seq::<(Seq<u8>, Seq<u8>)>::empty());
                return PackOutcome { objects, end: PackEnd::Aborted(abort("invalid band 1 pkt")) };
            },
        };
        let ghost p = pack@;
        let ghost dir = self.client.localdir@;
        let ghost total = pack_objects_spec(p, 12, count as nat, None, dir);
        assert(total == pack_response_spec(response@, dir));
        let mut head: Option<String> = None;
        let mut pos: usize = 12;
        let mut i: u32 = 0;
        while i < count
            invariant
                p == pack@,
                pos <= pack.len(),
                i <= count,
                dir == self.client.localdir@,
                total == pack_objects_spec(p, 12, count as nat, None, dir),
                total == pack_response_spec(response@, dir),
                total.0 == stored_views(objects@) + pack_objects_spec(
                    p,
                    pos as int,
                    (count - i) as nat,
                    head_view(head),
                    dir,
                ).0,
                total.1 == pack_objects_spec(
                    p,
                    pos as int,
                    (count - i) as nat,
                    head_view(head),
                    dir,
                ).1,
            decreases count - i,
        {
            let (pt, len, content, np) = match read_pack_entry(&pack, pos) {
                Ok(x) => x,
                Err(a) => {
                    assert(total.0 =~= stored_views(objects@));
                    return PackOutcome { objects, end: PackEnd::Aborted(a) };
                },
            };
            if pt == PackObjectType::Blob || pt == PackObjectType::Tree || pt
                == PackObjectType::Commit {
                let t = ObjectType::from_pack_type(&pt);
                let o = match Object::create_from_buffer(&content, t, len, true) {
                    Ok(o) => o,
                    Err(_) => {
                        assert(false);
                        return PackOutcome { objects, end: PackEnd::Aborted(abort("object could not be stored")) };
                    },
                };
                let ghost full = header_bytes(t, len as nat) + content@;
                let Object { hash, stored, .. } = o;
                if pt == PackObjectType::Commit && head.is_none() {
                    head = hash;
                }
                match stored {
                    Some(f) => {
                        let f = LooseFile {
                            path: join_path_exec(&self.client.localdir, &f.path),
                            data: f.data,
                        };
                        let ghost fv = (f.path@, f.data@);
                        let ghost prev = objects@;
                        objects.push(f);
                        assert(stored_views(objects@) =~= stored_views(prev).push(fv));
                        assert(total.0 =~= stored_views(objects@) + pack_objects_spec(
                            p,
                            np as int,
                            (count - i - 1) as nat,
                            head_view(head),
                            dir,
                        ).0);
                    },
                    None => {
                        assert(false);
                    },
                }
            }
            pos = np;
            i = i + 1;
        }
        assert(total.0 =~= stored_views(objects@));
        match head {
            Some(h) => PackOutcome { objects, end: PackEnd::Head(h) },
            None => PackOutcome { objects, end: PackEnd::Aborted(abort("did not receive any commits")) },
        }
    }
}

} // verus!
