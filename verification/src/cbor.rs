//! CBOR primitives for the wire format.
//!
//! Every on-disk object is framed with standard CBOR item headers: an initial
//! byte holding a major type (high three bits) and additional information
//! (low five bits), followed by zero, one, two, four or eight big-endian
//! length bytes.  The decoder accepts any of the definite-length forms; the
//! encoder always emits the shortest one.

use vstd::prelude::*;
use vstd::string::StringSliceAdditionalSpecFns;
use crate::error::Error;

verus! {

/// Major type of an unsigned integer item.
pub const MAJOR_UINT: u8 = 0;

/// Major type of a byte string item.
pub const MAJOR_BYTES: u8 = 2;

/// Major type of a text string item.
pub const MAJOR_TEXT: u8 = 3;

/// Major type of an array item.
pub const MAJOR_ARRAY: u8 = 4;

/// Major type of a map item.
pub const MAJOR_MAP: u8 = 5;

/// The number of bytes a CBOR header occupies when its value is `n` and the
/// encoder uses the shortest definite-length form.
pub open spec fn spec_cbor_header_size(n: int) -> int {
    if n <= 23 {
        1
    } else if n <= 0xff {
        2
    } else if n <= 0xffff {
        3
    } else if n <= 0xffff_ffff {
        5
    } else {
        9
    }
}

/// Size of the CBOR header that precedes a list (or byte string) of `size`
/// elements, in the shortest definite-length form.
pub fn cbor_size_of_list_header(size: usize) -> (r: usize)
    ensures
        r == spec_cbor_header_size(size as int),
{
    let s = size as u64;
    if s <= 23 {
        1
    } else if s <= 0xff {
        2
    } else if s <= 0xffff {
        3
    } else if s <= 0xffff_ffff {
        5
    } else {
        9
    }
}

/// The canonical (shortest definite-length) CBOR header for major type
/// `major` and value `n`.
pub open spec fn spec_cbor_header(major: u8, n: u64) -> Seq<u8> {
    if n <= 23 {
        seq![((major as int) * 32 + n as int) as u8]
    } else if n <= 0xff {
        seq![((major as int) * 32 + 24) as u8, n as u8]
    } else if n <= 0xffff {
        seq![
            ((major as int) * 32 + 25) as u8,
            ((n as int) / 0x100 % 0x100) as u8,
            ((n as int) % 0x100) as u8,
        ]
    } else if n <= 0xffff_ffff {
        seq![
            ((major as int) * 32 + 26) as u8,
            ((n as int) / 0x1000000 % 0x100) as u8,
            ((n as int) / 0x10000 % 0x100) as u8,
            ((n as int) / 0x100 % 0x100) as u8,
            ((n as int) % 0x100) as u8,
        ]
    } else {
        seq![
            ((major as int) * 32 + 27) as u8,
            ((n as int) / 0x100000000000000 % 0x100) as u8,
            ((n as int) / 0x1000000000000 % 0x100) as u8,
            ((n as int) / 0x10000000000 % 0x100) as u8,
            ((n as int) / 0x100000000 % 0x100) as u8,
            ((n as int) / 0x1000000 % 0x100) as u8,
            ((n as int) / 0x10000 % 0x100) as u8,
            ((n as int) / 0x100 % 0x100) as u8,
            ((n as int) % 0x100) as u8,
        ]
    }
}

/// Reads a CBOR item header at `pos`: the major type, the value (the
/// integer itself, or the length of the string, array or map that follows),
/// and the position just past the header.  Accepts every definite-length
/// form; indefinite lengths and reserved encodings are refused.
pub open spec fn spec_parse_header(s: Seq<u8>, pos: int) -> Option<(u8, u64, int)> {
    if !(0 <= pos < s.len()) {
        None
    } else {
        let major = (s[pos] as int / 32) as u8;
        let ai = s[pos] as int % 32;
        if ai <= 23 {
            Some((major, ai as u64, pos + 1))
        } else if ai == 24 {
            if pos + 2 <= s.len() {
                Some((major, s[pos + 1] as u64, pos + 2))
            } else {
                None
            }
        } else if ai == 25 {
            if pos + 3 <= s.len() {
                Some((major, (s[pos + 1] as int * 0x100 + s[pos + 2] as int) as u64, pos + 3))
            } else {
                None
            }
        } else if ai == 26 {
            if pos + 5 <= s.len() {
                Some((
                    major,
                    (s[pos + 1] as int * 0x1000000 + s[pos + 2] as int * 0x10000 + s[pos + 3] as int
                        * 0x100 + s[pos + 4] as int) as u64,
                    pos + 5,
                ))
            } else {
                None
            }
        } else if ai == 27 {
            if pos + 9 <= s.len() {
                Some((
                    major,
                    (s[pos + 1] as int * 0x100000000000000 + s[pos + 2] as int * 0x1000000000000 + s[
                        pos + 3] as int * 0x10000000000 + s[pos + 4] as int * 0x100000000 + s[pos
                        + 5] as int * 0x1000000 + s[pos + 6] as int * 0x10000 + s[pos + 7] as int
                        * 0x100 + s[pos + 8] as int) as u64,
                    pos + 9,
                ))
            } else {
                None
            }
        } else {
            None
        }
    }
}

/// The decoder error reported when `spec_parse_header` refuses the input.
pub open spec fn spec_header_err(s: Seq<u8>, pos: int) -> Error {
    if !(0 <= pos < s.len()) {
        Error::Eof
    } else if s[pos] as int % 32 >= 28 {
        Error::Syntax
    } else {
        Error::Eof
    }
}

/// Decodes one CBOR item header starting at `pos`.
pub fn parse_cbor_header(s: &[u8], pos: usize) -> (r: Result<(u8, u64, usize), Error>)
    ensures
        match r {
            Ok((major, n, np)) => {
                &&& spec_parse_header(s@, pos as int) == Some((major, n, np as int))
                &&& pos < np <= s@.len()
            },
            Err(e) => {
                &&& spec_parse_header(s@, pos as int) is None
                &&& e == spec_header_err(s@, pos as int)
            },
        },
{
    if pos >= s.len() {
        return Err(Error::Eof);
    }
    let b = s[pos];
    let major = b / 32;
    let ai = b % 32;
    if ai <= 23 {
        Ok((major, ai as u64, pos + 1))
    } else if ai == 24 {
        if s.len() - pos >= 2 {
            Ok((major, s[pos + 1] as u64, pos + 2))
        } else {
            Err(Error::Eof)
        }
    } else if ai == 25 {
        if s.len() - pos >= 3 {
            let n = (s[pos + 1] as u64) * 0x100 + (s[pos + 2] as u64);
            Ok((major, n, pos + 3))
        } else {
            Err(Error::Eof)
        }
    } else if ai == 26 {
        if s.len() - pos >= 5 {
            let n = (s[pos + 1] as u64) * 0x1000000 + (s[pos + 2] as u64) * 0x10000 + (s[pos
                + 3] as u64) * 0x100 + (s[pos + 4] as u64);
            Ok((major, n, pos + 5))
        } else {
            Err(Error::Eof)
        }
    } else if ai == 27 {
        if s.len() - pos >= 9 {
            let n = (s[pos + 1] as u64) * 0x100000000000000 + (s[pos + 2] as u64) * 0x1000000000000
                + (s[pos + 3] as u64) * 0x10000000000 + (s[pos + 4] as u64) * 0x100000000 + (s[pos
                + 5] as u64) * 0x1000000 + (s[pos + 6] as u64) * 0x10000 + (s[pos + 7] as u64)
                * 0x100 + (s[pos + 8] as u64);
            Ok((major, n, pos + 9))
        } else {
            Err(Error::Eof)
        }
    } else {
        Err(Error::Syntax)
    }
}

/// Appends the canonical CBOR header for (`major`, `n`) to `out`.
pub fn encode_cbor_header(out: &mut Vec<u8>, major: u8, n: u64)
    requires
        major <= 6,
    ensures
        final(out)@ == old(out)@ + spec_cbor_header(major, n),
{
    if n <= 23 {
        out.push(major * 32 + n as u8);
    } else if n <= 0xff {
        out.push(major * 32 + 24);
        out.push(n as u8);
    } else if n <= 0xffff {
        out.push(major * 32 + 25);
        out.push((n / 0x100 % 0x100) as u8);
        out.push((n % 0x100) as u8);
    } else if n <= 0xffff_ffff {
        out.push(major * 32 + 26);
        out.push((n / 0x1000000 % 0x100) as u8);
        out.push((n / 0x10000 % 0x100) as u8);
        out.push((n / 0x100 % 0x100) as u8);
        out.push((n % 0x100) as u8);
    } else {
        out.push(major * 32 + 27);
        out.push((n / 0x100000000000000 % 0x100) as u8);
        out.push((n / 0x1000000000000 % 0x100) as u8);
        out.push((n / 0x10000000000 % 0x100) as u8);
        out.push((n / 0x100000000 % 0x100) as u8);
        out.push((n / 0x1000000 % 0x100) as u8);
        out.push((n / 0x10000 % 0x100) as u8);
        out.push((n / 0x100 % 0x100) as u8);
        out.push((n % 0x100) as u8);
    }
    assert(final(out)@ =~= old(out)@ + spec_cbor_header(major, n));
}

/// Parsing starts exactly where the canonical header was written and yields
/// the major type and value that were encoded.
pub proof fn lemma_parse_of_cbor_header(major: u8, n: u64, s: Seq<u8>, pos: int)
    requires
        major <= 6,
        0 <= pos,
        pos + spec_cbor_header_size(n as int) <= s.len(),
        s.subrange(pos, pos + spec_cbor_header_size(n as int)) == spec_cbor_header(major, n),
    ensures
        spec_parse_header(s, pos) == Some((major, n, pos + spec_cbor_header_size(n as int))),
{
    let size = spec_cbor_header_size(n as int);
    let h = spec_cbor_header(major, n);
    assert forall|i: int| 0 <= i < size implies s[pos + i] == h[i] by {
        assert(s.subrange(pos, pos + size)[i] == s[pos + i]);
    }
    assert(s[pos] == h[0]);
    if n <= 23 {
        assert(s[pos] as int == major as int * 32 + n as int);
    } else if n <= 0xff {
        assert(s[pos] as int == major as int * 32 + 24);
        assert(s[pos + 1] == (n as int) as u8);
    } else if n <= 0xffff {
        assert(s[pos] as int == major as int * 32 + 25);
        assert(s[pos + 1] as int == n as int / 0x100 % 0x100);
        assert(s[pos + 2] as int == n as int % 0x100);
        assert(n as int / 0x100 % 0x100 == n as int / 0x100);
        assert(n as int / 0x100 * 0x100 + n as int % 0x100 == n as int);
    } else if n <= 0xffff_ffff {
        assert(s[pos] as int == major as int * 32 + 26);
        let m = n as int;
        assert(s[pos + 1] as int == m / 0x1000000 % 0x100);
        assert(s[pos + 2] as int == m / 0x10000 % 0x100);
        assert(s[pos + 3] as int == m / 0x100 % 0x100);
        assert(s[pos + 4] as int == m % 0x100);
        assert(m / 0x1000000 % 0x100 == m / 0x1000000);
        assert(m / 0x1000000 * 0x1000000 + m / 0x10000 % 0x100 * 0x10000 + m / 0x100 % 0x100
            * 0x100 + m % 0x100 == m) by {
            lemma_le_byte_sum_4(m);
        }
    } else {
        assert(s[pos] as int == major as int * 32 + 27);
        let m = n as int;
        assert(s[pos + 1] as int == m / 0x100000000000000 % 0x100);
        assert(s[pos + 2] as int == m / 0x1000000000000 % 0x100);
        assert(s[pos + 3] as int == m / 0x10000000000 % 0x100);
        assert(s[pos + 4] as int == m / 0x100000000 % 0x100);
        assert(s[pos + 5] as int == m / 0x1000000 % 0x100);
        assert(s[pos + 6] as int == m / 0x10000 % 0x100);
        assert(s[pos + 7] as int == m / 0x100 % 0x100);
        assert(s[pos + 8] as int == m % 0x100);
        assert(m / 0x100000000000000 % 0x100 * 0x100000000000000 + m / 0x1000000000000 % 0x100
            * 0x1000000000000 + m / 0x10000000000 % 0x100 * 0x10000000000 + m / 0x100000000 % 0x100
            * 0x100000000 + m / 0x1000000 % 0x100 * 0x1000000 + m / 0x10000 % 0x100 * 0x10000 + m
            / 0x100 % 0x100 * 0x100 + m % 0x100 == m) by {
            lemma_le_byte_sum_8(m);
        }
    }
}

/// A number below 2^32 is the weighted sum of its four base-256 digits.
proof fn lemma_le_byte_sum_4(m: int)
    requires
        0 <= m <= 0xffff_ffff,
    ensures
        m / 0x1000000 % 0x100 * 0x1000000 + m / 0x10000 % 0x100 * 0x10000 + m / 0x100 % 0x100
            * 0x100 + m % 0x100 == m,
{
    assert(m == m / 0x100 * 0x100 + m % 0x100);
    assert(m / 0x100 == m / 0x100 / 0x100 * 0x100 + m / 0x100 % 0x100);
    assert(m / 0x100 / 0x100 == m / 0x10000) by {
        lemma_div_twice(m, 0x100, 0x100);
    }
    assert(m / 0x10000 == m / 0x10000 / 0x100 * 0x100 + m / 0x10000 % 0x100);
    assert(m / 0x10000 / 0x100 == m / 0x1000000) by {
        lemma_div_twice(m, 0x10000, 0x100);
    }
    assert(m / 0x1000000 % 0x100 == m / 0x1000000);
}

/// A number below 2^64 is the weighted sum of its eight base-256 digits.
proof fn lemma_le_byte_sum_8(m: int)
    requires
        0 <= m < 0x10000000000000000,
    ensures
        m / 0x100000000000000 % 0x100 * 0x100000000000000 + m / 0x1000000000000 % 0x100
            * 0x1000000000000 + m / 0x10000000000 % 0x100 * 0x10000000000 + m / 0x100000000 % 0x100
            * 0x100000000 + m / 0x1000000 % 0x100 * 0x1000000 + m / 0x10000 % 0x100 * 0x10000 + m
            / 0x100 % 0x100 * 0x100 + m % 0x100 == m,
{
    assert(m == m / 0x100 * 0x100 + m % 0x100);
    assert(m / 0x100 == m / 0x100 / 0x100 * 0x100 + m / 0x100 % 0x100);
    assert(m / 0x100 / 0x100 == m / 0x10000) by {
        lemma_div_twice(m, 0x100, 0x100);
    }
    assert(m / 0x10000 == m / 0x10000 / 0x100 * 0x100 + m / 0x10000 % 0x100);
    assert(m / 0x10000 / 0x100 == m / 0x1000000) by {
        lemma_div_twice(m, 0x10000, 0x100);
    }
    assert(m / 0x1000000 == m / 0x1000000 / 0x100 * 0x100 + m / 0x1000000 % 0x100);
    assert(m / 0x1000000 / 0x100 == m / 0x100000000) by {
        lemma_div_twice(m, 0x1000000, 0x100);
    }
    assert(m / 0x100000000 == m / 0x100000000 / 0x100 * 0x100 + m / 0x100000000 % 0x100);
    assert(m / 0x100000000 / 0x100 == m / 0x10000000000) by {
        lemma_div_twice(m, 0x100000000, 0x100);
    }
    assert(m / 0x10000000000 == m / 0x10000000000 / 0x100 * 0x100 + m / 0x10000000000 % 0x100);
    assert(m / 0x10000000000 / 0x100 == m / 0x1000000000000) by {
        lemma_div_twice(m, 0x10000000000, 0x100);
    }
    assert(m / 0x1000000000000 == m / 0x1000000000000 / 0x100 * 0x100 + m / 0x1000000000000
        % 0x100);
    assert(m / 0x1000000000000 / 0x100 == m / 0x100000000000000) by {
        lemma_div_twice(m, 0x1000000000000, 0x100);
    }
    assert(m / 0x100000000000000 % 0x100 == m / 0x100000000000000);
}

/// Dividing by `a` and then by `b` is dividing by `a * b`.
proof fn lemma_div_twice(m: int, a: int, b: int)
    requires
        0 <= m,
        0 < a,
        0 < b,
    ensures
        m / a / b == m / (a * b),
{
    vstd::arithmetic::div_mod::lemma_div_denominator(m, a, b);
}

/// Reads the CBOR encoding of `false` or `true` at `pos`.
pub open spec fn spec_parse_bool(s: Seq<u8>, pos: int) -> Option<(bool, int)> {
    if !(0 <= pos < s.len()) {
        None
    } else if s[pos] == 0xf4 {
        Some((false, pos + 1))
    } else if s[pos] == 0xf5 {
        Some((true, pos + 1))
    } else {
        None
    }
}

/// The canonical CBOR encoding of a boolean.
pub open spec fn spec_cbor_bool(b: bool) -> Seq<u8> {
    seq![if b { 0xf5u8 } else { 0xf4u8 }]
}

/// Decodes a CBOR boolean at `pos`.
pub fn parse_cbor_bool(s: &[u8], pos: usize) -> (r: Result<(bool, usize), Error>)
    ensures
        match r {
            Ok((b, np)) => spec_parse_bool(s@, pos as int) == Some((b, np as int)),
            Err(e) => {
                &&& spec_parse_bool(s@, pos as int) is None
                &&& e == if pos >= s@.len() {
                    Error::Eof
                } else {
                    Error::ExpectedBoolean
                }
            },
        },
{
    if pos >= s.len() {
        return Err(Error::Eof);
    }
    let b = s[pos];
    if b == 0xf4 {
        Ok((false, pos + 1))
    } else if b == 0xf5 {
        Ok((true, pos + 1))
    } else {
        Err(Error::ExpectedBoolean)
    }
}

/// Reads the CBOR encoding of `null` at `pos`.
pub open spec fn spec_parse_null(s: Seq<u8>, pos: int) -> Option<int> {
    if !(0 <= pos < s.len()) {
        None
    } else if s[pos] == 0xf6 {
        Some(pos + 1)
    } else {
        None
    }
}

/// The CBOR encoding of `null`.
pub open spec fn spec_cbor_null() -> Seq<u8> {
    seq![0xf6u8]
}

/// Decodes a CBOR `null` at `pos`.
pub fn parse_cbor_null(s: &[u8], pos: usize) -> (r: Result<usize, Error>)
    ensures
        match r {
            Ok(np) => spec_parse_null(s@, pos as int) == Some(np as int),
            Err(e) => {
                &&& spec_parse_null(s@, pos as int) is None
                &&& e == if pos >= s@.len() {
                    Error::Eof
                } else {
                    Error::ExpectedNull
                }
            },
        },
{
    if pos >= s.len() {
        return Err(Error::Eof);
    }
    if s[pos] == 0xf6 {
        Ok(pos + 1)
    } else {
        Err(Error::ExpectedNull)
    }
}

/// Parsing starts exactly where a canonical map key was written and
/// accepts it.
pub proof fn lemma_parse_of_cbor_key(kb: Seq<u8>, s: Seq<u8>, pos: int)
    requires
        kb.len() <= u64::MAX,
        0 <= pos,
        pos + spec_cbor_key(kb).len() <= s.len(),
        s.subrange(pos, pos + spec_cbor_key(kb).len()) == spec_cbor_key(kb),
    ensures
        spec_parse_key(s, pos, kb) == Some(pos + spec_cbor_key(kb).len()),
{
    let n = kb.len() as u64;
    let hsize = spec_cbor_header_size(n as int);
    let enc = spec_cbor_key(kb);
    assert(spec_cbor_header(MAJOR_TEXT, n).len() == hsize);
    assert forall|i: int| 0 <= i < enc.len() implies s[pos + i] == enc[i] by {
        assert(s.subrange(pos, pos + enc.len() as int)[i] == s[pos + i]);
    }
    assert(s.subrange(pos, pos + hsize) =~= spec_cbor_header(MAJOR_TEXT, n));
    lemma_parse_of_cbor_header(MAJOR_TEXT, n, s, pos);
    assert forall|i: int| 0 <= i < kb.len() implies s[pos + hsize + i] == kb[i] by {
        assert(s[pos + (hsize + i)] == enc[hsize + i]);
        assert(enc[hsize + i] == kb[i]);
    }
    assert(s.subrange(pos + hsize, pos + hsize + kb.len() as int) =~= kb);
}

/// Parsing starts exactly where a canonical byte string was written and
/// yields its contents.
pub proof fn lemma_parse_of_cbor_bytes(b: Seq<u8>, s: Seq<u8>, pos: int)
    requires
        b.len() <= u64::MAX,
        0 <= pos,
        pos + spec_cbor_bytes(b).len() <= s.len(),
        s.subrange(pos, pos + spec_cbor_bytes(b).len()) == spec_cbor_bytes(b),
    ensures
        spec_parse_bytes(s, pos) == Some((b, pos + spec_cbor_bytes(b).len())),
{
    let n = b.len() as u64;
    let hsize = spec_cbor_header_size(n as int);
    let enc = spec_cbor_bytes(b);
    assert(spec_cbor_header(MAJOR_BYTES, n).len() == hsize);
    assert forall|i: int| 0 <= i < enc.len() implies s[pos + i] == enc[i] by {
        assert(s.subrange(pos, pos + enc.len() as int)[i] == s[pos + i]);
    }
    assert(s.subrange(pos, pos + hsize) =~= spec_cbor_header(MAJOR_BYTES, n));
    lemma_parse_of_cbor_header(MAJOR_BYTES, n, s, pos);
    assert forall|i: int| 0 <= i < b.len() implies s[pos + hsize + i] == b[i] by {
        assert(s[pos + (hsize + i)] == enc[hsize + i]);
        assert(enc[hsize + i] == b[i]);
    }
    assert(s.subrange(pos + hsize, pos + hsize + b.len() as int) =~= b);
}

/// Parsing starts exactly where a boolean was written and yields it.
pub proof fn lemma_parse_of_cbor_bool(b: bool, s: Seq<u8>, pos: int)
    requires
        0 <= pos,
        pos + 1 <= s.len(),
        s.subrange(pos, pos + 1) == spec_cbor_bool(b),
    ensures
        spec_parse_bool(s, pos) == Some((b, pos + 1)),
{
    assert(s[pos] == spec_cbor_bool(b)[0]);
}

/// Parsing starts exactly where a `null` was written and accepts it.
pub proof fn lemma_parse_of_cbor_null(s: Seq<u8>, pos: int)
    requires
        0 <= pos,
        pos + 1 <= s.len(),
        s.subrange(pos, pos + 1) == spec_cbor_null(),
    ensures
        spec_parse_null(s, pos) == Some(pos + 1),
{
    assert(s[pos] == spec_cbor_null()[0]);
}

/// Reads an unsigned integer item at `pos`.
pub open spec fn spec_parse_uint(s: Seq<u8>, pos: int) -> Option<(u64, int)> {
    match spec_parse_header(s, pos) {
        Option::None => None,
        Option::Some((major, n, np)) => if major == MAJOR_UINT {
            Some((n, np))
        } else {
            None
        },
    }
}

/// Decodes a CBOR unsigned integer at `pos`.
pub fn parse_cbor_uint(s: &[u8], pos: usize) -> (r: Result<(u64, usize), Error>)
    ensures
        match r {
            Ok((n, np)) => {
                &&& spec_parse_uint(s@, pos as int) == Some((n, np as int))
                &&& pos < np <= s@.len()
            },
            Err(e) => {
                &&& spec_parse_uint(s@, pos as int) is None
                &&& e == match spec_parse_header(s@, pos as int) {
                    Option::None => spec_header_err(s@, pos as int),
                    Option::Some(_) => Error::ExpectedInteger,
                }
            },
        },
{
    let (major, n, np) = parse_cbor_header(s, pos)?;
    if major != MAJOR_UINT {
        return Err(Error::ExpectedInteger);
    }
    Ok((n, np))
}

/// Reads an array header at `pos`: the element count and the position of
/// the first element.
pub open spec fn spec_parse_array_header(s: Seq<u8>, pos: int) -> Option<(u64, int)> {
    match spec_parse_header(s, pos) {
        Option::None => None,
        Option::Some((major, n, np)) => if major == MAJOR_ARRAY {
            Some((n, np))
        } else {
            None
        },
    }
}

/// Decodes a CBOR array header at `pos`.
pub fn parse_cbor_array_header(s: &[u8], pos: usize) -> (r: Result<(u64, usize), Error>)
    ensures
        match r {
            Ok((n, np)) => {
                &&& spec_parse_array_header(s@, pos as int) == Some((n, np as int))
                &&& pos < np <= s@.len()
            },
            Err(e) => {
                &&& spec_parse_array_header(s@, pos as int) is None
                &&& e == match spec_parse_header(s@, pos as int) {
                    Option::None => spec_header_err(s@, pos as int),
                    Option::Some(_) => Error::ExpectedArray,
                }
            },
        },
{
    let (major, n, np) = parse_cbor_header(s, pos)?;
    if major != MAJOR_ARRAY {
        return Err(Error::ExpectedArray);
    }
    Ok((n, np))
}

/// Reads a map header at `pos`: the entry count and the position of the
/// first key.
pub open spec fn spec_parse_map_header(s: Seq<u8>, pos: int) -> Option<(u64, int)> {
    match spec_parse_header(s, pos) {
        Option::None => None,
        Option::Some((major, n, np)) => if major == MAJOR_MAP {
            Some((n, np))
        } else {
            None
        },
    }
}

/// Decodes a CBOR map header at `pos`.
pub fn parse_cbor_map_header(s: &[u8], pos: usize) -> (r: Result<(u64, usize), Error>)
    ensures
        match r {
            Ok((n, np)) => {
                &&& spec_parse_map_header(s@, pos as int) == Some((n, np as int))
                &&& pos < np <= s@.len()
            },
            Err(e) => {
                &&& spec_parse_map_header(s@, pos as int) is None
                &&& e == match spec_parse_header(s@, pos as int) {
                    Option::None => spec_header_err(s@, pos as int),
                    Option::Some(_) => Error::ExpectedMap,
                }
            },
        },
{
    let (major, n, np) = parse_cbor_header(s, pos)?;
    if major != MAJOR_MAP {
        return Err(Error::ExpectedMap);
    }
    Ok((n, np))
}

/// Reads a text-string map key at `pos` and requires it to spell exactly
/// the bytes `kb`; yields the position just past the key.
pub open spec fn spec_parse_key(s: Seq<u8>, pos: int, kb: Seq<u8>) -> Option<int> {
    match spec_parse_header(s, pos) {
        Option::None => None,
        Option::Some((major, n, np)) => {
            if major != MAJOR_TEXT || n != kb.len() || np + kb.len() > s.len() {
                None
            } else if s.subrange(np, np + kb.len() as int) == kb {
                Some(np + kb.len() as int)
            } else {
                None
            }
        },
    }
}

/// Decodes the map key at `pos` and checks that it is the text string
/// `key`.  Any other key, or any other kind of item, is refused.
pub fn parse_cbor_key(s: &[u8], pos: usize, key: &str) -> (r: Result<usize, Error>)
    ensures
        match r {
            Ok(np) => {
                &&& spec_parse_key(s@, pos as int, key.spec_bytes()) == Some(np as int)
                &&& pos < np <= s@.len()
            },
            Err(e) => spec_parse_key(s@, pos as int, key.spec_bytes()) is None,
        },
{
    let kb = key.as_bytes();
    let (major, n, np) = match parse_cbor_header(s, pos) {
        Ok(h) => h,
        Err(e) => {
            return Err(e);
        },
    };
    if major != MAJOR_TEXT {
        return Err(Error::ExpectedString);
    }
    if n != kb.len() as u64 {
        return Err(Error::Syntax);
    }
    let slen = s.len();
    if slen - np < kb.len() {
        return Err(Error::Eof);
    }
    let mut i: usize = 0;
    while i < kb.len()
        invariant
            i <= kb@.len(),
            np + kb@.len() <= slen,
            slen == s@.len(),
            kb@ == key.spec_bytes(),
            spec_parse_header(s@, pos as int) == Some(
                (MAJOR_TEXT, kb@.len() as u64, np as int),
            ),
            forall|j: int| 0 <= j < i ==> s@[np + j] == kb@[j],
        decreases kb@.len() - i,
    {
        if s[np + i] != kb[i] {
            proof {
                let kbs = key.spec_bytes();
                let sub = s@.subrange(np as int, np as int + kbs.len() as int);
                assert(sub[i as int] == s@[np + i]);
                assert(sub[i as int] != kbs[i as int]);
                assert(sub != kbs);
                assert(spec_parse_key(s@, pos as int, kbs) is None);
            }
            return Err(Error::Syntax);
        }
        i += 1;
    }
    assert(s@.subrange(np as int, np as int + kb@.len() as int) =~= kb@);
    Ok(np + kb.len())
}

/// The canonical encoding of a text-string map key.
pub open spec fn spec_cbor_key(kb: Seq<u8>) -> Seq<u8> {
    spec_cbor_header(MAJOR_TEXT, kb.len() as u64) + kb
}

/// Appends the text-string map key `key` to `out`.
pub fn encode_cbor_key(out: &mut Vec<u8>, key: &str)
    ensures
        final(out)@ == old(out)@ + spec_cbor_key(key.spec_bytes()),
{
    let kb = key.as_bytes();
    encode_cbor_header(out, MAJOR_TEXT, kb.len() as u64);
    out.extend_from_slice(kb);
    assert(final(out)@ =~= old(out)@ + spec_cbor_key(key.spec_bytes()));
}

/// Reads a byte string at `pos`: its contents and the position just past
/// them.
pub open spec fn spec_parse_bytes(s: Seq<u8>, pos: int) -> Option<(Seq<u8>, int)> {
    match spec_parse_header(s, pos) {
        Option::None => None,
        Option::Some((major, n, np)) => {
            if major != MAJOR_BYTES || np + n > s.len() {
                None
            } else {
                Some((s.subrange(np, np + n as int), np + n as int))
            }
        },
    }
}

/// Decodes a CBOR byte string at `pos` into a fresh vector.
pub fn parse_cbor_bytes(s: &[u8], pos: usize) -> (r: Result<(Vec<u8>, usize), Error>)
    ensures
        match r {
            Ok((v, np)) => {
                &&& spec_parse_bytes(s@, pos as int) == Some((v@, np as int))
                &&& pos < np <= s@.len()
            },
            Err(_) => spec_parse_bytes(s@, pos as int) is None,
        },
{
    let (major, n, np) = parse_cbor_header(s, pos)?;
    if major != MAJOR_BYTES {
        return Err(Error::ExpectedString);
    }
    let slen = s.len();
    if n > (slen - np) as u64 {
        return Err(Error::Eof);
    }
    let n_us = n as usize;
    assert(n_us == n);
    let v = copy_range(s, np, n_us);
    Ok((v, np + n_us))
}

/// The canonical encoding of a byte string.
pub open spec fn spec_cbor_bytes(b: Seq<u8>) -> Seq<u8> {
    spec_cbor_header(MAJOR_BYTES, b.len() as u64) + b
}

/// Appends the canonical encoding of the byte string `b` to `out`.
pub fn encode_cbor_bytes(out: &mut Vec<u8>, b: &[u8])
    ensures
        final(out)@ == old(out)@ + spec_cbor_bytes(b@),
{
    encode_cbor_header(out, MAJOR_BYTES, b.len() as u64);
    out.extend_from_slice(b);
    assert(final(out)@ =~= old(out)@ + spec_cbor_bytes(b@));
}

/// Copies `n` bytes of `s` starting at `start` into a fresh vector.
pub fn copy_range(s: &[u8], start: usize, n: usize) -> (v: Vec<u8>)
    requires
        start + n <= s@.len(),
    ensures
        v@ == s@.subrange(start as int, start as int + n as int),
{
    let len = s.len();
    assert(start + n <= len);
    vstd::slice::slice_to_vec(&s[start..start + n])
}

} // verus!
