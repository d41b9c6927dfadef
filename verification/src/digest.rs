//! SHA-256 digests and their hex representation.
//!
//! A digest is 32 raw bytes.  It is displayed as 64 lowercase hex
//! characters and parsed from a 64-character hex string (either case);
//! any other length is a format error.

use vstd::prelude::*;
use crate::error::WireFormatError;

verus! {

/// The size of a SHA-256 digest in bytes.
pub const SHA256_BLOCK_SIZE: usize = 32;

/// A SHA-256 digest: 32 raw bytes.
#[derive(Clone, Copy, Debug, PartialEq, Eq)]
pub struct Digest([u8; SHA256_BLOCK_SIZE]);

impl View for Digest {
    type V = Seq<u8>;

    closed spec fn view(&self) -> Seq<u8> {
        self.0@
    }
}

/// The lowercase hex character of a nibble.
pub open spec fn nibble_char(n: u8) -> char {
    if n == 0 {
        '0'
    } else if n == 1 {
        '1'
    } else if n == 2 {
        '2'
    } else if n == 3 {
        '3'
    } else if n == 4 {
        '4'
    } else if n == 5 {
        '5'
    } else if n == 6 {
        '6'
    } else if n == 7 {
        '7'
    } else if n == 8 {
        '8'
    } else if n == 9 {
        '9'
    } else if n == 10 {
        'a'
    } else if n == 11 {
        'b'
    } else if n == 12 {
        'c'
    } else if n == 13 {
        'd'
    } else if n == 14 {
        'e'
    } else {
        'f'
    }
}

/// The value of one hex character, lowercase or uppercase; `None` when the
/// character is not a hex digit.
pub open spec fn hex_digit_val(c: char) -> Option<u8> {
    if c == '0' {
        Some(0u8)
    } else if c == '1' {
        Some(1u8)
    } else if c == '2' {
        Some(2u8)
    } else if c == '3' {
        Some(3u8)
    } else if c == '4' {
        Some(4u8)
    } else if c == '5' {
        Some(5u8)
    } else if c == '6' {
        Some(6u8)
    } else if c == '7' {
        Some(7u8)
    } else if c == '8' {
        Some(8u8)
    } else if c == '9' {
        Some(9u8)
    } else if c == 'a' || c == 'A' {
        Some(10u8)
    } else if c == 'b' || c == 'B' {
        Some(11u8)
    } else if c == 'c' || c == 'C' {
        Some(12u8)
    } else if c == 'd' || c == 'D' {
        Some(13u8)
    } else if c == 'e' || c == 'E' {
        Some(14u8)
    } else if c == 'f' || c == 'F' {
        Some(15u8)
    } else {
        None
    }
}

/// The lowercase hex rendering of a byte sequence: two characters per byte,
/// high nibble first.
pub open spec fn spec_hex(d: Seq<u8>) -> Seq<char> {
    Seq::new(
        d.len() * 2,
        |i: int|
            if i % 2 == 0 {
                nibble_char((d[i / 2] / 16) as u8)
            } else {
                nibble_char((d[i / 2] % 16) as u8)
            },
    )
}

/// The bytes a 64-character hex string denotes; `None` when the length is
/// wrong or a character is not a hex digit.
pub open spec fn spec_from_hex(s: Seq<char>) -> Option<Seq<u8>> {
    if s.len() != 64 {
        None
    } else if forall|k: int| 0 <= k < 64 ==> (#[trigger] hex_digit_val(s[k])) is Some {
        Some(
            Seq::new(
                32,
                |i: int| (hex_digit_val(s[2 * i]).unwrap() * 16 + hex_digit_val(
                    s[2 * i + 1],
                ).unwrap()) as u8,
            ),
        )
    } else {
        None
    }
}

/// The one-character string of a nibble's lowercase hex digit.
fn hex_char_str(n: u8) -> (r: &'static str)
    requires
        n < 16,
    ensures
        r@.len() == 1,
        r@[0] == nibble_char(n),
{
    proof {
        reveal_strlit("0");
        reveal_strlit("1");
        reveal_strlit("2");
        reveal_strlit("3");
        reveal_strlit("4");
        reveal_strlit("5");
        reveal_strlit("6");
        reveal_strlit("7");
        reveal_strlit("8");
        reveal_strlit("9");
        reveal_strlit("a");
        reveal_strlit("b");
        reveal_strlit("c");
        reveal_strlit("d");
        reveal_strlit("e");
        reveal_strlit("f");
    }
    match n {
        0 => "0",
        1 => "1",
        2 => "2",
        3 => "3",
        4 => "4",
        5 => "5",
        6 => "6",
        7 => "7",
        8 => "8",
        9 => "9",
        10 => "a",
        11 => "b",
        12 => "c",
        13 => "d",
        14 => "e",
        _ => "f",
    }
}

/// The value of one hex character, or `None` when it is not a hex digit.
fn hex_val(c: char) -> (r: Option<u8>)
    ensures
        r == hex_digit_val(c),
{
    match c {
        '0' => Some(0),
        '1' => Some(1),
        '2' => Some(2),
        '3' => Some(3),
        '4' => Some(4),
        '5' => Some(5),
        '6' => Some(6),
        '7' => Some(7),
        '8' => Some(8),
        '9' => Some(9),
        'a' | 'A' => Some(10),
        'b' | 'B' => Some(11),
        'c' | 'C' => Some(12),
        'd' | 'D' => Some(13),
        'e' | 'E' => Some(14),
        'f' | 'F' => Some(15),
        _ => None,
    }
}

impl Digest {
    /// Wraps 32 raw digest bytes.
    pub fn new(bytes: [u8; SHA256_BLOCK_SIZE]) -> (r: Digest)
        ensures
            r@ == bytes@,
    {
        Digest(bytes)
    }

    /// A copy of the raw digest bytes.
    pub fn underlying(&self) -> (r: [u8; SHA256_BLOCK_SIZE])
        ensures
            r@ == self@,
    {
        self.0
    }

    /// The 64-character lowercase hex rendering of the digest.
    pub fn to_hex(&self) -> (r: String)
        ensures
            r@ == spec_hex(self@),
            r@.len() == 64,
    {
        let mut r = String::new();
        let mut i: usize = 0;
        while i < SHA256_BLOCK_SIZE
            invariant
                i <= 32,
                r@ =~= spec_hex(self@).subrange(0, 2 * i as int),
            decreases 32 - i,
        {
            let b = self.0[i];
            r.append(hex_char_str(b / 16));
            r.append(hex_char_str(b % 16));
            assert(r@ =~= spec_hex(self@).subrange(0, 2 * (i + 1) as int));
            i += 1;
        }
        assert(r@ =~= spec_hex(self@));
        r
    }

    /// Parses a digest from a 64-character hex string.  Any other length,
    /// or any character that is not a hex digit, is a format error.
    pub fn from_hex(s: &str) -> (r: Result<Digest, WireFormatError>)
        ensures
            match r {
                Ok(d) => spec_from_hex(s@) == Some(d@),
                Err(e) => {
                    &&& spec_from_hex(s@) is None
                    &&& e == WireFormatError::HexError
                },
            },
    {
        if s.unicode_len() != 64 {
            return Err(WireFormatError::HexError);
        }
        let mut bytes = [0u8; SHA256_BLOCK_SIZE];
        let mut i: usize = 0;
        while i < SHA256_BLOCK_SIZE
            invariant
                i <= 32,
                s@.len() == 64,
                forall|k: int| 0 <= k < 2 * i ==> (#[trigger] hex_digit_val(s@[k])) is Some,
                forall|j: int|
                    0 <= j < i ==> bytes@[j] == (hex_digit_val(s@[2 * j]).unwrap() * 16
                        + hex_digit_val(s@[2 * j + 1]).unwrap()) as u8,
            decreases 32 - i,
        {
            let hi = match hex_val(s.get_char(2 * i)) {
                Some(v) => v,
                None => {
                    return Err(WireFormatError::HexError);
                },
            };
            let lo = match hex_val(s.get_char(2 * i + 1)) {
                Some(v) => v,
                None => {
                    return Err(WireFormatError::HexError);
                },
            };
            bytes[i] = hi * 16 + lo;
            i += 1;
        }
        proof {
            assert forall|k: int| 0 <= k < 64 implies (#[trigger] hex_digit_val(s@[k])) is Some by {
                assert(0 <= k < 2 * 32);
            }
            assert(spec_from_hex(s@) == Some(bytes@)) by {
                assert(bytes@ =~= spec_from_hex(s@).unwrap());
            }
        }
        Ok(Digest(bytes))
    }
}

/// Rendering a digest as hex and parsing the rendering yields the digest
/// again, and the rendering is 64 characters long.
pub proof fn lemma_hex_round_trip(d: Seq<u8>)
    requires
        d.len() == 32,
    ensures
        spec_hex(d).len() == 64,
        spec_from_hex(spec_hex(d)) == Some(d),
{
    let s = spec_hex(d);
    assert forall|k: int| 0 <= k < 64 implies (#[trigger] hex_digit_val(s[k])) is Some by {
        if k % 2 == 0 {
            assert(s[k] == nibble_char((d[k / 2] / 16) as u8));
        } else {
            assert(s[k] == nibble_char((d[k / 2] % 16) as u8));
        }
    }
    assert(spec_from_hex(s).unwrap() =~= d) by {
        assert forall|i: int| 0 <= i < 32 implies spec_from_hex(s).unwrap()[i] == d[i] by {
            assert(s[2 * i] == nibble_char((d[i] / 16) as u8));
            assert(s[2 * i + 1] == nibble_char((d[i] % 16) as u8));
            assert(hex_digit_val(nibble_char((d[i] / 16) as u8)) == Some((d[i] / 16) as u8));
            assert(hex_digit_val(nibble_char((d[i] % 16) as u8)) == Some((d[i] % 16) as u8));
            assert(d[i] / 16 * 16 + d[i] % 16 == d[i]);
        }
    }
}

} // verus!
