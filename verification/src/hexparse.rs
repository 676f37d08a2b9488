//! Hexadecimal command-line values: 32-bit offsets, CRC32 and SHA1 digests.
//!
//! A value is read the way the standard library reads an unsigned number in
//! radix 16: an optional leading `+`, then one or more digits `0-9`, `a-f`,
//! `A-F`, whose value must fit in 32 bits.

use vstd::prelude::*;
use vstd::string::StringSliceAdditionalSpecFns;
use vstd::utf8::is_char_boundary;
use crate::codec::{le_bytes, word_le, word_be};

verus! {

/// Why a hexadecimal value was refused.
#[derive(Debug, Clone, Copy, PartialEq, Eq)]
pub enum HexError {
    /// The text is empty.
    Empty,
    /// A character that is not a hexadecimal digit, or a lone sign.
    InvalidDigit,
    /// The value does not fit in 32 bits.
    PosOverflow,
    /// A SHA1 digest was not 40 characters long.
    WrongLength,
}

/// `b` is an ASCII hexadecimal digit.
pub open spec fn is_hex_digit(b: u8) -> bool {
    (48 <= b <= 57) || (97 <= b <= 102) || (65 <= b <= 70)
}

/// The value of the hexadecimal digit `b`.
pub open spec fn hex_digit_value(b: u8) -> nat {
    if 48 <= b <= 57 {
        (b - 48) as nat
    } else if 97 <= b <= 102 {
        (b - 87) as nat
    } else {
        (b - 55) as nat
    }
}

/// Reads the digits `d` from the left, starting from the value `acc`: the
/// first character that is not a digit is `InvalidDigit`, and a value that
/// passes `u32::MAX` on the way is `PosOverflow`.
pub open spec fn scan_hex(d: Seq<u8>, acc: nat) -> Result<nat, HexError>
    decreases d.len(),
{
    if d.len() == 0 {
        Ok(acc)
    } else if !is_hex_digit(d[0]) {
        Err(HexError::InvalidDigit)
    } else if acc * 16 + hex_digit_value(d[0]) > u32::MAX {
        Err(HexError::PosOverflow)
    } else {
        scan_hex(d.drop_first(), acc * 16 + hex_digit_value(d[0]))
    }
}

/// The 32-bit value written in hexadecimal by the bytes `s`.
pub open spec fn spec_hex_u32(s: Seq<u8>) -> Result<u32, HexError> {
    if s.len() == 0 {
        Err(HexError::Empty)
    } else if (s[0] == 43 || s[0] == 45) && s.len() == 1 {
        Err(HexError::InvalidDigit)
    } else {
        let d = if s[0] == 43 {
            s.drop_first()
        } else {
            s
        };
        match scan_hex(d, 0) {
            Ok(v) => Ok(v as u32),
            Err(e) => Err(e),
        }
    }
}

/// Reads the bytes `s[from..to]` as a hexadecimal 32-bit value.
pub fn parse_hex_u32(s: &[u8], from: usize, to: usize) -> (res: Result<u32, HexError>)
    requires
        from <= to <= s@.len(),
    ensures
        res == spec_hex_u32(s@.subrange(from as int, to as int)),
{
    let ghost t = s@.subrange(from as int, to as int);
    if from == to {
        return Err(HexError::Empty);
    }
    if (s[from] == 43 || s[from] == 45) && to - from == 1 {
        return Err(HexError::InvalidDigit);
    }
    let mut i = if s[from] == 43 { from + 1 } else { from };
    let ghost d = if s@[from as int] == 43 { t.drop_first() } else { t };
    assert(d =~= s@.subrange(i as int, to as int));
    let mut acc: u32 = 0;
    assert(spec_hex_u32(t) == (match scan_hex(d, 0) {
        Ok(v) => Ok(v as u32),
        Err(e) => Err(e),
    }));
    while i < to
        invariant
            from <= i <= to <= s@.len(),
            acc <= u32::MAX,
            spec_hex_u32(s@.subrange(from as int, to as int)) == (match scan_hex(
                s@.subrange(i as int, to as int),
                acc as nat,
            ) {
                Ok(v) => Ok(v as u32),
                Err(e) => Err(e),
            }),
        decreases to - i,
    {
        let b = s[i];
        let ghost rest = s@.subrange(i as int, to as int);
        assert(rest[0] == b);
        if !((48 <= b && b <= 57) || (97 <= b && b <= 102) || (65 <= b && b <= 70)) {
            return Err(HexError::InvalidDigit);
        }
        let v: u32 = if 48 <= b && b <= 57 {
            (b - 48) as u32
        } else if 97 <= b && b <= 102 {
            (b - 87) as u32
        } else {
            (b - 55) as u32
        };
        assert(v == hex_digit_value(b));
        if acc > 0x0fff_ffff || acc * 16 > u32::MAX - v {
            return Err(HexError::PosOverflow);
        }
        assert(rest.drop_first() =~= s@.subrange(i + 1, to as int));
        acc = acc * 16 + v;
        i = i + 1;
    }
    assert(s@.subrange(i as int, to as int).len() == 0);
    Ok(acc)
}

/// Reads an offset or a count written in hexadecimal.
pub fn try_hex_to_u32(s: &str) -> (res: Result<u32, HexError>)
    ensures
        res == spec_hex_u32(s.spec_bytes()),
{
    let b = s.as_bytes();
    assert(b@.subrange(0, b@.len() as int) =~= b@);
    parse_hex_u32(b, 0, b.len())
}

/// The little-endian bytes of the CRC32 written in hexadecimal by `s`.
pub open spec fn spec_hex_crc(s: Seq<u8>) -> Result<Seq<u8>, HexError> {
    match spec_hex_u32(s) {
        Ok(v) => Ok(word_le(v)),
        Err(e) => Err(e),
    }
}

/// The eight bytes of the `k`-th group of a 40-digit SHA1.
pub open spec fn sha_group(b: Seq<u8>, k: int) -> Seq<u8> {
    b.subrange(8 * k, 8 * k + 8)
}

/// The groups `k..5` of a 40-digit SHA1, each read as a 32-bit value and
/// stored little-endian; the first group that is refused gives the error.
pub open spec fn sha_words(b: Seq<u8>, k: nat) -> Result<Seq<u8>, HexError>
    decreases 5 - k,
{
    if k >= 5 {
        Ok(Seq::empty())
    } else {
        match spec_hex_u32(sha_group(b, k as int)) {
            Err(e) => Err(e),
            Ok(w) => match sha_words(b, k + 1) {
                Ok(rest) => Ok(word_le(w) + rest),
                Err(e) => Err(e),
            },
        }
    }
}

/// The SHA1 bytes that a 40-character hexadecimal text denotes: five groups
/// of eight digits, each a 32-bit value stored little-endian.
pub open spec fn spec_hex_sha(b: Seq<u8>) -> Result<Seq<u8>, HexError> {
    if b.len() != 40 {
        Err(HexError::WrongLength)
    } else {
        sha_words(b, 0)
    }
}

/// The end of group `k - 1` falls inside a character, and every group
/// before that one reads as a value, so that cutting out group `k - 1` is
/// reached.
pub open spec fn group_end_splits_char(b: Seq<u8>, k: int) -> bool {
    &&& !is_char_boundary(b, 8 * k)
    &&& forall|j: int| 0 <= j < k - 1 ==> #[trigger] spec_hex_u32(sha_group(b, j)) is Ok
}

/// Cutting a 40-byte text into its groups would split a character.
pub open spec fn sha_groups_split_char(b: Seq<u8>) -> bool {
    &&& b.len() == 40
    &&& exists|k: int| 1 <= k <= 4 && #[trigger] group_end_splits_char(b, k)
}

/// Reads a CRC32 written in hexadecimal; its bytes come out little-endian,
/// as the executable stores them.
pub fn try_hex_to_crc(s: &str) -> (res: Result<[u8; 4], HexError>)
    ensures
        match res {
            Ok(a) => spec_hex_crc(s.spec_bytes()) == Ok::<Seq<u8>, HexError>(a@),
            Err(e) => spec_hex_crc(s.spec_bytes()) == Err::<Seq<u8>, HexError>(e),
        },
{
    let v = try_hex_to_u32(s)?;
    Ok(le_bytes(v))
}

/// Reads a SHA1 written as 40 hexadecimal digits; each group of eight digits
/// is a 32-bit value whose bytes come out little-endian.
pub fn try_hex_to_sha(s: &str) -> (res: Result<[u8; 20], HexError>)
    requires
        !sha_groups_split_char(s.spec_bytes()),
    ensures
        match res {
            Ok(a) => spec_hex_sha(s.spec_bytes()) == Ok::<Seq<u8>, HexError>(a@),
            Err(e) => spec_hex_sha(s.spec_bytes()) == Err::<Seq<u8>, HexError>(e),
        },
{
    let b = s.as_bytes();
    if b.len() != 40 {
        return Err(HexError::WrongLength);
    }
    let mut out = [0u8; 20];
    let mut k: usize = 0;
    assert(out@.subrange(0, 0) + b@.subrange(0, 0) =~= Seq::<u8>::empty());
    while k < 5
        invariant
            k <= 5,
            b@ == s.spec_bytes(),
            b@.len() == 40,
            out@.len() == 20,
            match sha_words(b@, k as nat) {
                Ok(rest) => sha_words(b@, 0) == Ok::<Seq<u8>, HexError>(
                    out@.subrange(0, 4 * k as int) + rest,
                ),
                Err(e) => sha_words(b@, 0) == Err::<Seq<u8>, HexError>(e),
            },
        decreases 5 - k,
    {
        assert(sha_group(b@, k as int) =~= b@.subrange(8 * k as int, 8 * k + 8));
        let w = match parse_hex_u32(b, 8 * k, 8 * k + 8) {
            Ok(w) => w,
            Err(e) => {
                assert(sha_words(b@, k as nat) == Err::<Seq<u8>, HexError>(e));
                assert(spec_hex_sha(s.spec_bytes()) == Err::<Seq<u8>, HexError>(e));
                return Err(e);
            },
        };
        let wb = le_bytes(w);
        let ghost before = out@;
        out[4 * k] = wb[0];
        out[4 * k + 1] = wb[1];
        out[4 * k + 2] = wb[2];
        out[4 * k + 3] = wb[3];
        assert(out@.subrange(0, 4 * k + 4) =~= before.subrange(0, 4 * k as int) + word_le(w));
        k = k + 1;
        proof {
            match sha_words(b@, k as nat) {
                Ok(rest) => {
                    assert(out@.subrange(0, 4 * k as int) + rest =~= before.subrange(0, 4 * (k - 1))
                        + (word_le(w) + rest));
                },
                Err(e) => {},
            }
        }
    }
    assert(out@.subrange(0, 20) =~= out@);
    assert(out@.subrange(0, 20) + Seq::<u8>::empty() =~= out@);
    Ok(out)
}

} // verus!
