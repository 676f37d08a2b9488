//! Building text: hexadecimal and decimal numerals, and ASCII bytes as text.

use vstd::prelude::*;

verus! {

/// The lowercase ASCII digit for `d < 16`.
pub open spec fn hex_digit(d: nat) -> u8 {
    if d < 10 {
        (48 + d) as u8
    } else {
        (87 + d) as u8
    }
}

/// The lowercase hexadecimal digits of `n`, most significant first, with no
/// leading zeros (`0` is written `0`).
pub open spec fn hex_bytes(n: nat) -> Seq<u8>
    decreases n,
{
    if n < 16 {
        seq![hex_digit(n)]
    } else {
        hex_bytes(n / 16).push(hex_digit(n % 16))
    }
}

/// `n` in lowercase hexadecimal, padded with `0` to at least eight digits
/// (the `{:08x}` format).
pub open spec fn hex08(n: nat) -> Seq<u8> {
    let d = hex_bytes(n);
    if d.len() < 8 {
        Seq::new((8 - d.len()) as nat, |i: int| 48u8) + d
    } else {
        d
    }
}

/// The decimal digits of `n`, most significant first.
pub open spec fn dec_bytes(n: nat) -> Seq<u8>
    decreases n,
{
    if n < 10 {
        seq![(48 + n) as u8]
    } else {
        dec_bytes(n / 10).push((48 + n % 10) as u8)
    }
}

/// `v` in decimal, with a leading `-` when negative (the `{}` format).
pub open spec fn dec_i32(v: i32) -> Seq<u8> {
    if v < 0 {
        seq![45u8] + dec_bytes((-v) as nat)
    } else {
        dec_bytes(v as nat)
    }
}

/// ASCII bytes read as characters.
pub open spec fn as_chars(b: Seq<u8>) -> Seq<char> {
    b.map_values(|x: u8| x as char)
}

/// Sixteen to the power `k`.
pub open spec fn pow16(k: nat) -> nat
    decreases k,
{
    if k == 0 {
        1
    } else {
        16 * pow16((k - 1) as nat)
    }
}

proof fn lemma_hex_len_bound(n: nat, k: nat)
    requires
        1 <= k,
        n < pow16(k),
    ensures
        1 <= hex_bytes(n).len() <= k,
    decreases k,
{
    if n >= 16 {
        assert(k >= 2) by {
            if k == 1 {
                assert(pow16(1) == 16) by {
                    reveal_with_fuel(pow16, 2);
                }
            }
        }
        assert(n / 16 < pow16((k - 1) as nat));
        lemma_hex_len_bound(n / 16, (k - 1) as nat);
    }
}

proof fn lemma_hex_bytes_len(n: u64)
    ensures
        1 <= hex_bytes(n as nat).len() <= 16,
        n < 0x1_0000_0000 ==> hex_bytes(n as nat).len() <= 8,
{
    assert(pow16(8) == 0x1_0000_0000) by {
        reveal_with_fuel(pow16, 9);
    }
    assert(pow16(16) == 0x1_0000_0000_0000_0000) by {
        reveal_with_fuel(pow16, 17);
    }
    lemma_hex_len_bound(n as nat, 16);
    if n < 0x1_0000_0000 {
        lemma_hex_len_bound(n as nat, 8);
    }
}

/// Appends the hexadecimal digits of `n`.
fn push_hex_digits(out: &mut Vec<u8>, n: u64)
    ensures
        final(out)@ == old(out)@ + hex_bytes(n as nat),
    decreases n,
{
    if n >= 16 {
        push_hex_digits(out, n / 16);
    }
    let d = n % 16;
    let c: u8 = if d < 10 { 48 + d as u8 } else { 87 + d as u8 };
    out.push(c);
    proof {
        if n >= 16 {
            assert(hex_bytes(n as nat) == hex_bytes((n / 16) as nat).push(hex_digit((n % 16) as nat)));
        }
    }
}

/// The number of hexadecimal digits of `n`.
fn hex_len(n: u64) -> (l: usize)
    ensures
        l == hex_bytes(n as nat).len(),
    decreases n,
{
    proof {
        lemma_hex_bytes_len(n);
    }
    if n >= 16 {
        proof {
            lemma_hex_bytes_len(n / 16);
        }
        hex_len(n / 16) + 1
    } else {
        1
    }
}

/// Appends `n` in the `{:08x}` format.
pub fn push_hex08(out: &mut Vec<u8>, n: u64)
    ensures
        final(out)@ == old(out)@ + hex08(n as nat),
{
    let l = hex_len(n);
    let ghost start = out@;
    let mut k: usize = l;
    while k < 8
        invariant
            l == hex_bytes(n as nat).len(),
            l <= k <= 8 || (l > 8 && k == l),
            out@ == start + Seq::new((k - l) as nat, |i: int| 48u8),
        decreases 8 - k,
    {
        out.push(48u8);
        k = k + 1;
        assert(out@ =~= start + Seq::new((k - l) as nat, |i: int| 48u8));
    }
    let ghost mid = out@;
    push_hex_digits(out, n);
    proof {
        if l < 8 {
            assert(out@ =~= start + hex08(n as nat));
        } else {
            assert(mid =~= start);
            assert(out@ =~= start + hex08(n as nat));
        }
    }
}

/// Appends the decimal digits of `n`.
fn push_dec_digits(out: &mut Vec<u8>, n: u64)
    ensures
        final(out)@ == old(out)@ + dec_bytes(n as nat),
    decreases n,
{
    if n >= 10 {
        push_dec_digits(out, n / 10);
    }
    let d = (n % 10) as u8;
    out.push(48 + d);
}

/// Appends `v` in the `{}` format.
pub fn push_dec_i32(out: &mut Vec<u8>, v: i32)
    ensures
        final(out)@ == old(out)@ + dec_i32(v),
{
    if v < 0 {
        out.push(45u8);
        let m: u64 = (0 - (v as i64)) as u64;
        push_dec_digits(out, m);
        assert(out@ =~= old(out)@ + dec_i32(v));
    } else {
        push_dec_digits(out, v as u64);
    }
}

/// `String::push`: appends one character to the string.
#[verifier::external_body]
pub(crate) fn push_char(s: &mut String, c: char)
    ensures
        final(s)@ == old(s)@.push(c),
{
    s.push(c)
}

/// Appends ASCII bytes to a string, one character each.
pub fn push_ascii(s: &mut String, b: &[u8])
    ensures
        final(s)@ == old(s)@ + as_chars(b@),
{
    let ghost start = s@;
    let mut i: usize = 0;
    while i < b.len()
        invariant
            i <= b@.len(),
            s@ == start + as_chars(b@.subrange(0, i as int)),
        decreases b.len() - i,
    {
        let c = b[i] as char;
        push_char(s, c);
        i = i + 1;
        assert(as_chars(b@.subrange(0, i as int)) =~= as_chars(b@.subrange(0, i - 1)).push(c));
    }
    assert(b@.subrange(0, b@.len() as int) =~= b@);
}

/// A 32-bit value has at most eight hexadecimal digits.
pub proof fn lemma_hex_len_at_most_8(v: u32)
    ensures
        1 <= hex_bytes(v as nat).len() <= 8,
{
    lemma_hex_bytes_len(v as u64);
}

} // verus!
