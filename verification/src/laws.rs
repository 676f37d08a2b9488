//! Laws on what single operations compute, stated from their inputs alone:
//! decimal text reads back as its number, the known-entry count is the
//! operand of a push instruction, names are read at pointer minus base, and
//! a CRC32 is read as an offset is.

use vstd::prelude::*;
use crate::text::{dec_bytes, dec_i32};
use crate::hexparse::{HexError, is_hex_digit, hex_digit_value, scan_hex, spec_hex_u32, spec_hex_crc};
use crate::codec::{le_word, word_le, lemma_le_roundtrip};
use crate::search::{
    matches_at, occurrences, occurrences_from, rev_occurrences, rev_occurrences_to, address_of,
    count_near, known_counts, stat_bytes, new_search, old_search, IMAGE_BASE, PUSH_OPCODE,
};
use crate::roundtrip::{ascii_lower, lemma_scan_hex_concat};
use crate::dump_new::{
    DumpError, table_fits, sha_at, c_string, lossy_text, string_at, strings_at, name_table, new_dump,
};

verus! {

/// `b` is an ASCII decimal digit.
pub open spec fn is_dec_digit(b: u8) -> bool {
    48 <= b <= 57
}

/// The number that decimal digits spell, most significant digit first.
pub open spec fn dec_value(s: Seq<u8>) -> int
    decreases s.len(),
{
    if s.len() == 0 {
        0
    } else {
        dec_value(s.drop_last()) * 10 + (s.last() - 48)
    }
}

/// A number written in decimal is one or more digits, with no leading zero,
/// that read back, most significant first, as the number.
pub proof fn theorem_decimal_reads_back(n: nat)
    ensures
        dec_bytes(n).len() >= 1,
        forall|i: int| 0 <= i < dec_bytes(n).len() ==> is_dec_digit(#[trigger] dec_bytes(n)[i]),
        dec_bytes(n).len() > 1 ==> dec_bytes(n)[0] != 48,
        dec_value(dec_bytes(n)) == n,
    decreases n,
{
    if n >= 10 {
        theorem_decimal_reads_back(n / 10);
        let p = dec_bytes(n / 10);
        let s = dec_bytes(n);
        assert(s == p.push((48 + n % 10) as u8));
        assert(s.drop_last() =~= p);
        assert forall|i: int| 0 <= i < s.len() implies is_dec_digit(#[trigger] s[i]) by {
            if i < p.len() {
                assert(s[i] == p[i]);
            }
        }
        if p.len() == 1 {
            assert(p[0] != 48) by {
                assert(dec_value(p) == n / 10);
                assert(p.drop_last() =~= Seq::<u8>::empty());
                assert(dec_value(p.drop_last()) == 0);
                assert(p.last() == p[0]);
                assert(dec_value(p) == p[0] - 48);
            }
        }
        assert(s[0] == p[0]);
        assert(s.last() == (48 + n % 10) as u8);
        assert(dec_value(s) == dec_value(p) * 10 + (s.last() - 48));
        assert((n / 10) * 10 + n % 10 == n) by (nonlinear_arith);
    } else {
        let s = dec_bytes(n);
        assert(s.drop_last() =~= Seq::<u8>::empty());
        assert(dec_value(s.drop_last()) == 0);
    }
}

/// The number that the `{}` text of a signed number spells: a leading `-`
/// negates the digits after it.
pub open spec fn signed_dec_value(s: Seq<u8>) -> int {
    if s.len() > 0 && s[0] == 45 {
        -dec_value(s.drop_first())
    } else {
        dec_value(s)
    }
}

/// A signed number in the `{}` format starts with `-` exactly when it is
/// negative, is otherwise made of decimal digits, and reads back as the
/// number.
pub proof fn theorem_signed_decimal_reads_back(v: i32)
    ensures
        (dec_i32(v)[0] == 45) == (v < 0),
        forall|i: int| (if v < 0 { 1int } else { 0int }) <= i < dec_i32(v).len() ==> is_dec_digit(
            #[trigger] dec_i32(v)[i],
        ),
        signed_dec_value(dec_i32(v)) == v,
{
    if v < 0 {
        let m = (-v) as nat;
        theorem_decimal_reads_back(m);
        let s = dec_i32(v);
        assert(s.drop_first() =~= dec_bytes(m));
        assert forall|i: int| 1 <= i < s.len() implies is_dec_digit(#[trigger] s[i]) by {
            assert(s[i] == dec_bytes(m)[i - 1]);
        }
    } else {
        theorem_decimal_reads_back(v as nat);
    }
}

/// The number that hexadecimal digits spell, most significant digit first.
pub open spec fn hex_number(s: Seq<u8>) -> nat
    decreases s.len(),
{
    if s.len() == 0 {
        0
    } else {
        hex_number(s.drop_last()) * 16 + hex_digit_value(s.last())
    }
}

/// Digits read from no value give their number, or `PosOverflow` when it
/// does not fit in 32 bits.
proof fn lemma_scan_digits(d: Seq<u8>)
    requires
        forall|i: int| 0 <= i < d.len() ==> is_hex_digit(#[trigger] d[i]),
    ensures
        scan_hex(d, 0) == (if hex_number(d) <= u32::MAX {
            Ok::<nat, HexError>(hex_number(d))
        } else {
            Err::<nat, HexError>(HexError::PosOverflow)
        }),
    decreases d.len(),
{
    if d.len() > 0 {
        let p = d.drop_last();
        let c = seq![d.last()];
        assert(p + c =~= d);
        assert forall|i: int| 0 <= i < p.len() implies is_hex_digit(#[trigger] p[i]) by {
            assert(p[i] == d[i]);
        }
        assert(is_hex_digit(d.last())) by {
            assert(d.last() == d[d.len() - 1]);
        }
        lemma_scan_digits(p);
        lemma_scan_hex_concat(p, c, 0);
        assert(c.drop_first() =~= Seq::<u8>::empty());
        assert(c[0] == d.last());
        assert(hex_number(d) == hex_number(p) * 16 + hex_digit_value(d.last()));
        if hex_number(p) > u32::MAX {
            assert(hex_number(d) >= hex_number(p) * 16) by (nonlinear_arith)
                requires
                    hex_number(d) == hex_number(p) * 16 + hex_digit_value(d.last()),
            ;
            assert(scan_hex(p, 0) == Err::<nat, HexError>(HexError::PosOverflow));
        } else {
            let v = hex_number(p);
            let w = v * 16 + hex_digit_value(d.last());
            assert(scan_hex(p, 0) == Ok::<nat, HexError>(v));
            if w <= u32::MAX {
                assert(scan_hex(c.drop_first(), w) == Ok::<nat, HexError>(w));
                assert(scan_hex(c, v) == Ok::<nat, HexError>(w));
            } else {
                assert(scan_hex(c, v) == Err::<nat, HexError>(HexError::PosOverflow));
            }
        }
    }
}

/// Hexadecimal digits, with or without a leading `+`, read as the number
/// they spell, most significant first, when it fits in 32 bits, and are
/// refused with `PosOverflow` when it does not.
pub proof fn theorem_hex_digits_read_as_number(s: Seq<u8>)
    requires
        s.len() >= 1,
        forall|i: int| 0 <= i < s.len() ==> is_hex_digit(#[trigger] s[i]),
    ensures
        spec_hex_u32(s) == (if hex_number(s) <= u32::MAX {
            Ok::<u32, HexError>(hex_number(s) as u32)
        } else {
            Err::<u32, HexError>(HexError::PosOverflow)
        }),
        spec_hex_u32(seq![43u8] + s) == spec_hex_u32(s),
{
    assert(is_hex_digit(s[0]));
    lemma_scan_digits(s);
    assert((seq![43u8] + s).drop_first() =~= s);
    assert((seq![43u8] + s)[0] == 43);
}

/// Lowercase ASCII letters for uppercase ones, one for one.
proof fn lemma_scan_lower(d: Seq<u8>, acc: nat)
    ensures
        scan_hex(ascii_lower(d), acc) == scan_hex(d, acc),
    decreases d.len(),
{
    if d.len() > 0 {
        let l = ascii_lower(d);
        assert(l.drop_first() =~= ascii_lower(d.drop_first()));
        assert(l[0] == (if 65 <= d[0] <= 90 { (d[0] + 32) as u8 } else { d[0] }));
        assert(is_hex_digit(l[0]) == is_hex_digit(d[0]));
        if is_hex_digit(d[0]) {
            assert(hex_digit_value(l[0]) == hex_digit_value(d[0]));
        }
        lemma_scan_lower(d.drop_first(), acc * 16 + hex_digit_value(d[0]));
    }
}

/// Hexadecimal text is read the same whatever the case of its letters: an
/// offset, and so a CRC32, written in uppercase is read as in lowercase.
pub proof fn theorem_hex_case_does_not_matter(s: Seq<u8>)
    ensures
        spec_hex_u32(ascii_lower(s)) == spec_hex_u32(s),
        spec_hex_crc(ascii_lower(s)) == spec_hex_crc(s),
{
    let l = ascii_lower(s);
    if s.len() > 0 {
        assert(l[0] == s[0] || (65 <= s[0] <= 90));
        assert(l.drop_first() =~= ascii_lower(s.drop_first()));
        lemma_scan_lower(s, 0);
        lemma_scan_lower(s.drop_first(), 0);
    }
}

/// A CRC32 is read as an offset is: the same texts are accepted, the same
/// error refuses the others, and the four bytes are the value
/// little-endian.
pub proof fn theorem_crc_read_as_offset(s: Seq<u8>)
    ensures
        match spec_hex_u32(s) {
            Ok(v) => spec_hex_crc(s) matches Ok(b) && b.len() == 4 && le_word(b, 0) == v,
            Err(e) => spec_hex_crc(s) == Err::<Seq<u8>, HexError>(e),
        },
{
    if let Ok(v) = spec_hex_u32(s) {
        crate::codec::lemma_le_roundtrip(v);
    }
}

/// Strings read through addresses succeed exactly when each one does, and
/// give, in order, what each address points to.
proof fn lemma_strings_at_each(h: Seq<u8>, addrs: Seq<u32>, base: u32)
    ensures
        (strings_at(h, addrs, base) is Ok) == (forall|i: int|
            0 <= i < addrs.len() ==> #[trigger] string_at(h, addrs[i], base) is Ok),
        strings_at(h, addrs, base) matches Ok(ns) ==> ns.len() == addrs.len() && forall|i: int|
            0 <= i < addrs.len() ==> #[trigger] string_at(h, addrs[i], base) == Ok::<
                Seq<char>,
                DumpError,
            >(ns[i]),
    decreases addrs.len(),
{
    if addrs.len() > 0 {
        let r = addrs.drop_last();
        lemma_strings_at_each(h, r, base);
        assert forall|i: int| 0 <= i < r.len() implies r[i] == addrs[i] by {}
        assert(addrs.last() == addrs[addrs.len() - 1]);
        if !(strings_at(h, r, base) is Ok) {
            let i = choose|i: int| 0 <= i < r.len() && !(#[trigger] string_at(h, r[i], base) is Ok);
            assert(!(string_at(h, addrs[i], base) is Ok));
        }
    }
}

/// The names that a pointer table at `off` gives, for an image base `base`:
/// the table is read when it fits in the image and each pointer, less the
/// base, is the place of a string that can be read; the `i`-th name is then
/// the text of the string at the `i`-th pointer less the base.
pub proof fn theorem_names_read_at_pointer_less_base(h: Seq<u8>, off: u32, n: nat, base: u32)
    ensures
        (name_table(h, off, n, base) is Ok) == (table_fits(h.len(), off, n, 4) && forall|i: int|
            0 <= i < n ==> #[trigger] le_word(h, off + 4 * i) >= base && c_string(
                h,
                le_word(h, off + 4 * i) - base,
            ) is Ok),
        name_table(h, off, n, base) matches Ok(ns) ==> ns.len() == n && forall|i: int|
            0 <= i < n ==> (#[trigger] c_string(h, le_word(h, off + 4 * i) - base) matches Ok(b)
                && ns[i] == lossy_text(b)),
{
    if table_fits(h.len(), off, n, 4) {
        let addrs = Seq::new(n, |i: int| le_word(h, off + 4 * i));
        lemma_strings_at_each(h, addrs, base);
        assert forall|i: int| 0 <= i < n implies (#[trigger] string_at(h, addrs[i], base) is Ok) == (
        le_word(h, off + 4 * i) >= base && c_string(h, le_word(h, off + 4 * i) - base) is Ok) by {
            assert(addrs[i] == le_word(h, off + 4 * i));
        }
        if name_table(h, off, n, base) is Ok {
            let ns = name_table(h, off, n, base)->Ok_0;
            assert forall|i: int| 0 <= i < n implies #[trigger] le_word(h, off + 4 * i) >= base
                && c_string(h, le_word(h, off + 4 * i) - base) is Ok by {
                assert(string_at(h, addrs[i], base) is Ok);
            }
            assert forall|i: int| 0 <= i < n implies (#[trigger] c_string(
                h,
                le_word(h, off + 4 * i) - base,
            ) matches Ok(b) && ns[i] == lossy_text(b)) by {
                assert(addrs[i] == le_word(h, off + 4 * i));
                assert(string_at(h, addrs[i], base) == Ok::<Seq<char>, DumpError>(ns[i]));
            }
        } else {
            if forall|i: int| 0 <= i < n ==> #[trigger] le_word(h, off + 4 * i) >= base && c_string(
                h,
                le_word(h, off + 4 * i) - base,
            ) is Ok {
                assert forall|i: int| 0 <= i < addrs.len() implies #[trigger] string_at(
                    h,
                    addrs[i],
                    base,
                ) is Ok by {
                    assert(le_word(h, off + 4 * i) >= base);
                }
            }
        }
    }
}

/// A new-style dump of `n` entries, for an image base `base`: it succeeds
/// exactly when the three tables fit in the image and each name pointer,
/// less the base, is the place of a string that can be read; the `i`-th
/// entry then holds the `i`-th CRC32, the `i`-th digest, and the text of the
/// string at the `i`-th name pointer less the base.
pub proof fn theorem_new_dump_entries(
    h: Seq<u8>,
    crc_off: u32,
    sha1_off: u32,
    name_off: u32,
    n: nat,
    base: u32,
)
    ensures
        (new_dump(h, crc_off, sha1_off, name_off, n, base) is Ok) == (table_fits(h.len(), crc_off, n, 4)
            && table_fits(h.len(), sha1_off, n, 20) && table_fits(h.len(), name_off, n, 4)
            && forall|i: int|
            0 <= i < n ==> #[trigger] le_word(h, name_off + 4 * i) >= base && c_string(
                h,
                le_word(h, name_off + 4 * i) - base,
            ) is Ok),
        new_dump(h, crc_off, sha1_off, name_off, n, base) matches Ok(es) ==> es.len() == n
            && forall|i: int|
            0 <= i < n ==> #[trigger] es[i].0 == le_word(h, crc_off + 4 * i) && es[i].1 == Some(
                sha_at(h, sha1_off + 20 * i),
            ) && (c_string(h, le_word(h, name_off + 4 * i) - base) matches Ok(b) && es[i].2
                == lossy_text(b)),
{
    theorem_names_read_at_pointer_less_base(h, name_off, n, base);
}

/// `r` is the first place of `h` where the bytes `n` stand.
pub open spec fn first_place(h: Seq<u8>, n: Seq<u8>, r: int) -> bool {
    matches_at(h, n, r) && forall|i: int| 0 <= i < r ==> !matches_at(h, n, i)
}

/// A push instruction's opcode stands at `j`.
pub open spec fn is_push(h: Seq<u8>, j: int) -> bool {
    0 <= j < h.len() && h[j] == PUSH_OPCODE
}

/// The search from `from` reports something exactly when there is a match at
/// or after `from`, and then first the leftmost one.
proof fn lemma_first_occurrence(h: Seq<u8>, n: Seq<u8>, from: int)
    requires
        0 <= from,
        h.len() <= usize::MAX,
    ensures
        (occurrences_from(h, n, from).len() > 0) == (exists|i: int|
            from <= i && #[trigger] matches_at(h, n, i)),
        occurrences_from(h, n, from).len() > 0 ==> from <= occurrences_from(h, n, from)[0]
            && matches_at(h, n, occurrences_from(h, n, from)[0] as int) && forall|i: int|
            from <= i < occurrences_from(h, n, from)[0] ==> !#[trigger] matches_at(h, n, i),
    decreases h.len() + 1 - from,
{
    if from > h.len() {
        assert forall|i: int| from <= i implies !#[trigger] matches_at(h, n, i) by {}
    } else if matches_at(h, n, from) {
    } else {
        lemma_first_occurrence(h, n, from + 1);
        assert(occurrences_from(h, n, from) == occurrences_from(h, n, from + 1));
        if exists|i: int| from <= i && #[trigger] matches_at(h, n, i) {
            let i = choose|i: int| from <= i && #[trigger] matches_at(h, n, i);
            assert(i != from);
            assert(from + 1 <= i && matches_at(h, n, i));
        }
    }
}

/// A single byte stands at `j` exactly when it matches there.
proof fn lemma_byte_match(g: Seq<u8>, b: u8, j: int)
    requires
        0 <= j < g.len(),
    ensures
        matches_at(g, seq![b], j) == (g[j] == b),
{
    if g[j] == b {
        assert(g.subrange(j, j + 1) =~= seq![b]);
    } else {
        assert(g.subrange(j, j + 1)[0] == g[j]);
    }
}

/// The backward search for one byte before `end` reports something exactly
/// when the byte stands before `end`, and then first its last place before
/// `end`, after which it goes on from there.
proof fn lemma_last_byte(g: Seq<u8>, b: u8, end: int)
    requires
        0 <= end <= g.len(),
        g.len() <= usize::MAX,
    ensures
        (rev_occurrences_to(g, seq![b], end).len() > 0) == (exists|j: int|
            0 <= j < end && #[trigger] g[j] == b),
        rev_occurrences_to(g, seq![b], end).len() > 0 ==> {
            let q = rev_occurrences_to(g, seq![b], end)[0] as int;
            &&& 0 <= q < end
            &&& g[q] == b
            &&& forall|j: int| q < j < end ==> #[trigger] g[j] != b
            &&& rev_occurrences_to(g, seq![b], end).drop_first() == rev_occurrences_to(g, seq![b], q)
        },
    decreases end,
{
    if end > 0 {
        lemma_byte_match(g, b, end - 1);
        if g[end - 1] == b {
            assert(rev_occurrences_to(g, seq![b], end) == seq![(end - 1) as usize]
                + rev_occurrences_to(g, seq![b], end - 1));
            assert(rev_occurrences_to(g, seq![b], end).drop_first() =~= rev_occurrences_to(
                g,
                seq![b],
                end - 1,
            ));
        } else {
            lemma_last_byte(g, b, end - 1);
            assert(rev_occurrences_to(g, seq![b], end) == rev_occurrences_to(g, seq![b], end - 1));
            if exists|j: int| 0 <= j < end && #[trigger] g[j] == b {
                let j = choose|j: int| 0 <= j < end && #[trigger] g[j] == b;
                assert(j < end - 1);
            }
        }
    } else {
        assert(rev_occurrences_to(g, seq![b], -1).len() == 0);
        assert(rev_occurrences_to(g, seq![b], end).len() == 0);
    }
}

/// A word read little-endian and written back little-endian gives the four
/// bytes read.
proof fn lemma_le_word_bytes(h: Seq<u8>, i: int)
    requires
        0 <= i,
        i + 4 <= h.len(),
    ensures
        word_le(le_word(h, i)) == h.subrange(i, i + 4),
{
    let b0 = h[i];
    let b1 = h[i + 1];
    let b2 = h[i + 2];
    let b3 = h[i + 3];
    let w = le_word(h, i);
    assert(w == (b0 as u32) | ((b1 as u32) << 8u32) | ((b2 as u32) << 16u32) | ((b3 as u32) << 24u32));
    assert((w & 0xff) as u8 == b0 && ((w >> 8u32) & 0xff) as u8 == b1 && ((w >> 16u32) & 0xff) as u8
        == b2 && (w >> 24u32) as u8 == b3) by (bit_vector)
        requires
            w == (b0 as u32) | ((b1 as u32) << 8u32) | ((b2 as u32) << 16u32) | ((b3 as u32) << 24u32),
    ;
    assert(word_le(w) =~= h.subrange(i, i + 4));
}

/// The pushes before the first pointer, and the operand read.
pub open spec fn count_witness(h: Seq<u8>, at: usize, v: i32, r: int, p: int, q: int) -> bool {
    &&& first_place(h, word_le(address_of(at, IMAGE_BASE)), r)
    &&& p < q < r
    &&& is_push(h, p)
    &&& is_push(h, q)
    &&& forall|j: int| p < j < r && j != q ==> !#[trigger] is_push(h, j)
    &&& h.subrange(p + 1, p + 5) == word_le(v as u32)
}

/// A count that is found comes with its pointer and pushes.
proof fn lemma_count_has_witness(h: Seq<u8>, at: usize, v: i32) -> (w: (int, int, int))
    requires
        h.len() <= usize::MAX,
        count_near(h, at) == Some(v),
    ensures
        count_witness(h, at, v, w.0, w.1, w.2),
{
    let ptr = word_le(address_of(at, IMAGE_BASE));
    let refs = occurrences(h, ptr);
    let b = PUSH_OPCODE;
    lemma_first_occurrence(h, ptr, 0);
    let r = refs[0] as int;
    let g = h.subrange(0, r);
    assert(matches_at(h, ptr, r));
    lemma_last_byte(g, b, r);
    let pushes = rev_occurrences(g, seq![b]);
    assert(pushes == rev_occurrences_to(g, seq![b], r));
    let q = pushes[0] as int;
    lemma_last_byte(g, b, q);
    assert(pushes.drop_first()[0] == pushes[1]);
    let p = pushes[1] as int;
    assert(first_place(h, ptr, r));
    assert(is_push(h, p) && is_push(h, q)) by {
        assert(g[p] == h[p] && g[q] == h[q]);
    }
    assert forall|j: int| p < j < r && j != q implies !#[trigger] is_push(h, j) by {
        assert(g[j] == h[j]);
    }
    assert(p + 5 <= h.len());
    lemma_le_word_bytes(h, p + 1);
    let x = le_word(h, p + 1);
    assert(v == x as i32);
    assert(((x as i32) as u32) == x) by (bit_vector);
    (r, p, q)
}

/// Where the pointer and the pushes stand as the witness says, the count is
/// the operand.
proof fn lemma_witness_gives_count(h: Seq<u8>, at: usize, v: i32, r: int, p: int, q: int)
    requires
        h.len() <= usize::MAX,
        count_witness(h, at, v, r, p, q),
    ensures
        count_near(h, at) == Some(v),
{
    let ptr = word_le(address_of(at, IMAGE_BASE));
    let refs = occurrences(h, ptr);
    let b = PUSH_OPCODE;
    lemma_first_occurrence(h, ptr, 0);
    assert(matches_at(h, ptr, r));
    let r0 = refs[0] as int;
    assert(r0 == r) by {
        if r0 < r {
            assert(!matches_at(h, ptr, r0));
        } else if r0 > r {
            assert(!matches_at(h, ptr, r));
        }
    }
    let g = h.subrange(0, r);
    assert(g[q] == b);
    lemma_last_byte(g, b, r);
    let pushes = rev_occurrences(g, seq![b]);
    let q0 = pushes[0] as int;
    assert(q0 == q) by {
        if q0 < q {
            assert(g[q] == b);
        } else if q0 > q {
            assert(g[q0] == h[q0]);
            assert(is_push(h, q0));
        }
    }
    assert(g[p] == b);
    lemma_last_byte(g, b, q);
    assert(pushes.drop_first()[0] == pushes[1]);
    let p0 = pushes[1] as int;
    assert(p0 == p) by {
        if p0 < p {
            assert(g[p] == b);
        } else if p0 > p {
            assert(g[p0] == h[p0]);
            assert(is_push(h, p0));
        }
    }
    lemma_le_roundtrip(v as u32);
    assert(le_word(h, p + 1) == le_word(word_le(v as u32), 0)) by {
        assert(h.subrange(p + 1, p + 5)[0] == h[p + 1]);
        assert(h.subrange(p + 1, p + 5)[1] == h[p + 2]);
        assert(h.subrange(p + 1, p + 5)[2] == h[p + 3]);
        assert(h.subrange(p + 1, p + 5)[3] == h[p + 4]);
    }
    assert((v as u32) as i32 == v) by (bit_vector);
    assert(count_near(h, at) == Some(le_word(h, p + 1) as i32));
}

/// The number of known entries that `find_new` and `find_old` report for a
/// statistics text at `at` is `v` exactly when: `r` is the first place of
/// the image that holds the pointer to the text; before `r` stand push
/// opcodes at `q` and, before it, at `p`, with no other push opcode between
/// `p` and `r`; and the four bytes after the opcode at `p` are `v`
/// little-endian. (There is no count when there is no pointer, or fewer than
/// two push opcodes before it.)
pub proof fn theorem_known_count_is_push_operand(h: Seq<u8>, at: usize, v: i32)
    requires
        h.len() <= usize::MAX,
    ensures
        (count_near(h, at) == Some(v)) == (exists|r: int, p: int, q: int|
            #[trigger] count_witness(h, at, v, r, p, q)),
{
    if count_near(h, at) == Some(v) {
        let w = lemma_count_has_witness(h, at, v);
        assert(count_witness(h, at, v, w.0, w.1, w.2));
    }
    if exists|r: int, p: int, q: int| #[trigger] count_witness(h, at, v, r, p, q) {
        let (r, p, q) = choose|r: int, p: int, q: int| #[trigger] count_witness(h, at, v, r, p, q);
        lemma_witness_gives_count(h, at, v, r, p, q);
    }
}

/// Every count found belongs to one of the statistics texts, and the count
/// of the first one, when it has one, comes first.
proof fn lemma_known_counts_from(h: Seq<u8>, stats: Seq<usize>)
    ensures
        forall|k: int|
            0 <= k < known_counts(h, stats).len() ==> exists|i: int|
                0 <= i < stats.len() && #[trigger] count_near(h, stats[i]) == Some(
                    #[trigger] known_counts(h, stats)[k],
                ),
        stats.len() > 0 && count_near(h, stats[0]) is Some ==> known_counts(h, stats).len() > 0
            && Some(known_counts(h, stats)[0]) == count_near(h, stats[0]),
    decreases stats.len(),
{
    if stats.len() > 0 {
        let r = stats.drop_last();
        lemma_known_counts_from(h, r);
        let kr = known_counts(h, r);
        let kc = known_counts(h, stats);
        assert forall|k: int| 0 <= k < kc.len() implies exists|i: int|
            0 <= i < stats.len() && #[trigger] count_near(h, stats[i]) == Some(
                #[trigger] kc[k],
            ) by {
            if k < kr.len() {
                assert(kc[k] == kr[k]);
                let i = choose|i: int| 0 <= i < r.len() && #[trigger] count_near(h, r[i]) == Some(kr[k]);
                assert(stats[i] == r[i]);
            } else {
                assert(stats[stats.len() - 1] == stats.last());
            }
        }
        if count_near(h, stats[0]) is Some && r.len() > 0 {
            assert(r[0] == stats[0]);
        }
        if r.len() == 0 {
            assert(stats.last() == stats[0]);
        }
    }
}

/// The number of known entries that `find_new` and `find_old` report is
/// always the count found for one of the statistics texts, and it is the
/// count found for the first of them whenever that one has a count.
pub proof fn theorem_known_num_is_a_stats_count(
    h: Seq<u8>,
    crc: Seq<u8>,
    sha1: Seq<u8>,
    name: Seq<u8>,
    old_crc: Option<Seq<u8>>,
    old_name: Option<Seq<char>>,
)
    requires
        h.len() <= usize::MAX,
    ensures
        new_search(h, crc, sha1, name).0.known_num == old_search(h, old_crc, old_name).0.known_num,
        new_search(h, crc, sha1, name).0.known_num matches Some(v) ==> exists|at: int|
            #[trigger] matches_at(h, stat_bytes(), at) && count_near(h, at as usize) == Some(v),
        forall|at: int|
            #[trigger] first_place(h, stat_bytes(), at) && count_near(h, at as usize) is Some
                ==> new_search(h, crc, sha1, name).0.known_num == count_near(h, at as usize),
{
    let stats = occurrences(h, stat_bytes());
    lemma_known_counts_from(h, stats);
    lemma_first_occurrence(h, stat_bytes(), 0);
    crate::search::lemma_occurrences_from_match(h, stat_bytes(), 0);
    let kc = known_counts(h, stats);
    if kc.len() > 0 {
        let i = choose|i: int| 0 <= i < stats.len() && #[trigger] count_near(h, stats[i]) == Some(kc[0]);
        assert(matches_at(h, stat_bytes(), stats[i] as int));
        assert(count_near(h, (stats[i] as int) as usize) == Some(kc[0]));
    }
    assert forall|at: int|
        #[trigger] first_place(h, stat_bytes(), at) && count_near(h, at as usize) is Some
            implies new_search(h, crc, sha1, name).0.known_num == count_near(h, at as usize) by {
        assert(matches_at(h, stat_bytes(), at));
        let s0 = stats[0] as int;
        assert(s0 == at) by {
            if s0 < at {
                assert(!matches_at(h, stat_bytes(), s0));
            } else if s0 > at {
                assert(!matches_at(h, stat_bytes(), at));
            }
        }
    }
}

} // verus!
