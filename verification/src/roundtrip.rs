//! What the tools promise together: the offsets that the search reports lead
//! the dump back to the entry that was searched for, and the offsets that
//! the search prints read back as the offsets the dump takes.

use vstd::prelude::*;
use crate::codec::{le_word, word_le, word_be, lemma_le_roundtrip};
use crate::hexparse::{HexError, spec_hex_u32, spec_hex_crc, spec_hex_sha, sha_words, sha_group, scan_hex, is_hex_digit, hex_digit_value};
use crate::search::{new_search, occurrences, matches_at, lemma_occurrences_from_match, address_of, IMAGE_BASE, pointer_hits, points_to, points_to_one_of, lemma_pointer_hits_point};
use crate::dump_new::{DumpError, word_table, sha_table, sha_at, c_string, first_nul};
use crate::text::{hex08, hex_bytes, hex_digit, as_chars, pow16};
use crate::report::hex_pairs;
use crate::search::{old_search, NAME_DELTA};
use crate::dump_new::{lossy_text, string_at, strings_at, name_table};
use crate::dump_old::{old_dump, parse_entries, spec_parse_entry, hex_value, is_hex_char, hex_char_value, is_blank, skip_blanks, find_bar, hex8_at, hex_groups, be_concat};
use vstd::utf8::{encode_utf8, valid_utf8, decode_utf8, decode_first_scalar, pop_first_scalar, length_of_first_scalar};

verus! {

/// The four bytes matched at `o` read as the word they spell.
proof fn lemma_match_word(h: Seq<u8>, n: Seq<u8>, o: int, k: int)
    requires
        matches_at(h, n, o),
        0 <= k,
        k + 4 <= n.len(),
    ensures
        le_word(h, o + k) == le_word(n, k),
{
    assert(h.subrange(o, o + n.len()) == n);
    assert(h[o + k] == n[k]);
    assert(h[o + k + 1] == n[k + 1]);
    assert(h[o + k + 2] == n[k + 2]);
    assert(h[o + k + 3] == n[k + 3]);
}

/// The CRC32 table that the search for a new-style database reports starts
/// with the CRC32 that was searched for: dumping the table at that offset
/// gives back, first, the value written in hexadecimal.
pub proof fn theorem_new_crc_offset_dumps_crc(
    h: Seq<u8>,
    text: Seq<u8>,
    crc: Seq<u8>,
    sha1: Seq<u8>,
    name: Seq<u8>,
    o: usize,
)
    requires
        h.len() <= usize::MAX,
        spec_hex_crc(text) == Ok::<Seq<u8>, HexError>(crc),
        new_search(h, crc, sha1, name).0.crc_off == Some(o),
        o <= u32::MAX,
    ensures
        spec_hex_u32(text) is Ok,
        word_table(h, o as u32, 1) == Ok::<Seq<u32>, DumpError>(seq![spec_hex_u32(text)->Ok_0]),
{
    let v = spec_hex_u32(text)->Ok_0;
    lemma_occurrences_from_match(h, crc, 0);
    assert(matches_at(h, crc, o as int));
    lemma_match_word(h, crc, o as int, 0);
    lemma_le_roundtrip(v);
    assert(word_table(h, o as u32, 1) == Ok::<Seq<u32>, DumpError>(
        Seq::new(1, |i: int| le_word(h, o + 4 * i)),
    ));
    assert(Seq::new(1, |i: int| le_word(h, o + 4 * i)) =~= seq![v]);
}

/// The SHA1 that a 40-digit text spells: its five groups of eight digits,
/// each value written out big-endian.
pub open spec fn sha_digest_of(text: Seq<u8>) -> Seq<u8> {
    word_be(spec_hex_u32(sha_group(text, 0))->Ok_0) + word_be(spec_hex_u32(sha_group(text, 1))->Ok_0)
        + word_be(spec_hex_u32(sha_group(text, 2))->Ok_0) + word_be(
        spec_hex_u32(sha_group(text, 3))->Ok_0,
    ) + word_be(spec_hex_u32(sha_group(text, 4))->Ok_0)
}

/// The SHA1 table that the search for a new-style database reports starts
/// with the SHA1 that was searched for: dumping the table at that offset
/// gives back, first, the digest that the hexadecimal text spells.
pub proof fn theorem_new_sha1_offset_dumps_sha1(
    h: Seq<u8>,
    text: Seq<u8>,
    crc: Seq<u8>,
    sha1: Seq<u8>,
    name: Seq<u8>,
    o: usize,
)
    requires
        h.len() <= usize::MAX,
        spec_hex_sha(text) == Ok::<Seq<u8>, HexError>(sha1),
        new_search(h, crc, sha1, name).0.sha1_off == Some(o),
        o <= u32::MAX,
    ensures
        sha_table(h, o as u32, 1) == Ok::<Seq<Seq<u8>>, DumpError>(seq![sha_digest_of(text)]),
{
    lemma_occurrences_from_match(h, sha1, 0);
    assert(matches_at(h, sha1, o as int));
    lemma_sha_at_digest(h, text, sha1, o as int);
    assert(Seq::new(1, |i: int| sha_at(h, o + 20 * i)) =~= seq![sha_digest_of(text)]);
}

/// The digest read where the searched SHA1 bytes stand is the one its
/// hexadecimal text spells.
proof fn lemma_sha_at_digest(h: Seq<u8>, text: Seq<u8>, sha1: Seq<u8>, o: int)
    requires
        spec_hex_sha(text) == Ok::<Seq<u8>, HexError>(sha1),
        matches_at(h, sha1, o),
    ensures
        sha1.len() == 20,
        sha_at(h, o) == sha_digest_of(text),
{
    let v0 = spec_hex_u32(sha_group(text, 0))->Ok_0;
    let v1 = spec_hex_u32(sha_group(text, 1))->Ok_0;
    let v2 = spec_hex_u32(sha_group(text, 2))->Ok_0;
    let v3 = spec_hex_u32(sha_group(text, 3))->Ok_0;
    let v4 = spec_hex_u32(sha_group(text, 4))->Ok_0;
    assert(sha_words(text, 5) == Ok::<Seq<u8>, HexError>(Seq::empty()));
    assert(sha_words(text, 4) is Ok);
    assert(sha_words(text, 3) is Ok);
    assert(sha_words(text, 2) is Ok);
    assert(sha_words(text, 1) is Ok);
    assert(sha1 =~= word_le(v0) + word_le(v1) + word_le(v2) + word_le(v3) + word_le(v4));
    lemma_match_word(h, sha1, o, 0);
    lemma_match_word(h, sha1, o, 4);
    lemma_match_word(h, sha1, o, 8);
    lemma_match_word(h, sha1, o, 12);
    lemma_match_word(h, sha1, o, 16);
    lemma_le_roundtrip(v0);
    lemma_le_roundtrip(v1);
    lemma_le_roundtrip(v2);
    lemma_le_roundtrip(v3);
    lemma_le_roundtrip(v4);
    assert(le_word(sha1, 0) == le_word(word_le(v0), 0));
    assert(le_word(sha1, 4) == le_word(word_le(v1), 0));
    assert(le_word(sha1, 8) == le_word(word_le(v2), 0));
    assert(le_word(sha1, 12) == le_word(word_le(v3), 0));
    assert(le_word(sha1, 16) == le_word(word_le(v4), 0));
    assert(sha_at(h, o) =~= sha_digest_of(text));
}

/// The first NUL found lies in the range, and no byte before it is NUL.
proof fn lemma_first_nul(h: Seq<u8>, i: int, end: int)
    requires
        0 <= i,
        end <= h.len(),
    ensures
        first_nul(h, i, end) matches Some(k) ==> i <= k < end && h[k] == 0 && forall|j: int|
            i <= j < k ==> h[j] != 0,
    decreases end - i,
{
    if i < end && h[i] != 0 {
        lemma_first_nul(h, i + 1, end);
    }
}

/// The string at `idx` starts with the bytes `name` found there, when they
/// hold no NUL.
proof fn lemma_c_string_starts_with(h: Seq<u8>, name: Seq<u8>, idx: int)
    requires
        matches_at(h, name, idx),
        forall|i: int| 0 <= i < name.len() ==> name[i] != 0,
    ensures
        c_string(h, idx) matches Ok(b) ==> b.len() >= name.len() && b.subrange(0, name.len() as int)
            == name,
{
    let end = if idx + crate::dump_new::READ_WINDOW <= h.len() {
        idx + crate::dump_new::READ_WINDOW
    } else {
        h.len() as int
    };
    lemma_first_nul(h, idx, end);
    assert(h.subrange(idx, idx + name.len()) == name);
    if let Some(k) = first_nul(h, idx, end) {
        if k < idx + name.len() {
            assert(h[k] == name[k - idx]);
        }
        assert(h.subrange(idx, k).subrange(0, name.len() as int) =~= name);
    }
}

/// The name table that the search for a new-style database reports starts
/// with a pointer to the name that was searched for: the pointer holds the
/// address of a place where the name stands, that address names that place
/// whenever it does not pass 32 bits, and the string read there starts
/// with the name, when the name holds no NUL.
pub proof fn theorem_new_name_offset_points_to_name(
    h: Seq<u8>,
    crc: Seq<u8>,
    sha1: Seq<u8>,
    name: Seq<u8>,
    o: usize,
)
    requires
        h.len() <= usize::MAX,
        new_search(h, crc, sha1, name).0.name_off == Some(o),
        o <= u32::MAX,
        forall|i: int| 0 <= i < name.len() ==> name[i] != 0,
    ensures
        word_table(h, o as u32, 1) matches Ok(t) && t.len() == 1 && exists|idx: usize|
            #[trigger] matches_at(h, name, idx as int) && t[0] == address_of(idx, IMAGE_BASE) && (
            idx + IMAGE_BASE < 0x1_0000_0000 ==> t[0] - IMAGE_BASE == idx) && (c_string(
                h,
                idx as int,
            ) matches Ok(b) ==> b.len() >= name.len() && b.subrange(0, name.len() as int) == name),
{
    let ts = occurrences(h, name);
    let hits = pointer_hits(h, ts, IMAGE_BASE);
    assert(o == hits[0]);
    lemma_pointer_hits_point(h, ts, IMAGE_BASE);
    assert(points_to_one_of(h, hits[0], ts, IMAGE_BASE));
    let j = choose|j: int| 0 <= j < ts.len() && #[trigger] points_to(h, hits[0], ts[j], IMAGE_BASE);
    let idx = ts[j];
    let a = address_of(idx, IMAGE_BASE);
    lemma_occurrences_from_match(h, name, 0);
    assert(matches_at(h, name, idx as int));
    assert(matches_at(h, word_le(a), o as int));
    lemma_match_word(h, word_le(a), o as int, 0);
    lemma_le_roundtrip(a);
    assert(Seq::new(1, |i: int| le_word(h, o + 4 * i)) =~= seq![a]);
    lemma_c_string_starts_with(h, name, idx as int);
}

/// An offset printed in the `{:08x}` format reads back, as the dump reads an
/// offset, as the offset itself, whenever it fits in 32 bits.
pub proof fn theorem_printed_offset_reads_back(o: nat)
    requires
        o <= u32::MAX,
    ensures
        spec_hex_u32(hex08(o)) == Ok::<u32, HexError>(o as u32),
{
    lemma_scan_hex_bytes(o);
    let d = hex_bytes(o);
    lemma_hex_bytes_first(o);
    if d.len() < 8 {
        let z = Seq::new((8 - d.len()) as nat, |i: int| 48u8);
        lemma_scan_zeros(z);
        lemma_scan_hex_concat(z, d, 0);
        assert(hex08(o) == z + d);
        assert(hex08(o)[0] == 48);
    } else {
        assert(hex08(o) == d);
    }
}

/// Reading `a + b` is reading `a`, then `b` from where `a` left off.
pub proof fn lemma_scan_hex_concat(a: Seq<u8>, b: Seq<u8>, acc: nat)
    ensures
        scan_hex(a + b, acc) == match scan_hex(a, acc) {
            Ok(v) => scan_hex(b, v),
            Err(e) => Err(e),
        },
    decreases a.len(),
{
    if a.len() == 0 {
        assert(a + b =~= b);
    } else {
        assert((a + b).drop_first() =~= a.drop_first() + b);
        assert((a + b)[0] == a[0]);
        if is_hex_digit(a[0]) && acc * 16 + hex_digit_value(a[0]) <= u32::MAX {
            lemma_scan_hex_concat(a.drop_first(), b, acc * 16 + hex_digit_value(a[0]));
        }
    }
}

/// Zeros read as zero.
proof fn lemma_scan_zeros(z: Seq<u8>)
    requires
        forall|i: int| 0 <= i < z.len() ==> z[i] == 48,
    ensures
        scan_hex(z, 0) == Ok::<nat, HexError>(0),
    decreases z.len(),
{
    if z.len() > 0 {
        assert(z[0] == 48);
        lemma_scan_zeros(z.drop_first());
    }
}

/// A digit written by the formatter reads back as its value.
proof fn lemma_hex_digit_reads_back(d: nat)
    requires
        d < 16,
    ensures
        is_hex_digit(hex_digit(d)),
        hex_digit_value(hex_digit(d)) == d,
{
}

/// The digits of `n` read back as `n`.
proof fn lemma_scan_hex_bytes(n: nat)
    requires
        n <= u32::MAX,
    ensures
        scan_hex(hex_bytes(n), 0) == Ok::<nat, HexError>(n),
    decreases n,
{
    lemma_hex_digit_reads_back(n % 16);
    if n < 16 {
        let one = seq![hex_digit(n)];
        assert(hex_bytes(n) == one);
        assert(one.drop_first() =~= Seq::<u8>::empty());
        assert(one[0] == hex_digit(n));
        assert(scan_hex(one.drop_first(), n) == Ok::<nat, HexError>(n));
    } else {
        lemma_scan_hex_bytes(n / 16);
        let last = seq![hex_digit(n % 16)];
        assert(hex_bytes(n) =~= hex_bytes(n / 16) + last);
        lemma_scan_hex_concat(hex_bytes(n / 16), last, 0);
        assert(last.drop_first() =~= Seq::<u8>::empty());
        assert((n / 16) * 16 + n % 16 == n);
        assert(last[0] == hex_digit(n % 16));
        assert(scan_hex(last.drop_first(), n) == Ok::<nat, HexError>(n));
        assert(scan_hex(last, n / 16) == Ok::<nat, HexError>(n));
    }
}

/// The formatter never starts a number with a sign.
proof fn lemma_hex_bytes_first(n: nat)
    ensures
        hex_bytes(n).len() >= 1,
        is_hex_digit(hex_bytes(n)[0]),
    decreases n,
{
    if n >= 16 {
        lemma_hex_bytes_first(n / 16);
        assert(hex_bytes(n)[0] == hex_bytes(n / 16)[0]);
    } else {
        lemma_hex_digit_reads_back(n);
    }
}

/// The leading ASCII bytes of valid UTF-8 decode to the same characters.
proof fn lemma_decode_ascii_prefix(b: Seq<u8>, k: int)
    requires
        valid_utf8(b),
        0 <= k <= b.len(),
        forall|i: int| 0 <= i < k ==> b[i] < 0x80,
    ensures
        decode_utf8(b).len() >= k,
        forall|i: int| 0 <= i < k ==> decode_utf8(b)[i] == b[i] as char,
    decreases k,
{
    if k > 0 {
        let c = b[0];
        assert(c & 0x7f == c) by (bit_vector)
            requires
                c < 0x80,
        ;
        assert(length_of_first_scalar(b) == 1);
        assert(decode_first_scalar(b) == c as u32);
        let rest = pop_first_scalar(b);
        assert(rest =~= b.subrange(1, b.len() as int));
        lemma_decode_ascii_prefix(rest, k - 1);
        assert(decode_utf8(b) == seq![decode_first_scalar(b) as char] + decode_utf8(rest));
        assert forall|i: int| 0 <= i < k implies decode_utf8(b)[i] == b[i] as char by {
            if i > 0 {
                assert(decode_utf8(b)[i] == decode_utf8(rest)[i - 1]);
                assert(rest[i - 1] == b[i]);
            }
        }
    }
}

/// A digit written by the formatter is a hexadecimal digit character of
/// that value.
proof fn lemma_hex_char_of_digit(d: nat)
    requires
        d < 16,
    ensures
        is_hex_char(hex_digit(d) as char),
        hex_char_value(hex_digit(d) as char) == d,
{
}

/// Leading zero digits add nothing to a value.
proof fn lemma_hex_value_skip_zeros(s: Seq<char>, k: nat, m: nat)
    requires
        k + m <= s.len(),
        forall|i: int| 0 <= i < k ==> s[i] == '0',
    ensures
        hex_value(s, 0, k + m) == hex_value(s, k as int, m),
    decreases m,
{
    if m == 0 {
        lemma_hex_value_zeros(s, k);
    } else {
        lemma_hex_value_skip_zeros(s, k, (m - 1) as nat);
    }
}

/// Zero digits are worth zero.
proof fn lemma_hex_value_zeros(s: Seq<char>, k: nat)
    requires
        k <= s.len(),
        forall|i: int| 0 <= i < k ==> s[i] == '0',
    ensures
        hex_value(s, 0, k) == 0,
    decreases k,
{
    if k > 0 {
        lemma_hex_value_zeros(s, (k - 1) as nat);
        assert(s[k - 1] == '0');
    }
}

/// The characters of the digits of `n`, wherever they stand, are worth `n`.
proof fn lemma_hex_value_of_digits(s: Seq<char>, at: int, n: nat)
    requires
        0 <= at,
        at + hex_bytes(n).len() <= s.len(),
        forall|i: int| 0 <= i < hex_bytes(n).len() ==> s[at + i] == (#[trigger] hex_bytes(n)[i]) as char,
    ensures
        hex_value(s, at, hex_bytes(n).len()) == n,
    decreases n,
{
    let len = hex_bytes(n).len();
    lemma_hex_char_of_digit(n % 16);
    if n < 16 {
        assert(hex_bytes(n) == seq![hex_digit(n)]);
        assert(hex_bytes(n)[0] == hex_digit(n));
        assert(s[at] == hex_digit(n) as char);
        assert(hex_value(s, at, 1) == hex_value(s, at, 0) * 16 + hex_char_value(s[at]));
    } else {
        lemma_hex_bytes_first(n / 16);
        assert(hex_bytes(n) == hex_bytes(n / 16).push(hex_digit(n % 16)));
        assert forall|i: int| 0 <= i < hex_bytes(n / 16).len() implies s[at + i] == (
        #[trigger] hex_bytes(n / 16)[i]) as char by {
            assert(hex_bytes(n)[i] == hex_bytes(n / 16)[i]);
        }
        lemma_hex_value_of_digits(s, at, n / 16);
        assert(hex_bytes(n)[len - 1] == hex_digit(n % 16));
        assert(s[at + len - 1] == hex_digit(n % 16) as char);
        assert((n / 16) * 16 + n % 16 == n);
    }
}

/// The `{:08x}` text of a 32-bit value, read back by the entry parser's
/// digits, is worth the value.
proof fn lemma_hex_value_of_hex08(s: Seq<char>, v: u32)
    requires
        s.len() >= 8,
        forall|i: int| 0 <= i < 8 ==> s[i] == hex08(v as nat)[i] as char,
    ensures
        hex_value(s, 0, 8) == v,
{
    let d = hex_bytes(v as nat);
    crate::text::lemma_hex_len_at_most_8(v);
    let z = (8 - d.len()) as nat;
    assert(hex08(v as nat).len() == 8);
    assert forall|i: int| 0 <= i < z implies s[i] == '0' by {
        assert(hex08(v as nat)[i] == 48u8);
    }
    assert forall|i: int| 0 <= i < d.len() implies s[z + i] == (#[trigger] d[i]) as char by {
        assert(hex08(v as nat)[z + i] == d[i]);
    }
    lemma_hex_value_of_digits(s, z as int, v as nat);
    lemma_hex_value_skip_zeros(s, z, d.len());
}

/// Every digit the formatter writes is an ASCII hexadecimal digit.
proof fn lemma_hex_bytes_digits(n: nat)
    ensures
        forall|i: int| 0 <= i < hex_bytes(n).len() ==> is_hex_digit(#[trigger] hex_bytes(n)[i]),
    decreases n,
{
    lemma_hex_char_of_digit(n % 16);
    lemma_hex_digit_reads_back(n % 16);
    if n >= 16 {
        lemma_hex_bytes_digits(n / 16);
        assert forall|i: int| 0 <= i < hex_bytes(n).len() implies is_hex_digit(
            #[trigger] hex_bytes(n)[i],
        ) by {
            if i < hex_bytes(n / 16).len() {
                assert(hex_bytes(n)[i] == hex_bytes(n / 16)[i]);
            }
        }
    } else {
        lemma_hex_digit_reads_back(n);
        assert(hex_bytes(n) == seq![hex_digit(n)]);
    }
}

/// The `{:08x}` text of a 32-bit value: eight ASCII hexadecimal digits.
proof fn lemma_hex08_digits(v: u32)
    ensures
        hex08(v as nat).len() == 8,
        forall|i: int| 0 <= i < 8 ==> is_hex_digit(#[trigger] hex08(v as nat)[i]),
{
    crate::text::lemma_hex_len_at_most_8(v);
    lemma_hex_bytes_digits(v as nat);
    let d = hex_bytes(v as nat);
    let z = (8 - d.len()) as int;
    assert forall|i: int| 0 <= i < 8 implies is_hex_digit(#[trigger] hex08(v as nat)[i]) by {
        if i >= z {
            assert(hex08(v as nat)[i] == d[i - z]);
        }
    }
}

/// The entry table that the search for an old-style database reports, from
/// a CRC32, starts with a pointer to a place where that CRC32 stands in
/// `{:08x}` format, and the entry string read there starts with it. When
/// that pointer names the place (its address does not pass 32 bits) and the
/// string is valid UTF-8, dumping one entry at the reported offset gives,
/// whenever it succeeds, an entry with the CRC32 that was searched for.
#[verifier::spinoff_prover]
#[verifier::rlimit(60)]
pub proof fn theorem_old_crc_offset_dumps_crc(
    h: Seq<u8>,
    crc: Seq<u8>,
    name: Option<Seq<char>>,
    o: usize,
)
    requires
        h.len() <= usize::MAX,
        crc.len() == 4,
        old_search(h, Some(crc), name).0.crc_off == Some(o),
        o <= u32::MAX,
    ensures
        word_table(h, o as u32, 1) matches Ok(t) && t.len() == 1 && exists|idx: usize|
            #[trigger] matches_at(h, hex08(le_word(crc, 0) as nat), idx as int) && t[0]
                == address_of(idx, IMAGE_BASE) && (c_string(h, idx as int) matches Ok(b) ==> (
            b.len() >= 8 && b.subrange(0, 8) == hex08(le_word(crc, 0) as nat) && ((idx + IMAGE_BASE
                < 0x1_0000_0000 && valid_utf8(b)) ==> (old_dump(h, o as u32, 1) matches Ok(es) ==> (
            es.len() == 1 && es[0].0 == le_word(crc, 0)))))),
{
    let v = le_word(crc, 0);
    let needle = hex08(v as nat);
    lemma_hex08_digits(v);
    let ts = occurrences(h, needle);
    let hits = pointer_hits(h, ts, IMAGE_BASE);
    assert(o == hits[0]);
    lemma_pointer_hits_point(h, ts, IMAGE_BASE);
    assert(points_to_one_of(h, hits[0], ts, IMAGE_BASE));
    let j = choose|j: int| 0 <= j < ts.len() && #[trigger] points_to(h, hits[0], ts[j], IMAGE_BASE);
    let idx = ts[j];
    let a = address_of(idx, IMAGE_BASE);
    lemma_occurrences_from_match(h, needle, 0);
    assert(matches_at(h, needle, idx as int));
    assert(matches_at(h, word_le(a), o as int));
    lemma_match_word(h, word_le(a), o as int, 0);
    lemma_le_roundtrip(a);
    assert(Seq::new(1, |i: int| le_word(h, o + 4 * i)) =~= seq![a]);
    assert forall|i: int| 0 <= i < needle.len() implies needle[i] != 0 by {
        assert(is_hex_digit(needle[i]));
    }
    lemma_c_string_starts_with(h, needle, idx as int);
    if let Ok(b) = c_string(h, idx as int) {
        if idx + IMAGE_BASE < 0x1_0000_0000 && valid_utf8(b) {
            assert(a == idx + IMAGE_BASE);
            let addrs = seq![a];
            assert(addrs.drop_last() =~= Seq::<u32>::empty());
            assert(addrs.last() == a);
            assert(strings_at(h, Seq::<u32>::empty(), IMAGE_BASE) == Ok::<Seq<Seq<char>>, DumpError>(
                Seq::empty(),
            ));
            assert(string_at(h, a, IMAGE_BASE) == Ok::<Seq<char>, DumpError>(decode_utf8(b)));
            assert(strings_at(h, addrs, IMAGE_BASE) == Ok::<Seq<Seq<char>>, DumpError>(
                Seq::<Seq<char>>::empty().push(decode_utf8(b)),
            ));
            let s = decode_utf8(b);
            assert forall|i: int| 0 <= i < 8 implies b[i] < 0x80 by {
                assert(b[i] == b.subrange(0, 8)[i]);
                assert(is_hex_digit(needle[i]));
            }
            lemma_decode_ascii_prefix(b, 8);
            assert forall|i: int| 0 <= i < 8 implies s[i] == hex08(v as nat)[i] as char by {
                assert(b[i] == b.subrange(0, 8)[i]);
            }
            lemma_hex_value_of_hex08(s, v);
            let strs = Seq::<Seq<char>>::empty().push(s);
            assert(strs.drop_last() =~= Seq::<Seq<char>>::empty());
            assert(strs.last() == s);
            assert(parse_entries(Seq::<Seq<char>>::empty()) == Some(
                Seq::<(u32, Option<Seq<u8>>, Seq<char>)>::empty(),
            ));
            if let Some(e) = spec_parse_entry(s) {
                assert(e.0 == hex_value(s, 0, 8) as u32);
                assert(parse_entries(strs) == Some(Seq::<(u32, Option<Seq<u8>>, Seq<char>)>::empty().push(e)));
            }
        }
    }
}

/// The entry table that the search for an old-style database reports, from
/// a name, starts with a pointer to the place nine bytes before a place where
/// the name stands: its address is that of the name less nine, and it names
/// that place whenever the name stands at least nine bytes in and the
/// address does not pass 32 bits.
pub proof fn theorem_old_name_offset_points_before_name(h: Seq<u8>, name: Seq<char>, o: usize)
    requires
        h.len() <= usize::MAX,
        old_search(h, None, Some(name)).0.crc_off == Some(o),
        o <= u32::MAX,
    ensures
        word_table(h, o as u32, 1) matches Ok(t) && t.len() == 1 && exists|idx: usize|
            #[trigger] matches_at(h, encode_utf8(name), idx as int) && t[0] == address_of(
                idx,
                NAME_DELTA,
            ) && ((9 <= idx && idx + NAME_DELTA < 0x1_0000_0000) ==> t[0] - IMAGE_BASE == idx - 9),
{
    let needle = encode_utf8(name);
    let ts = occurrences(h, needle);
    let hits = pointer_hits(h, ts, NAME_DELTA);
    assert(o == hits[0]);
    lemma_pointer_hits_point(h, ts, NAME_DELTA);
    assert(points_to_one_of(h, hits[0], ts, NAME_DELTA));
    let j = choose|j: int| 0 <= j < ts.len() && #[trigger] points_to(h, hits[0], ts[j], NAME_DELTA);
    let idx = ts[j];
    let a = address_of(idx, NAME_DELTA);
    lemma_occurrences_from_match(h, needle, 0);
    assert(matches_at(h, needle, idx as int));
    assert(matches_at(h, word_le(a), o as int));
    lemma_match_word(h, word_le(a), o as int, 0);
    lemma_le_roundtrip(a);
    assert(Seq::new(1, |i: int| le_word(h, o + 4 * i)) =~= seq![a]);
}

/// `b` is a lowercase hexadecimal digit.
pub open spec fn is_lower_hex_digit(b: u8) -> bool {
    (48 <= b <= 57) || (97 <= b <= 102)
}

/// `d` written with `0`s in front, to `n` digits.
pub open spec fn zero_padded(d: Seq<u8>, n: nat) -> Seq<u8> {
    Seq::new((n - d.len()) as nat, |i: int| 48u8) + d
}

proof fn lemma_pow16_at_most_8(k: nat)
    requires
        k <= 8,
    ensures
        pow16(k) <= pow16(8),
    decreases 8 - k,
{
    if k < 8 {
        lemma_pow16_at_most_8(k + 1);
        assert(pow16(k + 1) == 16 * pow16(k));
    }
}

/// Lowercase digits read as a value and written back, padded to their
/// number, are the digits themselves.
proof fn lemma_lower_digits_read_and_written(t: Seq<u8>)
    requires
        1 <= t.len() <= 8,
        forall|i: int| 0 <= i < t.len() ==> is_lower_hex_digit(#[trigger] t[i]),
    ensures
        scan_hex(t, 0) matches Ok(v) && v < pow16(t.len()) && hex_bytes(v).len() <= t.len()
            && zero_padded(hex_bytes(v), t.len()) == t,
    decreases t.len(),
{
    let c = t.last();
    let d = hex_digit_value(c);
    assert(is_lower_hex_digit(c));
    assert(hex_digit(d) == c);
    assert(pow16(1) == 16) by {
        reveal_with_fuel(pow16, 2);
    }
    if t.len() == 1 {
        assert(t =~= seq![c]);
        assert(seq![c].drop_first() =~= Seq::<u8>::empty());
        assert(scan_hex(seq![c].drop_first(), d) == Ok::<nat, HexError>(d));
        assert(hex_bytes(d) == seq![hex_digit(d)]);
        assert(zero_padded(hex_bytes(d), 1) =~= t);
    } else {
        let t2 = t.drop_last();
        assert forall|i: int| 0 <= i < t2.len() implies is_lower_hex_digit(#[trigger] t2[i]) by {
            assert(t2[i] == t[i]);
        }
        lemma_lower_digits_read_and_written(t2);
        let v2 = scan_hex(t2, 0)->Ok_0;
        lemma_pow16_at_most_8(t.len());
        assert(d < 16);
        assert(pow16(8) == 0x1_0000_0000) by {
            reveal_with_fuel(pow16, 9);
        }
        assert(pow16(t.len()) == 16 * pow16(t2.len()));
        assert(t =~= t2 + seq![c]);
        lemma_scan_hex_concat(t2, seq![c], 0);
        let v = v2 * 16 + d;
        assert(v2 * 16 + d <= u32::MAX);
        assert(seq![c].drop_first() =~= Seq::<u8>::empty());
        assert(scan_hex(seq![c].drop_first(), v) == Ok::<nat, HexError>(v));
        assert(scan_hex(seq![c], v2) == Ok::<nat, HexError>(v));
        assert(v / 16 == v2 && v % 16 == d);
        if v2 == 0 {
            assert(hex_bytes(0) == seq![hex_digit(0)]);
            assert forall|i: int| 0 <= i < t2.len() implies t2[i] == 48u8 by {
                assert(zero_padded(hex_bytes(0), t2.len())[i] == t2[i]);
            }
            assert(hex_bytes(v) == seq![hex_digit(d)]);
            assert(zero_padded(hex_bytes(v), t.len()) =~= t);
        } else {
            assert(hex_bytes(v) == hex_bytes(v2).push(hex_digit(d)));
            assert(zero_padded(hex_bytes(v), t.len()) =~= zero_padded(hex_bytes(v2), t2.len()) + seq![c]);
        }
    }
}

/// Eight lowercase hexadecimal digits, read as a CRC32 and printed in the
/// `{:08x}` format the old-style search looks for, come back unchanged.
pub proof fn theorem_crc_digits_print_back(s: Seq<u8>)
    requires
        s.len() == 8,
        forall|i: int| 0 <= i < 8 ==> is_lower_hex_digit(#[trigger] s[i]),
    ensures
        spec_hex_crc(s) matches Ok(c) && hex08(le_word(c, 0) as nat) == s,
{
    lemma_lower_digits_read_and_written(s);
    assert(pow16(8) == 0x1_0000_0000) by {
        reveal_with_fuel(pow16, 9);
    }
    let v = scan_hex(s, 0)->Ok_0;
    assert(is_lower_hex_digit(s[0]));
    assert(spec_hex_u32(s) == Ok::<u32, HexError>(v as u32));
    lemma_le_roundtrip(v as u32);
    let d = hex_bytes(v);
    if d.len() < 8 {
        assert(hex08(v) == zero_padded(d, 8));
    } else {
        assert(zero_padded(d, 8) =~= d);
    }
}

/// ASCII letters made lowercase.
pub open spec fn ascii_lower(b: Seq<u8>) -> Seq<u8> {
    b.map_values(|x: u8| if 65 <= x <= 90 { (x + 32) as u8 } else { x })
}

/// Two digit pairs one after the other.
proof fn lemma_hex_pairs_concat(a: Seq<u8>, b: Seq<u8>)
    ensures
        hex_pairs(a + b) == hex_pairs(a) + hex_pairs(b),
    decreases b.len(),
{
    if b.len() == 0 {
        assert(a + b =~= a);
        assert(hex_pairs(a) + hex_pairs(b) =~= hex_pairs(a));
    } else {
        lemma_hex_pairs_concat(a, b.drop_last());
        assert((a + b).drop_last() =~= a + b.drop_last());
        assert((a + b).last() == b.last());
    }
}

/// A hexadecimal digit written back by the formatter is its lowercase form.
proof fn lemma_digit_written_back(c: u8)
    requires
        is_hex_digit(c),
    ensures
        hex_digit_value(c) < 16,
        hex_digit(hex_digit_value(c)) == ascii_lower(seq![c])[0],
{
}

/// The value of eight digits, read from the left.
pub open spec fn value8(g: Seq<u8>) -> nat {
    ((((((hex_digit_value(g[0]) * 16 + hex_digit_value(g[1])) * 16 + hex_digit_value(g[2])) * 16
        + hex_digit_value(g[3])) * 16 + hex_digit_value(g[4])) * 16 + hex_digit_value(g[5])) * 16
        + hex_digit_value(g[6])) * 16 + hex_digit_value(g[7])
}

/// Reading hexadecimal digits one step: a digit that keeps the value
/// within 32 bits is taken in.
proof fn lemma_scan_step(t: Seq<u8>, acc: nat)
    requires
        t.len() > 0,
        is_hex_digit(t[0]),
        acc * 16 + hex_digit_value(t[0]) <= u32::MAX,
    ensures
        scan_hex(t, acc) == scan_hex(t.drop_first(), acc * 16 + hex_digit_value(t[0])),
{
}

/// Eight hexadecimal digits read as their value.
#[verifier::rlimit(100)]
proof fn lemma_scan8(g: Seq<u8>)
    requires
        g.len() == 8,
        forall|i: int| 0 <= i < 8 ==> is_hex_digit(#[trigger] g[i]),
    ensures
        spec_hex_u32(g) == Ok::<u32, HexError>(value8(g) as u32),
        value8(g) <= u32::MAX,
{
    assert(is_hex_digit(g[0]) && is_hex_digit(g[1]) && is_hex_digit(g[2]) && is_hex_digit(g[3]));
    assert(is_hex_digit(g[4]) && is_hex_digit(g[5]) && is_hex_digit(g[6]) && is_hex_digit(g[7]));
    lemma_digit_written_back(g[0]);
    lemma_digit_written_back(g[1]);
    lemma_digit_written_back(g[2]);
    lemma_digit_written_back(g[3]);
    lemma_digit_written_back(g[4]);
    lemma_digit_written_back(g[5]);
    lemma_digit_written_back(g[6]);
    lemma_digit_written_back(g[7]);
    let a1 = hex_digit_value(g[0]);
    let a2 = a1 * 16 + hex_digit_value(g[1]);
    let a3 = a2 * 16 + hex_digit_value(g[2]);
    let a4 = a3 * 16 + hex_digit_value(g[3]);
    let a5 = a4 * 16 + hex_digit_value(g[4]);
    let a6 = a5 * 16 + hex_digit_value(g[5]);
    let a7 = a6 * 16 + hex_digit_value(g[6]);
    let a8 = a7 * 16 + hex_digit_value(g[7]);
    assert(a1 < 0x10);
    assert(a2 < 0x100);
    assert(a3 < 0x1000);
    assert(a4 < 0x10000);
    assert(a5 < 0x100000);
    assert(a6 < 0x1000000);
    assert(a7 < 0x10000000);
    assert(a8 <= u32::MAX);
    assert(a8 == value8(g));
    let g1 = g.subrange(1, 8);
    let g2 = g.subrange(2, 8);
    let g3 = g.subrange(3, 8);
    let g4 = g.subrange(4, 8);
    let g5 = g.subrange(5, 8);
    let g6 = g.subrange(6, 8);
    let g7 = g.subrange(7, 8);
    let g8 = g.subrange(8, 8);
    assert(g.drop_first() =~= g1);
    assert(g1.drop_first() =~= g2);
    assert(g2.drop_first() =~= g3);
    assert(g3.drop_first() =~= g4);
    assert(g4.drop_first() =~= g5);
    assert(g5.drop_first() =~= g6);
    assert(g6.drop_first() =~= g7);
    assert(g7.drop_first() =~= g8);
    lemma_scan_step(g, 0);
    lemma_scan_step(g1, a1);
    lemma_scan_step(g2, a2);
    lemma_scan_step(g3, a3);
    lemma_scan_step(g4, a4);
    lemma_scan_step(g5, a5);
    lemma_scan_step(g6, a6);
    lemma_scan_step(g7, a7);
    assert(scan_hex(g8, a8) == Ok::<nat, HexError>(a8));
}

/// The big-endian bytes of a value given by eight digits pair the digits.
proof fn lemma_be_pairs_digits(x0: u32, x1: u32, x2: u32, x3: u32, x4: u32, x5: u32, x6: u32, x7: u32, v: u32)
    requires
        x0 < 16 && x1 < 16 && x2 < 16 && x3 < 16 && x4 < 16 && x5 < 16 && x6 < 16 && x7 < 16,
        v == x0 * 0x10000000 + x1 * 0x1000000 + x2 * 0x100000 + x3 * 0x10000 + x4 * 0x1000 + x5
            * 0x100 + x6 * 0x10 + x7,
    ensures
        word_be(v) == seq![(x0 * 16 + x1) as u8, (x2 * 16 + x3) as u8, (x4 * 16 + x5) as u8, (x6 * 16 + x7) as u8],
{
    assert((v >> 24u32) as u8 == x0 * 16 + x1 && ((v >> 16u32) & 0xff) as u8 == x2 * 16 + x3 && ((v
        >> 8u32) & 0xff) as u8 == x4 * 16 + x5 && (v & 0xff) as u8 == x6 * 16 + x7) by (bit_vector)
        requires
            x0 < 16 && x1 < 16 && x2 < 16 && x3 < 16 && x4 < 16 && x5 < 16 && x6 < 16 && x7 < 16,
            v == x0 * 0x10000000 + x1 * 0x1000000 + x2 * 0x100000 + x3 * 0x10000 + x4 * 0x1000 + x5
                * 0x100 + x6 * 0x10 + x7,
    ;
    assert(word_be(v) =~= seq![(x0 * 16 + x1) as u8, (x2 * 16 + x3) as u8, (x4 * 16 + x5) as u8, (x6 * 16 + x7) as u8]);
}

/// The digit pairs of four bytes.
proof fn lemma_hex_pairs4(w: Seq<u8>)
    requires
        w.len() == 4,
    ensures
        hex_pairs(w) == seq![
            hex_digit((w[0] / 16) as nat), hex_digit((w[0] % 16) as nat),
            hex_digit((w[1] / 16) as nat), hex_digit((w[1] % 16) as nat),
            hex_digit((w[2] / 16) as nat), hex_digit((w[2] % 16) as nat),
            hex_digit((w[3] / 16) as nat), hex_digit((w[3] % 16) as nat),
        ],
{
    let w1 = w.drop_last();
    let w2 = w1.drop_last();
    let w3 = w2.drop_last();
    assert(w3.drop_last() =~= Seq::<u8>::empty());
    assert(hex_pairs(w3.drop_last()) =~= Seq::<u8>::empty());
    assert(w3.last() == w[0] && w2.last() == w[1] && w1.last() == w[2]);
    assert(hex_pairs(w3) =~= seq![hex_digit((w[0] / 16) as nat), hex_digit((w[0] % 16) as nat)]);
    assert(hex_pairs(w2) =~= hex_pairs(w3) + seq![hex_digit((w[1] / 16) as nat), hex_digit((w[1] % 16) as nat)]);
    assert(hex_pairs(w1) =~= hex_pairs(w2) + seq![hex_digit((w[2] / 16) as nat), hex_digit((w[2] % 16) as nat)]);
    assert(hex_pairs(w) =~= hex_pairs(w1) + seq![hex_digit((w[3] / 16) as nat), hex_digit((w[3] % 16) as nat)]);
}

/// A group of eight hexadecimal digits, read as a value, then written
/// big-endian and encoded back as digit pairs, is the group in lowercase.
#[verifier::rlimit(50)]
proof fn lemma_group_encodes_back(g: Seq<u8>)
    requires
        g.len() == 8,
        forall|i: int| 0 <= i < 8 ==> is_hex_digit(#[trigger] g[i]),
    ensures
        spec_hex_u32(g) is Ok,
        hex_pairs(word_be(spec_hex_u32(g)->Ok_0)) == ascii_lower(g),
{
    lemma_scan8(g);
    assert forall|i: int| 0 <= i < 8 implies hex_digit_value(g[i]) < 16 && hex_digit(
        hex_digit_value(#[trigger] g[i]),
    ) == ascii_lower(g)[i] by {
        lemma_digit_written_back(g[i]);
        assert(ascii_lower(g)[i] == ascii_lower(seq![g[i]])[0]);
    }
    let x0 = hex_digit_value(g[0]) as u32;
    let x1 = hex_digit_value(g[1]) as u32;
    let x2 = hex_digit_value(g[2]) as u32;
    let x3 = hex_digit_value(g[3]) as u32;
    let x4 = hex_digit_value(g[4]) as u32;
    let x5 = hex_digit_value(g[5]) as u32;
    let x6 = hex_digit_value(g[6]) as u32;
    let x7 = hex_digit_value(g[7]) as u32;
    let v = value8(g) as u32;
    assert(v == x0 * 0x10000000 + x1 * 0x1000000 + x2 * 0x100000 + x3 * 0x10000 + x4 * 0x1000 + x5
        * 0x100 + x6 * 0x10 + x7);
    lemma_be_pairs_digits(x0, x1, x2, x3, x4, x5, x6, x7, v);
    let w = word_be(v);
    lemma_hex_pairs4(w);
    assert(hex_pairs(w) =~= ascii_lower(g));
}

/// The `k`-th group of a text of hexadecimal digits encodes back as itself,
/// in lowercase.
proof fn lemma_sha_group_encodes_back(text: Seq<u8>, k: int)
    requires
        text.len() == 40,
        0 <= k < 5,
        forall|i: int| 0 <= i < text.len() ==> is_hex_digit(#[trigger] text[i]),
    ensures
        spec_hex_u32(sha_group(text, k)) is Ok,
        hex_pairs(word_be(spec_hex_u32(sha_group(text, k))->Ok_0)) == ascii_lower(
            sha_group(text, k),
        ),
{
    let g = sha_group(text, k);
    assert forall|i: int| 0 <= i < 8 implies is_hex_digit(#[trigger] g[i]) by {
        assert(g[i] == text[8 * k + i]);
    }
    lemma_group_encodes_back(g);
}

/// The SHA1 that the search looks for, dumped from where it stands and
/// encoded back as hexadecimal, is the text it was read from, in lowercase:
/// the digest that the new-style dump gives is the one that was asked for.
pub proof fn theorem_sha_dumps_back_as_text(h: Seq<u8>, text: Seq<u8>, sha1: Seq<u8>, o: usize)
    requires
        spec_hex_sha(text) == Ok::<Seq<u8>, HexError>(sha1),
        forall|i: int| 0 <= i < text.len() ==> is_hex_digit(#[trigger] text[i]),
        matches_at(h, sha1, o as int),
        o <= u32::MAX,
    ensures
        sha_table(h, o as u32, 1) matches Ok(t) && t.len() == 1 && hex_pairs(t[0])
            == ascii_lower(text),
{
    lemma_sha_at_digest(h, text, sha1, o as int);
    assert(Seq::new(1, |i: int| sha_at(h, o + 20 * i)) =~= seq![sha_digest_of(text)]);
    assert(text.len() == 40);
    lemma_sha_group_encodes_back(text, 0);
    lemma_sha_group_encodes_back(text, 1);
    lemma_sha_group_encodes_back(text, 2);
    lemma_sha_group_encodes_back(text, 3);
    lemma_sha_group_encodes_back(text, 4);
    let b = |j: int| word_be(spec_hex_u32(sha_group(text, j))->Ok_0);
    lemma_hex_pairs_concat(b(0), b(1));
    lemma_hex_pairs_concat(b(0) + b(1), b(2));
    lemma_hex_pairs_concat(b(0) + b(1) + b(2), b(3));
    lemma_hex_pairs_concat(b(0) + b(1) + b(2) + b(3), b(4));
    assert(sha_group(text, 0) + sha_group(text, 1) + sha_group(text, 2) + sha_group(text, 3)
        + sha_group(text, 4) =~= text);
    assert(ascii_lower(text) =~= ascii_lower(sha_group(text, 0)) + ascii_lower(sha_group(text, 1))
        + ascii_lower(sha_group(text, 2)) + ascii_lower(sha_group(text, 3)) + ascii_lower(
        sha_group(text, 4),
    ));
}

/// The words in `{:08x}` format, separated by single spaces.
pub open spec fn hex_words_text(ws: Seq<u32>) -> Seq<char>
    decreases ws.len(),
{
    if ws.len() == 0 {
        Seq::empty()
    } else if ws.len() == 1 {
        as_chars(hex08(ws[0] as nat))
    } else {
        as_chars(hex08(ws[0] as nat)) + seq![' '] + hex_words_text(ws.drop_first())
    }
}

/// An old-style entry string in the format: the CRC32 in `{:08x}` format, a
/// space, the name, `|`, and the SHA1 words in `{:08x}` format separated by
/// spaces.
pub open spec fn entry_text(crc: u32, name: Seq<char>, ws: Seq<u32>) -> Seq<char> {
    as_chars(hex08(crc as nat)) + seq![' '] + name + seq!['|'] + hex_words_text(ws)
}

/// The `{:08x}` text of a word: eight hexadecimal digit characters.
proof fn lemma_hex08_chars(v: u32)
    ensures
        as_chars(hex08(v as nat)).len() == 8,
        forall|i: int|
            0 <= i < 8 ==> is_hex_char(#[trigger] as_chars(hex08(v as nat))[i]) && !is_blank(
                as_chars(hex08(v as nat))[i],
            ) && as_chars(hex08(v as nat))[i] != '|',
{
    lemma_hex08_digits(v);
    assert forall|i: int| 0 <= i < 8 implies is_hex_char(#[trigger] as_chars(hex08(v as nat))[i])
        && !is_blank(as_chars(hex08(v as nat))[i]) && as_chars(hex08(v as nat))[i] != '|' by {
        let b = hex08(v as nat)[i];
        assert(is_hex_digit(b));
        assert(as_chars(hex08(v as nat))[i] == b as char);
    }
}

/// The value of digits read at `at` is their value read from a copy that
/// starts there.
proof fn lemma_hex_value_shift(s: Seq<char>, at: int, n: nat)
    requires
        0 <= at,
        at + n <= s.len(),
    ensures
        hex_value(s, at, n) == hex_value(s.subrange(at, s.len() as int), 0, n),
    decreases n,
{
    if n > 0 {
        lemma_hex_value_shift(s, at, (n - 1) as nat);
        assert(s.subrange(at, s.len() as int)[n - 1] == s[at + n - 1]);
    }
}

/// The words' text is nine characters a word, less the last space.
proof fn lemma_hex_words_text_len(ws: Seq<u32>)
    requires
        ws.len() >= 1,
    ensures
        hex_words_text(ws).len() == 9 * ws.len() - 1,
    decreases ws.len(),
{
    lemma_hex08_chars(ws[0]);
    if ws.len() > 1 {
        lemma_hex_words_text_len(ws.drop_first());
    }
}

/// The groups of the words' text, standing at `q`, read back as the words.
proof fn lemma_hex_groups_read(t: Seq<char>, q: int, ws: Seq<u32>)
    requires
        ws.len() >= 1,
        0 <= q,
        q + 9 * ws.len() - 1 <= t.len(),
        forall|j: int| 0 <= j < 9 * ws.len() - 1 ==> t[q + j] == #[trigger] hex_words_text(ws)[j],
    ensures
        hex_groups(t, q, ws.len()) == Some((ws, q + 9 * ws.len() - 1)),
    decreases ws.len(),
{
    let a = as_chars(hex08(ws[0] as nat));
    lemma_hex08_chars(ws[0]);
    lemma_hex_words_text_len(ws);
    assert forall|j: int| 0 <= j < 8 implies t[q + j] == a[j] by {
        assert(hex_words_text(ws)[j] == a[j]);
    }
    assert(hex8_at(t, q)) by {
        assert forall|j: int| q <= j < q + 8 implies is_hex_char(#[trigger] t[j]) by {
            assert(t[j] == a[j - q]);
        }
    }
    let sub = t.subrange(q, t.len() as int);
    assert forall|i: int| 0 <= i < 8 implies sub[i] == hex08(ws[0] as nat)[i] as char by {
        assert(sub[i] == t[q + i]);
        assert(t[q + i] == a[i]);
        assert(a[i] == hex08(ws[0] as nat)[i] as char);
    }
    lemma_hex_value_of_hex08(sub, ws[0]);
    lemma_hex_value_shift(t, q, 8);
    if ws.len() == 1 {
        assert(seq![ws[0]] =~= ws);
    } else {
        let rest = ws.drop_first();
        let rt = hex_words_text(rest);
        lemma_hex_words_text_len(rest);
        lemma_hex08_chars(rest[0]);
        assert(hex_words_text(ws) == a + seq![' '] + rt);
        assert(t[q + 8] == hex_words_text(ws)[8]);
        assert(t[q + 8] == ' ');
        assert(t[q + 9] == hex_words_text(ws)[9]);
        assert(hex_words_text(ws)[9] == rt[0]);
        assert(rt[0] == as_chars(hex08(rest[0] as nat))[0]);
        assert(!is_blank(t[q + 9]));
        assert(skip_blanks(t, q + 9) == q + 9);
        assert(skip_blanks(t, q + 8) == q + 9);
        assert forall|j: int| 0 <= j < 9 * rest.len() - 1 implies t[q + 9 + j] == #[trigger] rt[j] by {
            assert(t[q + 9 + j] == hex_words_text(ws)[9 + j]);
        }
        lemma_hex_groups_read(t, q + 9, rest);
        assert(seq![hex_value(t, q, 8) as u32] + rest =~= ws);
    }
}

/// Past a stretch with no `|`, the search for `|` lands on the first one
/// after it.
proof fn lemma_find_bar_over(t: Seq<char>, i: int, p: int)
    requires
        0 <= i <= p < t.len(),
        t[p] == '|',
        forall|j: int| i <= j < p ==> t[j] != '|',
    ensures
        find_bar(t, i) == p,
    decreases p - i,
{
    if i < p {
        lemma_find_bar_over(t, i + 1, p);
    }
}

/// An entry string written in the format, with a name that holds no `|` and
/// does not start with a blank, is read back as the entry: its CRC32, its
/// SHA1 (the words written out big-endian) and its name.
pub proof fn theorem_entry_text_reads_back(crc: u32, name: Seq<char>, ws: Seq<u32>)
    requires
        ws.len() == 5,
        forall|i: int| 0 <= i < name.len() ==> name[i] != '|',
        name.len() > 0 ==> !is_blank(name[0]),
    ensures
        spec_parse_entry(entry_text(crc, name, ws)) == Some((crc, Some(be_concat(ws)), name)),
{
    let t = entry_text(crc, name, ws);
    let a = as_chars(hex08(crc as nat));
    let w = hex_words_text(ws);
    lemma_hex08_chars(crc);
    lemma_hex_words_text_len(ws);
    let p: int = 9 + name.len() as int;
    assert(t.len() == p + 1 + 44);
    assert forall|j: int| 0 <= j < 8 implies t[j] == a[j] by {}
    assert(hex8_at(t, 0)) by {
        assert forall|j: int| 0 <= j < 8 implies is_hex_char(#[trigger] t[j]) by {
            assert(t[j] == a[j]);
        }
    }
    assert forall|i: int| 0 <= i < 8 implies t[i] == hex08(crc as nat)[i] as char by {
        assert(t[i] == a[i]);
    }
    lemma_hex_value_of_hex08(t, crc);
    assert(t[8] == ' ');
    assert forall|j: int| 0 <= j < name.len() implies t[9 + j] == name[j] by {}
    assert(t[p] == '|');
    assert(!is_blank(t[9])) by {
        if name.len() > 0 {
            assert(t[9] == name[0]);
        }
    }
    assert(skip_blanks(t, 9) == 9);
    assert(skip_blanks(t, 8) == 9);
    lemma_find_bar_over(t, 9, p);
    assert(t.subrange(9, p) =~= name);
    assert forall|j: int| 0 <= j < 9 * ws.len() - 1 implies t[p + 1 + j] == #[trigger] w[j] by {}
    lemma_hex_groups_read(t, p + 1, ws);
    assert(skip_blanks(t, t.len() as int) == t.len());
}

} // verus!
