//! Locating the tables of a database in an unpacked executable image.
//!
//! The image is searched for the bytes of a known first entry (its CRC32,
//! its SHA1, its name) and for pointers to them, which the executable holds
//! as 32-bit little-endian addresses: a file offset plus the image base.

use vstd::prelude::*;
use vstd::string::StringSliceAdditionalSpecFns;
use crate::codec::{le_word, word_le, le_bytes, read_le_word};
use vstd::utf8::encode_utf8;
use crate::text::{as_chars, hex08, dec_i32, push_hex08, push_dec_i32, push_ascii};

verus! {

/// The bytes `n` stand in `h` at `i`.
pub open spec fn matches_at(h: Seq<u8>, n: Seq<u8>, i: int) -> bool {
    0 <= i && i + n.len() <= h.len() && h.subrange(i, i + n.len()) == n
}

/// The starts of the non-overlapping occurrences of `n` in `h` at or after
/// `from`, leftmost first: after a match the search goes on past its end
/// (one byte on, for an empty `n`).
pub open spec fn occurrences_from(h: Seq<u8>, n: Seq<u8>, from: int) -> Seq<usize>
    decreases h.len() + 1 - from,
{
    if from < 0 || from > h.len() {
        Seq::empty()
    } else if matches_at(h, n, from) {
        seq![from as usize] + occurrences_from(
            h,
            n,
            from + if n.len() == 0 {
                1
            } else {
                n.len() as int
            },
        )
    } else {
        occurrences_from(h, n, from + 1)
    }
}

/// All non-overlapping occurrences of `n` in `h`, leftmost first.
pub open spec fn occurrences(h: Seq<u8>, n: Seq<u8>) -> Seq<usize> {
    occurrences_from(h, n, 0)
}

/// The starts of the non-overlapping occurrences of `n` that end at or before
/// `end`, rightmost first: after a match the search goes on before its start
/// (one byte back, for an empty `n`).
pub open spec fn rev_occurrences_to(h: Seq<u8>, n: Seq<u8>, end: int) -> Seq<usize>
    decreases end + 1,
{
    if end < 0 || end > h.len() {
        Seq::empty()
    } else if end - n.len() >= 0 && matches_at(h, n, end - n.len()) {
        seq![(end - n.len()) as usize] + rev_occurrences_to(
            h,
            n,
            if n.len() == 0 {
                end - 1
            } else {
                end - n.len()
            },
        )
    } else {
        rev_occurrences_to(h, n, end - 1)
    }
}

/// All non-overlapping occurrences of `n` in `h`, rightmost first.
pub open spec fn rev_occurrences(h: Seq<u8>, n: Seq<u8>) -> Seq<usize> {
    rev_occurrences_to(h, n, h.len() as int)
}

/// `memchr::memmem::find_iter`, collected: the starts of the non-overlapping
/// occurrences of `needle` in `haystack`, leftmost first. The crate's
/// iterator searches `haystack[pos..]` for the leftmost match and then moves
/// `pos` past it by `max(needle.len(), 1)`, stopping once `pos` passes the
/// end.
#[verifier::external_body]
fn find_all(haystack: &[u8], needle: &[u8]) -> (res: Vec<usize>)
    ensures
        res@ == occurrences(haystack@, needle@),
{
    memchr::memmem::find_iter(haystack, needle).collect()
}

/// `memchr::memmem::rfind_iter`, collected: the starts of the non-overlapping
/// occurrences of `needle` in `haystack`, rightmost first. The crate's
/// iterator searches `haystack[..pos]` for the rightmost match and then
/// sets `pos` to its start (one less, for an empty needle).
#[verifier::external_body]
fn rfind_all(haystack: &[u8], needle: &[u8]) -> (res: Vec<usize>)
    ensures
        res@ == rev_occurrences(haystack@, needle@),
{
    memchr::memmem::rfind_iter(haystack, needle).collect()
}

/// Every reported start is a match.
pub proof fn lemma_occurrences_from_match(h: Seq<u8>, n: Seq<u8>, from: int)
    requires
        h.len() <= usize::MAX,
    ensures
        forall|k: int|
            0 <= k < occurrences_from(h, n, from).len() ==> matches_at(
                h,
                n,
                #[trigger] occurrences_from(h, n, from)[k] as int,
            ),
    decreases h.len() + 1 - from,
{
    if from < 0 || from > h.len() {
    } else {
        let step = if n.len() == 0 {
            1
        } else {
            n.len() as int
        };
        if matches_at(h, n, from) {
            lemma_occurrences_from_match(h, n, from + step);
            let rest = occurrences_from(h, n, from + step);
            assert forall|k: int| 0 <= k < occurrences_from(h, n, from).len() implies matches_at(
                h,
                n,
                #[trigger] occurrences_from(h, n, from)[k] as int,
            ) by {
                if k > 0 {
                    assert(occurrences_from(h, n, from)[k] == rest[k - 1]);
                }
            }
        } else {
            lemma_occurrences_from_match(h, n, from + 1);
            assert(occurrences_from(h, n, from) == occurrences_from(h, n, from + 1));
        }
    }
}

/// Every start reported before `end` is a match that ends at or before `end`.
pub proof fn lemma_rev_occurrences_match(h: Seq<u8>, n: Seq<u8>, end: int)
    requires
        h.len() <= usize::MAX,
    ensures
        forall|k: int|
            0 <= k < rev_occurrences_to(h, n, end).len() ==> {
                let i = #[trigger] rev_occurrences_to(h, n, end)[k] as int;
                matches_at(h, n, i) && i + n.len() <= end
            },
    decreases end + 1,
{
    if end < 0 || end > h.len() {
    } else if end - n.len() >= 0 && matches_at(h, n, end - n.len()) {
        let next = if n.len() == 0 {
            end - 1
        } else {
            end - n.len()
        };
        lemma_rev_occurrences_match(h, n, next);
        let rest = rev_occurrences_to(h, n, next);
        assert forall|k: int| 0 <= k < rev_occurrences_to(h, n, end).len() implies {
            let i = #[trigger] rev_occurrences_to(h, n, end)[k] as int;
            matches_at(h, n, i) && i + n.len() <= end
        } by {
            if k > 0 {
                assert(rev_occurrences_to(h, n, end)[k] == rest[k - 1]);
            }
        }
    } else {
        lemma_rev_occurrences_match(h, n, end - 1);
        assert(rev_occurrences_to(h, n, end) == rev_occurrences_to(h, n, end - 1));
    }
}

/// The image base of the executables: a file offset `o` is stored as the
/// address `o + IMAGE_BASE`.
pub const IMAGE_BASE: u32 = 0x400c00;

/// The text that the executable prints with the number of known entries; the
/// number is the operand of a push instruction that comes before a pointer
/// to this text.
pub const STAT_STR: &'static str = "\nStats: %d entries";

/// The opcode of `push imm32`.
pub const PUSH_OPCODE: u8 = 0x68;

/// The 32-bit address `(off + delta) mod 2^32`.
pub open spec fn address_of(off: usize, delta: u32) -> u32 {
    ((off as int % 0x1_0000_0000 + delta as int) % 0x1_0000_0000) as u32
}

/// Computes `address_of(off, delta)`.
pub fn address_for(off: usize, delta: u32) -> (a: u32)
    ensures
        a == address_of(off, delta),
{
    let low: u64 = (off as u64) % 0x1_0000_0000;
    ((low + delta as u64) % 0x1_0000_0000) as u32
}

/// The places of `h` that hold a pointer to one of the `targets`, where a
/// target `t` is pointed to by the address `address_of(t, delta)`: for each
/// target in turn, the occurrences of its address.
pub open spec fn pointer_hits(h: Seq<u8>, targets: Seq<usize>, delta: u32) -> Seq<usize>
    decreases targets.len(),
{
    if targets.len() == 0 {
        Seq::empty()
    } else {
        pointer_hits(h, targets.drop_last(), delta) + occurrences(
            h,
            word_le(address_of(targets.last(), delta)),
        )
    }
}

/// The first element, if any.
pub open spec fn first_of<T>(s: Seq<T>) -> Option<T> {
    if s.len() == 0 {
        None
    } else {
        Some(s[0])
    }
}

/// One line of the report: the label, then the offset in `{:08x}` format.
pub open spec fn hit_line(label: Seq<char>, off: usize) -> Seq<char> {
    label + as_chars(hex08(off as nat)) + seq!['\n']
}

/// The report lines for the offsets `hits`, in order.
pub open spec fn hit_lines(label: Seq<char>, hits: Seq<usize>) -> Seq<char>
    decreases hits.len(),
{
    if hits.len() == 0 {
        Seq::empty()
    } else {
        hit_lines(label, hits.drop_last()) + hit_line(label, hits.last())
    }
}

/// The number of known entries that a pointer to the statistics text at
/// `at` leads to: the first place that holds the pointer, then, looking back
/// from there, the second push instruction, whose 32-bit operand is the
/// number.
pub open spec fn count_near(h: Seq<u8>, at: usize) -> Option<i32> {
    let refs = occurrences(h, word_le(address_of(at, IMAGE_BASE)));
    if refs.len() == 0 {
        None
    } else {
        let pushes = rev_occurrences(h.subrange(0, refs[0] as int), seq![PUSH_OPCODE]);
        if pushes.len() < 2 {
            None
        } else {
            Some(le_word(h, pushes[1] + 1) as i32)
        }
    }
}

/// The numbers found for each occurrence of the statistics text, in order.
pub open spec fn known_counts(h: Seq<u8>, stats: Seq<usize>) -> Seq<i32>
    decreases stats.len(),
{
    if stats.len() == 0 {
        Seq::empty()
    } else {
        match count_near(h, stats.last()) {
            Some(v) => known_counts(h, stats.drop_last()).push(v),
            None => known_counts(h, stats.drop_last()),
        }
    }
}

/// The report lines for the numbers found.
pub open spec fn count_lines(counts: Seq<i32>) -> Seq<char>
    decreases counts.len(),
{
    if counts.len() == 0 {
        Seq::empty()
    } else {
        count_lines(counts.drop_last()) + "Known: "@ + as_chars(dec_i32(counts.last())) + seq![
            '\n',
        ]
    }
}

/// The bytes of the statistics text.
pub open spec fn stat_bytes() -> Seq<u8> {
    STAT_STR.spec_bytes()
}

/// What a search found: the offsets of the tables and the number of known
/// entries, each where one was found.
#[derive(Debug, Clone, Copy, PartialEq, Eq)]
pub struct SearchResult {
    pub crc_off: Option<usize>,
    pub sha1_off: Option<usize>,
    pub name_off: Option<usize>,
    pub known_num: Option<i32>,
}

/// The places that hold a pointer to one of the `targets`.
pub fn follow_pointers(binary: &[u8], targets: &Vec<usize>, delta: u32) -> (res: Vec<usize>)
    ensures
        res@ == pointer_hits(binary@, targets@, delta),
{
    let mut res: Vec<usize> = Vec::new();
    let mut i: usize = 0;
    while i < targets.len()
        invariant
            i <= targets@.len(),
            res@ == pointer_hits(binary@, targets@.subrange(0, i as int), delta),
        decreases targets.len() - i,
    {
        let addr = address_for(targets[i], delta);
        let ptr = le_bytes(addr);
        let hits = find_all(binary, ptr.as_slice());
        let mut j: usize = 0;
        let ghost before = res@;
        while j < hits.len()
            invariant
                j <= hits@.len(),
                res@ == before + hits@.subrange(0, j as int),
            decreases hits.len() - j,
        {
            res.push(hits[j]);
            j = j + 1;
            assert(res@ =~= before + hits@.subrange(0, j as int));
        }
        assert(hits@.subrange(0, j as int) =~= hits@);
        assert(targets@.subrange(0, i + 1).drop_last() =~= targets@.subrange(0, i as int));
        i = i + 1;
    }
    assert(targets@.subrange(0, i as int) =~= targets@);
    res
}

/// Appends a report line for each of the `hits`.
fn report_hits(out: &mut String, label: &str, hits: &Vec<usize>)
    ensures
        final(out)@ == old(out)@ + hit_lines(label@, hits@),
{
    let ghost start = out@;
    let mut i: usize = 0;
    while i < hits.len()
        invariant
            i <= hits@.len(),
            out@ == start + hit_lines(label@, hits@.subrange(0, i as int)),
        decreases hits.len() - i,
    {
        out.append(label);
        let mut digits: Vec<u8> = Vec::new();
        push_hex08(&mut digits, hits[i] as u64);
        push_ascii(out, digits.as_slice());
        crate::text::push_char(out, '\n');
        assert(hits@.subrange(0, i + 1).drop_last() =~= hits@.subrange(0, i as int));
        i = i + 1;
        assert(out@ =~= start + hit_lines(label@, hits@.subrange(0, i as int)));
    }
    assert(hits@.subrange(0, i as int) =~= hits@);
}

/// The number that a pointer to the statistics text at `at` leads to.
fn count_at(binary: &[u8], at: usize) -> (res: Option<i32>)
    ensures
        res == count_near(binary@, at),
{
    let ptr = le_bytes(address_for(at, IMAGE_BASE));
    let refs = find_all(binary, ptr.as_slice());
    if refs.len() == 0 {
        return None;
    }
    let r = refs[0];
    proof {
        assert(binary@.len() == binary.len());
        lemma_occurrences_from_match(binary@, ptr@, 0);
        assert(matches_at(binary@, ptr@, refs@[0] as int));
    }
    let before = vstd::slice::slice_subrange(binary, 0, r);
    let op: [u8; 1] = [PUSH_OPCODE];
    assert(op@ =~= seq![PUSH_OPCODE]);
    let pushes = rfind_all(before, op.as_slice());
    if pushes.len() < 2 {
        return None;
    }
    proof {
        lemma_rev_occurrences_match(before@, op@, before@.len() as int);
        assert(matches_at(before@, op@, pushes@[1] as int));
    }
    let p = pushes[1];
    Some(#[verifier::truncate] (read_le_word(binary, p + 1) as i32))
}

/// The numbers found for each occurrence of the statistics text.
fn known_counts_in(binary: &[u8]) -> (res: Vec<i32>)
    ensures
        res@ == known_counts(binary@, occurrences(binary@, stat_bytes())),
{
    let stats = find_all(binary, STAT_STR.as_bytes());
    let mut res: Vec<i32> = Vec::new();
    let mut i: usize = 0;
    while i < stats.len()
        invariant
            i <= stats@.len(),
            res@ == known_counts(binary@, stats@.subrange(0, i as int)),
        decreases stats.len() - i,
    {
        let c = count_at(binary, stats[i]);
        assert(stats@.subrange(0, i + 1).drop_last() =~= stats@.subrange(0, i as int));
        if let Some(v) = c {
            res.push(v);
        }
        i = i + 1;
    }
    assert(stats@.subrange(0, i as int) =~= stats@);
    res
}

/// Appends a report line for each number found.
fn report_counts(out: &mut String, counts: &Vec<i32>)
    ensures
        final(out)@ == old(out)@ + count_lines(counts@),
{
    let ghost start = out@;
    let mut i: usize = 0;
    while i < counts.len()
        invariant
            i <= counts@.len(),
            out@ == start + count_lines(counts@.subrange(0, i as int)),
        decreases counts.len() - i,
    {
        out.append("Known: ");
        let mut digits: Vec<u8> = Vec::new();
        push_dec_i32(&mut digits, counts[i]);
        push_ascii(out, digits.as_slice());
        crate::text::push_char(out, '\n');
        assert(counts@.subrange(0, i + 1).drop_last() =~= counts@.subrange(0, i as int));
        i = i + 1;
        assert(out@ =~= start + count_lines(counts@.subrange(0, i as int)));
    }
    assert(counts@.subrange(0, i as int) =~= counts@);
}

/// What `find_new` finds and reports, for an image `h`, the CRC32 bytes
/// `crc`, the SHA1 bytes `sha1` and the name bytes `name` of the first entry.
pub open spec fn new_search(h: Seq<u8>, crc: Seq<u8>, sha1: Seq<u8>, name: Seq<u8>) -> (
    SearchResult,
    Seq<char>,
) {
    let crc_hits = occurrences(h, crc);
    let sha1_hits = occurrences(h, sha1);
    let name_hits = pointer_hits(h, occurrences(h, name), IMAGE_BASE);
    let counts = known_counts(h, occurrences(h, stat_bytes()));
    (
        SearchResult {
            crc_off: first_of(crc_hits),
            sha1_off: first_of(sha1_hits),
            name_off: first_of(name_hits),
            known_num: first_of(counts),
        },
        hit_lines("CRC: "@, crc_hits) + hit_lines("SHA1: "@, sha1_hits) + hit_lines(
            "Name: "@,
            name_hits,
        ) + count_lines(counts),
    )
}

/// Finds the offsets of a new-style database, whose CRC32s, SHA1s and name
/// pointers stand in three tables: the CRC32 table holds the first entry's
/// CRC32, the SHA1 table its SHA1, and the name table a pointer to its name.
/// Every candidate is reported, one line each; the result keeps the first.
pub fn find_new(binary: &[u8], crc: &[u8; 4], sha1: &[u8; 20], name: &str) -> (res: (
    SearchResult,
    String,
))
    ensures
        (res.0, res.1@) == new_search(binary@, crc@, sha1@, encode_utf8(name@)),
{
    let mut out = String::new();
    let crc_hits = find_all(binary, crc.as_slice());
    report_hits(&mut out, "CRC: ", &crc_hits);
    let sha1_hits = find_all(binary, sha1.as_slice());
    report_hits(&mut out, "SHA1: ", &sha1_hits);
    let names = find_all(binary, name.as_bytes());
    let name_hits = follow_pointers(binary, &names, IMAGE_BASE);
    report_hits(&mut out, "Name: ", &name_hits);
    let counts = known_counts_in(binary);
    report_counts(&mut out, &counts);
    let res = SearchResult {
        crc_off: if crc_hits.len() > 0 { Some(crc_hits[0]) } else { None },
        sha1_off: if sha1_hits.len() > 0 { Some(sha1_hits[0]) } else { None },
        name_off: if name_hits.len() > 0 { Some(name_hits[0]) } else { None },
        known_num: if counts.len() > 0 { Some(counts[0]) } else { None },
    };
    assert(out@ =~= new_search(binary@, crc@, sha1@, encode_utf8(name@)).1);
    (res, out)
}

/// How far an entry's address is from the offset at which its name was
/// found: the entry string starts nine bytes before the name.
pub const NAME_DELTA: u32 = 0x400bf7;

/// The places that hold a pointer to the first entry of an old-style
/// database, found from its CRC32 (the entry string starts with it in
/// `{:08x}` format) or else from its name.
pub open spec fn old_entry_hits(h: Seq<u8>, crc: Option<Seq<u8>>, name: Option<Seq<char>>) -> Seq<
    usize,
> {
    match crc {
        Some(c) => pointer_hits(h, occurrences(h, hex08(le_word(c, 0) as nat)), IMAGE_BASE),
        None => match name {
            Some(n) => pointer_hits(h, occurrences(h, encode_utf8(n)), NAME_DELTA),
            None => Seq::empty(),
        },
    }
}

/// What `find_old` finds and reports.
pub open spec fn old_search(h: Seq<u8>, crc: Option<Seq<u8>>, name: Option<Seq<char>>) -> (
    SearchResult,
    Seq<char>,
) {
    let hits = old_entry_hits(h, crc, name);
    let counts = known_counts(h, occurrences(h, stat_bytes()));
    (
        SearchResult {
            crc_off: first_of(hits),
            sha1_off: None,
            name_off: None,
            known_num: first_of(counts),
        },
        hit_lines("Entry: "@, hits) + count_lines(counts),
    )
}

/// Finds the offset of the entry table of an old-style database, whose
/// entries are strings that start with the CRC32 in hexadecimal, and which
/// the table points to. The name, when it is given instead of the CRC32, is
/// taken to start nine bytes into the entry string; the address is computed
/// modulo 2^32 (the overflowing arithmetic of a release build).
pub fn find_old(binary: &[u8], crc: Option<[u8; 4]>, name: Option<String>) -> (res: (
    SearchResult,
    String,
))
    ensures
        (res.0, res.1@) == old_search(
            binary@,
            match crc {
                Some(c) => Some(c@),
                None => None,
            },
            match name {
                Some(n) => Some(n@),
                None => None,
            },
        ),
{
    let mut out = String::new();
    let hits = if let Some(c) = crc {
        let v = read_le_word(c.as_slice(), 0);
        let mut text: Vec<u8> = Vec::new();
        push_hex08(&mut text, v as u64);
        let found = find_all(binary, text.as_slice());
        follow_pointers(binary, &found, IMAGE_BASE)
    } else if let Some(n) = &name {
        let found = find_all(binary, n.as_str().as_bytes());
        follow_pointers(binary, &found, NAME_DELTA)
    } else {
        Vec::new()
    };
    report_hits(&mut out, "Entry: ", &hits);
    let counts = known_counts_in(binary);
    report_counts(&mut out, &counts);
    let res = SearchResult {
        crc_off: if hits.len() > 0 { Some(hits[0]) } else { None },
        sha1_off: None,
        name_off: None,
        known_num: if counts.len() > 0 { Some(counts[0]) } else { None },
    };
    (res, out)
}

/// The place `p` holds the address of the target `t`.
pub open spec fn points_to(h: Seq<u8>, p: usize, t: usize, delta: u32) -> bool {
    matches_at(h, word_le(address_of(t, delta)), p as int)
}

/// The place `p` holds the address of one of the `targets`.
pub open spec fn points_to_one_of(h: Seq<u8>, p: usize, targets: Seq<usize>, delta: u32) -> bool {
    exists|j: int| 0 <= j < targets.len() && #[trigger] points_to(h, p, targets[j], delta)
}

/// Every place found by `pointer_hits` holds the address of one of the
/// targets.
pub proof fn lemma_pointer_hits_point(h: Seq<u8>, ts: Seq<usize>, delta: u32)
    requires
        h.len() <= usize::MAX,
    ensures
        forall|k: int|
            0 <= k < pointer_hits(h, ts, delta).len() ==> #[trigger] points_to_one_of(
                h,
                pointer_hits(h, ts, delta)[k],
                ts,
                delta,
            ),
    decreases ts.len(),
{
    if ts.len() > 0 {
        let init = ts.drop_last();
        lemma_pointer_hits_point(h, init, delta);
        let n = word_le(address_of(ts.last(), delta));
        lemma_occurrences_from_match(h, n, 0);
        let all = pointer_hits(h, ts, delta);
        let b = pointer_hits(h, init, delta);
        assert forall|k: int| 0 <= k < all.len() implies #[trigger] points_to_one_of(
            h,
            all[k],
            ts,
            delta,
        ) by {
            if k < b.len() {
                assert(all[k] == b[k]);
                assert(points_to_one_of(h, b[k], init, delta));
                let j = choose|j: int| 0 <= j < init.len() && #[trigger] points_to(h, b[k], init[j], delta);
                assert(ts[j] == init[j]);
                assert(points_to(h, all[k], ts[j], delta));
            } else {
                assert(all[k] == occurrences(h, n)[k - b.len()]);
                assert(points_to(h, all[k], ts[ts.len() - 1], delta));
            }
        }
    }
}

/// The offset found, or 0.
pub open spec fn offset_or_zero(o: Option<usize>) -> nat {
    match o {
        Some(v) => v as nat,
        None => 0,
    }
}

/// The number found, or 0.
pub open spec fn count_or_zero(o: Option<i32>) -> i32 {
    match o {
        Some(v) => v,
        None => 0,
    }
}

/// The arguments for dumping a new-style database with what was found:
/// `-c CRC -s SHA1 -n NAME -k KNOWN "EXE"`, offsets in `{:08x}` format and
/// 0 for what was not found.
pub open spec fn new_dump_args(r: SearchResult, exe: Seq<char>) -> Seq<char> {
    "-c "@ + as_chars(hex08(offset_or_zero(r.crc_off))) + " -s "@ + as_chars(
        hex08(offset_or_zero(r.sha1_off)),
    ) + " -n "@ + as_chars(hex08(offset_or_zero(r.name_off))) + " -k "@ + as_chars(
        dec_i32(count_or_zero(r.known_num)),
    ) + " \""@ + exe + "\""@
}

/// The arguments for dumping an old-style database with what was found:
/// `-e ENTRY -k KNOWN "EXE"`.
pub open spec fn old_dump_args(r: SearchResult, exe: Seq<char>) -> Seq<char> {
    "-e "@ + as_chars(hex08(offset_or_zero(r.crc_off))) + " -k "@ + as_chars(
        dec_i32(count_or_zero(r.known_num)),
    ) + " \""@ + exe + "\""@
}

/// Appends `o`, or 0, in the `{:08x}` format.
fn push_offset(out: &mut String, o: Option<usize>)
    ensures
        final(out)@ == old(out)@ + as_chars(hex08(offset_or_zero(o))),
{
    let mut digits: Vec<u8> = Vec::new();
    let v: u64 = match o {
        Some(x) => x as u64,
        None => 0,
    };
    push_hex08(&mut digits, v);
    push_ascii(out, digits.as_slice());
}

/// Appends the number, or 0, in decimal, then the quoted executable path.
fn push_known_and_exe(out: &mut String, k: Option<i32>, exe: &str)
    ensures
        final(out)@ == old(out)@ + " -k "@ + as_chars(dec_i32(count_or_zero(k))) + " \""@ + exe@
            + "\""@,
{
    out.append(" -k ");
    let mut digits: Vec<u8> = Vec::new();
    let v: i32 = match k {
        Some(x) => x,
        None => 0,
    };
    push_dec_i32(&mut digits, v);
    push_ascii(out, digits.as_slice());
    out.append(" \"");
    out.append(exe);
    out.append("\"");
}

/// The argument line for the dump of a new-style database.
pub fn dump_args_new(r: &SearchResult, exe: &str) -> (s: String)
    ensures
        s@ == new_dump_args(*r, exe@),
{
    let mut s = String::new();
    s.append("-c ");
    push_offset(&mut s, r.crc_off);
    s.append(" -s ");
    push_offset(&mut s, r.sha1_off);
    s.append(" -n ");
    push_offset(&mut s, r.name_off);
    push_known_and_exe(&mut s, r.known_num, exe);
    s
}

/// The argument line for the dump of an old-style database.
pub fn dump_args_old(r: &SearchResult, exe: &str) -> (s: String)
    ensures
        s@ == old_dump_args(*r, exe@),
{
    let mut s = String::new();
    s.append("-e ");
    push_offset(&mut s, r.crc_off);
    push_known_and_exe(&mut s, r.known_num, exe);
    s
}

} // verus!
