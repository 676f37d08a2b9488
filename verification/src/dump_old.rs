//! Dumping an old-style database: a table of `known_num` addresses of
//! NUL-terminated entry strings, each of the form
//! `CCCCCCCC<blanks>NAME[|S1<blanks>S2<blanks>S3<blanks>S4<blanks>S5]`,
//! optionally followed by blanks and one newline, where `CCCCCCCC` is the
//! CRC32 and `S1`..`S5` are the SHA1 in five groups, all in eight
//! hexadecimal digits, and a blank is a space or a tab.

use vstd::prelude::*;
use crate::codec::{word_be, be_bytes};
use crate::entry::{CRC32, SHA1, Entry, entries_view};
use crate::dump_new::{DumpError, word_table, name_table, dump_name_addr, read_strings};
use crate::search::IMAGE_BASE;
use crate::text::{pow16, push_char};

verus! {

/// `c` is a hexadecimal digit.
pub open spec fn is_hex_char(c: char) -> bool {
    ('0' <= c && c <= '9') || ('a' <= c && c <= 'f') || ('A' <= c && c <= 'F')
}

/// The value of the hexadecimal digit `c`.
pub open spec fn hex_char_value(c: char) -> nat {
    if '0' <= c && c <= '9' {
        (c as int - 48) as nat
    } else if 'a' <= c && c <= 'f' {
        (c as int - 87) as nat
    } else {
        (c as int - 55) as nat
    }
}

/// Eight hexadecimal digits stand at `i`.
pub open spec fn hex8_at(s: Seq<char>, i: int) -> bool {
    0 <= i && i + 8 <= s.len() && forall|j: int| i <= j < i + 8 ==> is_hex_char(#[trigger] s[j])
}

/// The value of the `n` hexadecimal digits at `i`.
pub open spec fn hex_value(s: Seq<char>, i: int, n: nat) -> nat
    decreases n,
{
    if n == 0 {
        0
    } else {
        hex_value(s, i, (n - 1) as nat) * 16 + hex_char_value(s[i + n - 1])
    }
}

/// `c` is a space or a tab.
pub open spec fn is_blank(c: char) -> bool {
    c == ' ' || c == '\t'
}

/// The end of the run of blanks that starts at `i`.
pub open spec fn skip_blanks(s: Seq<char>, i: int) -> int
    decreases s.len() - i,
{
    if 0 <= i < s.len() && is_blank(s[i]) {
        skip_blanks(s, i + 1)
    } else {
        i
    }
}

/// The first `|` at or after `i`, or the end.
pub open spec fn find_bar(s: Seq<char>, i: int) -> int
    decreases s.len() - i,
{
    if 0 <= i < s.len() && s[i] != '|' {
        find_bar(s, i + 1)
    } else {
        i
    }
}

/// `n` groups of eight hexadecimal digits from `i`, separated by blanks: their
/// values and where the last one ends.
pub open spec fn hex_groups(s: Seq<char>, i: int, n: nat) -> Option<(Seq<u32>, int)>
    decreases n,
{
    if n == 0 || !hex8_at(s, i) {
        None
    } else if n == 1 {
        Some((seq![hex_value(s, i, 8) as u32], i + 8))
    } else {
        let j = skip_blanks(s, i + 8);
        if j == i + 8 {
            None
        } else {
            match hex_groups(s, j, (n - 1) as nat) {
                Some((ws, e)) => Some((seq![hex_value(s, i, 8) as u32] + ws, e)),
                None => None,
            }
        }
    }
}

/// The words written out big-endian, one after the other.
pub open spec fn be_concat(ws: Seq<u32>) -> Seq<u8>
    decreases ws.len(),
{
    if ws.len() == 0 {
        Seq::empty()
    } else {
        be_concat(ws.drop_last()) + word_be(ws.last())
    }
}

/// The entry that an old-style entry string denotes, if it has the format.
pub open spec fn spec_parse_entry(s: Seq<char>) -> Option<(u32, Option<Seq<u8>>, Seq<char>)> {
    if !hex8_at(s, 0) {
        None
    } else {
        let crc = hex_value(s, 0, 8) as u32;
        let k = skip_blanks(s, 8);
        if k == 8 {
            None
        } else {
            let p = find_bar(s, k);
            let name = s.subrange(k, p);
            if p >= s.len() {
                Some((crc, None, name))
            } else {
                match hex_groups(s, p + 1, 5) {
                    None => None,
                    Some((ws, q)) => {
                        let r = skip_blanks(s, q);
                        if r == s.len() || (r + 1 == s.len() && s[r] == '\n') {
                            Some((crc, Some(be_concat(ws)), name))
                        } else {
                            None
                        }
                    },
                }
            }
        }
    }
}

proof fn lemma_hex_value_bound(s: Seq<char>, i: int, n: nat)
    requires
        0 <= i,
        i + n <= s.len(),
        forall|j: int| i <= j < i + n ==> is_hex_char(#[trigger] s[j]),
    ensures
        hex_value(s, i, n) < pow16(n),
    decreases n,
{
    if n > 0 {
        lemma_hex_value_bound(s, i, (n - 1) as nat);
        let c = s[i + n - 1];
        assert(is_hex_char(c));
        assert(hex_char_value(c) < 16);
        assert(hex_value(s, i, (n - 1) as nat) * 16 + hex_char_value(c) < pow16((n - 1) as nat) * 16)
            by (nonlinear_arith)
            requires
                hex_value(s, i, (n - 1) as nat) < pow16((n - 1) as nat),
                hex_char_value(c) < 16,
        ;
    }
}

/// The characters of a string.
fn chars_of(s: &str) -> (v: Vec<char>)
    ensures
        v@ == s@,
{
    let n = s.unicode_len();
    let mut v: Vec<char> = Vec::new();
    let mut i: usize = 0;
    while i < n
        invariant
            n == s@.len(),
            i <= n,
            v@ == s@.subrange(0, i as int),
        decreases n - i,
    {
        v.push(s.get_char(i));
        i = i + 1;
        assert(v@ =~= s@.subrange(0, i as int));
    }
    assert(s@.subrange(0, n as int) =~= s@);
    v
}

/// The value of the eight hexadecimal digits at `i`, if they are there.
fn hex8_value(cs: &Vec<char>, i: usize) -> (r: Option<u32>)
    ensures
        r == if hex8_at(cs@, i as int) {
            Some(hex_value(cs@, i as int, 8) as u32)
        } else {
            None::<u32>
        },
{
    if i > cs.len() || cs.len() - i < 8 {
        return None;
    }
    let mut acc: u32 = 0;
    let mut k: usize = 0;
    while k < 8
        invariant
            cs@.len() == cs.len(),
            i + 8 <= cs@.len(),
            k <= 8,
            forall|j: int| i <= j < i + k ==> is_hex_char(#[trigger] cs@[j]),
            acc == hex_value(cs@, i as int, k as nat),
            acc < pow16(k as nat),
        decreases 8 - k,
    {
        let c = cs[i + k];
        let d: u32 = if '0' <= c && c <= '9' {
            (c as u32) - 48
        } else if 'a' <= c && c <= 'f' {
            (c as u32) - 87
        } else if 'A' <= c && c <= 'F' {
            (c as u32) - 55
        } else {
            return None;
        };
        assert(pow16((k + 1) as nat) == pow16(k as nat) * 16);
        assert(acc * 16 + d < pow16(k as nat) * 16) by (nonlinear_arith)
            requires
                acc < pow16(k as nat),
                d < 16,
        ;
        assert(pow16(8) == 0x1_0000_0000) by {
            reveal_with_fuel(pow16, 9);
        }
        assert(pow16((k + 1) as nat) <= pow16(8)) by {
            reveal_with_fuel(pow16, 9);
        }
        acc = acc * 16 + d;
        k = k + 1;
    }
    Some(acc)
}

/// The end of the run of blanks at `i`.
fn skip_blanks_from(cs: &Vec<char>, i: usize) -> (r: usize)
    ensures
        r == skip_blanks(cs@, i as int),
        i <= r,
        i <= cs@.len() ==> r <= cs@.len(),
{
    let mut k = i;
    while k < cs.len() && (cs[k] == ' ' || cs[k] == '\t')
        invariant
            i <= k,
            k == i || k <= cs@.len(),
            skip_blanks(cs@, i as int) == skip_blanks(cs@, k as int),
        decreases cs.len() - k,
    {
        k = k + 1;
    }
    k
}

/// The first `|` at or after `i`, or the end.
fn find_bar_from(cs: &Vec<char>, i: usize) -> (r: usize)
    ensures
        r == find_bar(cs@, i as int),
        i <= r,
        i <= cs@.len() ==> r <= cs@.len(),
        r < cs@.len() ==> cs@[r as int] == '|',
{
    let mut k = i;
    while k < cs.len() && cs[k] != '|'
        invariant
            i <= k,
            k == i || k <= cs@.len(),
            find_bar(cs@, i as int) == find_bar(cs@, k as int),
        decreases cs.len() - k,
    {
        k = k + 1;
    }
    k
}

/// Reads the five groups of a SHA1 from `i`: its bytes, each group's value
/// written out big-endian, and where the last group ends.
fn sha_groups_at(cs: &Vec<char>, i: usize) -> (r: Option<([u8; 20], usize)>)
    ensures
        match r {
            Some((b, e)) => hex_groups(cs@, i as int, 5) matches Some((ws, e2)) && b@ == be_concat(
                ws,
            ) && e == e2,
            None => hex_groups(cs@, i as int, 5) is None,
        },
{
    let mut buf = [0u8; 20];
    let mut pos = i;
    let mut g: usize = 0;
    let ghost mut ws: Seq<u32> = Seq::empty();
    while g < 5
        invariant
            g <= 5,
            cs@.len() == cs.len(),
            buf@.len() == 20,
            ws.len() == g,
            buf@.subrange(0, 4 * g as int) == be_concat(ws),
            g < 5 ==> hex_groups(cs@, i as int, 5) == match hex_groups(
                cs@,
                pos as int,
                (5 - g) as nat,
            ) {
                Some((rest, e)) => Some((ws + rest, e)),
                None => None,
            },
            g == 5 ==> hex_groups(cs@, i as int, 5) == Some((ws, pos as int)),
        decreases 5 - g,
    {
        let ghost at = pos as int;
        let w = match hex8_value(cs, pos) {
            Some(w) => w,
            None => return None,
        };
        let b = be_bytes(w);
        let ghost before = buf@;
        buf[4 * g] = b[0];
        buf[4 * g + 1] = b[1];
        buf[4 * g + 2] = b[2];
        buf[4 * g + 3] = b[3];
        proof {
            let ws2 = ws.push(w);
            assert(ws2.drop_last() =~= ws);
            assert(buf@.subrange(0, 4 * g + 4) =~= before.subrange(0, 4 * g as int) + word_be(w));
            ws = ws2;
        }
        pos = pos + 8;
        if g < 4 {
            let j = skip_blanks_from(cs, pos);
            if j == pos {
                return None;
            }
            proof {
                match hex_groups(cs@, j as int, (4 - g) as nat) {
                    Some((rest, e)) => {
                        assert(ws.drop_last() + (seq![w] + rest) =~= ws + rest);
                    },
                    None => {},
                }
            }
            pos = j;
        } else {
            proof {
                assert(ws.drop_last() + seq![w] =~= ws);
            }
        }
        g = g + 1;
    }
    Some((buf, pos))
}

/// The characters `cs[from..to]` as a string.
fn string_of(cs: &Vec<char>, from: usize, to: usize) -> (s: String)
    requires
        from <= to <= cs@.len(),
    ensures
        s@ == cs@.subrange(from as int, to as int),
{
    let mut s = String::new();
    let mut k = from;
    while k < to
        invariant
            from <= k <= to <= cs@.len(),
            s@ == cs@.subrange(from as int, k as int),
        decreases to - k,
    {
        push_char(&mut s, cs[k]);
        k = k + 1;
        assert(s@ =~= cs@.subrange(from as int, k as int));
    }
    s
}

/// Parses an old-style entry string.
pub fn parse_entry(input: &str) -> (res: Result<Entry, DumpError>)
    ensures
        match res {
            Ok(e) => spec_parse_entry(input@) == Some(e@),
            Err(err) => spec_parse_entry(input@) is None && err == DumpError::BadEntry,
        },
{
    let cs = chars_of(input);
    let crc = match hex8_value(&cs, 0) {
        Some(v) => v,
        None => return Err(DumpError::BadEntry),
    };
    let k = skip_blanks_from(&cs, 8);
    if k == 8 {
        return Err(DumpError::BadEntry);
    }
    let p = find_bar_from(&cs, k);
    let name = string_of(&cs, k, p);
    if p >= cs.len() {
        return Ok(Entry { crc: CRC32(crc), sha1: None, name });
    }
    let (sha, q) = match sha_groups_at(&cs, p + 1) {
        Some(r) => r,
        None => return Err(DumpError::BadEntry),
    };
    let r = skip_blanks_from(&cs, q);
    if r == cs.len() || (r < cs.len() && cs.len() - r == 1 && cs[r] == '\n') {
        Ok(Entry { crc: CRC32(crc), sha1: Some(SHA1(sha)), name })
    } else {
        Err(DumpError::BadEntry)
    }
}

/// Reads the entry table: `stop` little-endian addresses from `off`.
pub fn dump_entry_addr(image: &[u8], off: u32, stop: usize) -> (res: Result<Vec<u32>, DumpError>)
    ensures
        match res {
            Ok(v) => word_table(image@, off, stop as nat) == Ok::<Seq<u32>, DumpError>(v@),
            Err(e) => word_table(image@, off, stop as nat) == Err::<Seq<u32>, DumpError>(e),
        },
{
    dump_name_addr(image, off, stop)
}

/// Reads the entry strings that the `stop` addresses at `off` point to.
pub fn dump_entries(image: &[u8], off: u32, stop: usize) -> (res: Result<Vec<String>, DumpError>)
    ensures
        match res {
            Ok(v) => name_table(image@, off, stop as nat, IMAGE_BASE) == Ok::<
                Seq<Seq<char>>,
                DumpError,
            >(v@.map_values(|s: String| s@)),
            Err(e) => name_table(image@, off, stop as nat, IMAGE_BASE) == Err::<
                Seq<Seq<char>>,
                DumpError,
            >(e),
        },
{
    let addrs = dump_entry_addr(image, off, stop)?;
    read_strings(image, &addrs, IMAGE_BASE)
}

/// The entries that the strings denote, in order, or `BadEntry` if one of
/// them does not have the entry format.
pub open spec fn parse_entries(strs: Seq<Seq<char>>) -> Option<Seq<(u32, Option<Seq<u8>>, Seq<char>)>>
    decreases strs.len(),
{
    if strs.len() == 0 {
        Some(Seq::empty())
    } else {
        match (parse_entries(strs.drop_last()), spec_parse_entry(strs.last())) {
            (Some(es), Some(e)) => Some(es.push(e)),
            _ => None,
        }
    }
}

/// What dumping an old-style database gives.
pub open spec fn old_dump(h: Seq<u8>, entry_off: u32, n: nat) -> Result<
    Seq<(u32, Option<Seq<u8>>, Seq<char>)>,
    DumpError,
> {
    match name_table(h, entry_off, n, IMAGE_BASE) {
        Err(e) => Err(e),
        Ok(strs) => match parse_entries(strs) {
            Some(es) => Ok(es),
            None => Err(DumpError::BadEntry),
        },
    }
}

/// The entries come out one for each string.
proof fn lemma_parse_entries_len(strs: Seq<Seq<char>>)
    ensures
        parse_entries(strs) matches Some(es) ==> es.len() == strs.len(),
    decreases strs.len(),
{
    if strs.len() > 0 {
        lemma_parse_entries_len(strs.drop_last());
    }
}

/// Once a prefix of the strings is refused, all of them are.
proof fn lemma_parse_entries_prefix(strs: Seq<Seq<char>>, m: int)
    requires
        0 <= m <= strs.len(),
        parse_entries(strs.subrange(0, m)) is None,
    ensures
        parse_entries(strs) is None,
    decreases strs.len() - m,
{
    if m < strs.len() {
        assert(strs.drop_last().subrange(0, m) =~= strs.subrange(0, m));
        lemma_parse_entries_prefix(strs.drop_last(), m);
    } else {
        assert(strs.subrange(0, m) =~= strs);
    }
}

/// Dumps an old-style database of `known_num` entries from its entry table.
pub fn dump(image: &[u8], entry_off: u32, known_num: usize) -> (res: Result<Vec<Entry>, DumpError>)
    ensures
        match res {
            Ok(v) => old_dump(image@, entry_off, known_num as nat) == Ok::<
                Seq<(u32, Option<Seq<u8>>, Seq<char>)>,
                DumpError,
            >(entries_view(v@)),
            Err(e) => old_dump(image@, entry_off, known_num as nat) == Err::<
                Seq<(u32, Option<Seq<u8>>, Seq<char>)>,
                DumpError,
            >(e),
        },        res matches Ok(v) ==> v@.len() == known_num,
{
    let entries = dump_entries(image, entry_off, known_num)?;
    proof {
        crate::dump_new::lemma_strings_at_len(
            image@,
            word_table(image@, entry_off, known_num as nat)->Ok_0,
            IMAGE_BASE,
        );
        assert(entries@.map_values(|s: String| s@).len() == entries@.len());
    }
    let ghost strs = entries@.map_values(|s: String| s@);
    let mut results: Vec<Entry> = Vec::new();
    let mut i: usize = 0;
    assert(strs.subrange(0, 0) =~= Seq::<Seq<char>>::empty());
    assert(entries_view(results@) =~= Seq::<(u32, Option<Seq<u8>>, Seq<char>)>::empty());
    while i < entries.len()
        invariant
            i <= entries@.len(),
            strs == entries@.map_values(|s: String| s@),
            name_table(image@, entry_off, known_num as nat, IMAGE_BASE) == Ok::<
                Seq<Seq<char>>,
                DumpError,
            >(strs),
            parse_entries(strs.subrange(0, i as int)) == Some(entries_view(results@)),
        decreases entries.len() - i,
    {
        assert(strs.subrange(0, i + 1).drop_last() =~= strs.subrange(0, i as int));
        assert(strs.subrange(0, i + 1).last() == entries@[i as int]@);
        let e = match parse_entry(entries[i].as_str()) {
            Ok(e) => e,
            Err(err) => {
                proof {
                    lemma_parse_entries_prefix(strs, i + 1);
                }
                return Err(err);
            },
        };
        let ghost before = results@;
        results.push(e);
        assert(entries_view(results@) =~= entries_view(before).push(e@));
        i = i + 1;
    }
    assert(strs.subrange(0, i as int) =~= strs);
    assert(results@.len() == entries_view(results@).len());
    proof {
        lemma_parse_entries_len(strs);
    }
    Ok(results)
}

} // verus!
