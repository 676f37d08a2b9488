//! Dumping a new-style database: three tables of `known_num` items each, the
//! CRC32 table (little-endian words), the SHA1 table (five little-endian
//! words per digest) and the name table (addresses of NUL-terminated names).
//!
//! The executable image is held in memory; an offset is a position in it. A
//! table that runs past the end of the image is `UnexpectedEof`, as a read
//! past the end of the file is.

use vstd::prelude::*;
use vstd::utf8::{valid_utf8, decode_utf8};
use crate::codec::{le_word, word_be, read_le_word, be_bytes};
use crate::entry::{CRC32, SHA1, Entry, entries_view};

verus! {

/// How dumping a database failed.
#[derive(Debug, Clone, Copy, PartialEq, Eq)]
pub enum DumpError {
    /// A table or a string runs past the end of the image.
    UnexpectedEof,
    /// A string pointer is below the image base, so that it names no offset.
    AddressBelowBase,
    /// A string has no NUL within the reading window.
    StringTooLong,
    /// An old-style entry string does not have the entry format.
    BadEntry,
    /// The tables came out with different numbers of items.
    MismatchedCount,
}

/// A string is read through a window of this many bytes, as a buffered
/// reader of that capacity reads it: one with no NUL in the window is
/// refused.
pub const READ_WINDOW: usize = 8192;

/// `n` items of `width` bytes from `off` lie within an image of `len` bytes
/// (no items always do).
pub open spec fn table_fits(len: nat, off: u32, n: nat, width: nat) -> bool {
    n == 0 || off + width * n <= len
}

/// The `n` little-endian words from `off`.
pub open spec fn word_table(h: Seq<u8>, off: u32, n: nat) -> Result<Seq<u32>, DumpError> {
    if table_fits(h.len(), off, n, 4) {
        Ok(Seq::new(n, |i: int| le_word(h, off + 4 * i)))
    } else {
        Err(DumpError::UnexpectedEof)
    }
}

/// The digest stored at `p`: five little-endian words, each written out
/// big-endian.
pub open spec fn sha_at(h: Seq<u8>, p: int) -> Seq<u8> {
    word_be(le_word(h, p)) + word_be(le_word(h, p + 4)) + word_be(le_word(h, p + 8)) + word_be(
        le_word(h, p + 12),
    ) + word_be(le_word(h, p + 16))
}

/// The `n` digests from `off`.
pub open spec fn sha_table(h: Seq<u8>, off: u32, n: nat) -> Result<Seq<Seq<u8>>, DumpError> {
    if table_fits(h.len(), off, n, 20) {
        Ok(Seq::new(n, |i: int| sha_at(h, off + 20 * i)))
    } else {
        Err(DumpError::UnexpectedEof)
    }
}

/// The first NUL in `h[i..end]`.
pub open spec fn first_nul(h: Seq<u8>, i: int, end: int) -> Option<int>
    decreases end - i,
{
    if i >= end {
        None
    } else if h[i] == 0 {
        Some(i)
    } else {
        first_nul(h, i + 1, end)
    }
}

/// The bytes of the NUL-terminated string at `pos`, read through the window.
pub open spec fn c_string(h: Seq<u8>, pos: int) -> Result<Seq<u8>, DumpError> {
    let end = if pos + READ_WINDOW <= h.len() {
        pos + READ_WINDOW
    } else {
        h.len() as int
    };
    match first_nul(h, pos, end) {
        Some(k) => Ok(h.subrange(pos, k)),
        None => if pos + READ_WINDOW <= h.len() {
            Err(DumpError::StringTooLong)
        } else {
            Err(DumpError::UnexpectedEof)
        },
    }
}

/// Names the text that `String::from_utf8_lossy` makes of bytes that are
/// not valid UTF-8.
pub uninterp spec fn utf8_lossy(b: Seq<u8>) -> Seq<char>;

/// The text that `String::from_utf8_lossy` makes of the bytes `b`: their
/// decoding when they are valid UTF-8, and otherwise the named result.
pub open spec fn lossy_text(b: Seq<u8>) -> Seq<char> {
    if valid_utf8(b) {
        decode_utf8(b)
    } else {
        utf8_lossy(b)
    }
}

/// `String::from_utf8_lossy`, made owned: the text of the bytes, with each
/// invalid UTF-8 sequence replaced by U+FFFD. Its documentation states that
/// valid UTF-8 is taken as it is, so for valid bytes the text is their
/// decoding; what comes of invalid bytes is named, not stated.
#[verifier::external_body]
pub(crate) fn lossy_string(b: &[u8]) -> (s: String)
    ensures
        valid_utf8(b@) ==> s@ == decode_utf8(b@),
        !valid_utf8(b@) ==> s@ == utf8_lossy(b@),
{
    String::from_utf8_lossy(b).into_owned()
}

/// The string that the address `addr` points to.
pub open spec fn string_at(h: Seq<u8>, addr: u32, base: u32) -> Result<Seq<char>, DumpError> {
    if addr < base {
        Err(DumpError::AddressBelowBase)
    } else {
        match c_string(h, addr - base) {
            Ok(b) => Ok(lossy_text(b)),
            Err(e) => Err(e),
        }
    }
}

/// The strings that the addresses point to, in order; the first that fails
/// gives the error.
pub open spec fn strings_at(h: Seq<u8>, addrs: Seq<u32>, base: u32) -> Result<
    Seq<Seq<char>>,
    DumpError,
>
    decreases addrs.len(),
{
    if addrs.len() == 0 {
        Ok(Seq::empty())
    } else {
        match strings_at(h, addrs.drop_last(), base) {
            Err(e) => Err(e),
            Ok(ns) => match string_at(h, addrs.last(), base) {
                Err(e) => Err(e),
                Ok(n) => Ok(ns.push(n)),
            },
        }
    }
}

/// The `n` strings that the pointer table at `off` points to.
pub open spec fn name_table(h: Seq<u8>, off: u32, n: nat, base: u32) -> Result<
    Seq<Seq<char>>,
    DumpError,
> {
    match word_table(h, off, n) {
        Err(e) => Err(e),
        Ok(addrs) => strings_at(h, addrs, base),
    }
}

/// Reads `stop` little-endian words from `off`.
fn read_words(image: &[u8], off: u32, stop: usize) -> (res: Result<Vec<u32>, DumpError>)
    ensures
        match res {
            Ok(v) => word_table(image@, off, stop as nat) == Ok::<Seq<u32>, DumpError>(v@),
            Err(e) => word_table(image@, off, stop as nat) == Err::<Seq<u32>, DumpError>(e),
        },
{
    let mut res: Vec<u32> = Vec::new();
    let mut pos: usize = off as usize;
    let mut i: usize = 0;
    while i < stop
        invariant
            i <= stop,
            pos == off + 4 * i,
            i > 0 ==> pos <= image@.len(),
            res@.len() == i,
            forall|j: int| 0 <= j < i ==> res@[j] == le_word(image@, off + 4 * j),
        decreases stop - i,
    {
        if pos > image.len() || image.len() - pos < 4 {
            return Err(DumpError::UnexpectedEof);
        }
        res.push(read_le_word(image, pos));
        pos = pos + 4;
        i = i + 1;
    }
    assert(res@ =~= Seq::new(stop as nat, |j: int| le_word(image@, off + 4 * j)));
    Ok(res)
}

/// Reads the CRC32 table: `stop` little-endian words from `off`.
pub fn dump_crc(image: &[u8], off: u32, stop: usize) -> (res: Result<Vec<CRC32>, DumpError>)
    ensures
        match res {
            Ok(v) => word_table(image@, off, stop as nat) == Ok::<Seq<u32>, DumpError>(
                v@.map_values(|c: CRC32| c.0),
            ),
            Err(e) => word_table(image@, off, stop as nat) == Err::<Seq<u32>, DumpError>(e),
        },
{
    let words = read_words(image, off, stop)?;
    let mut res: Vec<CRC32> = Vec::new();
    let mut i: usize = 0;
    while i < words.len()
        invariant
            i <= words@.len(),
            res@.len() == i,
            forall|j: int| 0 <= j < i ==> (#[trigger] res@[j]).0 == words@[j],
        decreases words.len() - i,
    {
        res.push(CRC32(words[i]));
        i = i + 1;
    }
    assert(res@.map_values(|c: CRC32| c.0) =~= words@);
    Ok(res)
}

/// Reads the address table of the names: `stop` little-endian words from
/// `off`.
pub fn dump_name_addr(image: &[u8], off: u32, stop: usize) -> (res: Result<Vec<u32>, DumpError>)
    ensures
        match res {
            Ok(v) => word_table(image@, off, stop as nat) == Ok::<Seq<u32>, DumpError>(v@),
            Err(e) => word_table(image@, off, stop as nat) == Err::<Seq<u32>, DumpError>(e),
        },
{
    read_words(image, off, stop)
}

/// Reads one digest at `pos`.
fn read_sha(image: &[u8], pos: usize) -> (s: SHA1)
    requires
        pos + 20 <= image@.len(),
    ensures
        s.0@ == sha_at(image@, pos as int),
{
    let mut buf = [0u8; 20];
    let mut k: usize = 0;
    while k < 5
        invariant
            k <= 5,
            image@.len() == image.len(),
            pos + 20 <= image@.len(),
            buf@.len() == 20,
            forall|j: int|
                0 <= j < 4 * k ==> buf@[j] == sha_at(image@, pos as int)[j],
        decreases 5 - k,
    {
        let w = be_bytes(read_le_word(image, pos + 4 * k));
        buf[4 * k] = w[0];
        buf[4 * k + 1] = w[1];
        buf[4 * k + 2] = w[2];
        buf[4 * k + 3] = w[3];
        assert(forall|j: int|
            0 <= j < 4 ==> #[trigger] sha_at(image@, pos as int)[4 * k + j] == word_be(
                le_word(image@, pos + 4 * k),
            )[j]);
        k = k + 1;
    }
    assert(buf@ =~= sha_at(image@, pos as int));
    SHA1(buf)
}

/// Reads the SHA1 table: `stop` digests of 20 bytes from `off`, each made of
/// five little-endian words that are written out big-endian.
pub fn dump_sha1(image: &[u8], off: u32, stop: usize) -> (res: Result<Vec<SHA1>, DumpError>)
    ensures
        match res {
            Ok(v) => sha_table(image@, off, stop as nat) == Ok::<Seq<Seq<u8>>, DumpError>(
                v@.map_values(|s: SHA1| s.0@),
            ),
            Err(e) => sha_table(image@, off, stop as nat) == Err::<Seq<Seq<u8>>, DumpError>(e),
        },
{
    let mut res: Vec<SHA1> = Vec::new();
    let mut pos: usize = off as usize;
    let mut i: usize = 0;
    while i < stop
        invariant
            i <= stop,
            pos == off + 20 * i,
            i > 0 ==> pos <= image@.len(),
            res@.len() == i,
            forall|j: int| 0 <= j < i ==> (#[trigger] res@[j]).0@ == sha_at(image@, off + 20 * j),
        decreases stop - i,
    {
        if pos > image.len() || image.len() - pos < 20 {
            return Err(DumpError::UnexpectedEof);
        }
        res.push(read_sha(image, pos));
        pos = pos + 20;
        i = i + 1;
    }
    assert(res@.map_values(|s: SHA1| s.0@) =~= Seq::new(
        stop as nat,
        |j: int| sha_at(image@, off + 20 * j),
    ));
    Ok(res)
}

/// Reads the bytes of the NUL-terminated string at `pos`, through the window.
pub fn read_c_string(image: &[u8], pos: usize) -> (res: Result<&[u8], DumpError>)
    ensures
        match res {
            Ok(b) => c_string(image@, pos as int) == Ok::<Seq<u8>, DumpError>(b@),
            Err(e) => c_string(image@, pos as int) == Err::<Seq<u8>, DumpError>(e),
        },
{
    let len = image.len();
    let full = pos <= len && len - pos >= READ_WINDOW;
    let end = if full { pos + READ_WINDOW } else { len };
    assert(end == if pos + READ_WINDOW <= image@.len() { pos + READ_WINDOW } else { image@.len() as int });
    let mut k = pos;
    while k < end
        invariant
            pos <= k,
            end <= image@.len(),
            full == (pos + READ_WINDOW <= image@.len()),
            end == if pos + READ_WINDOW <= image@.len() {
                pos + READ_WINDOW
            } else {
                image@.len() as int
            },
            first_nul(image@, pos as int, end as int) == first_nul(image@, k as int, end as int),
        decreases end - k,
    {
        if image[k] == 0 {
            return Ok(vstd::slice::slice_subrange(image, pos, k));
        }
        k = k + 1;
    }
    if full {
        Err(DumpError::StringTooLong)
    } else {
        Err(DumpError::UnexpectedEof)
    }
}

/// Reads the string that `addr` points to, as text.
fn read_string_at(image: &[u8], addr: u32, base: u32) -> (res: Result<String, DumpError>)
    ensures
        match res {
            Ok(s) => string_at(image@, addr, base) == Ok::<Seq<char>, DumpError>(s@),
            Err(e) => string_at(image@, addr, base) == Err::<Seq<char>, DumpError>(e),
        },
{
    if addr < base {
        return Err(DumpError::AddressBelowBase);
    }
    let bytes = read_c_string(image, (addr - base) as usize)?;
    Ok(lossy_string(bytes))
}

/// Once a prefix of the addresses fails, all of them fail the same way.
proof fn lemma_strings_at_prefix_err(h: Seq<u8>, a: Seq<u32>, base: u32, m: int)
    requires
        0 <= m <= a.len(),
        strings_at(h, a.subrange(0, m), base) is Err,
    ensures
        strings_at(h, a, base) == strings_at(h, a.subrange(0, m), base),
    decreases a.len() - m,
{
    if m == a.len() {
        assert(a.subrange(0, m) =~= a);
    } else {
        let a2 = a.drop_last();
        assert(a2.subrange(0, m) =~= a.subrange(0, m));
        lemma_strings_at_prefix_err(h, a2, base, m);
    }
}

/// Reads the strings that the addresses point to, in order.
pub fn read_strings(image: &[u8], addrs: &Vec<u32>, base: u32) -> (res: Result<Vec<String>, DumpError>)
    ensures
        match res {
            Ok(v) => strings_at(image@, addrs@, base) == Ok::<Seq<Seq<char>>, DumpError>(
                v@.map_values(|s: String| s@),
            ),
            Err(e) => strings_at(image@, addrs@, base) == Err::<Seq<Seq<char>>, DumpError>(e),
        },
{
    let mut res: Vec<String> = Vec::new();
    let mut i: usize = 0;
    assert(addrs@.subrange(0, 0) =~= Seq::<u32>::empty());
    assert(res@.map_values(|s: String| s@) =~= Seq::<Seq<char>>::empty());
    while i < addrs.len()
        invariant
            i <= addrs@.len(),
            strings_at(image@, addrs@.subrange(0, i as int), base) == Ok::<Seq<Seq<char>>, DumpError>(
                res@.map_values(|s: String| s@),
            ),
        decreases addrs.len() - i,
    {
        assert(addrs@.subrange(0, i + 1).drop_last() =~= addrs@.subrange(0, i as int));
        let name = match read_string_at(image, addrs[i], base) {
            Ok(n) => n,
            Err(e) => {
                proof {
                    lemma_strings_at_prefix_err(image@, addrs@, base, i + 1);
                }
                return Err(e);
            },
        };
        let ghost before = res@;
        res.push(name);
        assert(res@.map_values(|s: String| s@) =~= before.map_values(|s: String| s@).push(name@));
        i = i + 1;
    }
    assert(addrs@.subrange(0, i as int) =~= addrs@);
    Ok(res)
}

/// Reads the name table: the strings that the `stop` addresses at `off`
/// point to, where the address of file offset `o` is `o + base`.
pub fn dump_names(image: &[u8], off: u32, stop: usize, base: u32) -> (res: Result<
    Vec<String>,
    DumpError,
>)
    ensures
        match res {
            Ok(v) => name_table(image@, off, stop as nat, base) == Ok::<Seq<Seq<char>>, DumpError>(
                v@.map_values(|s: String| s@),
            ),
            Err(e) => name_table(image@, off, stop as nat, base) == Err::<Seq<Seq<char>>, DumpError>(
                e,
            ),
        },
{
    let addrs = dump_name_addr(image, off, stop)?;
    read_strings(image, &addrs, base)
}

/// The entries made of the `i`-th items of the three tables, as far as the
/// shortest one goes.
pub open spec fn zip_entries(c: Seq<u32>, s: Seq<Seq<u8>>, n: Seq<Seq<char>>) -> Seq<
    (u32, Option<Seq<u8>>, Seq<char>),
> {
    let len = if c.len() <= s.len() && c.len() <= n.len() {
        c.len()
    } else if s.len() <= n.len() {
        s.len()
    } else {
        n.len()
    };
    Seq::new(len, |i: int| (c[i], Some(s[i]), n[i]))
}

/// Puts the three tables together, entry by entry, as far as the shortest
/// one goes.
pub fn collect(crc: Vec<CRC32>, sha1: Vec<SHA1>, names: Vec<String>) -> (res: Vec<Entry>)
    ensures
        entries_view(res@) == zip_entries(
            crc@.map_values(|c: CRC32| c.0),
            sha1@.map_values(|s: SHA1| s.0@),
            names@.map_values(|s: String| s@),
        ),
{
    let len = if crc.len() <= sha1.len() && crc.len() <= names.len() {
        crc.len()
    } else if sha1.len() <= names.len() {
        sha1.len()
    } else {
        names.len()
    };
    let mut res: Vec<Entry> = Vec::new();
    let mut i: usize = 0;
    while i < len
        invariant
            len <= crc@.len() && len <= sha1@.len() && len <= names@.len(),
            i <= len,
            res@.len() == i,
            forall|j: int|
                0 <= j < i ==> (#[trigger] res@[j])@ == (
                    crc@[j].0,
                    Some(sha1@[j].0@),
                    names@[j]@,
                ),
        decreases len - i,
    {
        let name = names[i].clone();
        res.push(Entry { crc: crc[i], sha1: Some(sha1[i]), name });
        i = i + 1;
    }
    assert(entries_view(res@) =~= zip_entries(
        crc@.map_values(|c: CRC32| c.0),
        sha1@.map_values(|s: SHA1| s.0@),
        names@.map_values(|s: String| s@),
    ));
    res
}

/// What dumping a new-style database gives: the three tables of `n` items,
/// put together entry by entry; the first table that fails gives the error.
pub open spec fn new_dump(
    h: Seq<u8>,
    crc_off: u32,
    sha1_off: u32,
    name_off: u32,
    n: nat,
    base: u32,
) -> Result<Seq<(u32, Option<Seq<u8>>, Seq<char>)>, DumpError> {
    match word_table(h, crc_off, n) {
        Err(e) => Err(e),
        Ok(c) => match sha_table(h, sha1_off, n) {
            Err(e) => Err(e),
            Ok(s) => match name_table(h, name_off, n, base) {
                Err(e) => Err(e),
                Ok(ns) => Ok(zip_entries(c, s, ns)),
            },
        },
    }
}

/// Dumps a new-style database of `known_num` entries from its three tables.
pub fn dump(
    image: &[u8],
    crc_off: u32,
    sha1_off: u32,
    name_off: u32,
    known_num: usize,
    base: u32,
) -> (res: Result<Vec<Entry>, DumpError>)
    ensures
        match res {
            Ok(v) => new_dump(image@, crc_off, sha1_off, name_off, known_num as nat, base) == Ok::<
                Seq<(u32, Option<Seq<u8>>, Seq<char>)>,
                DumpError,
            >(entries_view(v@)),
            Err(e) => new_dump(image@, crc_off, sha1_off, name_off, known_num as nat, base) == Err::<
                Seq<(u32, Option<Seq<u8>>, Seq<char>)>,
                DumpError,
            >(e),
        },        res matches Ok(v) ==> v@.len() == known_num,
{
    let crc32 = dump_crc(image, crc_off, known_num)?;
    let sha1 = dump_sha1(image, sha1_off, known_num)?;
    let names = dump_names(image, name_off, known_num, base)?;
    proof {
        lemma_strings_at_len(image@, word_table(image@, name_off, known_num as nat)->Ok_0, base);
        assert(crc32@.map_values(|c: CRC32| c.0).len() == crc32@.len());
        assert(sha1@.map_values(|s: SHA1| s.0@).len() == sha1@.len());
        assert(names@.map_values(|s: String| s@).len() == names@.len());
    }
    if crc32.len() != known_num || sha1.len() != known_num || names.len() != known_num {
        return Err(DumpError::MismatchedCount);
    }
    let entries = collect(crc32, sha1, names);
    assert(entries@.len() == entries_view(entries@).len());
    Ok(entries)
}

/// The strings come out one for each address.
pub proof fn lemma_strings_at_len(h: Seq<u8>, a: Seq<u32>, base: u32)
    ensures
        strings_at(h, a, base) matches Ok(ns) ==> ns.len() == a.len(),
    decreases a.len(),
{
    if a.len() > 0 {
        lemma_strings_at_len(h, a.drop_last(), base);
    }
}

} // verus!
