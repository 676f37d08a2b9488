//! The tab-separated listing of the entries.

use vstd::prelude::*;
use crate::entry::{Entry, entries_view};
use crate::text::{hex_digit, hex08, as_chars, push_hex08, push_ascii, push_char};

verus! {

/// Each byte as two lowercase hexadecimal digits.
pub open spec fn hex_pairs(b: Seq<u8>) -> Seq<u8>
    decreases b.len(),
{
    if b.len() == 0 {
        Seq::empty()
    } else {
        hex_pairs(b.drop_last()) + seq![
            hex_digit((b.last() / 16) as nat),
            hex_digit((b.last() % 16) as nat),
        ]
    }
}

/// `hex::encode`: each byte as two lowercase hexadecimal digits, the high
/// digit first (the crate looks both up in `"0123456789abcdef"`).
#[verifier::external_body]
pub(crate) fn hex_encode(b: &[u8]) -> (s: String)
    ensures
        s@ == as_chars(hex_pairs(b@)),
{
    hex::encode(b)
}

/// The listing line of an entry: the name, a tab, the CRC32 in eight
/// hexadecimal digits, and, where there is a SHA1, a tab and its forty
/// digits.
pub open spec fn tsv_line(e: (u32, Option<Seq<u8>>, Seq<char>)) -> Seq<char> {
    e.2 + seq!['\t'] + as_chars(hex08(e.0 as nat)) + match e.1 {
        Some(s) => seq!['\t'] + as_chars(hex_pairs(s)),
        None => Seq::empty(),
    } + seq!['\n']
}

/// The listing lines of the entries, in order.
pub open spec fn tsv_lines(es: Seq<(u32, Option<Seq<u8>>, Seq<char>)>) -> Seq<char>
    decreases es.len(),
{
    if es.len() == 0 {
        Seq::empty()
    } else {
        tsv_lines(es.drop_last()) + tsv_line(es.last())
    }
}

/// Lists the entries, one line each.
pub fn write_tsv(entries: &[Entry]) -> (out: String)
    ensures
        out@ == tsv_lines(entries_view(entries@)),
{
    let mut out = String::new();
    let mut i: usize = 0;
    while i < entries.len()
        invariant
            i <= entries@.len(),
            out@ == tsv_lines(entries_view(entries@.subrange(0, i as int))),
        decreases entries.len() - i,
    {
        let e = &entries[i];
        let ghost before = out@;
        out.append(e.name.as_str());
        push_char(&mut out, '\t');
        let mut digits: Vec<u8> = Vec::new();
        push_hex08(&mut digits, e.crc.0 as u64);
        push_ascii(&mut out, digits.as_slice());
        match &e.sha1 {
            Some(s) => {
                push_char(&mut out, '\t');
                let h = hex_encode(s.0.as_slice());
                out.append(h.as_str());
            },
            None => {},
        }
        push_char(&mut out, '\n');
        proof {
            let es = entries_view(entries@.subrange(0, i + 1));
            assert(es.drop_last() =~= entries_view(entries@.subrange(0, i as int)));
            assert(es.last() == e@);
            assert(out@ =~= before + tsv_line(e@));
        }
        i = i + 1;
    }
    assert(entries@.subrange(0, i as int) =~= entries@);
    out
}

} // verus!
