//! The entries of a database: a ROM's CRC32, its SHA1 where the database
//! records one, and its name.

use vstd::prelude::*;

verus! {

/// A CRC32 checksum.
#[derive(Debug, Clone, Copy, PartialEq, Eq)]
pub struct CRC32(pub u32);

/// A SHA1 digest, in the byte order of its usual hexadecimal spelling.
#[derive(Debug, Clone, Copy, PartialEq, Eq)]
pub struct SHA1(pub [u8; 20]);

/// One database entry. Old-style databases may record no SHA1.
#[derive(Debug, Clone, PartialEq, Eq)]
pub struct Entry {
    pub crc: CRC32,
    pub sha1: Option<SHA1>,
    pub name: String,
}

impl View for Entry {
    type V = (u32, Option<Seq<u8>>, Seq<char>);

    open spec fn view(&self) -> (u32, Option<Seq<u8>>, Seq<char>) {
        (
            self.crc.0,
            match self.sha1 {
                Some(s) => Some(s.0@),
                None => None,
            },
            self.name@,
        )
    }
}

/// The views of a list of entries.
pub open spec fn entries_view(es: Seq<Entry>) -> Seq<(u32, Option<Seq<u8>>, Seq<char>)> {
    es.map_values(|e: Entry| e@)
}

} // verus!
