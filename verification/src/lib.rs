//! Reading the ROM databases that GoodTools executables carry: locating their
//! tables (`search`), dumping new-style tables (`dump_new`), parsing old-style
//! entry strings (`dump_old`), and rendering the entries as text or XML.

pub mod codec;
pub mod entry;
pub mod hexparse;
pub mod text;
pub mod search;
pub mod dump_new;
pub mod dump_old;
pub mod report;
pub mod xml;
pub mod roundtrip;
pub mod laws;
