use zengyaku::dump_new::{dump, dump_crc, dump_name_addr, dump_names, dump_sha1, collect, read_c_string, DumpError};
use zengyaku::entry::{Entry, CRC32, SHA1};
use zengyaku::hexparse::{try_hex_to_crc, try_hex_to_sha, try_hex_to_u32};
use zengyaku::search::{dump_args_new, find_new, SearchResult};

const SHA_TEXT: &str = "28a0e1bccc4c10a57379f87c67c6c5ecf07fb0f4";
const SHA_BYTES: [u8; 20] = [
    0x28, 0xa0, 0xe1, 0xbc, 0xcc, 0x4c, 0x10, 0xa5, 0x73, 0x79, 0xf8, 0x7c, 0x67, 0xc6, 0xc5, 0xec,
    0xf0, 0x7f, 0xb0, 0xf4,
];

fn put(image: &mut Vec<u8>, at: usize, bytes: &[u8]) {
    image[at..at + bytes.len()].copy_from_slice(bytes);
}

/// A small image holding a new-style database of two entries.
fn new_style_image() -> Vec<u8> {
    let mut image = vec![0u8; 0x300];
    put(&mut image, 0x10, &try_hex_to_crc("2cbe41a6").unwrap());
    put(&mut image, 0x14, &0x12345678u32.to_le_bytes());
    put(&mut image, 0x20, &try_hex_to_sha(SHA_TEXT).unwrap());
    put(&mut image, 0x34, &[0x11; 20]);
    put(&mut image, 0x50, &(0x100u32 + 0x400c00).to_le_bytes());
    put(&mut image, 0x54, &(0x110u32 + 0x400c00).to_le_bytes());
    put(&mut image, 0x100, b"Wonder\0");
    put(&mut image, 0x110, b"Promo\0");
    put(&mut image, 0x140, b"\nStats: %d entries\0");
    put(&mut image, 0x170, &[0x68, 2, 0, 0, 0]);
    put(&mut image, 0x176, &[0x68, 0, 0, 0, 0]);
    put(&mut image, 0x180, &(0x140u32 + 0x400c00).to_le_bytes());
    image
}

#[test]
fn find_new_reports_all_tables() {
    let image = new_style_image();
    let crc = try_hex_to_crc("2cbe41a6").unwrap();
    let sha1 = try_hex_to_sha(SHA_TEXT).unwrap();
    let (res, out) = find_new(&image, &crc, &sha1, "Wonder");
    assert_eq!(
        res,
        SearchResult { crc_off: Some(0x10), sha1_off: Some(0x20), name_off: Some(0x50), known_num: Some(2) }
    );
    assert_eq!(out, "CRC: 00000010\nSHA1: 00000020\nName: 00000050\nKnown: 2\n");
}

#[test]
fn find_new_reports_nothing_when_absent() {
    let image = vec![0x41u8; 64];
    let (res, out) = find_new(&image, &[1, 2, 3, 4], &[9; 20], "Nothing");
    assert_eq!(res, SearchResult { crc_off: None, sha1_off: None, name_off: None, known_num: None });
    assert_eq!(out, "");
}

#[test]
fn find_new_lists_every_candidate() {
    let mut image = new_style_image();
    put(&mut image, 0x200, &try_hex_to_crc("2cbe41a6").unwrap());
    let crc = try_hex_to_crc("2cbe41a6").unwrap();
    let sha1 = try_hex_to_sha(SHA_TEXT).unwrap();
    let (res, out) = find_new(&image, &crc, &sha1, "Wonder");
    assert_eq!(res.crc_off, Some(0x10));
    assert!(out.starts_with("CRC: 00000010\nCRC: 00000200\n"));
}

#[test]
fn dump_new_reads_entries() {
    let image = new_style_image();
    let entries = dump(&image, 0x10, 0x20, 0x50, 2, 0x400c00).unwrap();
    assert_eq!(entries.len(), 2);
    assert_eq!(entries[0], Entry { crc: CRC32(0x2cbe41a6), sha1: Some(SHA1(SHA_BYTES)), name: "Wonder".to_string() });
    assert_eq!(entries[1], Entry { crc: CRC32(0x12345678), sha1: Some(SHA1([0x11; 20])), name: "Promo".to_string() });
}

#[test]
fn found_offsets_dump_back_the_first_entry() {
    let image = new_style_image();
    let crc = try_hex_to_crc("2cbe41a6").unwrap();
    let sha1 = try_hex_to_sha(SHA_TEXT).unwrap();
    let (res, _) = find_new(&image, &crc, &sha1, "Wonder");
    let crcs = dump_crc(&image, res.crc_off.unwrap() as u32, 1).unwrap();
    assert_eq!(crcs[0].0, try_hex_to_u32("2cbe41a6").unwrap());
    let shas = dump_sha1(&image, res.sha1_off.unwrap() as u32, 1).unwrap();
    assert_eq!(hex::encode(shas[0].0), SHA_TEXT);
    let names = dump_names(&image, res.name_off.unwrap() as u32, 1, 0x400c00).unwrap();
    assert_eq!(names[0], "Wonder");
}

#[test]
fn printed_arguments_read_back() {
    let image = new_style_image();
    let crc = try_hex_to_crc("2cbe41a6").unwrap();
    let sha1 = try_hex_to_sha(SHA_TEXT).unwrap();
    let (res, _) = find_new(&image, &crc, &sha1, "Wonder");
    let line = dump_args_new(&res, "Good.exe");
    assert_eq!(line, "-c 00000010 -s 00000020 -n 00000050 -k 2 \"Good.exe\"");
    let words: Vec<&str> = line.split(' ').collect();
    assert_eq!(try_hex_to_u32(words[1]), Ok(0x10));
    assert_eq!(try_hex_to_u32(words[3]), Ok(0x20));
    assert_eq!(try_hex_to_u32(words[5]), Ok(0x50));
}

#[test]
fn dump_args_new_defaults_to_zero() {
    let res = SearchResult { crc_off: None, sha1_off: Some(0x123456789), name_off: None, known_num: Some(-7) };
    assert_eq!(dump_args_new(&res, "x"), "-c 00000000 -s 123456789 -n 00000000 -k -7 \"x\"");
}

#[test]
fn table_past_the_end_is_eof() {
    let image = new_style_image();
    assert_eq!(dump_crc(&image, 0x2fe, 1).unwrap_err(), DumpError::UnexpectedEof);
    assert_eq!(dump_sha1(&image, 0x2f0, 1).unwrap_err(), DumpError::UnexpectedEof);
    assert_eq!(dump_crc(&image, 0x1000, 0).unwrap().len(), 0);
    assert_eq!(dump_name_addr(&image, 0x2fc, 1).unwrap(), vec![0]);
}

#[test]
fn pointer_below_base_is_refused() {
    let image = new_style_image();
    assert_eq!(dump_names(&image, 0x50, 1, 0x500000).unwrap_err(), DumpError::AddressBelowBase);
}

#[test]
fn strings_are_read_up_to_nul_within_the_window() {
    let mut image = vec![0x41u8; 9000];
    image[5] = 0;
    assert_eq!(read_c_string(&image, 2).unwrap(), b"AAA");
    assert_eq!(read_c_string(&image, 6).unwrap_err(), DumpError::StringTooLong);
    assert_eq!(read_c_string(&image, 8000).unwrap_err(), DumpError::UnexpectedEof);
    assert_eq!(read_c_string(&image, 20000).unwrap_err(), DumpError::UnexpectedEof);
}

#[test]
fn invalid_utf8_names_are_replaced() {
    let mut image = new_style_image();
    put(&mut image, 0x110, &[0x50, 0xff, 0x51, 0]);
    let names = dump_names(&image, 0x50, 2, 0x400c00).unwrap();
    assert_eq!(names[1], "P\u{fffd}Q");
}

#[test]
fn collect_stops_at_the_shortest_table() {
    let entries = collect(vec![CRC32(1), CRC32(2)], vec![SHA1([0; 20])], vec!["a".to_string(), "b".to_string()]);
    assert_eq!(entries, vec![Entry { crc: CRC32(1), sha1: Some(SHA1([0; 20])), name: "a".to_string() }]);
}

#[test]
fn searched_sha_text_dumps_back_lowercased() {
    let text = "28A0E1BCCC4C10A57379F87C67C6C5ECF07FB0F4";
    let sha1 = try_hex_to_sha(text).unwrap();
    let mut image = vec![0u8; 64];
    put(&mut image, 12, &sha1);
    let shas = dump_sha1(&image, 12, 1).unwrap();
    assert_eq!(hex::encode(shas[0].0), text.to_ascii_lowercase());
}
