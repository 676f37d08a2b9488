use zengyaku::dump_new::DumpError;
use zengyaku::dump_old::{dump, dump_entries, dump_entry_addr, parse_entry};
use zengyaku::entry::{Entry, CRC32, SHA1};
use zengyaku::search::{dump_args_old, find_old, SearchResult};

fn put(image: &mut Vec<u8>, at: usize, bytes: &[u8]) {
    image[at..at + bytes.len()].copy_from_slice(bytes);
}

const SHA_BYTES: [u8; 20] = [
    0x28, 0xa0, 0xe1, 0xbc, 0xcc, 0x4c, 0x10, 0xa5, 0x73, 0x79, 0xf8, 0x7c, 0x67, 0xc6, 0xc5, 0xec,
    0xf0, 0x7f, 0xb0, 0xf4,
];

/// A small image holding an old-style database of two entries.
fn old_style_image() -> Vec<u8> {
    let mut image = vec![0u8; 0x300];
    put(&mut image, 0x40, &(0x100u32 + 0x400c00).to_le_bytes());
    put(&mut image, 0x44, &(0x180u32 + 0x400c00).to_le_bytes());
    put(&mut image, 0x100, b"2cbe41a6 Wonder|28a0e1bc cc4c10a5 7379f87c 67c6c5ec f07fb0f4\0");
    put(&mut image, 0x180, b"12345678 Promo\0");
    put(&mut image, 0x1c0, b"\nStats: %d entries\0");
    put(&mut image, 0x210, &[0x68, 2, 0, 0, 0]);
    put(&mut image, 0x216, &[0x68, 0, 0, 0, 0]);
    put(&mut image, 0x220, &(0x1c0u32 + 0x400c00).to_le_bytes());
    image
}

#[test]
fn find_old_by_crc() {
    let image = old_style_image();
    let (res, out) = find_old(&image, Some([0xa6, 0x41, 0xbe, 0x2c]), None);
    assert_eq!(res, SearchResult { crc_off: Some(0x40), sha1_off: None, name_off: None, known_num: Some(2) });
    assert_eq!(out, "Entry: 00000040\nKnown: 2\n");
}

#[test]
fn find_old_by_name() {
    let image = old_style_image();
    let (res, out) = find_old(&image, None, Some("Wonder".to_string()));
    assert_eq!(res.crc_off, Some(0x40));
    assert_eq!(out, "Entry: 00000040\nKnown: 2\n");
}

#[test]
fn find_old_prefers_the_crc() {
    let image = old_style_image();
    let (res, _) = find_old(&image, Some([1, 2, 3, 4]), Some("Wonder".to_string()));
    assert_eq!(res.crc_off, None);
    assert_eq!(res.known_num, Some(2));
}

#[test]
fn find_old_arguments() {
    let image = old_style_image();
    let (res, _) = find_old(&image, Some([0xa6, 0x41, 0xbe, 0x2c]), None);
    assert_eq!(dump_args_old(&res, "Pico.exe"), "-e 00000040 -k 2 \"Pico.exe\"");
}

#[test]
fn dump_old_reads_entries() {
    let image = old_style_image();
    let entries = dump(&image, 0x40, 2).unwrap();
    assert_eq!(
        entries,
        vec![
            Entry { crc: CRC32(0x2cbe41a6), sha1: Some(SHA1(SHA_BYTES)), name: "Wonder".to_string() },
            Entry { crc: CRC32(0x12345678), sha1: None, name: "Promo".to_string() },
        ]
    );
}

#[test]
fn dump_old_found_offset_dumps_first_entry() {
    let image = old_style_image();
    let (res, _) = find_old(&image, Some([0xa6, 0x41, 0xbe, 0x2c]), None);
    let entries = dump(&image, res.crc_off.unwrap() as u32, 1).unwrap();
    assert_eq!(entries[0].crc, CRC32(u32::from_le_bytes([0xa6, 0x41, 0xbe, 0x2c])));
}

#[test]
fn dump_old_strings_and_table() {
    let image = old_style_image();
    assert_eq!(dump_entry_addr(&image, 0x40, 2).unwrap(), vec![0x400d00, 0x400d80]);
    assert_eq!(dump_entries(&image, 0x40, 2).unwrap()[1], "12345678 Promo");
}

#[test]
fn dump_old_refuses_a_bad_entry() {
    let mut image = old_style_image();
    put(&mut image, 0x180, b"1234567 Promo\0");
    assert_eq!(dump(&image, 0x40, 2).unwrap_err(), DumpError::BadEntry);
}

#[test]
fn parse_entry_with_sha1() {
    let e = parse_entry("2cbe41a6 Wonder|28a0e1bc cc4c10a5 7379f87c 67c6c5ec f07fb0f4").unwrap();
    assert_eq!(e, Entry { crc: CRC32(0x2cbe41a6), sha1: Some(SHA1(SHA_BYTES)), name: "Wonder".to_string() });
}

#[test]
fn parse_entry_with_trailing_blanks_and_newline() {
    let e = parse_entry("2CBE41A6\t\tWonder Two|28A0E1BC\tcc4c10a5  7379f87c 67c6c5ec f07fb0f4 \t\n").unwrap();
    assert_eq!(e, Entry { crc: CRC32(0x2cbe41a6), sha1: Some(SHA1(SHA_BYTES)), name: "Wonder Two".to_string() });
}

#[test]
fn parse_entry_without_sha1_keeps_the_rest_as_name() {
    let e = parse_entry("0000ffff Name with spaces  \n").unwrap();
    assert_eq!(e, Entry { crc: CRC32(0xffff), sha1: None, name: "Name with spaces  \n".to_string() });
}

#[test]
fn parse_entry_empty_name() {
    let e = parse_entry("0000ffff ").unwrap();
    assert_eq!(e.name, "");
    assert_eq!(e.sha1, None);
}

#[test]
fn parse_entry_refusals() {
    assert_eq!(parse_entry("2cbe41a Wonder"), Err(DumpError::BadEntry));
    assert_eq!(parse_entry("2cbe41a6Wonder"), Err(DumpError::BadEntry));
    assert_eq!(parse_entry("2cbe41a6"), Err(DumpError::BadEntry));
    assert_eq!(parse_entry("2cbe41a6 W|bad"), Err(DumpError::BadEntry));
    assert_eq!(parse_entry("2cbe41a6 W|28a0e1bc cc4c10a5 7379f87c 67c6c5ec f07fb0f4 x"), Err(DumpError::BadEntry));
    assert_eq!(parse_entry("2cbe41a6 W|28a0e1bc cc4c10a5 7379f87c 67c6c5ec f07fb0f4\n\n"), Err(DumpError::BadEntry));
    assert_eq!(parse_entry("2cbe41a6 W|28a0e1bccc4c10a5 7379f87c 67c6c5ec f07fb0f4"), Err(DumpError::BadEntry));
    assert_eq!(parse_entry(""), Err(DumpError::BadEntry));
}

#[test]
fn parse_entry_unicode_name() {
    let e = parse_entry("00000001 Pokémon 「金」").unwrap();
    assert_eq!(e.name, "Pokémon 「金」");
    assert_eq!(e.crc, CRC32(1));
}

#[test]
fn formatted_entry_reads_back() {
    let c: u32 = 0x0badf00d;
    let s: [u8; 20] = [
        0x00, 0x01, 0xfe, 0xff, 0x10, 0x20, 0x30, 0x40, 0xa0, 0xb0, 0xc0, 0xd0, 0x0f, 0x1e, 0x2d,
        0x3c, 0x99, 0x88, 0x77, 0x66,
    ];
    let n = "Zelda: Link's Awakening DX".to_string();
    let w = |k: usize| format!("{:02x}{:02x}{:02x}{:02x}", s[4 * k], s[4 * k + 1], s[4 * k + 2], s[4 * k + 3]);
    let text = format!("{:08x} {}|{} {} {} {} {}", c, n, w(0), w(1), w(2), w(3), w(4));
    let e = parse_entry(&text).unwrap();
    assert_eq!(e, Entry { crc: CRC32(c), sha1: Some(SHA1(s)), name: n.clone() });
}
