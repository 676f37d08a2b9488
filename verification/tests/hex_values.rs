use zengyaku::hexparse::{try_hex_to_crc, try_hex_to_sha, try_hex_to_u32, HexError};

#[test]
fn offset_parses() {
    assert_eq!(try_hex_to_u32("400c00"), Ok(0x400c00));
    assert_eq!(try_hex_to_u32("+ff"), Ok(0xff));
    assert_eq!(try_hex_to_u32("FFFFFFFF"), Ok(u32::MAX));
}

#[test]
fn offset_errors() {
    assert_eq!(try_hex_to_u32(""), Err(HexError::Empty));
    assert_eq!(try_hex_to_u32("+"), Err(HexError::InvalidDigit));
    assert_eq!(try_hex_to_u32("-1"), Err(HexError::InvalidDigit));
    assert_eq!(try_hex_to_u32("12g"), Err(HexError::InvalidDigit));
    assert_eq!(try_hex_to_u32("100000000"), Err(HexError::PosOverflow));
}

#[test]
fn crc_bytes_are_little_endian() {
    assert_eq!(try_hex_to_crc("2cbe41a6"), Ok([0xa6, 0x41, 0xbe, 0x2c]));
}

#[test]
fn sha_groups_are_little_endian() {
    let sha = try_hex_to_sha("28a0e1bccc4c10a57379f87c67c6c5ecf07fb0f4").unwrap();
    assert_eq!(
        sha,
        [
            0xbc, 0xe1, 0xa0, 0x28, 0xa5, 0x10, 0x4c, 0xcc, 0x7c, 0xf8, 0x79, 0x73, 0xec, 0xc5,
            0xc6, 0x67, 0xf4, 0xb0, 0x7f, 0xf0
        ]
    );
    assert_eq!(try_hex_to_sha("28a0"), Err(HexError::WrongLength));
}

#[test]
fn crc_digits_print_back() {
    for s in ["2cbe41a6", "00000000", "ffffffff", "0a0b0c0d"] {
        let bytes = try_hex_to_crc(s).unwrap();
        assert_eq!(format!("{:08x}", u32::from_le_bytes(bytes)), s);
    }
}
