use rshyeong::read_codepoint;

#[test]
fn codepoint_from_slice() {
    let codepoint = [0x61u8];
    let mut pos: usize = 0;
    assert_eq!(read_codepoint(&codepoint, &mut pos).unwrap(), 0x61);
    let codepoint = [0xc2u8, 0xa2];
    let mut pos: usize = 0;
    assert_eq!(read_codepoint(&codepoint, &mut pos).unwrap(), 0xa2);
    let codepoint = [0xe2u8, 0x82, 0xac];
    let mut pos: usize = 0;
    assert_eq!(read_codepoint(&codepoint, &mut pos).unwrap(), 0x20ac);
    let codepoint = [0xf0u8, 0x90, 0x8d, 0x88];
    let mut pos: usize = 0;
    assert_eq!(read_codepoint(&codepoint, &mut pos).unwrap(), 0x10348);
}

#[test]
fn codepoint_cursor_advances() {
    let data = "a\u{a2}\u{20ac}\u{10348}".as_bytes();
    let mut pos: usize = 0;
    assert_eq!(read_codepoint(data, &mut pos), Some(0x61));
    assert_eq!(pos, 1);
    assert_eq!(read_codepoint(data, &mut pos), Some(0xa2));
    assert_eq!(pos, 3);
    assert_eq!(read_codepoint(data, &mut pos), Some(0x20ac));
    assert_eq!(pos, 6);
    assert_eq!(read_codepoint(data, &mut pos), Some(0x10348));
    assert_eq!(pos, 10);
    assert_eq!(read_codepoint(data, &mut pos), None);
    assert_eq!(pos, 10);
}

#[test]
fn codepoint_invalid_lead() {
    // A lone continuation byte matches no lead pattern.
    let data = [0x80u8, 0x61];
    let mut pos: usize = 0;
    assert_eq!(read_codepoint(&data, &mut pos), None);
    assert_eq!(pos, 1);
    assert_eq!(read_codepoint(&data, &mut pos), Some(0x61));
}

#[test]
fn codepoint_invalid_continuation() {
    // The second byte of the two-byte sequence is not `10xxxxxx`.
    let data = [0xc2u8, 0x41];
    let mut pos: usize = 0;
    assert_eq!(read_codepoint(&data, &mut pos), None);
    assert_eq!(pos, 2);
}

#[test]
fn codepoint_short_read() {
    // A three-byte lead with only one byte following: the partial
    // bytes are consumed without rollback.
    let data = [0xe2u8, 0x82];
    let mut pos: usize = 0;
    assert_eq!(read_codepoint(&data, &mut pos), None);
    assert_eq!(pos, 2);
}
