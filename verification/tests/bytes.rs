use faun::targets::bytes::Bytes;

fn written(build: impl FnOnce(&mut Bytes)) -> Vec<u8> {
    let mut bytes = Bytes::default();
    build(&mut bytes);
    bytes.finish()
}

#[test]
fn unsigned_integers_grow_a_byte_at_a_time() {
    assert_eq!(written(|b| b.uleb(0)), [0x00]);
    assert_eq!(written(|b| b.uleb(127)), [0x7F]);
    assert_eq!(written(|b| b.uleb(128)), [0x80, 0x01]);
    assert_eq!(written(|b| b.uleb(624_485)), [0xE5, 0x8E, 0x26]);
}

#[test]
fn signed_integers_carry_their_sign() {
    assert_eq!(written(|b| b.sleb(0)), [0x00]);
    assert_eq!(written(|b| b.sleb(63)), [0x3F]);
    // 64 needs a second byte, because 0x40 would read back as -64.
    assert_eq!(written(|b| b.sleb(64)), [0xC0, 0x00]);
    assert_eq!(written(|b| b.sleb(-1)), [0x7F]);
    assert_eq!(written(|b| b.sleb(-123_456)), [0xC0, 0xBB, 0x78]);
}

#[test]
fn an_empty_section_is_left_out_entirely() {
    assert_eq!(written(|b| b.section(11, |_| {})), []);
    assert_eq!(written(|b| b.section(11, |s| s.byte(9))), [11, 1, 9]);
}

#[test]
fn little_endian_numbers_start_with_their_low_byte() {
    assert_eq!(written(|b| b.le16(0x1234)), [0x34, 0x12]);
    assert_eq!(written(|b| b.le32(0x1234_5678)), [0x78, 0x56, 0x34, 0x12]);
    assert_eq!(written(|b| b.le64(0x0102_0304_0506_0708)), [8, 7, 6, 5, 4, 3, 2, 1]);
}

#[test]
fn the_extremes_of_both_encodings_are_five_bytes() {
    assert_eq!(written(|b| b.uleb(u32::MAX)), [0xFF, 0xFF, 0xFF, 0xFF, 0x0F]);
    assert_eq!(written(|b| b.sleb(i32::MIN)), [0x80, 0x80, 0x80, 0x80, 0x78]);
    assert_eq!(written(|b| b.sleb(i32::MAX)), [0xFF, 0xFF, 0xFF, 0xFF, 0x07]);
}

#[test]
fn a_name_and_a_sized_run_follow_their_length() {
    assert_eq!(written(|b| b.name("abc")), [3, b'a', b'b', b'c']);
    assert_eq!(written(|b| b.sized(|s| s.bytes(&[7, 8]))), [2, 7, 8]);
}
