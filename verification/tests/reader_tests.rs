use luavm::error::FormatError;
use luavm::reader::Reader;

#[test]
fn read_u32_is_little_endian() {
    let data = [0x78u8, 0x56, 0x34, 0x12, 0xff];
    let mut r = Reader::new(&data);
    assert_eq!(r.read_u32(), Ok(0x1234_5678));
    assert_eq!(r.read_byte(), Ok(0xff));
    assert_eq!(r.read_byte(), Err(FormatError::Truncated));
}

#[test]
fn fixed_width_reads_return_the_bytes_in_order() {
    let data: Vec<u8> = (1u8..=20).collect();
    let mut r = Reader::new(&data);
    assert_eq!(r.read_2(), Ok([1, 2]));
    assert_eq!(r.read_4(), Ok([3, 4, 5, 6]));
    assert_eq!(r.read_6(), Ok([7, 8, 9, 10, 11, 12]));
    assert_eq!(r.read_8(), Ok([13, 14, 15, 16, 17, 18, 19, 20]));
    assert_eq!(r.available(), 0);
    assert_eq!(r.read_2(), Err(FormatError::Truncated));
}

#[test]
fn a_failed_read_leaves_the_cursor_in_place() {
    let data = [1u8, 2, 3];
    let mut r = Reader::new(&data);
    assert_eq!(r.read_4(), Err(FormatError::Truncated));
    assert_eq!(r.read_6(), Err(FormatError::Truncated));
    assert_eq!(r.read_8(), Err(FormatError::Truncated));
    assert_eq!(r.read_u64(), Err(FormatError::Truncated));
    assert_eq!(r.read_bytes(4), Err(FormatError::Truncated));
    assert_eq!(r.available(), 3);
    assert_eq!(r.read_bytes(3), Ok(vec![1, 2, 3]));
}

#[test]
fn read_u16_and_u64_are_little_endian() {
    let data = [0x34u8, 0x12, 0xef, 0xcd, 0xab, 0x89, 0x67, 0x45, 0x23, 0x01];
    let mut r = Reader::new(&data);
    assert_eq!(r.read_u16(), Ok(0x1234));
    assert_eq!(r.read_u64(), Ok(0x0123_4567_89ab_cdef));
}

#[test]
fn read_i64_is_twos_complement() {
    let minus_two = (-2i64).to_le_bytes();
    let mut r = Reader::new(&minus_two);
    assert_eq!(r.read_i64(), Ok(-2));
    let min = i64::MIN.to_le_bytes();
    let mut r = Reader::new(&min);
    assert_eq!(r.read_i64(), Ok(i64::MIN));
    let max = i64::MAX.to_le_bytes();
    let mut r = Reader::new(&max);
    assert_eq!(r.read_i64(), Ok(i64::MAX));
}

#[test]
fn read_f64_gives_the_bit_pattern() {
    let bytes = 370.5f64.to_le_bytes();
    let mut r = Reader::new(&bytes);
    assert_eq!(r.read_f64(), Ok(370.5f64.to_bits()));
}

#[test]
fn read_char_maps_a_byte_to_its_code_point() {
    let data = [b'A', 0xe9];
    let mut r = Reader::new(&data);
    assert_eq!(r.read_char(), Ok('A'));
    assert_eq!(r.read_char(), Ok('\u{e9}'));
    assert_eq!(r.read_char(), Err(FormatError::Truncated));
}

#[test]
fn truncate_forgets_what_was_read() {
    let data = [9u8, 8, 7, 6];
    let mut r = Reader::new(&data);
    assert_eq!(r.read_2(), Ok([9, 8]));
    r.truncate();
    assert_eq!(r.available(), 2);
    assert_eq!(r.read_byte(), Ok(7));
}

#[test]
fn read_string_with_a_short_size() {
    let data = [6u8, b'h', b'e', b'l', b'l', b'o', 0x2a];
    let mut r = Reader::new(&data);
    assert_eq!(r.read_string(), Ok("hello".to_string()));
    assert_eq!(r.read_byte(), Ok(0x2a));
}

#[test]
fn read_string_of_size_zero_is_empty() {
    let data = [0u8, 7];
    let mut r = Reader::new(&data);
    assert_eq!(r.read_string(), Ok(String::new()));
    assert_eq!(r.read_byte(), Ok(7));
}

#[test]
fn read_string_of_size_one_is_empty_too() {
    let data = [1u8, 7];
    let mut r = Reader::new(&data);
    assert_eq!(r.read_string(), Ok(String::new()));
    assert_eq!(r.read_byte(), Ok(7));
}

#[test]
fn read_string_with_a_long_size() {
    let mut data = vec![0xffu8];
    data.extend_from_slice(&301u64.to_le_bytes());
    data.extend(std::iter::repeat(b'x').take(300));
    data.push(0x55);
    let mut r = Reader::new(&data);
    assert_eq!(r.read_string(), Ok("x".repeat(300)));
    assert_eq!(r.read_byte(), Ok(0x55));
}

#[test]
fn read_string_decodes_utf8() {
    let text = "h\u{e9}llo \u{4e16}\u{754c}";
    let mut data = vec![(text.len() + 1) as u8];
    data.extend_from_slice(text.as_bytes());
    let mut r = Reader::new(&data);
    assert_eq!(r.read_string(), Ok(text.to_string()));
}

#[test]
fn read_string_rejects_invalid_utf8() {
    let data = [3u8, 0xff, 0xfe];
    let mut r = Reader::new(&data);
    assert_eq!(r.read_string(), Err(FormatError::InvalidUtf8));
}

#[test]
fn read_string_that_runs_past_the_end_is_truncated() {
    let data = [6u8, b'h', b'e'];
    let mut r = Reader::new(&data);
    assert_eq!(r.read_string(), Err(FormatError::Truncated));
    let empty: [u8; 0] = [];
    let mut r = Reader::new(&empty);
    assert_eq!(r.read_string(), Err(FormatError::Truncated));
    let cut_size = [0xffu8, 1, 0, 0];
    let mut r = Reader::new(&cut_size);
    assert_eq!(r.read_string(), Err(FormatError::Truncated));
}

#[test]
fn read_string_with_a_long_size_of_zero_is_truncated() {
    let mut data = vec![0xffu8];
    data.extend_from_slice(&0u64.to_le_bytes());
    data.push(b'a');
    let mut r = Reader::new(&data);
    assert_eq!(r.read_string(), Err(FormatError::Truncated));
}

#[test]
fn read_string_with_a_huge_long_size_is_truncated() {
    let mut data = vec![0xffu8];
    data.extend_from_slice(&u64::MAX.to_le_bytes());
    data.push(b'a');
    let mut r = Reader::new(&data);
    assert_eq!(r.read_string(), Err(FormatError::Truncated));
}
