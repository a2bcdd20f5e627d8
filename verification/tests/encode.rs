use uefi::data_types::chars::{Char16, Char8};
use uefi::data_types::encoder::encode_clusters;
use uefi::data_types::graphemes::SliceStarts;
use uefi::data_types::strs::{encode, StrEncodeError};

fn encode8(input: &str, capacity: usize) -> Result<(Vec<u8>, Option<String>), StrEncodeError> {
    let mut buffer = vec![0xAAu8; capacity];
    match encode::<Char8>(input, &mut buffer) {
        Ok((s, rest)) => Ok((s.to_ints_slice_with_nul().to_vec(), rest.map(String::from))),
        Err(e) => Err(e),
    }
}

fn encode16(input: &str, capacity: usize) -> Result<(Vec<u16>, Option<String>), StrEncodeError> {
    let mut buffer = vec![0xAAAAu16; capacity];
    match encode::<Char16>(input, &mut buffer) {
        Ok((s, rest)) => Ok((s.to_ints_slice_with_nul().to_vec(), rest.map(String::from))),
        Err(e) => Err(e),
    }
}

#[test]
fn line_feed_gets_a_carriage_return() {
    assert_eq!(encode8("hi\n", 5), Ok((vec![b'h', b'i', 13, 10, 0], None)));
}

#[test]
fn line_feed_that_does_not_fit_is_deferred() {
    assert_eq!(encode8("hi\n", 4), Ok((vec![b'h', b'i', 0], Some(String::from("\n")))));
}

#[test]
fn output_sits_in_front_of_the_buffer() {
    let mut buffer = [0xAAu8; 6];
    {
        let (s, rest) = encode::<Char8>("ab", &mut buffer).ok().unwrap();
        assert_eq!(s.to_ints_slice(), b"ab");
        assert_eq!(rest, None);
    }
    assert_eq!(&buffer[..3], b"ab\0");
    assert_eq!(buffer.len(), 6);
}

#[test]
fn empty_input_gives_the_empty_string() {
    assert_eq!(encode8("", 1), Ok((vec![0], None)));
    assert_eq!(encode16("", 3), Ok((vec![0], None)));
}

#[test]
fn no_room_for_first_cluster() {
    assert_eq!(encode8("a", 1), Err(StrEncodeError::BufferTooSmall));
    assert_eq!(encode8("\n", 2), Err(StrEncodeError::BufferTooSmall));
    assert_eq!(encode16("e\u{301}x", 2), Err(StrEncodeError::BufferTooSmall));
}

#[test]
fn truncation_keeps_clusters_whole() {
    assert_eq!(encode16("e\u{301}x", 3), Ok((vec![0x65, 0x301, 0], Some(String::from("x")))));
    assert_eq!(
        encode16("ae\u{301}x", 3),
        Ok((vec![0x61, 0], Some(String::from("e\u{301}x"))))
    );
    assert_eq!(encode16("ae\u{301}x", 5), Ok((vec![0x61, 0x65, 0x301, 0x78, 0], None)));
}

#[test]
fn carriage_return_and_line_feed_are_one_cluster() {
    assert_eq!(encode8("a\r\nb", 4), Ok((vec![b'a', 0], Some(String::from("\r\nb")))));
    assert_eq!(encode8("a\r\nb", 5), Ok((vec![b'a', 13, 13, 10, 0], Some(String::from("b")))));
    assert_eq!(encode8("a\r\nb", 6), Ok((vec![b'a', 13, 13, 10, b'b', 0], None)));
}

#[test]
fn smaller_buffer_takes_a_prefix() {
    let input = "ab\ncd\u{e9}";
    let (full, rest) = encode8(input, 16).unwrap();
    assert_eq!(rest, None);
    assert_eq!(full, vec![b'a', b'b', 13, 10, b'c', b'd', 0xE9, 0]);
    let mut consumed_before = 0;
    for capacity in 2..=8 {
        let (part, rest) = encode8(input, capacity).unwrap();
        let units = &part[..part.len() - 1];
        assert_eq!(units, &full[..units.len()]);
        let consumed = input.len() - rest.map_or(0, |r| r.len());
        assert!(consumed >= consumed_before);
        consumed_before = consumed;
    }
    assert_eq!(consumed_before, input.len());
}

#[test]
fn interior_nul_is_reported_at_its_byte_offset() {
    assert_eq!(encode8("\0", 4), Err(StrEncodeError::InteriorNul(0)));
    assert_eq!(encode8("ab\0c", 8), Err(StrEncodeError::InteriorNul(2)));
    assert_eq!(encode16("é☃\0", 8), Err(StrEncodeError::InteriorNul(5)));
    assert_eq!(encode8("a\nb\0", 8), Err(StrEncodeError::InteriorNul(3)));
}

#[test]
fn nul_behind_the_end_of_the_buffer_is_not_reached() {
    assert_eq!(encode8("ab\0", 2), Ok((vec![b'a', 0], Some(String::from("b\0")))));
    assert_eq!(encode8("a\0", 1), Err(StrEncodeError::BufferTooSmall));
}

#[test]
fn unsupported_char_is_reported_at_its_byte_offset() {
    assert_eq!(encode8("€", 4), Err(StrEncodeError::UnsupportedChar(0)));
    assert_eq!(encode8("aé€", 8), Err(StrEncodeError::UnsupportedChar(3)));
    assert_eq!(encode16("☃😀", 8), Err(StrEncodeError::UnsupportedChar(3)));
    assert_eq!(encode8("€\0", 8), Err(StrEncodeError::UnsupportedChar(0)));
}

#[test]
fn unsupported_char_is_found_even_when_the_buffer_is_full() {
    assert_eq!(encode8("ab€", 3), Err(StrEncodeError::UnsupportedChar(2)));
}

#[test]
fn latin1_and_ucs2_code_units() {
    assert_eq!(encode8("é", 2), Ok((vec![0xE9, 0], None)));
    assert_eq!(encode16("é☃", 3), Ok((vec![0xE9, 0x2603, 0], None)));
}

#[test]
fn clusters_given_by_the_caller() {
    let mut buffer = [0u8; 3];
    let r = encode_clusters::<Char8, _>("abc", SliceStarts::new(&[0, 2]), &mut buffer);
    let (s, rest) = r.ok().unwrap();
    assert_eq!(s.to_ints_slice_with_nul(), b"ab\0");
    assert_eq!(rest, Some("c"));
    let mut buffer = [0u8; 2];
    let r = encode_clusters::<Char8, _>("abc", SliceStarts::new(&[0, 2]), &mut buffer);
    assert_eq!(r.err(), Some(StrEncodeError::BufferTooSmall));
    let mut buffer = [0u8; 4];
    let r = encode_clusters::<Char8, _>("abc", SliceStarts::new(&[]), &mut buffer);
    let (s, rest) = r.ok().unwrap();
    assert_eq!(s.to_ints_slice_with_nul(), b"abc\0");
    assert_eq!(rest, None);
}

#[test]
fn buffer_behind_the_string_is_left_alone() {
    let mut buffer = [0xAAu8; 6];
    assert!(encode::<Char8>("ab", &mut buffer).is_ok());
    assert_eq!(buffer, [b'a', b'b', 0, 0xAA, 0xAA, 0xAA]);
    let mut buffer = [0xAAu8; 4];
    assert!(encode::<Char8>("abcd", &mut buffer).is_ok());
    assert_eq!(buffer, [b'a', b'b', b'c', 0]);
    let mut buffer = [0xAAu8; 4];
    assert!(encode::<Char8>("ab\nc", &mut buffer).is_ok());
    assert_eq!(buffer, [b'a', b'b', 0, 0xAA]);
    let mut buffer = [0xAAu8; 5];
    assert!(encode::<Char8>("ab\nc", &mut buffer).is_ok());
    assert_eq!(buffer, [b'a', b'b', 13, 10, 0]);
    let mut buffer = [0xAAu8; 4];
    let r = encode_clusters::<Char8, _>("a\nb", SliceStarts::new(&[0]), &mut buffer);
    assert_eq!(r.err(), Some(StrEncodeError::BufferTooSmall));
    assert_eq!(buffer, [b'a', 13, 10, 0xAA]);
    let mut buffer = [0xAAu8; 3];
    let r = encode_clusters::<Char8, _>("a\nb", SliceStarts::new(&[0]), &mut buffer);
    assert_eq!(r.err(), Some(StrEncodeError::BufferTooSmall));
    assert_eq!(buffer, [b'a', 13, 0xAA]);
    let mut buffer = [0xAAu8; 4];
    let r = encode_clusters::<Char8, _>("ab\nc", SliceStarts::new(&[0, 1, 3]), &mut buffer);
    assert!(r.is_ok());
    assert_eq!(buffer, [b'a', 0, 13, 0xAA]);
    let mut buffer = [0xAAu8; 5];
    assert_eq!(encode::<Char8>("ab\0", &mut buffer).err(), Some(StrEncodeError::InteriorNul(2)));
    assert_eq!(buffer, [b'a', b'b', 0xAA, 0xAA, 0xAA]);
}
