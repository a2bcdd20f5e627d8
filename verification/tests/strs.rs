use uefi::data_types::chars::{Char16, Char8, Character};
use uefi::data_types::strs::{CStr, FromIntsWithNulError};

fn ints16(codes: &[u16]) -> Result<Vec<u16>, FromIntsWithNulError> {
    match CStr::<Char16>::from_ints_with_nul(codes) {
        Ok(s) => Ok(s.to_ints_slice_with_nul().to_vec()),
        Err(e) => Err(e),
    }
}

fn ints8(codes: &[u8]) -> Result<Vec<u8>, FromIntsWithNulError> {
    match CStr::<Char8>::from_ints_with_nul(codes) {
        Ok(s) => Ok(s.to_ints_slice_with_nul().to_vec()),
        Err(e) => Err(e),
    }
}

#[test]
fn validates_terminated_ucs2() {
    let codes = ['h' as u16, 'i' as u16, 0];
    assert_eq!(ints16(&codes), Ok(vec![104, 105, 0]));
}

#[test]
fn rejects_interior_nul() {
    let codes = ['h' as u16, 0, 'i' as u16, 0];
    assert_eq!(ints16(&codes), Err(FromIntsWithNulError::InteriorNul(1)));
}

#[test]
fn rejects_missing_terminator() {
    let codes = ['h' as u16, 'i' as u16];
    assert_eq!(ints16(&codes), Err(FromIntsWithNulError::NotNulTerminated));
}

#[test]
fn rejects_empty_slice() {
    assert_eq!(ints16(&[]), Err(FromIntsWithNulError::NotNulTerminated));
    assert_eq!(ints8(&[]), Err(FromIntsWithNulError::NotNulTerminated));
}

#[test]
fn accepts_lone_terminator() {
    assert_eq!(ints16(&[0]), Ok(vec![0]));
    let s = CStr::<Char8>::from_ints_with_nul(&[0]).ok().unwrap();
    assert!(s.to_ints_slice().is_empty());
}

#[test]
fn rejects_surrogate_at_its_position() {
    assert_eq!(ints16(&[0x41, 0xD800, 0]), Err(FromIntsWithNulError::InvalidChar(1)));
    assert_eq!(ints16(&[0xDFFF]), Err(FromIntsWithNulError::InvalidChar(0)));
    assert_eq!(ints16(&[0xD7FF, 0xE000, 0]), Ok(vec![0xD7FF, 0xE000, 0]));
}

#[test]
fn invalid_char_comes_before_later_nul() {
    assert_eq!(ints16(&[0xD800, 0, 0]), Err(FromIntsWithNulError::InvalidChar(0)));
}

#[test]
fn first_nul_is_the_one_reported() {
    assert_eq!(ints8(&[1, 2, 0, 0, 0]), Err(FromIntsWithNulError::InteriorNul(2)));
    assert_eq!(ints8(&[0, 7]), Err(FromIntsWithNulError::InteriorNul(0)));
}

#[test]
fn every_byte_is_a_latin1_character() {
    let mut codes: Vec<u8> = (1..=255).collect();
    codes.push(0);
    assert_eq!(ints8(&codes), Ok(codes.clone()));
}

#[test]
fn validation_is_idempotent() {
    let codes = [0x2603u16, 0x41, 0];
    let first = CStr::<Char16>::from_ints_with_nul(&codes).ok().unwrap();
    let again = CStr::<Char16>::from_ints_with_nul(first.to_ints_slice_with_nul()).ok().unwrap();
    assert_eq!(again.to_ints_slice_with_nul(), &codes[..]);
    assert_eq!(again.to_ints_slice(), &codes[..2]);
}

#[test]
fn slices_with_and_without_terminator() {
    let codes = [b'o', b'k', 0];
    let s = CStr::<Char8>::from_ints_with_nul(&codes).ok().unwrap();
    assert_eq!(s.to_ints_slice(), b"ok");
    assert_eq!(s.to_ints_slice_with_nul(), b"ok\0");
}

#[test]
fn unchecked_wraps_the_whole_slice() {
    let codes = [b'o', b'k', 0];
    let s = CStr::<Char8>::from_ints_with_nul_unchecked(&codes);
    assert_eq!(s.to_ints_slice_with_nul(), &codes[..]);
}

#[test]
fn char_indices_pair_positions_with_characters() {
    let codes = [0x48u16, 0xE9, 0x2603, 0];
    let s = CStr::<Char16>::from_ints_with_nul(&codes).ok().unwrap();
    let mut iter = s.char_indices();
    let mut pairs = Vec::new();
    while let Some((i, c)) = iter.next() {
        pairs.push((i, c.to_char()));
    }
    assert_eq!(pairs, vec![(0, 'H'), (1, 'é'), (2, '☃')]);
    assert_eq!(iter.next(), None);
    assert_eq!(iter.next_back(), None);
}

#[test]
fn char_indices_from_the_back() {
    let codes = [0x48u16, 0xE9, 0x2603, 0];
    let s = CStr::<Char16>::from_ints_with_nul(&codes).ok().unwrap();
    let mut iter = s.char_indices();
    let mut back = Vec::new();
    while let Some((i, c)) = iter.next_back() {
        back.push((i, c.to_int()));
    }
    assert_eq!(back, vec![(2, 0x2603), (1, 0xE9), (0, 0x48)]);
}

#[test]
fn char_indices_from_both_ends() {
    let codes = *b"abcd\0";
    let s = CStr::<Char8>::from_ints_with_nul(&codes).ok().unwrap();
    let mut iter = s.char_indices();
    assert_eq!(iter.next().map(|(i, c)| (i, c.to_char())), Some((0, 'a')));
    assert_eq!(iter.next_back().map(|(i, c)| (i, c.to_char())), Some((3, 'd')));
    assert_eq!(iter.next_back().map(|(i, c)| (i, c.to_char())), Some((2, 'c')));
    assert_eq!(iter.next().map(|(i, c)| (i, c.to_char())), Some((1, 'b')));
    assert_eq!(iter.next(), None);
    assert_eq!(iter.next_back(), None);
}

#[test]
fn char_indices_of_the_empty_string() {
    let s = CStr::<Char8>::from_ints_with_nul(&[0]).ok().unwrap();
    assert_eq!(s.char_indices().next(), None);
    assert_eq!(s.char_indices().next_back(), None);
}

#[test]
fn latin1_characters() {
    assert_eq!(Char8::try_from_char('A').map(|c| c.to_int()), Some(0x41));
    assert_eq!(Char8::try_from_char('ÿ').map(|c| c.to_int()), Some(0xFF));
    assert_eq!(Char8::try_from_char('\u{100}'), None);
    assert_eq!(Char8::try_from_char('€'), None);
    assert_eq!(Char8::try_from_int(0xE9).map(|c| c.to_char()), Some('é'));
    assert_eq!(Char8::nul().to_int(), 0);
    assert_eq!(Char8::carriage_return().to_char(), '\r');
    assert!(Char8::nul().equals(Char8::try_from_char('\0').unwrap()));
    assert!(!Char8::nul().equals(Char8::carriage_return()));
}

#[test]
fn ucs2_characters() {
    assert_eq!(Char16::try_from_char('☃').map(|c| c.to_int()), Some(0x2603));
    assert_eq!(Char16::try_from_char('\u{FFFF}').map(|c| c.to_int()), Some(0xFFFF));
    assert_eq!(Char16::try_from_char('\u{10000}'), None);
    assert_eq!(Char16::try_from_char('😀'), None);
    assert_eq!(Char16::try_from_int(0xD800), None);
    assert_eq!(Char16::try_from_int(0xDBFF), None);
    assert_eq!(Char16::try_from_int(0xDC00), None);
    assert_eq!(Char16::try_from_int(0xDFFF), None);
    assert_eq!(Char16::try_from_int(0xD7FF).map(|c| c.to_char()), Some('\u{D7FF}'));
    assert_eq!(Char16::try_from_int(0xE000).map(|c| c.to_char()), Some('\u{E000}'));
    assert_eq!(Char16::try_from_int(0x2603).map(|c| c.to_char()), Some('☃'));
    assert_eq!(Char16::nul().to_int(), 0);
    assert_eq!(Char16::carriage_return().to_int(), 13);
}
