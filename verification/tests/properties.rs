use unicode_segmentation::UnicodeSegmentation;

use uefi::data_types::chars::{Char16, Char8, Character};
use uefi::data_types::strs::{decode, encode, CStr, StrDecodeError, StrEncodeError};

/// A small deterministic generator of test data.
struct Lcg(u64);

impl Lcg {
    fn next(&mut self, bound: usize) -> usize {
        self.0 = self.0.wrapping_mul(6364136223846793005).wrapping_add(1442695040888963407);
        ((self.0 >> 33) as usize) % bound
    }
}

const ALPHABET: [char; 16] = [
    'a', 'b', ' ', '\n', '\r', 'é', 'ÿ', '☃', '\u{301}', '\u{302}', '\u{200D}', '\u{1F1F7}',
    '\u{1F1F8}', '😀', '\u{1100}', '\u{1161}',
];

fn text(rng: &mut Lcg, alphabet: &[char], max_len: usize) -> String {
    let len = rng.next(max_len + 1);
    (0..len).map(|_| alphabet[rng.next(alphabet.len())]).collect()
}

/// The conversion written cluster by cluster, with a vector for the output.
fn cluster_by_cluster<C: Character>(
    input: &str,
    capacity: usize,
) -> Result<(Vec<C::IntRepr>, Option<&str>), StrEncodeError> {
    let room = capacity - 1;
    let mut output = Vec::new();
    let mut parsed = 0;
    'clusters: for (start, cluster) in input.grapheme_indices(true) {
        let mark = output.len();
        for (at, c) in cluster.char_indices() {
            if c == '\0' {
                return Err(StrEncodeError::InteriorNul(start + at));
            }
            if c == '\n' {
                if output.len() < room {
                    output.push(C::carriage_return().to_int());
                } else {
                    output.truncate(mark);
                    break 'clusters;
                }
            }
            let unit = match C::try_from_char(c) {
                Some(unit) => unit,
                None => return Err(StrEncodeError::UnsupportedChar(start + at)),
            };
            if output.len() < room {
                output.push(unit.to_int());
            } else {
                output.truncate(mark);
                break 'clusters;
            }
        }
        parsed = start + cluster.len();
    }
    let rest = if parsed < input.len() { Some(&input[parsed..]) } else { None };
    if parsed == 0 && rest.is_some() {
        return Err(StrEncodeError::BufferTooSmall);
    }
    output.push(C::nul().to_int());
    Ok((output, rest))
}

fn encoded<C: Character>(
    input: &str,
    capacity: usize,
) -> Result<(Vec<C::IntRepr>, Option<&str>), StrEncodeError>
where
    C::IntRepr: Default,
{
    let mut buffer = vec![C::IntRepr::default(); capacity];
    match encode::<C>(input, &mut buffer) {
        Ok((s, rest)) => Ok((s.to_ints_slice_with_nul().to_vec(), rest)),
        Err(e) => Err(e),
    }
}

#[test]
fn encoding_agrees_with_cluster_by_cluster_conversion_in_ucs2() {
    let mut rng = Lcg(1);
    let mut alphabet = ALPHABET.to_vec();
    alphabet.push('\0');
    for _ in 0..4000 {
        let input = text(&mut rng, &alphabet, 12);
        let capacity = 1 + rng.next(16);
        assert_eq!(
            encoded::<Char16>(&input, capacity),
            cluster_by_cluster::<Char16>(&input, capacity),
            "{:?} into {}",
            input,
            capacity
        );
    }
}

#[test]
fn encoding_agrees_with_cluster_by_cluster_conversion_in_latin1() {
    let mut rng = Lcg(2);
    let alphabet = ['a', '\n', '\r', 'é', 'ÿ', '\u{AD}', '\0', '☃', '\u{301}'];
    for _ in 0..4000 {
        let input = text(&mut rng, &alphabet, 10);
        let capacity = 1 + rng.next(14);
        assert_eq!(
            encoded::<Char8>(&input, capacity),
            cluster_by_cluster::<Char8>(&input, capacity),
            "{:?} into {}",
            input,
            capacity
        );
    }
}

#[test]
fn encoding_never_parts_a_cluster() {
    let mut rng = Lcg(3);
    let alphabet = &ALPHABET[..11];
    for _ in 0..2000 {
        let input = text(&mut rng, alphabet, 12);
        let capacity = 1 + rng.next(16);
        if let Ok((_, Some(rest))) = encoded::<Char16>(&input, capacity) {
            let consumed = input.len() - rest.len();
            assert!(consumed > 0);
            assert!(input.grapheme_indices(true).any(|(start, _)| start == consumed));
        }
    }
}

#[test]
fn encoding_piece_by_piece_gives_the_whole() {
    let mut rng = Lcg(4);
    let alphabet = &ALPHABET[..11];
    for _ in 0..1000 {
        let input = text(&mut rng, alphabet, 24);
        let (whole, rest) = encoded::<Char16>(&input, 64).unwrap();
        assert_eq!(rest, None);
        let capacity = 14 + rng.next(8);
        let mut units = Vec::new();
        let mut left = Some(input.as_str());
        while let Some(piece) = left {
            let (part, after) = encoded::<Char16>(piece, capacity).unwrap();
            units.extend_from_slice(&part[..part.len() - 1]);
            left = after;
        }
        units.push(0);
        assert_eq!(units, whole, "{:?} through {}", input, capacity);
    }
}

fn units(rng: &mut Lcg, max_len: usize) -> Vec<u16> {
    let codes = [0x61, 0x62, 0x0A, 0x0D, 0xE9, 0x2603, 0x301, 0x302, 0x200D, 0x1100, 0x1161, 0xFFFF];
    let len = rng.next(max_len + 1);
    let mut all: Vec<u16> = (0..len).map(|_| codes[rng.next(codes.len())]).collect();
    all.push(0);
    all
}

fn decoded(codes: &[u16], capacity: usize) -> Result<(String, Option<Vec<u16>>), StrDecodeError> {
    let input = CStr::<Char16>::from_ints_with_nul(codes).ok().unwrap();
    let mut buffer = vec![0u8; capacity];
    match decode::<Char16>(&input, &mut buffer) {
        Ok((s, rest)) => {
            Ok((String::from(s), rest.map(|r| r.to_ints_slice_with_nul().to_vec())))
        }
        Err(e) => Err(e),
    }
}

/// The text that code units are read as, written with a string that grows.
fn read_as(codes: &[u16]) -> String {
    let mut text = String::new();
    let mut after_carriage_return = false;
    for &code in &codes[..codes.len() - 1] {
        let c = char::from_u32(code as u32).unwrap();
        if after_carriage_return && c == '\n' {
            text.pop();
        }
        text.push(c);
        after_carriage_return = c == '\r';
    }
    text
}

#[test]
fn decoding_into_a_large_buffer_reads_everything() {
    let mut rng = Lcg(5);
    for _ in 0..2000 {
        let codes = units(&mut rng, 16);
        assert_eq!(decoded(&codes, 64), Ok((read_as(&codes), None)), "{:?}", codes);
    }
}

#[test]
fn decoding_piece_by_piece_gives_the_whole() {
    let mut rng = Lcg(6);
    for _ in 0..2000 {
        let codes = units(&mut rng, 24);
        let capacity = 40 + rng.next(8);
        let mut text = String::new();
        let mut from = 0;
        loop {
            let (piece, rest) = decoded(&codes[from..], capacity).unwrap();
            assert!(piece.len() <= capacity);
            text.push_str(&piece);
            match rest {
                Some(rest) => {
                    assert!(rest.len() < codes.len() - from);
                    assert_eq!(rest, &codes[codes.len() - rest.len()..]);
                    from = codes.len() - rest.len();
                }
                None => break,
            }
        }
        assert_eq!(text, read_as(&codes), "{:?} through {}", codes, capacity);
    }
}

#[test]
fn decoding_cuts_before_the_last_cluster_that_was_read() {
    let mut rng = Lcg(7);
    for _ in 0..4000 {
        let codes = units(&mut rng, 12);
        let capacity = rng.next(20);
        let whole = read_as(&codes);
        match decoded(&codes, capacity) {
            Ok((text, None)) => assert_eq!(text, whole),
            Ok((text, Some(rest))) => {
                assert!(!text.is_empty());
                assert!(whole.starts_with(&text));
                assert_eq!(format!("{}{}", text, read_as(&rest)), whole);
            }
            Err(StrDecodeError::BufferTooSmall) => assert!(!whole.is_empty()),
        }
    }
}

#[test]
fn round_trip_of_many_texts() {
    let mut rng = Lcg(8);
    let alphabet = &ALPHABET[..11];
    for _ in 0..2000 {
        let input = text(&mut rng, alphabet, 20);
        let mut units = [0u16; 64];
        let (s, rest) = encode::<Char16>(&input, &mut units).ok().unwrap();
        assert!(rest.is_none());
        let mut bytes = [0u8; 128];
        let (back, left) = decode::<Char16>(&s, &mut bytes).ok().unwrap();
        assert_eq!(back, input);
        assert!(left.is_none());
    }
}
