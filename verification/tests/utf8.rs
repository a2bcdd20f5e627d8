use uefi::data_types::utf8::{utf8_width, write_utf8};

const SAMPLES: [char; 14] = [
    '\0', 'a', '\u{7F}', '\u{80}', 'é', '\u{7FF}', '\u{800}', '☃', '\u{D7FF}', '\u{E000}',
    '\u{FFFF}', '\u{10000}', '😀', '\u{10FFFF}',
];

#[test]
fn width_of_each_length_class() {
    assert_eq!(utf8_width('a'), 1);
    assert_eq!(utf8_width('\u{7F}'), 1);
    assert_eq!(utf8_width('\u{80}'), 2);
    assert_eq!(utf8_width('\u{7FF}'), 2);
    assert_eq!(utf8_width('\u{800}'), 3);
    assert_eq!(utf8_width('\u{FFFF}'), 3);
    assert_eq!(utf8_width('\u{10000}'), 4);
    assert_eq!(utf8_width('\u{10FFFF}'), 4);
}

#[test]
fn width_agrees_with_the_standard_library() {
    for c in SAMPLES {
        assert_eq!(utf8_width(c), c.len_utf8());
    }
}

#[test]
fn written_bytes_are_utf8() {
    assert_eq!(written('a'), vec![0x61]);
    assert_eq!(written('é'), vec![0xC3, 0xA9]);
    assert_eq!(written('☃'), vec![0xE2, 0x98, 0x83]);
    assert_eq!(written('😀'), vec![0xF0, 0x9F, 0x98, 0x80]);
}

fn written(c: char) -> Vec<u8> {
    let mut buffer = [0u8; 4];
    let n = write_utf8(c, &mut buffer, 0);
    buffer[..n].to_vec()
}

#[test]
fn written_bytes_agree_with_the_standard_library() {
    for c in SAMPLES {
        let mut expected = [0u8; 4];
        let expected = c.encode_utf8(&mut expected).as_bytes().to_vec();
        assert_eq!(written(c), expected);
    }
}

#[test]
fn writing_leaves_the_other_bytes_alone() {
    let mut buffer = [0xAAu8; 6];
    assert_eq!(write_utf8('☃', &mut buffer, 2), 3);
    assert_eq!(buffer, [0xAA, 0xAA, 0xE2, 0x98, 0x83, 0xAA]);
    assert_eq!(write_utf8('z', &mut buffer, 5), 1);
    assert_eq!(buffer, [0xAA, 0xAA, 0xE2, 0x98, 0x83, 0x7A]);
}
