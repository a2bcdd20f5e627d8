//! Byte lengths and byte offsets of Rust text.
//!
//! A Rust string is a sequence of scalar values stored as UTF-8. The
//! conversions count their native side in bytes, so this module relates a
//! position among the characters to its position among the bytes.

use vstd::prelude::*;
use vstd::string::StringSliceAdditionalSpecFns;
use vstd::utf8::*;

verus! {

/// The number of bytes that `c` takes in UTF-8.
pub open spec fn scalar_len(c: char) -> nat {
    encode_scalar(c as u32).len()
}

/// The number of bytes that `text` takes in UTF-8.
pub open spec fn utf8_len(text: Seq<char>) -> nat {
    encode_utf8(text).len()
}

/// The byte offset at which the character of index `k` begins, which is the
/// byte length of `text` for `k == text.len()`.
pub open spec fn byte_offset(text: Seq<char>, k: int) -> nat {
    utf8_len(text.take(k))
}

/// The text that the first `b` bytes of the UTF-8 form of `text` hold.
pub open spec fn text_before(text: Seq<char>, b: int) -> Seq<char> {
    decode_utf8(encode_utf8(text).subrange(0, b))
}

/// The number of bytes that `c` takes in UTF-8.
pub fn utf8_width(c: char) -> (n: usize)
    ensures
        n == scalar_len(c),
        1 <= n <= 4,
{
    let scalar: u32 = c as u32;
    if scalar < 0x80 {
        1
    } else if scalar < 0x800 {
        2
    } else if scalar < 0x10000 {
        3
    } else {
        4
    }
}

/// Writes the UTF-8 form of `c` into `buffer` from position `at` on and
/// returns its length.
pub fn write_utf8(c: char, buffer: &mut [u8], at: usize) -> (n: usize)
    requires
        at + scalar_len(c) <= old(buffer)@.len(),
    ensures
        n == scalar_len(c),
        final(buffer)@.len() == old(buffer)@.len(),
        final(buffer)@.subrange(0, at as int) == old(buffer)@.subrange(0, at as int),
        final(buffer)@.subrange(at as int, at + n) == encode_scalar(c as u32),
        final(buffer)@.subrange(at + n, old(buffer)@.len() as int) == old(buffer)@.subrange(
            at + n,
            old(buffer)@.len() as int,
        ),
{
    let scalar: u32 = c as u32;
    if scalar < 0x80 {
        buffer[at] = (scalar & 0x7F) as u8;
        1
    } else if scalar < 0x800 {
        buffer[at] = 0xC0 | ((scalar >> 6) & 0x1F) as u8;
        buffer[at + 1] = 0x80 | (scalar & 0x3F) as u8;
        2
    } else if scalar < 0x10000 {
        buffer[at] = 0xE0 | ((scalar >> 12) & 0x0F) as u8;
        buffer[at + 1] = 0x80 | ((scalar >> 6) & 0x3F) as u8;
        buffer[at + 2] = 0x80 | (scalar & 0x3F) as u8;
        3
    } else {
        buffer[at] = 0xF0 | ((scalar >> 18) & 0x7) as u8;
        buffer[at + 1] = 0x80 | ((scalar >> 12) & 0x3F) as u8;
        buffer[at + 2] = 0x80 | ((scalar >> 6) & 0x3F) as u8;
        buffer[at + 3] = 0x80 | (scalar & 0x3F) as u8;
        4
    }
}

/// `core::str::from_utf8` of the standard library: the string slice over
/// `bytes`, which exists exactly if `bytes` are valid UTF-8.
#[verifier::external_body]
pub(crate) fn str_from_utf8(bytes: &[u8]) -> (r: Option<&str>)
    ensures
        r is Some <==> valid_utf8(bytes@),
        r matches Some(s) ==> s.spec_bytes() == bytes@,
{
    match core::str::from_utf8(bytes) {
        Ok(s) => Some(s),
        Err(_) => None,
    }
}

/// A character takes between one and four bytes.
pub proof fn lemma_scalar_len_bounds(c: char)
    ensures
        1 <= scalar_len(c) <= 4,
{
}

/// The UTF-8 form of a concatenation is the concatenation of the UTF-8 forms.
pub proof fn lemma_encode_utf8_concat(a: Seq<char>, b: Seq<char>)
    ensures
        encode_utf8(a + b) == encode_utf8(a) + encode_utf8(b),
    decreases a.len(),
{
    if a.len() == 0 {
        assert(a + b == b);
        assert(encode_utf8(a) + encode_utf8(b) == encode_utf8(b));
    } else {
        lemma_encode_utf8_concat(a.drop_first(), b);
        assert((a + b).drop_first() == a.drop_first() + b);
        assert(encode_utf8(a + b) == encode_scalar(a[0] as u32) + (encode_utf8(a.drop_first())
            + encode_utf8(b)));
        assert(encode_utf8(a + b) == encode_utf8(a) + encode_utf8(b));
    }
}

/// The UTF-8 form of a single character.
pub proof fn lemma_encode_utf8_single(c: char)
    ensures
        encode_utf8(seq![c]) == encode_scalar(c as u32),
{
    assert(seq![c].drop_first() == Seq::<char>::empty());
    assert(encode_utf8(seq![c]) == encode_scalar(c as u32) + encode_utf8(Seq::<char>::empty()));
    assert(encode_utf8(Seq::<char>::empty()) == Seq::<u8>::empty());
}

/// Appending a character appends its bytes.
pub proof fn lemma_encode_utf8_push(text: Seq<char>, c: char)
    ensures
        encode_utf8(text.push(c)) == encode_utf8(text) + encode_scalar(c as u32),
        utf8_len(text.push(c)) == utf8_len(text) + scalar_len(c),
{
    lemma_encode_utf8_concat(text, seq![c]);
    lemma_encode_utf8_single(c);
    assert(text.push(c) == text + seq![c]);
}

/// The bytes of `text` fall into those before and those from the character of index `k`.
pub proof fn lemma_encode_utf8_split(text: Seq<char>, k: int)
    requires
        0 <= k <= text.len(),
    ensures
        byte_offset(text, k) <= utf8_len(text),
        encode_utf8(text).subrange(0, byte_offset(text, k) as int) == encode_utf8(text.take(k)),
        encode_utf8(text).subrange(byte_offset(text, k) as int, utf8_len(text) as int)
            == encode_utf8(text.skip(k)),
{
    lemma_encode_utf8_concat(text.take(k), text.skip(k));
    assert(text.take(k) + text.skip(k) == text);
    let head = encode_utf8(text.take(k));
    let tail = encode_utf8(text.skip(k));
    assert((head + tail).subrange(0, head.len() as int) == head);
    assert((head + tail).subrange(head.len() as int, (head + tail).len() as int) == tail);
}

/// The first character starts at offset zero and the last one ends at the byte length.
pub proof fn lemma_byte_offset_ends(text: Seq<char>)
    ensures
        byte_offset(text, 0) == 0,
        byte_offset(text, text.len() as int) == utf8_len(text),
{
    assert(text.take(0) == Seq::<char>::empty());
    assert(text.take(text.len() as int) == text);
}

/// The offset of the next character lies one character's bytes further on.
pub proof fn lemma_byte_offset_step(text: Seq<char>, k: int)
    requires
        0 <= k < text.len(),
    ensures
        byte_offset(text, k + 1) == byte_offset(text, k) + scalar_len(text[k]),
        byte_offset(text, k) < byte_offset(text, k + 1) <= utf8_len(text),
{
    lemma_encode_utf8_push(text.take(k), text[k]);
    assert(text.take(k + 1) == text.take(k).push(text[k]));
    lemma_encode_utf8_split(text, k + 1);
}

/// Offsets grow with the index.
pub proof fn lemma_byte_offset_monotonic(text: Seq<char>, j: int, k: int)
    requires
        0 <= j <= k <= text.len(),
    ensures
        byte_offset(text, j) <= byte_offset(text, k),
        j < k ==> byte_offset(text, j) < byte_offset(text, k),
    decreases k - j,
{
    if j < k {
        lemma_byte_offset_step(text, k - 1);
        lemma_byte_offset_monotonic(text, j, k - 1);
    }
}

/// The offset of a character, seen from the character after the first.
pub proof fn lemma_byte_offset_drop_first(text: Seq<char>, k: int)
    requires
        0 < k <= text.len(),
    ensures
        byte_offset(text, k) == scalar_len(text[0]) + byte_offset(text.drop_first(), k - 1),
{
    let rest = text.drop_first();
    assert(text.take(k) == seq![text[0]] + rest.take(k - 1));
    lemma_encode_utf8_concat(seq![text[0]], rest.take(k - 1));
    lemma_encode_utf8_single(text[0]);
}

/// The offset of every character is a character boundary of the UTF-8 form.
pub proof fn lemma_byte_offset_is_boundary(text: Seq<char>, k: int)
    requires
        0 <= k <= text.len(),
    ensures
        is_char_boundary(encode_utf8(text), byte_offset(text, k) as int),
    decreases text.len(),
{
    let bytes = encode_utf8(text);
    encode_utf8_valid_utf8(text);
    if k == 0 {
        lemma_byte_offset_ends(text);
    } else {
        let rest = text.drop_first();
        encode_utf8_first_scalar(text);
        assert(pop_first_scalar(bytes) == encode_utf8(rest));
        lemma_byte_offset_is_boundary(rest, k - 1);
        lemma_byte_offset_drop_first(text, k);
        lemma_encode_utf8_split(text, k);
    }
}

/// A character boundary of the UTF-8 form is the offset of a character, or
/// the byte length: the index of that character is returned.
pub proof fn lemma_boundary_is_offset(text: Seq<char>, b: int) -> (j: int)
    requires
        is_char_boundary(encode_utf8(text), b),
    ensures
        0 <= j <= text.len(),
        byte_offset(text, j) == b,
    decreases text.len(),
{
    let bytes = encode_utf8(text);
    encode_utf8_valid_utf8(text);
    if b == 0 {
        lemma_byte_offset_ends(text);
        0
    } else {
        assert(text.len() > 0) by {
            if text.len() == 0 {
                assert(bytes.len() == 0);
            }
        }
        let rest = text.drop_first();
        encode_utf8_first_scalar(text);
        assert(pop_first_scalar(bytes) == encode_utf8(rest));
        let j = lemma_boundary_is_offset(rest, b - scalar_len(text[0]));
        lemma_byte_offset_drop_first(text, j + 1);
        j + 1
    }
}

/// A character boundary that lies from the offset of a character on and
/// before the offset of the next one is the offset of that character.
pub proof fn lemma_boundary_between(text: Seq<char>, j: int, b: int)
    requires
        0 <= j < text.len(),
        is_char_boundary(encode_utf8(text), b),
        byte_offset(text, j) <= b < byte_offset(text, j + 1),
    ensures
        b == byte_offset(text, j),
{
    let at = lemma_boundary_is_offset(text, b);
    if at < j {
        lemma_byte_offset_monotonic(text, at, j);
    }
    if at > j {
        lemma_byte_offset_monotonic(text, j + 1, at);
    }
}

/// A text whose bytes are those of `text` from the character of index `k` on
/// is `text` from that character on.
pub proof fn lemma_suffix_view(text: Seq<char>, k: int, tail: Seq<char>)
    requires
        0 <= k <= text.len(),
        encode_utf8(tail) == encode_utf8(text).subrange(
            byte_offset(text, k) as int,
            utf8_len(text) as int,
        ),
    ensures
        tail == text.skip(k),
{
    lemma_encode_utf8_split(text, k);
    encode_utf8_decode_utf8(tail);
    encode_utf8_decode_utf8(text.skip(k));
}

/// The text that the bytes before the offset of a character hold is the
/// text before that character.
pub proof fn lemma_text_before_offset(text: Seq<char>, k: int)
    requires
        0 <= k <= text.len(),
    ensures
        text_before(text, byte_offset(text, k) as int) == text.take(k),
{
    lemma_encode_utf8_split(text, k);
    encode_utf8_decode_utf8(text.take(k));
}

/// A text is known by its bytes.
pub proof fn lemma_text_of_bytes(text: Seq<char>, bytes: Seq<u8>)
    requires
        encode_utf8(text) == bytes,
    ensures
        text == decode_utf8(bytes),
{
    encode_utf8_decode_utf8(text);
}

} // verus!
