//! A text that is written as a firmware string is read back unchanged.

use super::chars::Character;
use super::decoder::{
    bytes_before, char_of, closes_line, decoded, decoding, lemma_bytes_before_monotonic,
    lemma_decoded_len_step, lemma_line_end_bytes, read_limit, StrDecodeError,
};
use super::encoder::{
    encodable, encoded, encoding, lemma_encoded_prefix, lemma_scan_skip, lemma_units_before_step,
    step_at, units_of, StrEncodeError,
};
use super::utf8::{scalar_len, utf8_len};
use vstd::prelude::*;

verus! {

/// The code units of a text are read back as the text: the carriage return
/// that is written before a line feed is taken away again, and no other
/// character is changed.
pub proof fn lemma_decoded_encoded<C: Character>(text: Seq<char>)
    requires
        forall|i: int| 0 <= i < text.len() ==> encodable::<C>(#[trigger] text[i]),
    ensures
        decoded::<C>(encoded::<C>(text)) == text,
    decreases text.len(),
{
    if text.len() > 0 {
        let front = text.drop_last();
        let c = text.last();
        let units = encoded::<C>(text);
        let before = encoded::<C>(front);
        lemma_decoded_encoded::<C>(front);
        assert(encodable::<C>(text[text.len() - 1]));
        C::lemma_encodes_decodes(c);
        C::lemma_sentinels();
        assert(units == before + units_of::<C>(c));
        if c == '\n' {
            let with_return = before.push(C::cr_code());
            assert(units.drop_last() == with_return);
            assert(with_return.drop_last() == before);
            assert(!closes_line::<C>(with_return, with_return.len() - 1));
            assert(closes_line::<C>(units, units.len() - 1));
            assert(decoded::<C>(with_return) == front.push('\r'));
            assert(front.push('\r').drop_last() == front);
            assert(decoded::<C>(units) == front.push('\n'));
        } else {
            assert(units.drop_last() == before);
            assert(!closes_line::<C>(units, units.len() - 1));
            assert(decoded::<C>(units) == front.push(c));
        }
        assert(text == front.push(c));
    }
}

/// A code unit takes no more room while it is read than the text takes
/// afterwards and one byte more.
pub proof fn lemma_room_to_read<C: Character>(units: Seq<C::IntRepr>, i: int)
    requires
        0 <= i < units.len(),
    ensures
        bytes_before::<C>(units, i) + scalar_len(char_of::<C>(units[i])) <= bytes_before::<C>(
            units,
            i + 1,
        ) + 1,
{
    lemma_decoded_len_step::<C>(units, i);
    lemma_line_end_bytes();
}

/// A buffer with one byte more than the text takes lets every code unit be read.
pub proof fn lemma_read_limit_large<C: Character>(units: Seq<C::IntRepr>, capacity: int, i: int)
    requires
        0 <= i <= units.len(),
        capacity > utf8_len(decoded::<C>(units)),
    ensures
        read_limit::<C>(units, capacity, i) == units.len(),
    decreases units.len() - i,
{
    if i < units.len() {
        lemma_room_to_read::<C>(units, i);
        lemma_bytes_before_monotonic::<C>(units, i + 1, units.len() as int);
        assert(units.take(units.len() as int) == units);
        lemma_read_limit_large::<C>(units, capacity, i + 1);
    }
}

/// Encoding a text into a buffer that is large enough and decoding the
/// result into a buffer that is large enough gives the text back: a line
/// feed is a carriage return and a line feed on the firmware side and a line
/// feed again on the native side.
///
/// Large enough is a buffer of code units that holds all of the text, and a
/// buffer of bytes that holds the text and one byte more.
pub proof fn lemma_round_trip<C: Character>(
    text: Seq<char>,
    starts: Seq<usize>,
    capacity: int,
    bytes: int,
)
    requires
        forall|i: int| 0 <= i < text.len() ==> encodable::<C>(#[trigger] text[i]),
        capacity >= encoded::<C>(text).len(),
        bytes > utf8_len(text),
    ensures
        encoding::<C>(text, starts, capacity) == Ok::<int, StrEncodeError>(text.len() as int),
        decoding::<C>(encoded::<C>(text), bytes) == Ok::<(Seq<char>, int), StrDecodeError>(
            (text, encoded::<C>(text).len() as int),
        ),
{
    let len = text.len() as int;
    assert(text.take(len) == text);
    assert forall|j: int| 0 <= j < len implies (#[trigger] step_at::<C>(text, capacity, j))
        is Written by {
        assert(encodable::<C>(text[j]));
        lemma_units_before_step::<C>(text, j);
        lemma_encoded_prefix::<C>(text, j + 1, len);
    }
    lemma_scan_skip::<C>(text, capacity, 0, len);
    let units = encoded::<C>(text);
    lemma_decoded_encoded::<C>(text);
    lemma_read_limit_large::<C>(units, bytes, 0);
    assert(units.take(units.len() as int) == units);
}

} // verus!
