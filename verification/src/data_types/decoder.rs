//! Conversion of firmware strings to Rust text.
//!
//! The code units are read into a byte buffer of fixed size as UTF-8. A
//! carriage return followed by a line feed is read as one line feed. When
//! the buffer is full, the text ends before its last grapheme cluster, which
//! may be incomplete.

use super::chars::Character;
use super::graphemes::{grapheme_prev_boundary, prev_boundary};
use super::strs::{indexed, is_c_str, overwritten, CStr};
use super::utf8::{
    byte_offset, lemma_boundary_between, lemma_encode_utf8_push, lemma_scalar_len_bounds,
    lemma_text_before_offset, lemma_text_of_bytes, scalar_len, str_from_utf8, text_before,
    utf8_len, utf8_width, write_utf8,
};
use vstd::prelude::*;
use vstd::string::StringSliceAdditionalSpecFns;
use vstd::utf8::{encode_scalar, encode_utf8, encode_utf8_valid_utf8, is_char_boundary};

verus! {

/// Why a firmware string could not be converted to a Rust string.
#[derive(Debug, Clone, Copy, PartialEq, Eq, Structural)]
pub enum StrDecodeError {
    /// The buffer cannot hold the first grapheme cluster of the input.
    BufferTooSmall,
}

/// The character that the code unit `code` stands for.
pub open spec fn char_of<C: Character>(code: C::IntRepr) -> char {
    C::decodes(code)->0
}

/// Whether the code unit of index `i` is a line feed that follows a carriage return.
pub open spec fn closes_line<C: Character>(units: Seq<C::IntRepr>, i: int) -> bool {
    0 < i < units.len() && char_of::<C>(units[i]) == '\n' && char_of::<C>(units[i - 1]) == '\r'
}

/// The text that `units` are read as: each code unit gives its character,
/// but a line feed that follows a carriage return takes its place.
pub open spec fn decoded<C: Character>(units: Seq<C::IntRepr>) -> Seq<char>
    decreases units.len(),
{
    if units.len() == 0 {
        Seq::empty()
    } else if closes_line::<C>(units, units.len() - 1) {
        decoded::<C>(units.drop_last()).drop_last().push('\n')
    } else {
        decoded::<C>(units.drop_last()).push(char_of::<C>(units.last()))
    }
}

/// The number of bytes that the first `i` code units are read as.
pub open spec fn bytes_before<C: Character>(units: Seq<C::IntRepr>, i: int) -> int {
    utf8_len(decoded::<C>(units.take(i))) as int
}

/// The number of code units that are read, from index `i` on, before the
/// first one whose character finds no room among `capacity` bytes, line
/// feeds that follow a carriage return included.
pub open spec fn read_limit<C: Character>(units: Seq<C::IntRepr>, capacity: int, i: int) -> int
    decreases units.len() - i,
{
    if i < 0 || i >= units.len() {
        units.len() as int
    } else if bytes_before::<C>(units, i) + scalar_len(char_of::<C>(units[i])) > capacity {
        i
    } else {
        read_limit::<C>(units, capacity, i + 1)
    }
}

/// The bytes that reading the first `read` code units leaves in front of the
/// buffer: the text that they are read as and, where the last of them is a
/// line feed that took the place of a carriage return, the byte that the
/// line feed was written to at first.
pub open spec fn read_bytes<C: Character>(units: Seq<C::IntRepr>, read: int) -> Seq<u8> {
    if closes_line::<C>(units, read - 1) {
        encode_utf8(decoded::<C>(units.take(read))).push(0x0Au8)
    } else {
        encode_utf8(decoded::<C>(units.take(read)))
    }
}

/// The number of code units that are read, from index `m` on, before the
/// text that they are read as grows beyond `b` bytes.
pub open spec fn units_within<C: Character>(units: Seq<C::IntRepr>, b: int, m: int) -> int
    decreases units.len() - m,
{
    if m < 0 || m >= units.len() {
        units.len() as int
    } else if bytes_before::<C>(units, m + 1) > b {
        m
    } else {
        units_within::<C>(units, b, m + 1)
    }
}

/// What is kept of the text that the first `read` code units were read as,
/// when the last grapheme cluster of that text begins at the byte offset
/// `boundary`: the text before the offset and the number of code units that
/// it was read from. Nothing is kept without an offset or at offset zero.
pub open spec fn backed_off<C: Character>(
    units: Seq<C::IntRepr>,
    read: int,
    boundary: Option<usize>,
) -> Result<(Seq<char>, int), StrDecodeError> {
    match boundary {
        Some(b) if b > 0 => Ok(
            (text_before(decoded::<C>(units.take(read)), b as int), units_within::<C>(units, b as int, 0)),
        ),
        _ => Err(StrDecodeError::BufferTooSmall),
    }
}

/// What the conversion of `units` into a buffer of `capacity` bytes gives:
/// the text, and the number of code units that it was read from.
///
/// If every code unit finds room, the text is all that they are read as.
/// Otherwise the text that was read is cut before its last grapheme cluster.
pub open spec fn decoding<C: Character>(units: Seq<C::IntRepr>, capacity: int) -> Result<
    (Seq<char>, int),
    StrDecodeError,
> {
    let read = read_limit::<C>(units, capacity, 0);
    let text = decoded::<C>(units.take(read));
    if read >= units.len() {
        Ok((text, units.len() as int))
    } else {
        backed_off::<C>(units, read, grapheme_prev_boundary(text, utf8_len(text) as usize))
    }
}

/// The string that is left when the first `m` code units of `all` are converted.
pub open spec fn rest_from<C: Character>(all: Seq<C::IntRepr>, m: int) -> Option<Seq<C::IntRepr>> {
    if m < all.len() - 1 {
        Some(all.skip(m))
    } else {
        None
    }
}

/// The text that a string which is left is read as, and no text for none.
pub open spec fn text_of_rest<C: Character>(rest: Option<Seq<C::IntRepr>>) -> Seq<char> {
    match rest {
        Some(all) => decoded::<C>(all.drop_last()),
        None => Seq::empty(),
    }
}

/// Decodes a firmware string of characters of kind `C` into a Rust string.
///
/// The text is stored in `buffer` as UTF-8. If `buffer` is too small, the
/// text ends before the last grapheme cluster that was read, and the part of
/// the input that was not converted is returned as well. An input of which
/// not even the first cluster fits is an error, so that a caller who converts
/// piece by piece always advances.
pub fn decode<'buf, 'inp, C: Character>(input: &CStr<'inp, C>, buffer: &'buf mut [u8]) -> (r:
    Result<(&'buf str, Option<CStr<'inp, C>>), StrDecodeError>)
    ensures
        final(buffer)@ == overwritten(
            old(buffer)@,
            read_bytes::<C>(
                input@.drop_last(),
                read_limit::<C>(input@.drop_last(), old(buffer)@.len() as int, 0),
            ),
        ),
        final(buffer)@.len() == old(buffer)@.len(),
        match decoding::<C>(input@.drop_last(), old(buffer)@.len() as int) {
            Ok((text, m)) => r matches Ok((s, rest)) && s@ == text && final(buffer)@.subrange(
                0,
                utf8_len(text) as int,
            ) == encode_utf8(text) && (match rest {
                Some(t) => Some(t@),
                None => None,
            }) == rest_from::<C>(input@, m),
            Err(e) => r matches Err(e2) && e2 == e,
        },
        r matches Ok((s, rest)) ==> decoded::<C>(input@.drop_last()) == s@ + text_of_rest::<C>(
            match rest {
                Some(t) => Some(t@),
                None => None,
            },
        ),
        r matches Ok((_, Some(t))) ==> 1 < t@.len() < input@.len(),
{
    let (output_idx, read) = decode_units::<C>(input, buffer);
    let filled: &'buf [u8] = buffer;
    let bytes = &filled[0..output_idx];
    proof {
        encode_utf8_valid_utf8(decoded::<C>(input@.drop_last().take(read as int)));
    }
    let output = str_from_utf8(bytes).unwrap();
    proof {
        lemma_text_of_bytes(output@, bytes@);
        lemma_text_of_bytes(decoded::<C>(input@.drop_last().take(read as int)), bytes@);
    }
    // If all of the input was read, the text is complete.
    if read == input.to_ints_slice().len() {
        proof {
            assert(input@.drop_last().take(read as int) == input@.drop_last());
            assert(output@ + Seq::<char>::empty() == output@);
        }
        return Ok((output, None));
    }
    // The last cluster that was read may be incomplete: give it up.
    let boundary = prev_boundary(output, output_idx);
    let r = back_off::<C>(input, read, output, boundary);
    proof {
        if let Ok((kept, _)) = r {
            let n = boundary->0 as int;
            assert(filled@.subrange(0, n) == bytes@.subrange(0, n));
        }
    }
    r
}

/// Reads the code units of `input` into `buffer` as UTF-8 until one finds no
/// room, and returns the number of bytes that the text takes and the number
/// of code units read.
pub fn decode_units<C: Character>(input: &CStr<'_, C>, buffer: &mut [u8]) -> (r: (usize, usize))
    ensures
        r.1 == read_limit::<C>(input@.drop_last(), old(buffer)@.len() as int, 0),
        r.1 <= input@.len() - 1,
        r.0 == bytes_before::<C>(input@.drop_last(), r.1 as int),
        r.0 <= old(buffer)@.len(),
        final(buffer)@ == overwritten(old(buffer)@, read_bytes::<C>(input@.drop_last(), r.1 as int)),
        final(buffer)@.len() == old(buffer)@.len(),
        final(buffer)@.subrange(0, r.0 as int) == encode_utf8(
            decoded::<C>(input@.drop_last().take(r.1 as int)),
        ),
{
    let ghost units = input@.drop_last();
    let ghost before = buffer@;
    let mut output_idx: usize = 0;
    let mut after_carriage_return = false;
    let mut read: usize = 0;
    let mut input_iter = input.char_indices();
    proof {
        assert(units.take(0) == Seq::<C::IntRepr>::empty());
        assert(encode_utf8(Seq::<char>::empty()) == Seq::<u8>::empty());
        assert(buffer@ == overwritten(before, read_bytes::<C>(units, 0)));
    }
    loop
        invariant_except_break
            input_iter@ == indexed(input@, read as int, units.len() as int),
        invariant
            units == input@.drop_last(),
            is_c_str::<C>(input@),
            input@.len() <= usize::MAX,
            before == old(buffer)@,
            buffer@.len() == before.len(),
            read <= units.len(),
            output_idx == bytes_before::<C>(units, read as int),
            read_bytes::<C>(units, read as int).len() <= buffer@.len(),
            buffer@ == overwritten(before, read_bytes::<C>(units, read as int)),
            after_carriage_return == (read > 0 && char_of::<C>(units[read - 1]) == '\r'),
            read_limit::<C>(units, buffer@.len() as int, 0) == read_limit::<C>(
                units,
                buffer@.len() as int,
                read as int,
            ),
        ensures
            read <= units.len(),
            buffer@.len() == before.len(),
            output_idx == bytes_before::<C>(units, read as int),
            read_bytes::<C>(units, read as int).len() <= buffer@.len(),
            buffer@ == overwritten(before, read_bytes::<C>(units, read as int)),
            read == read_limit::<C>(units, buffer@.len() as int, 0),
        decreases units.len() - read,
    {
        let ch = match input_iter.next() {
            Some((_, ch)) => ch.to_char(),
            None => {
                break ;
            },
        };
        let ghost text = decoded::<C>(units.take(read as int));
        let ghost held = buffer@;
        proof {
            lemma_decoded_step::<C>(units, read as int);
            lemma_scalar_len_bounds(ch);
            lemma_line_end_bytes();
        }
        // Add the character to the text if there is room for it.
        let width = utf8_width(ch);
        if buffer.len() - output_idx >= width {
            let n = write_utf8(ch, buffer, output_idx);
            output_idx += n;
        } else {
            break ;
        }
        proof {
            lemma_encode_utf8_push(text, ch);
            assert(held.subrange(0, output_idx - width) == encode_utf8(text));
            assert(held.subrange(output_idx as int, held.len() as int) == before.skip(
                output_idx as int,
            ));
            assert(buffer@ == buffer@.subrange(0, output_idx - width) + buffer@.subrange(
                output_idx - width,
                output_idx as int,
            ) + buffer@.subrange(output_idx as int, buffer@.len() as int));
            assert(buffer@ == overwritten(before, encode_utf8(text) + encode_scalar(ch as u32)));
        }
        // A line feed takes the place of the carriage return before it.
        if after_carriage_return && ch == '\n' {
            let ghost line = text.drop_last();
            proof {
                lemma_encode_utf8_push(line, '\r');
                lemma_encode_utf8_push(line, '\n');
                assert(text == line.push('\r'));
                assert(encode_utf8(line).len() == output_idx - 2);
            }
            buffer[output_idx - 2] = 0x0A;
            output_idx -= 1;
            proof {
                assert(buffer@ == overwritten(before, (encode_utf8(line) + seq![0x0Au8]).push(0x0Au8)));
            }
        }
        after_carriage_return = ch == '\r';
        read += 1;
    }
    proof {
        assert(buffer@.subrange(0, output_idx as int) == encode_utf8(
            decoded::<C>(units.take(read as int)),
        ));
    }
    (output_idx, read)
}

/// Cuts the text that the first `read` code units of `input` were read as
/// before the byte offset `boundary`, and finds the code units that are left.
///
/// The text that is returned and the text that the rest is read as make up
/// the text that `input` is read as.
pub fn back_off<'buf, 'inp, C: Character>(
    input: &CStr<'inp, C>,
    read: usize,
    text: &'buf str,
    boundary: Option<usize>,
) -> (r: Result<(&'buf str, Option<CStr<'inp, C>>), StrDecodeError>)
    requires
        read <= input@.len() - 1,
        text@ == decoded::<C>(input@.drop_last().take(read as int)),
        boundary matches Some(b) ==> b < text.spec_bytes().len() && is_char_boundary(
            text.spec_bytes(),
            b as int,
        ),
    ensures
        match backed_off::<C>(input@.drop_last(), read as int, boundary) {
            Ok((kept, m)) => r matches Ok((s, Some(t))) && s@ == kept && t@ == input@.skip(m) && 0
                < m < input@.len() - 1 && s.spec_bytes() == text.spec_bytes().subrange(
                0,
                boundary->0 as int,
            ),
            Err(e) => r matches Err(e2) && e2 == e,
        },
        r matches Ok((s, Some(t))) ==> decoded::<C>(input@.drop_last()) == s@ + decoded::<C>(
            t@.drop_last(),
        ),
{
    proof {
        lemma_backed_off_resumes::<C>(input@.drop_last(), read as int, boundary);
    }
    let last_grapheme_idx = match boundary {
        Some(b) => b,
        None => 0,
    };
    if last_grapheme_idx == 0 {
        return Err(StrDecodeError::BufferTooSmall);
    }
    let (output, _) = text.split_at(last_grapheme_idx);
    proof {
        lemma_text_of_bytes(output@, output.spec_bytes());
    }
    // Count the code units that the kept text was read from.
    let units = input.to_ints_slice();
    let all = input.to_ints_slice_with_nul();
    let mut consumed: usize = 0;
    let mut bytes: usize = 0;
    let mut after_carriage_return = false;
    proof {
        assert(units@.take(0) == Seq::<C::IntRepr>::empty());
        assert(encode_utf8(Seq::<char>::empty()) == Seq::<u8>::empty());
    }
    while consumed < units.len()
        invariant
            units@ == all@.drop_last(),
            is_c_str::<C>(all@),
            consumed <= units@.len(),
            bytes == bytes_before::<C>(units@, consumed as int),
            bytes <= last_grapheme_idx,
            after_carriage_return == (consumed > 0 && char_of::<C>(units@[consumed - 1]) == '\r'),
            units_within::<C>(units@, last_grapheme_idx as int, 0) == units_within::<C>(
                units@,
                last_grapheme_idx as int,
                consumed as int,
            ),
        ensures
            consumed <= units@.len(),
            consumed == units_within::<C>(units@, last_grapheme_idx as int, 0),
        decreases units@.len() - consumed,
    {
        assert(units@[consumed as int] == all@[consumed as int]);
        let ch = C::try_from_int(units[consumed]).unwrap().to_char();
        proof {
            lemma_decoded_len_step::<C>(units@, consumed as int);
        }
        if !(after_carriage_return && ch == '\n') {
            let width = utf8_width(ch);
            if width > last_grapheme_idx - bytes {
                break ;
            }
            bytes += width;
        }
        after_carriage_return = ch == '\r';
        consumed += 1;
    }
    proof {
        if consumed == units@.len() {
            lemma_bytes_before_monotonic::<C>(units@, read as int, units@.len() as int);
        }
    }
    let remaining = &all[consumed..all.len()];
    proof {
        assert(remaining@ == all@.skip(consumed as int));
        assert(is_c_str::<C>(remaining@));
        assert(remaining@.drop_last() == units@.skip(consumed as int));
    }
    Ok((output, Some(CStr::from_ints_with_nul_unchecked(remaining))))
}

/// Cutting the text before a grapheme cluster parts the string where the
/// text was cut: the text that is kept is what the code units before the
/// rest are read as, and the rest is read as the text that follows.
///
/// The offset is a character boundary inside the text that the first `read`
/// code units are read as.
pub proof fn lemma_backed_off_resumes<C: Character>(
    units: Seq<C::IntRepr>,
    read: int,
    boundary: Option<usize>,
)
    requires
        0 <= read <= units.len(),
        boundary matches Some(b) ==> b < utf8_len(decoded::<C>(units.take(read)))
            && is_char_boundary(encode_utf8(decoded::<C>(units.take(read))), b as int),
    ensures
        backed_off::<C>(units, read, boundary) matches Ok((kept, m)) ==> 0 < m < read && kept
            == decoded::<C>(units.take(m)) && decoded::<C>(units) == kept + decoded::<C>(
            units.skip(m),
        ),
{
    if let Ok((kept, m)) = backed_off::<C>(units, read, boundary) {
        let b = boundary->0 as int;
        let text = decoded::<C>(units.take(read));
        assert(units.take(0) == Seq::<C::IntRepr>::empty());
        assert(encode_utf8(Seq::<char>::empty()) == Seq::<u8>::empty());
        lemma_units_within::<C>(units, b, 0);
        if m >= read {
            lemma_bytes_before_monotonic::<C>(units, read, m);
        }
        lemma_decoded_len_step::<C>(units, m);
        lemma_decoded_stable::<C>(units, m, read);
        let chars = decoded::<C>(units.take(m)).len() as int;
        assert(text.take(chars) == decoded::<C>(units.take(m)));
        assert(bytes_before::<C>(units, m) == byte_offset(text, chars));
        assert(bytes_before::<C>(units, m + 1) == byte_offset(text, chars + 1)) by {
            if m + 1 < read && closes_line::<C>(units, m + 1) {
                lemma_decoded_len_step::<C>(units, m + 1);
                lemma_decoded_stable::<C>(units, m + 2, read);
                assert(text.take(chars + 1) == decoded::<C>(units.take(m + 2)));
            } else {
                lemma_decoded_stable::<C>(units, m + 1, read);
                assert(text.take(chars + 1) == decoded::<C>(units.take(m + 1)));
            }
        }
        lemma_boundary_between(text, chars, b);
        lemma_text_before_offset(text, chars);
        lemma_decoded_splits::<C>(units, m);
    }
}

/// The UTF-8 form of a carriage return and of a line feed.
pub proof fn lemma_line_end_bytes()
    ensures
        encode_scalar('\r' as u32) == seq![0x0Du8],
        encode_scalar('\n' as u32) == seq![0x0Au8],
{
    assert(0x0Du32 & 0x7F == 0x0D) by (bit_vector);
    assert(0x0Au32 & 0x7F == 0x0A) by (bit_vector);
}

/// Reading one code unit more, seen from the text read so far.
pub proof fn lemma_decoded_step<C: Character>(units: Seq<C::IntRepr>, i: int)
    requires
        0 <= i < units.len(),
    ensures
        decoded::<C>(units.take(i + 1)) == if closes_line::<C>(units, i) {
            decoded::<C>(units.take(i)).drop_last().push('\n')
        } else {
            decoded::<C>(units.take(i)).push(char_of::<C>(units[i]))
        },
        closes_line::<C>(units, i) ==> decoded::<C>(units.take(i)).len() > 0 && decoded::<C>(
            units.take(i),
        ).last() == '\r',
{
    let upto = units.take(i + 1);
    assert(upto.drop_last() == units.take(i));
    assert(closes_line::<C>(upto, i) == closes_line::<C>(units, i));
    if closes_line::<C>(units, i) {
        let before = units.take(i);
        assert(before.drop_last() == units.take(i - 1));
        assert(!closes_line::<C>(before, i - 1));
    }
}

/// Reading one code unit more, seen from the length of the text in
/// characters and in bytes.
pub proof fn lemma_decoded_len_step<C: Character>(units: Seq<C::IntRepr>, i: int)
    requires
        0 <= i < units.len(),
    ensures
        decoded::<C>(units.take(i + 1)).len() == if closes_line::<C>(units, i) {
            decoded::<C>(units.take(i)).len()
        } else {
            decoded::<C>(units.take(i)).len() + 1
        },
        bytes_before::<C>(units, i + 1) == if closes_line::<C>(units, i) {
            bytes_before::<C>(units, i)
        } else {
            bytes_before::<C>(units, i) + scalar_len(char_of::<C>(units[i]))
        },
{
    lemma_decoded_step::<C>(units, i);
    lemma_line_end_bytes();
    let before = decoded::<C>(units.take(i));
    if closes_line::<C>(units, i) {
        lemma_encode_utf8_push(before.drop_last(), '\r');
        lemma_encode_utf8_push(before.drop_last(), '\n');
        assert(before == before.drop_last().push('\r'));
    } else {
        lemma_encode_utf8_push(before, char_of::<C>(units[i]));
    }
}

/// Reading more code units never gives a shorter text.
pub proof fn lemma_bytes_before_monotonic<C: Character>(units: Seq<C::IntRepr>, i: int, j: int)
    requires
        0 <= i <= j <= units.len(),
    ensures
        bytes_before::<C>(units, i) <= bytes_before::<C>(units, j),
    decreases j - i,
{
    if i < j {
        lemma_bytes_before_monotonic::<C>(units, i, j - 1);
        lemma_decoded_len_step::<C>(units, j - 1);
    }
}

/// What was read stays as it is, unless the next code unit is a line feed
/// that takes the place of the carriage return read last: the text read
/// from the first `i` code units stands in front of the text read from more.
pub proof fn lemma_decoded_stable<C: Character>(units: Seq<C::IntRepr>, i: int, k: int)
    requires
        0 <= i <= k <= units.len(),
        i == k || !closes_line::<C>(units, i),
    ensures
        decoded::<C>(units.take(i)).len() <= decoded::<C>(units.take(k)).len(),
        i < k ==> decoded::<C>(units.take(i)).len() < decoded::<C>(units.take(k)).len(),
        decoded::<C>(units.take(k)).take(decoded::<C>(units.take(i)).len() as int) == decoded::<C>(
            units.take(i),
        ),
    decreases k - i,
{
    let short = decoded::<C>(units.take(i));
    if i < k {
        lemma_decoded_step::<C>(units, k - 1);
        lemma_decoded_len_step::<C>(units, k - 1);
        let before = decoded::<C>(units.take(k - 1));
        if i == k - 1 {
            assert(before.push(char_of::<C>(units[i])).take(short.len() as int) == short);
        } else {
            lemma_decoded_stable::<C>(units, i, k - 1);
            if closes_line::<C>(units, k - 1) {
                assert(before.drop_last().push('\n').take(short.len() as int) == before.take(
                    short.len() as int,
                ));
            } else {
                assert(before.push(char_of::<C>(units[k - 1])).take(short.len() as int)
                    == before.take(short.len() as int));
            }
        }
    } else {
        assert(short.take(short.len() as int) == short);
    }
}

/// The code units that are read before the text grows beyond `b` bytes give
/// a text of at most `b` bytes, and the next one gives more.
pub proof fn lemma_units_within<C: Character>(units: Seq<C::IntRepr>, b: int, from: int)
    requires
        0 <= from <= units.len(),
        bytes_before::<C>(units, from) <= b,
    ensures
        from <= units_within::<C>(units, b, from) <= units.len(),
        bytes_before::<C>(units, units_within::<C>(units, b, from)) <= b,
        units_within::<C>(units, b, from) < units.len() ==> bytes_before::<C>(
            units,
            units_within::<C>(units, b, from) + 1,
        ) > b,
    decreases units.len() - from,
{
    if from < units.len() && bytes_before::<C>(units, from + 1) <= b {
        lemma_units_within::<C>(units, b, from + 1);
    }
}

/// The text read from a string is the text read from its first `m` code
/// units followed by the text read from the others, unless a line feed that
/// follows a carriage return is parted from it.
pub proof fn lemma_decoded_splits<C: Character>(units: Seq<C::IntRepr>, m: int)
    requires
        0 <= m <= units.len(),
        !closes_line::<C>(units, m),
    ensures
        decoded::<C>(units) == decoded::<C>(units.take(m)) + decoded::<C>(units.skip(m)),
    decreases units.len(),
{
    let head = decoded::<C>(units.take(m));
    let rest = units.skip(m);
    if m == units.len() {
        assert(units.take(m) == units);
        assert(rest == Seq::<C::IntRepr>::empty());
        assert(head + Seq::<char>::empty() == head);
    } else {
        let front = units.drop_last();
        let last = units.len() - 1;
        lemma_decoded_splits::<C>(front, m);
        assert(front.take(m) == units.take(m));
        assert(front.skip(m) == rest.drop_last());
        let tail = decoded::<C>(rest.drop_last());
        assert(closes_line::<C>(units, last) == closes_line::<C>(rest, last - m));
        if closes_line::<C>(units, last) {
            assert(rest.take(last - m) == rest.drop_last());
            lemma_decoded_step::<C>(rest, last - m);
            assert(tail.len() > 0);
            assert((head + tail).drop_last().push('\n') == head + tail.drop_last().push('\n'));
        } else {
            assert((head + tail).push(char_of::<C>(units.last())) == head + tail.push(
                char_of::<C>(rest.last()),
            ));
        }
    }
}

} // verus!
