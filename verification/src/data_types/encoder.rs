//! Conversion of Rust text to firmware strings.
//!
//! The text is written into a buffer of fixed size, one grapheme cluster
//! after the other, and only as many whole clusters as fit. A line feed is
//! written as a carriage return and a line feed.

use super::chars::Character;
use super::graphemes::{ascending, grapheme_starts, ClusterStarts, GraphemeStarts};
use super::strs::{ends_scan, is_c_str, overwritten, CStr};
use super::utf8::{
    byte_offset, lemma_byte_offset_ends, lemma_byte_offset_is_boundary,
    lemma_byte_offset_monotonic, lemma_byte_offset_step, lemma_suffix_view, utf8_len, utf8_width,
};
use vstd::prelude::*;
use vstd::std_specs::iter::IteratorSpec;
use vstd::string::StringSliceAdditionalSpecFns;

verus! {

/// Why a Rust string could not be converted to a firmware string.
#[derive(Debug, Clone, Copy, PartialEq, Eq, Structural)]
pub enum StrEncodeError {
    /// The buffer cannot hold the first grapheme cluster of the input.
    BufferTooSmall,
    /// The character at this byte offset of the input has no code unit in the
    /// target encoding.
    UnsupportedChar(usize),
    /// A null character stands at this byte offset of the input.
    InteriorNul(usize),
}

/// The number of code units that `c` is written as.
pub open spec fn unit_count(c: char) -> int {
    if c == '\n' {
        2
    } else {
        1
    }
}

/// The code units that `c` is written as.
pub open spec fn units_of<C: Character>(c: char) -> Seq<C::IntRepr> {
    if c == '\n' {
        seq![C::cr_code(), C::encodes(c)->0]
    } else {
        seq![C::encodes(c)->0]
    }
}

/// The code units that `text` is written as, without a terminator.
pub open spec fn encoded<C: Character>(text: Seq<char>) -> Seq<C::IntRepr>
    decreases text.len(),
{
    if text.len() == 0 {
        Seq::empty()
    } else {
        encoded::<C>(text.drop_last()) + units_of::<C>(text.last())
    }
}

/// The number of code units that the characters before index `k` are written as.
pub open spec fn units_before<C: Character>(text: Seq<char>, k: int) -> int {
    encoded::<C>(text.take(k)).len() as int
}

/// Whether `c` can stand in a firmware string of kind `C`.
pub open spec fn encodable<C: Character>(c: char) -> bool {
    c != '\0' && C::encodes(c) is Some
}

/// What becomes of one character when `room` code units are left.
pub enum Step {
    /// It is the null character.
    Nul,
    /// The target encoding has no code unit for it.
    Unsupported,
    /// Its code units do not fit.
    Full,
    /// Its code units are written.
    Written,
}

/// What becomes of `c` when `room` code units are left.
///
/// The carriage return before a line feed is written first, so a line feed
/// meets a full buffer before its own code unit is looked up.
pub open spec fn step<C: Character>(c: char, room: int) -> Step {
    if c == '\0' {
        Step::Nul
    } else if c == '\n' && room < 1 {
        Step::Full
    } else if C::encodes(c) is None {
        Step::Unsupported
    } else if room < unit_count(c) {
        Step::Full
    } else {
        Step::Written
    }
}

/// What becomes of the character of index `k` when every character before
/// it was written into a buffer with `capacity` code units.
pub open spec fn step_at<C: Character>(text: Seq<char>, capacity: int, k: int) -> Step {
    step::<C>(text[k], capacity - units_before::<C>(text, k))
}

/// Where the conversion of a text stops reading.
pub enum Halt {
    /// Every character was written.
    End,
    /// The character of this index is the null character.
    Nul(int),
    /// The character of this index has no code unit.
    Unsupported(int),
    /// The character of this index did not fit.
    Full(int),
}

/// The index of the character at which a scan stopped, or `len` if it read everything.
pub open spec fn halt_index(halt: Halt, len: int) -> int {
    match halt {
        Halt::End => len,
        Halt::Nul(k) => k,
        Halt::Unsupported(k) => k,
        Halt::Full(k) => k,
    }
}

/// Where the conversion stops when it reads `text` from the character of
/// index `k` on, with `capacity` code units in all.
pub open spec fn scan<C: Character>(text: Seq<char>, capacity: int, k: int) -> Halt
    decreases text.len() - k,
{
    if k < 0 || k >= text.len() {
        Halt::End
    } else {
        match step_at::<C>(text, capacity, k) {
            Step::Nul => Halt::Nul(k),
            Step::Unsupported => Halt::Unsupported(k),
            Step::Full => Halt::Full(k),
            Step::Written => scan::<C>(text, capacity, k + 1),
        }
    }
}

/// Whether a grapheme cluster begins at the character of index `k`.
pub open spec fn starts_cluster(text: Seq<char>, starts: Seq<usize>, k: int) -> bool {
    exists|i: int| 0 <= i < starts.len() && #[trigger] starts[i] == byte_offset(text, k)
}

/// The index of the first character of the grapheme cluster that holds the
/// character of index `k`, the first cluster beginning at index zero.
pub open spec fn cluster_start(text: Seq<char>, starts: Seq<usize>, k: int) -> int
    decreases k,
{
    if k <= 0 {
        0
    } else if starts_cluster(text, starts, k) {
        k
    } else {
        cluster_start(text, starts, k - 1)
    }
}

/// What the conversion of `text` into a buffer with room for `capacity` code
/// units and a terminator gives: the number of characters that were
/// converted, or the error.
///
/// `starts` holds the byte offsets at which the grapheme clusters of `text`
/// begin. When a character does not fit, the cluster that holds it is given
/// up, and with it the conversion if that is the first cluster.
pub open spec fn encoding<C: Character>(text: Seq<char>, starts: Seq<usize>, capacity: int) -> Result<
    int,
    StrEncodeError,
> {
    match scan::<C>(text, capacity, 0) {
        Halt::End => Ok(text.len() as int),
        Halt::Nul(k) => Err(StrEncodeError::InteriorNul(byte_offset(text, k) as usize)),
        Halt::Unsupported(k) => Err(StrEncodeError::UnsupportedChar(byte_offset(text, k) as usize)),
        Halt::Full(k) => {
            let n = cluster_start(text, starts, k);
            if n == 0 {
                Err(StrEncodeError::BufferTooSmall)
            } else {
                Ok(n)
            }
        },
    }
}

/// The text that is left when the first `n` characters of `text` are converted.
pub open spec fn rest_of(text: Seq<char>, n: int) -> Option<Seq<char>> {
    if n < text.len() {
        Some(text.skip(n))
    } else {
        None
    }
}

/// The code units that the conversion writes before it stops reading: those
/// of every character before the one at which it stops and, where it stops
/// at a line feed with room left, the carriage return before the line feed.
pub open spec fn written<C: Character>(text: Seq<char>, capacity: int) -> Seq<C::IntRepr> {
    let k = halt_index(scan::<C>(text, capacity, 0), text.len() as int);
    if k < text.len() && text[k] == '\n' && units_before::<C>(text, k) < capacity {
        encoded::<C>(text.take(k)).push(C::cr_code())
    } else {
        encoded::<C>(text.take(k))
    }
}

/// What a buffer that held `before` holds after the conversion of `text`:
/// the code units that were written in front of what it held, and on success
/// the terminator behind the code units of the characters that were
/// converted.
pub open spec fn buffer_after<C: Character>(
    before: Seq<C::IntRepr>,
    text: Seq<char>,
    starts: Seq<usize>,
    capacity: int,
) -> Seq<C::IntRepr> {
    let filled = overwritten(before, written::<C>(text, capacity));
    match encoding::<C>(text, starts, capacity) {
        Ok(n) => filled.update(units_before::<C>(text, n), C::nul_code()),
        Err(_) => filled,
    }
}

/// Encodes a Rust string as a firmware string of characters of kind `C`.
///
/// The code units are stored in `buffer`, followed by a null terminator; the
/// last place of `buffer` is kept for it. If `buffer` is too small, the
/// output ends on the grapheme cluster boundary before the first character
/// that does not fit, and the part of the input that was not converted is
/// returned as well. An input of which not even the first cluster fits is an
/// error, so that a caller who converts piece by piece always advances.
pub fn encode<'buf, 'inp, C: Character>(input: &'inp str, buffer: &'buf mut [C::IntRepr]) -> (r:
    Result<(CStr<'buf, C>, Option<&'inp str>), StrEncodeError>)
    requires
        old(buffer)@.len() >= 1,
    ensures
        final(buffer)@ == buffer_after::<C>(
            old(buffer)@,
            input@,
            grapheme_starts(input@),
            old(buffer)@.len() - 1,
        ),
        final(buffer)@.len() == old(buffer)@.len(),
        match encoding::<C>(input@, grapheme_starts(input@), old(buffer)@.len() - 1) {
            Ok(n) => r matches Ok((s, rest)) && s@ == encoded::<C>(input@.take(n)).push(
                C::nul_code(),
            ) && final(buffer)@.subrange(0, s@.len() as int) == s@ && (match rest {
                Some(t) => Some(t@),
                None => None,
            }) == rest_of(input@, n),
            Err(e) => r matches Err(e2) && e2 == e,
        },
        r matches Ok((_, Some(t))) ==> 0 < t@.len() < input@.len(),
{
    encode_clusters::<C, GraphemeStarts<'inp>>(input, GraphemeStarts::new(input), buffer)
}

/// Converts `input` into `buffer`, given the byte offsets `starts` at which
/// the grapheme clusters of `input` begin.
///
/// On success the string in front of `buffer` holds the clusters that fit,
/// and the rest of `input` is returned beside it if any is left.
pub fn encode_clusters<'buf, 'inp, C: Character, S: ClusterStarts>(
    input: &'inp str,
    starts: S,
    buffer: &'buf mut [C::IntRepr],
) -> (r: Result<(CStr<'buf, C>, Option<&'inp str>), StrEncodeError>)
    requires
        ascending(starts.left()),
        old(buffer)@.len() >= 1,
    ensures
        final(buffer)@ == buffer_after::<C>(
            old(buffer)@,
            input@,
            starts.left(),
            old(buffer)@.len() - 1,
        ),
        final(buffer)@.len() == old(buffer)@.len(),
        match encoding::<C>(input@, starts.left(), old(buffer)@.len() - 1) {
            Ok(n) => r matches Ok((s, rest)) && s@ == encoded::<C>(input@.take(n)).push(
                C::nul_code(),
            ) && final(buffer)@.subrange(0, s@.len() as int) == s@ && (match rest {
                Some(t) => Some(t@),
                None => None,
            }) == rest_of(input@, n),
            Err(e) => r matches Err(e2) && e2 == e,
        },
        r matches Ok((_, Some(t))) ==> 0 < t@.len() < input@.len(),
{
    proof {
        lemma_encoding_advances::<C>(input@, starts.left(), old(buffer)@.len() - 1);
        lemma_encoding_ends_on_boundary::<C>(input@, starts.left(), old(buffer)@.len() - 1);
    }
    // One place at the end of the buffer is kept for the terminating null.
    let capacity = buffer.len() - 1;
    let total = input.as_bytes().len();
    let ghost text = input@;
    let ghost before = buffer@;
    let ghost all = starts.left();
    let mut supply = starts;
    let mut pending = supply.next_start();
    let ghost mut passed: int = 0;
    let mut chars = input.chars();
    let mut offset: usize = 0;
    let mut output_idx: usize = 0;
    let mut parsed_input_len: usize = 0;
    let mut encoded_output_len: usize = 0;
    let ghost mut k: int = 0;
    let ghost mut committed: int = 0;
    proof {
        lemma_byte_offset_ends(text);
        assert(text.take(0) == Seq::<char>::empty());
        assert(buffer@ == overwritten(before, encoded::<C>(text.take(0))));
    }
    loop
        invariant_except_break
            chars.remaining() == text.skip(k),
            buffer@ == overwritten(before, encoded::<C>(text.take(k))),
            output_idx == units_before::<C>(text, k),
            committed == cluster_start(text, all, k - 1),
        invariant
            text == input@,
            before == old(buffer)@,
            total == utf8_len(text),
            buffer@.len() == capacity + 1,
            buffer@.len() == before.len(),
            0 <= k <= text.len(),
            chars.obeys_prophetic_iter_laws(),
            offset == byte_offset(text, k),
            ascending(all),
            0 <= passed <= all.len(),
            forall|i: int| 0 <= i < passed ==> all[i] < offset,
            pending == if passed < all.len() {
                Some(all[passed])
            } else {
                None::<usize>
            },
            passed < all.len() ==> supply.left() == all.skip(passed + 1),
            units_before::<C>(text, k) <= output_idx <= capacity,
            forall|i: int| 0 <= i < output_idx ==> !ends_scan::<C>(#[trigger] buffer@[i]),
            0 <= committed <= k,
            parsed_input_len == byte_offset(text, committed),
            encoded_output_len == units_before::<C>(text, committed),
            encoded_output_len <= units_before::<C>(text, k),
            scan::<C>(text, capacity as int, 0) == scan::<C>(text, capacity as int, k),
        ensures
            buffer@ == overwritten(before, written::<C>(text, capacity as int)),
            k == halt_index(scan::<C>(text, capacity as int, 0), text.len() as int),
            match scan::<C>(text, capacity as int, 0) {
                Halt::End => committed == text.len(),
                Halt::Full(at) => committed == cluster_start(text, all, at),
                _ => false,
            },
        decreases text.len() - k,
    {
        // Find out whether a cluster begins at the next character.
        while pending.is_some() && pending.unwrap() < offset
            invariant
                0 <= passed <= all.len(),
                forall|i: int| 0 <= i < passed ==> all[i] < offset,
                pending == if passed < all.len() {
                    Some(all[passed])
                } else {
                    None::<usize>
                },
                passed < all.len() ==> supply.left() == all.skip(passed + 1),
            decreases all.len() - passed,
        {
            pending = supply.next_start();
            proof {
                passed = passed + 1;
                if passed < all.len() {
                    assert(all.skip(passed).drop_first() == all.skip(passed + 1));
                }
            }
        }
        let at_start = match pending {
            Some(start) => start == offset,
            None => false,
        };
        proof {
            if !at_start && starts_cluster(text, all, k) {
                let i = choose|i: int| 0 <= i < all.len() && #[trigger] all[i] == offset;
                assert(false);
            }
        }
        match chars.next() {
            None => {
                parsed_input_len = offset;
                encoded_output_len = output_idx;
                proof {
                    committed = k;
                }
                break ;
            },
            Some(c) => {
                assert(c == text[k]);
                // The clusters before this character are complete: commit them.
                if at_start {
                    parsed_input_len = offset;
                    encoded_output_len = output_idx;
                    proof {
                        committed = k;
                    }
                }
                assert(committed == cluster_start(text, all, k));
                // A null character cannot stand inside a firmware string.
                if c == '\0' {
                    return Err(StrEncodeError::InteriorNul(offset));
                }
                proof {
                    C::lemma_sentinels();
                    C::lemma_encodes_decodes(c);
                    lemma_encoded_step::<C>(text, k);
                    lemma_byte_offset_step(text, k);
                }
                let ghost whole = encoded::<C>(text.take(k));
                // The firmware ends a line with a carriage return and a line feed.
                if c == '\n' {
                    if output_idx < capacity {
                        buffer[output_idx] = C::carriage_return().to_int();
                        output_idx += 1;
                        assert(buffer@ == overwritten(before, whole.push(C::cr_code())));
                    } else {
                        break ;
                    }
                }
                let unit = match C::try_from_char(c) {
                    Some(unit) => unit,
                    None => {
                        return Err(StrEncodeError::UnsupportedChar(offset));
                    },
                };
                if output_idx < capacity {
                    buffer[output_idx] = unit.to_int();
                    output_idx += 1;
                } else {
                    break ;
                }
                offset += utf8_width(c);
                proof {
                    assert(buffer@ == overwritten(before, whole + units_of::<C>(c)));
                    assert(text.skip(k).drop_first() == text.skip(k + 1));
                    k = k + 1;
                }
            },
        }
    }
    proof {
        lemma_byte_offset_ends(text);
        lemma_byte_offset_is_boundary(text, committed);
        lemma_encoded_prefix::<C>(text, committed, k);
        if committed < text.len() {
            lemma_byte_offset_monotonic(text, committed, text.len() as int);
        }
        if committed > 0 {
            lemma_byte_offset_monotonic(text, 0, committed);
        }
    }
    // Keep track of the input that is left.
    let remaining_input = if parsed_input_len < total {
        let (_, tail) = input.split_at(parsed_input_len);
        proof {
            lemma_suffix_view(text, committed, tail@);
        }
        Some(tail)
    } else {
        None
    };
    // No progress at all is an error.
    if parsed_input_len == 0 && remaining_input.is_some() {
        return Err(StrEncodeError::BufferTooSmall);
    }
    buffer[encoded_output_len] = C::nul().to_int();
    let filled: &'buf [C::IntRepr] = buffer;
    let output = &filled[0..encoded_output_len + 1];
    proof {
        C::lemma_sentinels();
        assert(output@ == encoded::<C>(text.take(committed)).push(C::nul_code()));
        assert(is_c_str::<C>(output@));
    }
    Ok((CStr::from_ints_with_nul_unchecked(output), remaining_input))
}

/// The output never ends inside a grapheme cluster: a conversion that leaves
/// some of a text behind stops where a cluster begins, after at least one
/// character.
pub proof fn lemma_encoding_ends_on_boundary<C: Character>(
    text: Seq<char>,
    starts: Seq<usize>,
    capacity: int,
)
    ensures
        encoding::<C>(text, starts, capacity) matches Ok(n) ==> n == text.len() || (0 < n
            < text.len() && starts_cluster(text, starts, n)),
{
    lemma_scan_stops::<C>(text, capacity, 0);
    if let Halt::Full(k) = scan::<C>(text, capacity, 0) {
        lemma_cluster_start(text, starts, k);
    }
}

/// A smaller buffer takes a prefix: with less capacity a conversion that
/// succeeds converts no more characters, and the code units that it writes
/// stand in front of those that the larger buffer receives.
pub proof fn lemma_encoding_monotonic<C: Character>(
    text: Seq<char>,
    starts: Seq<usize>,
    small: int,
    large: int,
)
    requires
        small <= large,
    ensures
        (encoding::<C>(text, starts, small), encoding::<C>(text, starts, large)) matches (
            Ok(n),
            Ok(m),
        ) ==> 0 <= n <= m <= text.len() && encoded::<C>(text.take(m)).subrange(
            0,
            units_before::<C>(text, n),
        ) == encoded::<C>(text.take(n)),
{
    let len = text.len() as int;
    lemma_scan_stops::<C>(text, small, 0);
    lemma_scan_stops::<C>(text, large, 0);
    let few = scan::<C>(text, small, 0);
    let many = scan::<C>(text, large, 0);
    if let (Ok(n), Ok(m)) = (encoding::<C>(text, starts, small), encoding::<C>(text, starts, large)) {
        let kf = halt_index(few, len);
        let km = halt_index(many, len);
        if km < kf {
            assert(step_at::<C>(text, small, km) is Written);
            assert(false);
        }
        if many is Full {
            lemma_cluster_start(text, starts, km);
            lemma_cluster_start_monotonic(text, starts, kf, km);
        }
        if few is Full {
            lemma_cluster_start(text, starts, kf);
        }
        lemma_encoded_prefix::<C>(text, n, m);
    }
}

/// No progress is an error: a conversion that succeeds on a text that is not
/// empty converts at least one character.
pub proof fn lemma_encoding_advances<C: Character>(
    text: Seq<char>,
    starts: Seq<usize>,
    capacity: int,
)
    ensures
        encoding::<C>(text, starts, capacity) matches Ok(n) ==> (n > 0 || text.len() == 0),
{
    lemma_scan_stops::<C>(text, capacity, 0);
    if let Halt::Full(k) = scan::<C>(text, capacity, 0) {
        lemma_cluster_start(text, starts, k);
    }
}

/// A buffer that cannot hold the first grapheme cluster is too small.
///
/// The first `e` characters lie in the first cluster, can all be written in
/// a firmware string, and take more than `capacity` code units.
pub proof fn lemma_encoding_first_cluster_too_large<C: Character>(
    text: Seq<char>,
    starts: Seq<usize>,
    capacity: int,
    e: int,
)
    requires
        0 < e <= text.len(),
        forall|j: int| 0 < j < e ==> !starts_cluster(text, starts, j),
        forall|j: int| 0 <= j < e ==> encodable::<C>(#[trigger] text[j]),
        units_before::<C>(text, e) > capacity,
    ensures
        encoding::<C>(text, starts, capacity) == Err::<int, _>(StrEncodeError::BufferTooSmall),
{
    lemma_scan_stops::<C>(text, capacity, 0);
    let halt = scan::<C>(text, capacity, 0);
    let k = halt_index(halt, text.len() as int);
    if k >= e {
        lemma_encoded_prefix::<C>(text, e - 1, e);
        lemma_units_before_step::<C>(text, e - 1);
        assert(step_at::<C>(text, capacity, e - 1) is Written);
        assert(false);
    }
    assert(encodable::<C>(text[k]));
    lemma_cluster_start(text, starts, k);
}

/// A null character in the input is reported at its byte offset, provided
/// the conversion reaches it: the characters before it can all be written in
/// a firmware string and fit in the buffer.
pub proof fn lemma_encoding_interior_nul<C: Character>(
    text: Seq<char>,
    starts: Seq<usize>,
    capacity: int,
    k: int,
)
    requires
        0 <= k < text.len(),
        text[k] == '\0',
        forall|j: int| 0 <= j < k ==> encodable::<C>(#[trigger] text[j]),
        units_before::<C>(text, k) <= capacity,
    ensures
        encoding::<C>(text, starts, capacity) == Err::<int, _>(
            StrEncodeError::InteriorNul(byte_offset(text, k) as usize),
        ),
{
    assert forall|j: int| 0 <= j < k implies (#[trigger] step_at::<C>(text, capacity, j))
        is Written by {
        lemma_units_before_step::<C>(text, j);
        lemma_encoded_prefix::<C>(text, j + 1, k);
    }
    lemma_scan_skip::<C>(text, capacity, 0, k);
}

/// Converting piece by piece gives the conversion of the whole: the code
/// units of the characters that were converted, followed by the code units
/// of the rest, are the code units of the text.
pub proof fn lemma_encoding_resumes<C: Character>(
    text: Seq<char>,
    starts: Seq<usize>,
    capacity: int,
)
    ensures
        encoding::<C>(text, starts, capacity) matches Ok(n) ==> 0 <= n <= text.len()
            && encoded::<C>(text) == encoded::<C>(text.take(n)) + encoded::<C>(text.skip(n)),
{
    if let Ok(n) = encoding::<C>(text, starts, capacity) {
        lemma_scan_stops::<C>(text, capacity, 0);
        if let Halt::Full(k) = scan::<C>(text, capacity, 0) {
            lemma_cluster_start(text, starts, k);
        }
        lemma_encoded_concat::<C>(text.take(n), text.skip(n));
        assert(text.take(n) + text.skip(n) == text);
    }
}

/// One character more is written as its code units more.
pub proof fn lemma_encoded_step<C: Character>(text: Seq<char>, k: int)
    requires
        0 <= k < text.len(),
    ensures
        encoded::<C>(text.take(k + 1)) == encoded::<C>(text.take(k)) + units_of::<C>(text[k]),
{
    assert(text.take(k + 1).drop_last() == text.take(k));
}

/// One character more takes its number of code units more.
pub proof fn lemma_units_before_step<C: Character>(text: Seq<char>, k: int)
    requires
        0 <= k < text.len(),
    ensures
        units_before::<C>(text, k + 1) == units_before::<C>(text, k) + unit_count(text[k]),
{
    lemma_encoded_step::<C>(text, k);
}

/// The code units of a shorter prefix stand in front of those of a longer one.
pub proof fn lemma_encoded_prefix<C: Character>(text: Seq<char>, j: int, k: int)
    requires
        0 <= j <= k <= text.len(),
    ensures
        units_before::<C>(text, j) <= units_before::<C>(text, k),
        encoded::<C>(text.take(k)).subrange(0, units_before::<C>(text, j)) == encoded::<C>(
            text.take(j),
        ),
    decreases k - j,
{
    if j < k {
        lemma_encoded_prefix::<C>(text, j, k - 1);
        lemma_encoded_step::<C>(text, k - 1);
        assert(encoded::<C>(text.take(k)).subrange(0, units_before::<C>(text, j)) == encoded::<C>(
            text.take(k - 1),
        ).subrange(0, units_before::<C>(text, j)));
    } else {
        assert(encoded::<C>(text.take(k)).subrange(0, units_before::<C>(text, k)) == encoded::<C>(
            text.take(k),
        ));
    }
}

/// The code units of a text are those of its parts, one after the other.
pub proof fn lemma_encoded_concat<C: Character>(a: Seq<char>, b: Seq<char>)
    ensures
        encoded::<C>(a + b) == encoded::<C>(a) + encoded::<C>(b),
    decreases b.len(),
{
    if b.len() == 0 {
        assert(a + b == a);
        assert(encoded::<C>(a) + Seq::<C::IntRepr>::empty() == encoded::<C>(a));
    } else {
        lemma_encoded_concat::<C>(a, b.drop_last());
        assert((a + b).drop_last() == a + b.drop_last());
        assert(encoded::<C>(a) + (encoded::<C>(b.drop_last()) + units_of::<C>(b.last()))
            == encoded::<C>(a) + encoded::<C>(b.drop_last()) + units_of::<C>(b.last()));
    }
}

/// A scan writes every character before the one at which it stops, and
/// stops at a character for what becomes of that character.
pub proof fn lemma_scan_stops<C: Character>(text: Seq<char>, capacity: int, from: int)
    requires
        0 <= from <= text.len(),
    ensures
        from <= halt_index(scan::<C>(text, capacity, from), text.len() as int) <= text.len(),
        forall|j: int|
            from <= j < halt_index(scan::<C>(text, capacity, from), text.len() as int) ==> (
            #[trigger] step_at::<C>(text, capacity, j)) is Written,
        match scan::<C>(text, capacity, from) {
            Halt::End => true,
            Halt::Nul(k) => k < text.len() && step_at::<C>(text, capacity, k) is Nul,
            Halt::Unsupported(k) => k < text.len() && step_at::<C>(text, capacity, k)
                is Unsupported,
            Halt::Full(k) => k < text.len() && step_at::<C>(text, capacity, k) is Full,
        },
    decreases text.len() - from,
{
    if from < text.len() && step_at::<C>(text, capacity, from) is Written {
        lemma_scan_stops::<C>(text, capacity, from + 1);
    }
}

/// A scan that writes every character from `from` up to `to` goes on from `to`.
pub proof fn lemma_scan_skip<C: Character>(text: Seq<char>, capacity: int, from: int, to: int)
    requires
        0 <= from <= to <= text.len(),
        forall|j: int| from <= j < to ==> (#[trigger] step_at::<C>(text, capacity, j)) is Written,
    ensures
        scan::<C>(text, capacity, from) == scan::<C>(text, capacity, to),
    decreases to - from,
{
    if from < to {
        lemma_scan_skip::<C>(text, capacity, from + 1, to);
    }
}

/// The cluster that holds a character begins at or before it, at index zero
/// or where `starts` says that a cluster begins.
pub proof fn lemma_cluster_start(text: Seq<char>, starts: Seq<usize>, k: int)
    requires
        0 <= k,
    ensures
        0 <= cluster_start(text, starts, k) <= k,
        cluster_start(text, starts, k) > 0 ==> starts_cluster(
            text,
            starts,
            cluster_start(text, starts, k),
        ),
        forall|j: int|
            cluster_start(text, starts, k) < j <= k ==> !starts_cluster(text, starts, j),
    decreases k,
{
    if k > 0 && !starts_cluster(text, starts, k) {
        lemma_cluster_start(text, starts, k - 1);
    }
}

/// A later character lies in the same cluster or in a later one.
pub proof fn lemma_cluster_start_monotonic(text: Seq<char>, starts: Seq<usize>, j: int, k: int)
    requires
        0 <= j <= k,
    ensures
        cluster_start(text, starts, j) <= cluster_start(text, starts, k),
    decreases k - j,
{
    lemma_cluster_start(text, starts, j);
    if j < k {
        if !starts_cluster(text, starts, k) {
            lemma_cluster_start_monotonic(text, starts, j, k - 1);
        }
    }
}

} // verus!
