//! Null-terminated firmware strings.
//!
//! UEFI uses UCS-2 and Latin-1 strings with C conventions. A [`CStr`] is a
//! borrowed view of such a string that is known to be well formed.

use super::chars::Character;
use vstd::prelude::*;

pub use super::chars::{Char16, Char8};
pub use super::decoder::{decode, StrDecodeError};
pub use super::encoder::{encode, StrEncodeError};

verus! {

/// Why a slice of integers is no null-terminated string.
#[derive(Debug, Clone, Copy, PartialEq, Eq, Structural)]
pub enum FromIntsWithNulError {
    /// The integer at this position is no character.
    InvalidChar(usize),
    /// A null character stands at this position, before the end of the slice.
    InteriorNul(usize),
    /// The slice holds no null character.
    NotNulTerminated,
}

/// Whether `codes` is a well-formed string of kind `C`: it ends with the
/// null character, holds no other null character, and every code unit is a
/// character.
pub open spec fn is_c_str<C: Character>(codes: Seq<C::IntRepr>) -> bool {
    &&& codes.len() > 0
    &&& codes.last() == C::nul_code()
    &&& forall|i: int| 0 <= i < codes.len() - 1 ==> #[trigger] codes[i] != C::nul_code()
    &&& forall|i: int| 0 <= i < codes.len() ==> C::decodes(#[trigger] codes[i]) is Some
}

/// Whether `code` ends the scan of a string: it is the null character or no character at all.
pub open spec fn ends_scan<C: Character>(code: C::IntRepr) -> bool {
    code == C::nul_code() || C::decodes(code) is None
}

/// The first position at or after `from` whose code unit ends the scan, or
/// the length of `codes` if there is none.
pub open spec fn first_end<C: Character>(codes: Seq<C::IntRepr>, from: int) -> int
    decreases codes.len() - from,
{
    if from >= codes.len() {
        codes.len() as int
    } else if ends_scan::<C>(codes[from]) {
        from
    } else {
        first_end::<C>(codes, from + 1)
    }
}

/// What validating `codes` as a string of kind `C` gives.
///
/// The code units are read in order up to the first one that is null or
/// invalid. An invalid one is reported at its position; a null one is
/// accepted in the last position and reported anywhere else; a slice
/// without either is not terminated.
pub open spec fn validation<C: Character>(codes: Seq<C::IntRepr>) -> Result<
    (),
    FromIntsWithNulError,
> {
    let p = first_end::<C>(codes, 0);
    if p >= codes.len() {
        Err(FromIntsWithNulError::NotNulTerminated)
    } else if C::decodes(codes[p]) is None {
        Err(FromIntsWithNulError::InvalidChar(p as usize))
    } else if p + 1 < codes.len() {
        Err(FromIntsWithNulError::InteriorNul(p as usize))
    } else {
        Ok(())
    }
}

/// The code units of `codes` from position `from` up to position `to`, each
/// with its position.
pub open spec fn indexed<T>(codes: Seq<T>, from: int, to: int) -> Seq<(usize, T)> {
    Seq::new((to - from) as nat, |i: int| ((from + i) as usize, codes[from + i]))
}

/// What a buffer that held `before` holds when `front` is written over its
/// first elements.
pub open spec fn overwritten<T>(before: Seq<T>, front: Seq<T>) -> Seq<T> {
    front + before.skip(front.len() as int)
}

/// A borrowed null-terminated string of characters of kind `C`.
///
/// The view is the sequence of code units, the terminating null included.
pub struct CStr<'a, C: Character> {
    codes: &'a [C::IntRepr],
}

/// A Latin-1 null-terminated string.
pub type CStr8<'a> = CStr<'a, Char8>;

/// A UCS-2 null-terminated string.
pub type CStr16<'a> = CStr<'a, Char16>;

impl<'a, C: Character> View for CStr<'a, C> {
    type V = Seq<C::IntRepr>;

    closed spec fn view(&self) -> Seq<C::IntRepr> {
        self.codes@
    }
}

impl<'a, C: Character> CStr<'a, C> {
    #[verifier::type_invariant]
    spec fn well_formed(self) -> bool {
        is_c_str::<C>(self.codes@)
    }

    /// Checks that `codes` is a null-terminated string and wraps it.
    ///
    /// Unlike a constructor for byte strings, this also checks that every
    /// code unit is a character, as UCS-2 data needs it. The code units of a
    /// string that was accepted are accepted again.
    pub fn from_ints_with_nul(codes: &'a [C::IntRepr]) -> (r: Result<Self, FromIntsWithNulError>)
        ensures
            match r {
                Ok(s) => validation::<C>(codes@) is Ok && s@ == codes@,
                Err(e) => validation::<C>(codes@) == Err::<(), _>(e),
            },
            r is Ok <==> is_c_str::<C>(codes@),
    {
        proof {
            lemma_validation_accepts::<C>(codes@);
        }
        let mut pos: usize = 0;
        while pos < codes.len()
            invariant
                pos <= codes@.len(),
                validation::<C>(codes@) is Ok <==> is_c_str::<C>(codes@),
                first_end::<C>(codes@, 0) == first_end::<C>(codes@, pos as int),
            decreases codes@.len() - pos,
        {
            match C::try_from_int(codes[pos]) {
                Some(c) => {
                    if c.equals(C::nul()) {
                        if pos != codes.len() - 1 {
                            return Err(FromIntsWithNulError::InteriorNul(pos));
                        } else {
                            return Ok(CStr { codes });
                        }
                    }
                },
                None => {
                    return Err(FromIntsWithNulError::InvalidChar(pos));
                },
            }
            pos += 1;
        }
        Err(FromIntsWithNulError::NotNulTerminated)
    }

    /// Wraps a slice that is known to be a null-terminated string.
    pub fn from_ints_with_nul_unchecked(codes: &'a [C::IntRepr]) -> (s: Self)
        requires
            is_c_str::<C>(codes@),
        ensures
            s@ == codes@,
    {
        CStr { codes }
    }

    /// The code units of this string, without the terminating null.
    pub fn to_ints_slice(&self) -> (codes: &'a [C::IntRepr])
        ensures
            codes@ == self@.drop_last(),
            is_c_str::<C>(self@),
    {
        proof {
            use_type_invariant(self);
        }
        let all = self.codes;
        &all[0..all.len() - 1]
    }

    /// The characters of this string with their positions, without the
    /// terminating null, to be taken from either end.
    pub fn char_indices(&self) -> (iter: CharIndices<'a, C>)
        ensures
            iter@ == indexed(self@, 0, self@.len() - 1),
            is_c_str::<C>(self@),
            self@.len() <= usize::MAX,
    {
        proof {
            use_type_invariant(self);
        }
        let codes = self.codes;
        CharIndices { codes, front: 0, back: codes.len() - 1 }
    }

    /// The code units of this string, the terminating null included.
    pub fn to_ints_slice_with_nul(&self) -> (codes: &'a [C::IntRepr])
        ensures
            codes@ == self@,
            is_c_str::<C>(codes@),
    {
        proof {
            use_type_invariant(self);
        }
        self.codes
    }
}

/// The characters of a string that are yet to be taken, with their positions.
///
/// The view is the sequence of the pairs of a position and the code unit of
/// the character at that position.
pub struct CharIndices<'a, C: Character> {
    codes: &'a [C::IntRepr],
    front: usize,
    back: usize,
}

impl<'a, C: Character> View for CharIndices<'a, C> {
    type V = Seq<(usize, C::IntRepr)>;

    closed spec fn view(&self) -> Seq<(usize, C::IntRepr)> {
        indexed(self.codes@, self.front as int, self.back as int)
    }
}

impl<'a, C: Character> CharIndices<'a, C> {
    #[verifier::type_invariant]
    spec fn well_formed(self) -> bool {
        &&& self.front <= self.back <= self.codes@.len()
        &&& forall|i: int| 0 <= i < self.codes@.len() ==> C::decodes(#[trigger] self.codes@[i]) is Some
    }

    /// Takes the first character that is left.
    pub fn next(&mut self) -> (r: Option<(usize, C)>)
        ensures
            match r {
                Some((pos, ch)) => old(self)@.len() > 0 && (pos, ch.code()) == old(self)@[0]
                    && final(self)@ == old(self)@.drop_first(),
                None => old(self)@.len() == 0 && final(self)@ == old(self)@,
            },
    {
        proof {
            use_type_invariant(&*self);
        }
        if self.front < self.back {
            let pos = self.front;
            let ch = C::try_from_int(self.codes[pos]).unwrap();
            self.front = pos + 1;
            assert(self@ == old(self)@.drop_first());
            Some((pos, ch))
        } else {
            None
        }
    }

    /// Takes the last character that is left.
    pub fn next_back(&mut self) -> (r: Option<(usize, C)>)
        ensures
            match r {
                Some((pos, ch)) => old(self)@.len() > 0 && (pos, ch.code()) == old(self)@.last()
                    && final(self)@ == old(self)@.drop_last(),
                None => old(self)@.len() == 0 && final(self)@ == old(self)@,
            },
    {
        proof {
            use_type_invariant(&*self);
        }
        if self.front < self.back {
            let pos = self.back - 1;
            let ch = C::try_from_int(self.codes[pos]).unwrap();
            self.back = pos;
            assert(self@ == old(self)@.drop_last());
            Some((pos, ch))
        } else {
            None
        }
    }
}

/// Validation accepts exactly the well-formed strings.
pub proof fn lemma_validation_accepts<C: Character>(codes: Seq<C::IntRepr>)
    ensures
        validation::<C>(codes) is Ok <==> is_c_str::<C>(codes),
{
    C::lemma_sentinels();
    lemma_first_end::<C>(codes, 0);
    if is_c_str::<C>(codes) {
        lemma_first_end_skip::<C>(codes, 0, codes.len() - 1);
    }
}

/// A null character before the last position is reported at its position,
/// provided every code unit before it is a character other than null.
pub proof fn lemma_validation_interior_nul<C: Character>(codes: Seq<C::IntRepr>, p: int)
    requires
        0 <= p < codes.len() - 1,
        codes[p] == C::nul_code(),
        forall|i: int| 0 <= i < p ==> !ends_scan::<C>(#[trigger] codes[i]),
    ensures
        validation::<C>(codes) == Err::<(), _>(FromIntsWithNulError::InteriorNul(p as usize)),
{
    C::lemma_sentinels();
    lemma_first_end_skip::<C>(codes, 0, p);
}

/// Between `from` and the first code unit that ends the scan, none does.
pub proof fn lemma_first_end<C: Character>(codes: Seq<C::IntRepr>, from: int)
    requires
        0 <= from <= codes.len(),
    ensures
        from <= first_end::<C>(codes, from) <= codes.len(),
        first_end::<C>(codes, from) < codes.len() ==> ends_scan::<C>(
            codes[first_end::<C>(codes, from)],
        ),
        forall|i: int|
            from <= i < first_end::<C>(codes, from) ==> !ends_scan::<C>(#[trigger] codes[i]),
    decreases codes.len() - from,
{
    if from < codes.len() && !ends_scan::<C>(codes[from]) {
        lemma_first_end::<C>(codes, from + 1);
    }
}

/// A scan that meets no end before `to` goes on from `to`.
pub proof fn lemma_first_end_skip<C: Character>(codes: Seq<C::IntRepr>, from: int, to: int)
    requires
        0 <= from <= to <= codes.len(),
        forall|i: int| from <= i < to ==> !ends_scan::<C>(#[trigger] codes[i]),
    ensures
        first_end::<C>(codes, from) == first_end::<C>(codes, to),
    decreases to - from,
{
    if from < to {
        lemma_first_end_skip::<C>(codes, from + 1, to);
    }
}

} // verus!
