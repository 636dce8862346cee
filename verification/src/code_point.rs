//! The code-point abstraction: a validated value in `0 ..= 0x10FFFF`.

use vstd::prelude::*;
use crate::codec::char_from_u32;
use crate::codec::is_code_point_value;
use crate::codec::is_surrogate_value;
use crate::codec::lossy_code_point;

verus! {

broadcast use vstd::utf8::char_is_scalar;

/// A Unicode code point: from U+0000 to U+10FFFF.
///
/// Compare with `char`, which carries a Unicode scalar value: a code
/// point that is not a surrogate (U+D800 to U+DFFF).
#[derive(Clone, Copy, PartialEq, Eq, Structural, PartialOrd, Ord, Hash)]
pub struct CodePoint {
    value: u32,
}

impl View for CodePoint {
    type V = u32;

    closed spec fn view(&self) -> u32 {
        self.value
    }
}

impl CodePoint {
    #[verifier::type_invariant]
    pub(crate) open spec fn in_range(self) -> bool {
        is_code_point_value(self@)
    }

    /// Creates a `CodePoint` without a runtime check; callers prove the
    /// value is in range.
    pub fn from_u32_unchecked(value: u32) -> (r: CodePoint)
        requires
            is_code_point_value(value),
        ensures
            r@ == value,
    {
        CodePoint { value }
    }

    /// Creates a `CodePoint` exactly when the value is at most 0x10FFFF.
    pub fn from_u32(value: u32) -> (r: Option<CodePoint>)
        ensures
            r is Some <==> is_code_point_value(value),
            r matches Some(cp) ==> cp@ == value,
    {
        if value <= 0x10FFFF {
            Some(CodePoint { value })
        } else {
            None
        }
    }

    /// Creates a `CodePoint` from a `char`; every Unicode scalar value
    /// is a code point, so this always succeeds.
    pub fn from_char(value: char) -> (r: CodePoint)
        ensures
            r@ == value as u32,
            !is_surrogate_value(r@),
    {
        CodePoint { value: value as u32 }
    }

    /// The numeric value of the code point.
    pub fn to_u32(&self) -> (r: u32)
        ensures
            r == self@,
    {
        self.value
    }

    /// The Unicode scalar value of the code point, exactly when it is
    /// not a surrogate.
    pub fn to_char(&self) -> (r: Option<char>)
        ensures
            r is Some <==> !is_surrogate_value(self@),
            r matches Some(c) ==> c as u32 == self@,
    {
        proof {
            use_type_invariant(&*self);
        }
        char_from_u32(self.value)
    }

    /// The Unicode scalar value of the code point, with U+FFFD (the
    /// replacement character) standing in for a surrogate.
    pub fn to_char_lossy(&self) -> (r: char)
        ensures
            r as u32 == lossy_code_point(self@),
    {
        match self.to_char() {
            Some(c) => c,
            None => '\u{FFFD}',
        }
    }
}

} // verus!
