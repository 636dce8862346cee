//! General laws of the library, stated once over its mathematical
//! model and proved for all inputs.

use vstd::prelude::*;
use vstd::utf8::{
    encode_utf8, decode_first_codepoint, leading_byte_width_3, second_last_continuation_byte,
    last_continuation_byte,
};
use crate::codec::{
    valid_wtf8, is_boundary, code_points_of, no_surrogate_values, is_surrogate_value,
    is_code_point_value, encode_code_point, encode_code_points, chars_of_code_points,
    lossy_code_points, lossy_code_point, pop_first_code_point, take_first_code_point,
    lemma_chars_of, lemma_first_cp_reencode, lemma_first_byte_not_continuation,
    lemma_lossy_code_points, lemma_split_at_boundary, lemma_encode_code_point_len,
};

verus! {

broadcast use vstd::seq::group_seq_axioms;

/// Scalar round trip: a code point built from any Unicode scalar value
/// is never a surrogate and converts back to the very same scalar.
pub proof fn lemma_scalar_round_trip(c: char)
    ensures
        is_code_point_value(c as u32),
        !is_surrogate_value(c as u32),
        (c as u32) as char == c,
{
    vstd::utf8::char_is_scalar(c);
    vstd::utf8::char_u32_cast(c, c as u32);
}

/// UTF-8 round trip: the encoding of any character sequence is
/// well-formed WTF-8, holds no surrogate, and its code points carry the
/// original characters, so conversion back to UTF-8 text succeeds and
/// returns equal content.
pub proof fn lemma_utf8_round_trip(cs: Seq<char>)
    ensures
        valid_wtf8(encode_utf8(cs)),
        no_surrogate_values(code_points_of(encode_utf8(cs))),
        chars_of_code_points(code_points_of(encode_utf8(cs))) == cs,
{
    vstd::utf8::encode_utf8_valid_utf8(cs);
    vstd::utf8::encode_utf8_decode_utf8(cs);
    lemma_chars_of(encode_utf8(cs));
}

/// The bytes of the lossy projection: each surrogate's 3-byte encoding
/// replaced, in place, by the 3-byte encoding of U+FFFD, every other
/// code point's bytes kept verbatim.
pub open spec fn lossy_bytes(s: Seq<u8>) -> Seq<u8>
    recommends
        valid_wtf8(s),
    decreases s.len(),
    when valid_wtf8(s)
{
    if s.len() == 0 {
        seq![]
    } else if is_surrogate_value(decode_first_codepoint(s)) {
        seq![0xEFu8, 0xBFu8, 0xBDu8] + lossy_bytes(pop_first_code_point(s))
    } else {
        take_first_code_point(s) + lossy_bytes(pop_first_code_point(s))
    }
}

/// Lossy law: the lossy conversions produce exactly [`lossy_bytes`],
/// the original bytes with each surrogate encoding overwritten by
/// U+FFFD's encoding at the same position; the byte length never
/// changes.
pub proof fn lemma_lossy_bytes(s: Seq<u8>)
    requires
        valid_wtf8(s),
    ensures
        encode_code_points(lossy_code_points(code_points_of(s))) == lossy_bytes(s),
        lossy_bytes(s).len() == s.len(),
    decreases s.len(),
{
    if s.len() == 0 {
        assert(code_points_of(s) =~= Seq::<u32>::empty());
        assert(lossy_code_points(Seq::<u32>::empty()) =~= Seq::<u32>::empty());
        assert(encode_code_points(Seq::<u32>::empty()) =~= lossy_bytes(s));
    } else {
        lemma_first_cp_reencode(s);
        let v = decode_first_codepoint(s);
        let rest = pop_first_code_point(s);
        lemma_lossy_bytes(rest);
        let vs = code_points_of(s);
        let lv = lossy_code_point(v);
        assert(vs =~= seq![v] + code_points_of(rest));
        lemma_lossy_code_points(seq![v], code_points_of(rest));
        assert(lossy_code_points(seq![v]) =~= seq![lv]);
        let tail = lossy_code_points(code_points_of(rest));
        assert(lossy_code_points(vs) == seq![lv] + tail);
        assert((seq![lv] + tail)[0] == lv);
        assert((seq![lv] + tail).drop_first() =~= tail);
        assert(encode_code_points(lossy_code_points(vs)) == encode_code_point(lv)
            + encode_code_points(tail));
        if is_surrogate_value(v) {
            assert(leading_byte_width_3(0xFFFD) == 0xEF && second_last_continuation_byte(0xFFFD)
                == 0xBF && last_continuation_byte(0xFFFD) == 0xBD) by (bit_vector);
            assert(encode_code_point(lv) =~= seq![0xEFu8, 0xBFu8, 0xBDu8]);
            assert(encode_code_points(lossy_code_points(vs)) =~= lossy_bytes(s));
            lemma_encode_code_point_len(v);
        } else {
            assert(encode_code_point(lv) == take_first_code_point(s));
            assert(encode_code_points(lossy_code_points(vs)) =~= lossy_bytes(s));
        }
    }
}

/// Boundary law, first half: offset 0 and the full length are code
/// point boundaries of every well-formed sequence.
pub proof fn lemma_boundary_ends(s: Seq<u8>)
    requires
        valid_wtf8(s),
    ensures
        is_boundary(s, 0),
        is_boundary(s, s.len() as int),
{
    if s.len() > 0 {
        lemma_first_byte_not_continuation(s);
    }
}

/// Boundary law, second half: between any two ordered boundaries of a
/// well-formed sequence lies a well-formed sub-sequence, so slicing
/// there always succeeds.
pub proof fn lemma_slice_at_boundaries(s: Seq<u8>, i: int, j: int)
    requires
        valid_wtf8(s),
        is_boundary(s, i),
        is_boundary(s, j),
        i <= j,
    ensures
        valid_wtf8(s.subrange(i, j)),
{
    lemma_split_at_boundary(s, j);
    let prefix = s.subrange(0, j);
    assert(is_boundary(prefix, i)) by {
        if i < j {
            assert(prefix[i] == s[i]);
        }
    }
    lemma_split_at_boundary(prefix, i);
    assert(prefix.subrange(i, prefix.len() as int) =~= s.subrange(i, j));
}

} // verus!
