//! The WTF-8 byte format, as mathematics.
//!
//! WTF-8 reuses the UTF-8 bit layout (leading byte plus continuation
//! bytes, no overlong forms) but, unlike UTF-8, also admits the 3-byte
//! encodings of surrogate code points `0xD800 ..= 0xDFFF`.  This module
//! defines well-formedness ([`valid_wtf8`]), decoding
//! ([`code_points_of`]) and encoding ([`encode_code_point`]) of byte
//! sequences, the UTF-16 code-unit view ([`wide_of`], [`decode_utf16`]),
//! and the lemmas that tie them together.  It builds on the UTF-8
//! definitions of `vstd::utf8`.

use vstd::prelude::*;
use vstd::utf8::*;

verus! {

broadcast use {
    vstd::seq::group_seq_axioms,
    vstd::utf8::char_is_scalar,
    vstd::utf8::char_u32_cast,
};

/// A code point: any value up to and including 0x10FFFF.
pub open spec fn is_code_point_value(v: u32) -> bool {
    v <= 0x10FFFF
}

/// A surrogate code point, which has no Unicode scalar equivalent.
pub open spec fn is_surrogate_value(v: u32) -> bool {
    0xD800 <= v <= 0xDFFF
}

/// A lead (high) surrogate.
pub open spec fn is_lead_surrogate_value(v: u32) -> bool {
    0xD800 <= v <= 0xDBFF
}

/// A trail (low) surrogate.
pub open spec fn is_trail_surrogate_value(v: u32) -> bool {
    0xDC00 <= v <= 0xDFFF
}

/// True when the sequence begins with a well-formed WTF-8 code point
/// encoding: UTF-8 byte shapes, no overlong form, but surrogate values
/// are permitted.
pub open spec fn valid_first_code_point(bytes: Seq<u8>) -> bool {
    &&& valid_leading_and_continuation_bytes_first_codepoint(bytes)
    &&& not_overlong_encoding(decode_first_codepoint(bytes), length_of_first_codepoint(bytes))
}

/// The bytes after the first code point encoding.
pub open spec fn pop_first_code_point(bytes: Seq<u8>) -> Seq<u8>
    recommends
        valid_first_code_point(bytes),
{
    bytes.subrange(length_of_first_codepoint(bytes), bytes.len() as int)
}

/// The bytes of the first code point encoding.
pub open spec fn take_first_code_point(bytes: Seq<u8>) -> Seq<u8>
    recommends
        valid_first_code_point(bytes),
{
    bytes.subrange(0, length_of_first_codepoint(bytes))
}

/// Well-formed WTF-8: a sequence of well-formed code point encodings.
pub open spec fn valid_wtf8(bytes: Seq<u8>) -> bool
    decreases bytes.len(),
{
    bytes.len() != 0 ==> valid_first_code_point(bytes) && valid_wtf8(pop_first_code_point(bytes))
}

/// The code point values encoded by a well-formed WTF-8 sequence.
pub open spec fn code_points_of(bytes: Seq<u8>) -> Seq<u32>
    recommends
        valid_wtf8(bytes),
    decreases bytes.len(),
    when valid_wtf8(bytes)
{
    if bytes.len() == 0 {
        seq![]
    } else {
        seq![decode_first_codepoint(bytes)] + code_points_of(pop_first_code_point(bytes))
    }
}

/// The WTF-8 encoding of one code point value: the standard UTF-8 bit
/// splitting, applied to surrogates like to any other 3-byte value.
pub open spec fn encode_code_point(v: u32) -> Seq<u8>
    recommends
        is_code_point_value(v),
{
    if v <= 0x7F {
        seq![leading_byte_width_1(v)]
    } else if v <= 0x7FF {
        seq![leading_byte_width_2(v), last_continuation_byte(v)]
    } else if v <= 0xFFFF {
        seq![
            leading_byte_width_3(v),
            second_last_continuation_byte(v),
            last_continuation_byte(v),
        ]
    } else {
        seq![
            leading_byte_width_4(v),
            third_last_continuation_byte(v),
            second_last_continuation_byte(v),
            last_continuation_byte(v),
        ]
    }
}

/// The WTF-8 encoding of a sequence of code point values.
pub open spec fn encode_code_points(vs: Seq<u32>) -> Seq<u8>
    decreases vs.len(),
{
    if vs.len() == 0 {
        seq![]
    } else {
        encode_code_point(vs[0]) + encode_code_points(vs.drop_first())
    }
}

/// Every value of the sequence is a code point.
pub open spec fn all_code_point_values(vs: Seq<u32>) -> bool {
    forall|i: int| 0 <= i < vs.len() ==> is_code_point_value(#[trigger] vs[i])
}

/// No value of the sequence is a surrogate.
pub open spec fn no_surrogate_values(vs: Seq<u32>) -> bool {
    forall|i: int| 0 <= i < vs.len() ==> !is_surrogate_value(#[trigger] vs[i])
}

// Round trips between the bit-level encoding and decoding formulas, one
// lemma per width.  These mirror the UTF-8 facts of `vstd::utf8`, with
// the width-3 case widened to admit surrogates.
proof fn lemma_enc_dec_width_1(v: u32)
    by (bit_vector)
    requires
        v <= 0x7F,
    ensures
        ({
            let b1 = leading_byte_width_1(v);
            &&& is_leading_byte_width_1(b1)
            &&& codepoint_width_1(b1) == v
        }),
{
}

proof fn lemma_enc_dec_width_2(v: u32)
    by (bit_vector)
    requires
        0x80 <= v <= 0x7FF,
    ensures
        ({
            let b1 = leading_byte_width_2(v);
            let b2 = last_continuation_byte(v);
            &&& is_leading_byte_width_2(b1)
            &&& is_continuation_byte(b2)
            &&& codepoint_width_2(b1, b2) == v
        }),
{
}

proof fn lemma_enc_dec_width_3(v: u32)
    by (bit_vector)
    requires
        0x800 <= v <= 0xFFFF,
    ensures
        ({
            let b1 = leading_byte_width_3(v);
            let b2 = second_last_continuation_byte(v);
            let b3 = last_continuation_byte(v);
            &&& is_leading_byte_width_3(b1)
            &&& is_continuation_byte(b2)
            &&& is_continuation_byte(b3)
            &&& codepoint_width_3(b1, b2, b3) == v
        }),
{
}

proof fn lemma_enc_dec_width_4(v: u32)
    by (bit_vector)
    requires
        0x10000 <= v <= 0x10FFFF,
    ensures
        ({
            let b1 = leading_byte_width_4(v);
            let b2 = third_last_continuation_byte(v);
            let b3 = second_last_continuation_byte(v);
            let b4 = last_continuation_byte(v);
            &&& is_leading_byte_width_4(b1)
            &&& is_continuation_byte(b2)
            &&& is_continuation_byte(b3)
            &&& is_continuation_byte(b4)
            &&& codepoint_width_4(b1, b2, b3, b4) == v
        }),
{
}

proof fn lemma_dec_enc_width_1(b1: u8)
    by (bit_vector)
    requires
        is_leading_byte_width_1(b1),
    ensures
        ({
            let v = codepoint_width_1(b1);
            &&& v <= 0x7F
            &&& leading_byte_width_1(v) == b1
        }),
{
}

proof fn lemma_dec_enc_width_2(b1: u8, b2: u8)
    by (bit_vector)
    requires
        is_leading_byte_width_2(b1),
        is_continuation_byte(b2),
        0x80 <= codepoint_width_2(b1, b2),
    ensures
        ({
            let v = codepoint_width_2(b1, b2);
            &&& v <= 0x7FF
            &&& leading_byte_width_2(v) == b1
            &&& last_continuation_byte(v) == b2
        }),
{
}

proof fn lemma_dec_enc_width_3(b1: u8, b2: u8, b3: u8)
    by (bit_vector)
    requires
        is_leading_byte_width_3(b1),
        is_continuation_byte(b2),
        is_continuation_byte(b3),
        0x800 <= codepoint_width_3(b1, b2, b3),
    ensures
        ({
            let v = codepoint_width_3(b1, b2, b3);
            &&& v <= 0xFFFF
            &&& leading_byte_width_3(v) == b1
            &&& second_last_continuation_byte(v) == b2
            &&& last_continuation_byte(v) == b3
        }),
{
}

proof fn lemma_dec_enc_width_4(b1: u8, b2: u8, b3: u8, b4: u8)
    by (bit_vector)
    requires
        is_leading_byte_width_4(b1),
        is_continuation_byte(b2),
        is_continuation_byte(b3),
        is_continuation_byte(b4),
        0x10000 <= codepoint_width_4(b1, b2, b3, b4) <= 0x10FFFF,
    ensures
        ({
            let v = codepoint_width_4(b1, b2, b3, b4);
            &&& leading_byte_width_4(v) == b1
            &&& third_last_continuation_byte(v) == b2
            &&& second_last_continuation_byte(v) == b3
            &&& last_continuation_byte(v) == b4
        }),
{
}

/// The encoding of a code point takes between 1 and 4 bytes, 3 of them
/// exactly for every surrogate.
pub proof fn lemma_encode_code_point_len(v: u32)
    requires
        is_code_point_value(v),
    ensures
        1 <= encode_code_point(v).len() <= 4,
        is_surrogate_value(v) ==> encode_code_point(v).len() == 3,
{
}

/// Prepending the encoding of a code point to any byte sequence yields a
/// sequence that starts with that code point.
pub proof fn lemma_encode_first(v: u32, rest: Seq<u8>)
    requires
        is_code_point_value(v),
    ensures
        ({
            let s = encode_code_point(v) + rest;
            &&& valid_first_code_point(s)
            &&& decode_first_codepoint(s) == v
            &&& length_of_first_codepoint(s) == encode_code_point(v).len()
            &&& pop_first_code_point(s) == rest
            &&& take_first_code_point(s) == encode_code_point(v)
        }),
{
    let e = encode_code_point(v);
    let s = e + rest;
    if v <= 0x7F {
        lemma_enc_dec_width_1(v);
        assert(s[0] == leading_byte_width_1(v));
    } else if v <= 0x7FF {
        lemma_enc_dec_width_2(v);
        assert(s[0] == leading_byte_width_2(v));
        assert(s[1] == last_continuation_byte(v));
    } else if v <= 0xFFFF {
        lemma_enc_dec_width_3(v);
        assert(s[0] == leading_byte_width_3(v));
        assert(s[1] == second_last_continuation_byte(v));
        assert(s[2] == last_continuation_byte(v));
    } else {
        lemma_enc_dec_width_4(v);
        assert(s[0] == leading_byte_width_4(v));
        assert(s[1] == third_last_continuation_byte(v));
        assert(s[2] == second_last_continuation_byte(v));
        assert(s[3] == last_continuation_byte(v));
    }
    assert(pop_first_code_point(s) =~= rest);
    assert(take_first_code_point(s) =~= e);
}

/// A well-formed first code point reads the same after appending more
/// bytes to the sequence.
pub proof fn lemma_first_cp_concat(a: Seq<u8>, b: Seq<u8>)
    requires
        valid_first_code_point(a),
    ensures
        valid_first_code_point(a + b),
        decode_first_codepoint(a + b) == decode_first_codepoint(a),
        length_of_first_codepoint(a + b) == length_of_first_codepoint(a),
        pop_first_code_point(a + b) == pop_first_code_point(a) + b,
        take_first_code_point(a + b) == take_first_code_point(a),
{
    let s = a + b;
    assert(length_of_first_codepoint(a) <= a.len());
    assert(pop_first_code_point(s) =~= pop_first_code_point(a) + b);
    assert(take_first_code_point(s) =~= take_first_code_point(a));
}

/// Re-encoding the first decoded code point gives back exactly the bytes
/// it was decoded from.
pub proof fn lemma_first_cp_reencode(s: Seq<u8>)
    requires
        valid_first_code_point(s),
    ensures
        is_code_point_value(decode_first_codepoint(s)),
        encode_code_point(decode_first_codepoint(s)) == take_first_code_point(s),
        encode_code_point(decode_first_codepoint(s)).len() == length_of_first_codepoint(s),
{
    let v = decode_first_codepoint(s);
    if is_leading_byte_width_1(s[0]) {
        lemma_dec_enc_width_1(s[0]);
        assert(encode_code_point(v) =~= take_first_code_point(s));
    } else if is_leading_byte_width_2(s[0]) {
        lemma_dec_enc_width_2(s[0], s[1]);
        assert(encode_code_point(v) =~= take_first_code_point(s));
    } else if is_leading_byte_width_3(s[0]) {
        lemma_dec_enc_width_3(s[0], s[1], s[2]);
        assert(encode_code_point(v) =~= take_first_code_point(s));
    } else {
        lemma_dec_enc_width_4(s[0], s[1], s[2], s[3]);
        assert(encode_code_point(v) =~= take_first_code_point(s));
    }
}

/// A well-formed sequence never starts with a continuation byte.
pub proof fn lemma_first_byte_not_continuation(s: Seq<u8>)
    requires
        valid_first_code_point(s),
    ensures
        !is_continuation_byte(s[0]),
{
}

/// Prepending one encoded code point preserves well-formedness in both
/// directions, and prepends its value to the decoded sequence.
pub proof fn lemma_push_front(v: u32, rest: Seq<u8>)
    requires
        is_code_point_value(v),
    ensures
        valid_wtf8(encode_code_point(v) + rest) <==> valid_wtf8(rest),
        valid_wtf8(rest) ==> code_points_of(encode_code_point(v) + rest) == seq![v]
            + code_points_of(rest),
{
    lemma_encode_first(v, rest);
}

/// The encoding of any sequence of code point values is well-formed
/// WTF-8, and decodes back to the same values.
pub proof fn lemma_encode_code_points_valid(vs: Seq<u32>)
    requires
        all_code_point_values(vs),
    ensures
        valid_wtf8(encode_code_points(vs)),
        code_points_of(encode_code_points(vs)) == vs,
    decreases vs.len(),
{
    if vs.len() == 0 {
        assert(code_points_of(encode_code_points(vs)) =~= vs);
    } else {
        lemma_encode_code_points_valid(vs.drop_first());
        lemma_push_front(vs[0], encode_code_points(vs.drop_first()));
        assert(seq![vs[0]] + vs.drop_first() =~= vs);
    }
}

/// Concatenation of well-formed WTF-8 sequences is well-formed, and the
/// decoded code points concatenate accordingly.
pub proof fn lemma_wtf8_concat(a: Seq<u8>, b: Seq<u8>)
    requires
        valid_wtf8(a),
        valid_wtf8(b),
    ensures
        valid_wtf8(a + b),
        code_points_of(a + b) == code_points_of(a) + code_points_of(b),
    decreases a.len(),
{
    if a.len() == 0 {
        assert(a + b =~= b);
        assert(code_points_of(a + b) =~= code_points_of(a) + code_points_of(b));
    } else {
        lemma_first_cp_concat(a, b);
        lemma_wtf8_concat(pop_first_code_point(a), b);
        assert(code_points_of(a + b) =~= code_points_of(a) + code_points_of(b));
    }
}

/// Decoding a well-formed sequence and re-encoding the code points gives
/// the sequence back; the values are in range, and the byte length is
/// between one and four times the code point count.
pub proof fn lemma_decode_reencode(s: Seq<u8>)
    requires
        valid_wtf8(s),
    ensures
        all_code_point_values(code_points_of(s)),
        encode_code_points(code_points_of(s)) == s,
        code_points_of(s).len() <= s.len() <= 4 * code_points_of(s).len(),
    decreases s.len(),
{
    if s.len() == 0 {
        assert(encode_code_points(code_points_of(s)) =~= s);
    } else {
        lemma_first_cp_reencode(s);
        lemma_decode_reencode(pop_first_code_point(s));
        let vs = code_points_of(s);
        assert(vs.drop_first() =~= code_points_of(pop_first_code_point(s)));
        assert(encode_code_points(vs) =~= s);
    }
}

/// A code-point boundary of a byte sequence: the start, the end, or any
/// position that does not hold a continuation byte.
pub open spec fn is_boundary(s: Seq<u8>, i: int) -> bool {
    0 <= i <= s.len() && (i == s.len() || !is_continuation_byte(s[i]))
}

/// Splitting a well-formed sequence at a boundary yields two well-formed
/// sequences whose decoded code points concatenate to the original's.
pub proof fn lemma_split_at_boundary(s: Seq<u8>, i: int)
    requires
        valid_wtf8(s),
        is_boundary(s, i),
    ensures
        valid_wtf8(s.subrange(0, i)),
        valid_wtf8(s.subrange(i, s.len() as int)),
        code_points_of(s) == code_points_of(s.subrange(0, i)) + code_points_of(
            s.subrange(i, s.len() as int),
        ),
    decreases s.len(),
{
    let prefix = s.subrange(0, i);
    let suffix = s.subrange(i, s.len() as int);
    if i == 0 {
        assert(suffix =~= s);
        assert(code_points_of(s) =~= code_points_of(prefix) + code_points_of(suffix));
    } else {
        let l = length_of_first_codepoint(s);
        assert(l <= i);
        let rest = pop_first_code_point(s);
        lemma_split_at_boundary(rest, i - l);
        lemma_first_cp_reencode(s);
        let v = decode_first_codepoint(s);
        // the prefix is the first code point followed by a prefix of the rest
        assert(prefix =~= take_first_code_point(s) + rest.subrange(0, i - l));
        lemma_push_front(v, rest.subrange(0, i - l));
        assert(suffix =~= rest.subrange(i - l, rest.len() as int));
        assert(code_points_of(s) =~= code_points_of(prefix) + code_points_of(suffix));
    }
}

/// Well-formed UTF-8 is exactly well-formed WTF-8 without surrogates,
/// and the two decodings agree where both are defined.
pub proof fn lemma_utf8_wtf8(s: Seq<u8>)
    ensures
        valid_utf8(s) <==> (valid_wtf8(s) && no_surrogate_values(code_points_of(s))),
        valid_utf8(s) ==> code_points_of(s) == decode_utf8(s).map_values(|c: char| c as u32),
    decreases s.len(),
{
    if s.len() == 0 {
        assert(code_points_of(s) =~= decode_utf8(s).map_values(|c: char| c as u32));
    } else {
        if valid_first_code_point(s) {
            let v = decode_first_codepoint(s);
            let rest = pop_first_code_point(s);
            lemma_utf8_wtf8(rest);
            let vs = code_points_of(s);
            if valid_wtf8(s) {
                assert(vs =~= seq![v] + code_points_of(rest));
                assert(no_surrogate_values(vs) <==> (!is_surrogate_value(v)
                    && no_surrogate_values(code_points_of(rest)))) by {
                    let vr = code_points_of(rest);
                    if !is_surrogate_value(v) && no_surrogate_values(vr) {
                        assert forall|i: int| 0 <= i < vs.len() implies !is_surrogate_value(
                            #[trigger] vs[i],
                        ) by {
                            if i > 0 {
                                assert(vs[i] == vr[i - 1]);
                            }
                        }
                    }
                    if no_surrogate_values(vs) {
                        assert(!is_surrogate_value(vs[0]));
                        assert forall|i: int| 0 <= i < vr.len() implies !is_surrogate_value(
                            #[trigger] vr[i],
                        ) by {
                            assert(vr[i] == vs[i + 1]);
                        }
                    }
                }
            }
            if valid_utf8(s) {
                lemma_first_cp_reencode(s);
                let cs = decode_utf8(s);
                let m = cs.map_values(|c: char| c as u32);
                let mr = decode_utf8(rest).map_values(|c: char| c as u32);
                assert(cs.drop_first() =~= decode_utf8(rest));
                assert(m =~= vs) by {
                    assert forall|i: int| 0 <= i < m.len() implies m[i] == vs[i] by {
                        if i == 0 {
                            assert(m[0] == cs[0] as u32);
                            assert(cs[0] == v as char);
                        } else {
                            assert(cs[i] == decode_utf8(rest)[i - 1]);
                            assert(mr[i - 1] == decode_utf8(rest)[i - 1] as u32);
                            assert(vs[i] == code_points_of(rest)[i - 1]);
                        }
                    }
                }
            }
        }
    }
}

/// The characters carried by a sequence of non-surrogate code points.
pub open spec fn chars_of_code_points(vs: Seq<u32>) -> Seq<char>
    recommends
        all_code_point_values(vs),
        no_surrogate_values(vs),
{
    vs.map_values(|v: u32| v as char)
}

/// For valid UTF-8, `decode_utf8` yields exactly the characters of the
/// WTF-8 code points.
pub proof fn lemma_chars_of(s: Seq<u8>)
    requires
        valid_utf8(s),
    ensures
        valid_wtf8(s),
        no_surrogate_values(code_points_of(s)),
        decode_utf8(s) == chars_of_code_points(code_points_of(s)),
{
    lemma_utf8_wtf8(s);
    lemma_decode_reencode(s);
    let cs = decode_utf8(s);
    let vs = code_points_of(s);
    assert(cs =~= chars_of_code_points(vs)) by {
        assert forall|i: int| 0 <= i < cs.len() implies cs[i] == chars_of_code_points(vs)[i] by {
            assert(vs[i] == cs.map_values(|c: char| c as u32)[i]);
            assert(vs[i] == cs[i] as u32);
            vstd::utf8::char_u32_cast(cs[i], vs[i]);
            assert(chars_of_code_points(vs)[i] == vs[i] as char);
        }
    }
}

/// Extending a well-formed sequence by one code point at a boundary:
/// the decoded prefix grows by exactly that code point.
pub proof fn lemma_take_step(s: Seq<u8>, i: int)
    requires
        valid_wtf8(s),
        is_boundary(s, i),
        i < s.len(),
    ensures
        ({
            let suf = s.subrange(i, s.len() as int);
            let l = length_of_first_codepoint(suf);
            let v = decode_first_codepoint(suf);
            &&& valid_first_code_point(suf)
            &&& is_code_point_value(v)
            &&& 1 <= l <= 4
            &&& i + l <= s.len()
            &&& is_boundary(s, i + l)
            &&& s.subrange(i, i + l) == encode_code_point(v)
            &&& code_points_of(s.subrange(0, i + l)) == code_points_of(s.subrange(0, i))
                + seq![v]
            &&& valid_wtf8(s.subrange(0, i + l))
            &&& code_points_of(s) == code_points_of(s.subrange(0, i)) + code_points_of(suf)
        }),
{
    lemma_split_at_boundary(s, i);
    let suf = s.subrange(i, s.len() as int);
    let l = length_of_first_codepoint(suf);
    let v = decode_first_codepoint(suf);
    lemma_first_cp_reencode(suf);
    assert(s.subrange(i, i + l) =~= take_first_code_point(suf));
    let prefix = s.subrange(0, i);
    assert(s.subrange(0, i + l) =~= prefix + encode_code_point(v));
    lemma_push_front(v, Seq::<u8>::empty());
    assert(encode_code_point(v) + Seq::<u8>::empty() =~= encode_code_point(v));
    lemma_wtf8_concat(prefix, encode_code_point(v));
    assert(code_points_of(s.subrange(0, i + l)) =~= code_points_of(prefix) + seq![v]);
    if i + l < s.len() {
        let rest = pop_first_code_point(suf);
        assert(rest.len() > 0);
        assert(valid_wtf8(rest));
        lemma_first_byte_not_continuation(rest);
        assert(s[i + l] == rest[0]);
    }
}

/// The last code point of a well-formed sequence occupies exactly its
/// encoding's bytes at the end of the sequence.
pub proof fn lemma_last_cp_bytes(s: Seq<u8>)
    requires
        valid_wtf8(s),
        s.len() > 0,
    ensures
        ({
            let vs = code_points_of(s);
            let last = vs[vs.len() - 1];
            let l = encode_code_point(last).len();
            &&& vs.len() > 0
            &&& is_code_point_value(last)
            &&& l <= s.len()
            &&& s.subrange(s.len() - l, s.len() as int) == encode_code_point(last)
            &&& valid_wtf8(s.subrange(0, s.len() - l))
            &&& code_points_of(s.subrange(0, s.len() - l)) == vs.drop_last()
        }),
    decreases s.len(),
{
    let vs = code_points_of(s);
    let rest = pop_first_code_point(s);
    lemma_first_cp_reencode(s);
    let v = decode_first_codepoint(s);
    if rest.len() == 0 {
        assert(code_points_of(rest) =~= Seq::<u32>::empty());
        assert(vs =~= seq![v]);
        assert(s.subrange(0, length_of_first_codepoint(s)) =~= s);
        assert(s.subrange(s.len() - encode_code_point(v).len(), s.len() as int) =~= s);
        assert(s.subrange(0, 0) =~= Seq::<u8>::empty());
        assert(vs.drop_last() =~= Seq::<u32>::empty());
        assert(code_points_of(s.subrange(0, s.len() - encode_code_point(v).len())) =~= vs.drop_last());
    } else {
        lemma_last_cp_bytes(rest);
        let vr = code_points_of(rest);
        assert(vs =~= seq![v] + vr);
        let last = vs[vs.len() - 1];
        assert(last == vr[vr.len() - 1]);
        let l = encode_code_point(last).len();
        let k = length_of_first_codepoint(s);
        assert(s.subrange(s.len() - l, s.len() as int) =~= rest.subrange(
            rest.len() - l,
            rest.len() as int,
        ));
        assert(s.subrange(0, s.len() - l) =~= take_first_code_point(s) + rest.subrange(
            0,
            rest.len() - l,
        ));
        lemma_push_front(v, rest.subrange(0, rest.len() - l));
        assert(code_points_of(s.subrange(0, s.len() - l)) =~= vs.drop_last());
    }
}

// Byte patterns of encoded surrogates.
proof fn lemma_surrogate_dec_bytes(b2: u8, b3: u8)
    by (bit_vector)
    requires
        is_continuation_byte(b2),
        is_continuation_byte(b3),
        0xA0 <= b2,
    ensures
        0xD800 <= codepoint_width_3(0xED, b2, b3) <= 0xDFFF,
        b2 <= 0xAF ==> codepoint_width_3(0xED, b2, b3) <= 0xDBFF,
        b2 >= 0xB0 ==> codepoint_width_3(0xED, b2, b3) >= 0xDC00,
{
}

proof fn lemma_surrogate_needs_ed(b1: u8, b2: u8, b3: u8)
    by (bit_vector)
    requires
        is_leading_byte_width_3(b1),
        is_continuation_byte(b2),
        is_continuation_byte(b3),
        0xD800 <= codepoint_width_3(b1, b2, b3) <= 0xDFFF,
    ensures
        b1 == 0xED,
        b2 >= 0xA0,
{
}

/// An encoded surrogate is recognisable by its first two bytes, and
/// conversely.
pub proof fn lemma_surrogate_pattern(s: Seq<u8>)
    requires
        valid_first_code_point(s),
    ensures
        is_surrogate_value(decode_first_codepoint(s)) <==> (s.len() >= 3 && s[0] == 0xED && 0xA0
            <= s[1] <= 0xBF && is_continuation_byte(s[2])),
        is_surrogate_value(decode_first_codepoint(s)) ==> length_of_first_codepoint(s) == 3,
        (s.len() >= 3 && s[0] == 0xED && 0xA0 <= s[1] <= 0xBF && is_continuation_byte(s[2]))
            ==> (is_lead_surrogate_value(decode_first_codepoint(s)) <==> s[1] <= 0xAF),
{
    let v = decode_first_codepoint(s);
    if is_leading_byte_width_1(s[0]) {
        lemma_dec_enc_width_1(s[0]);
    } else if is_leading_byte_width_2(s[0]) {
        lemma_dec_enc_width_2(s[0], s[1]);
    } else if is_leading_byte_width_3(s[0]) {
        if is_surrogate_value(v) {
            lemma_surrogate_needs_ed(s[0], s[1], s[2]);
        }
        if s[0] == 0xED && 0xA0 <= s[1] {
            lemma_surrogate_dec_bytes(s[1], s[2]);
        }
    } else {
    }
}

/* The UTF-16 code-unit view */

/// A lead (high) surrogate code unit.
pub open spec fn is_lead_surrogate_unit(u: u16) -> bool {
    0xD800 <= u <= 0xDBFF
}

/// A trail (low) surrogate code unit.
pub open spec fn is_trail_surrogate_unit(u: u16) -> bool {
    0xDC00 <= u <= 0xDFFF
}

/// The supplementary code point encoded by a surrogate pair.
pub open spec fn combined_scalar(lead: u32, trail: u32) -> u32
    recommends
        is_lead_surrogate_value(lead),
        is_trail_surrogate_value(trail),
{
    (0x10000 + (lead - 0xD800) * 0x400 + (trail - 0xDC00)) as u32
}

/// The UTF-16 code units of one code point: supplementary code points
/// become a surrogate pair, everything else (surrogates included) is one
/// unit, verbatim.
pub open spec fn wide_of_code_point(v: u32) -> Seq<u16>
    recommends
        is_code_point_value(v),
{
    if v < 0x10000 {
        seq![v as u16]
    } else {
        seq![(0xD800 + (v - 0x10000) / 0x400) as u16, (0xDC00 + (v - 0x10000) % 0x400) as u16]
    }
}

/// The UTF-16 code units of a sequence of code points.
pub open spec fn wide_of(vs: Seq<u32>) -> Seq<u16>
    decreases vs.len(),
{
    if vs.len() == 0 {
        seq![]
    } else {
        wide_of_code_point(vs[0]) + wide_of(vs.drop_first())
    }
}

/// Decoding of possibly ill-formed UTF-16: a lead surrogate followed by
/// a trail surrogate combines into a supplementary code point; any other
/// unit, unpaired surrogates included, stands for itself.
pub open spec fn decode_utf16(units: Seq<u16>) -> Seq<u32>
    decreases units.len(),
{
    if units.len() == 0 {
        seq![]
    } else if is_lead_surrogate_unit(units[0]) && units.len() >= 2 && is_trail_surrogate_unit(
        units[1],
    ) {
        seq![combined_scalar(units[0] as u32, units[1] as u32)] + decode_utf16(
            units.subrange(2, units.len() as int),
        )
    } else {
        seq![units[0] as u32] + decode_utf16(units.drop_first())
    }
}

/// A surrogate pair combines into the supplementary range, and its code
/// units are recovered exactly by `wide_of_code_point`.
pub proof fn lemma_combined_scalar(lead: u32, trail: u32)
    requires
        is_lead_surrogate_value(lead),
        is_trail_surrogate_value(trail),
    ensures
        0x10000 <= combined_scalar(lead, trail) <= 0x10FFFF,
        wide_of_code_point(combined_scalar(lead, trail)) == seq![lead as u16, trail as u16],
{
    let a = lead - 0xD800;
    let b = trail - 0xDC00;
    let d = a * 0x400 + b;
    assert(0 <= a <= 0x3FF && 0 <= b <= 0x3FF);
    assert(a * 0x400 <= 0x3FF * 0x400) by (nonlinear_arith)
        requires 0 <= a <= 0x3FF,
    ;
    let v = combined_scalar(lead, trail);
    assert(v == 0x10000 + d);
    vstd::arithmetic::div_mod::lemma_fundamental_div_mod_converse(d as int, 0x400, a as int, b as int);
    assert(d / 0x400 == a && d % 0x400 == b);
    assert(wide_of_code_point(v) =~= seq![lead as u16, trail as u16]);
}

/// A supplementary code point splits into a lead and a trail surrogate
/// unit that combine back to it.
pub proof fn lemma_wide_pair(v: u32)
    requires
        0x10000 <= v <= 0x10FFFF,
    ensures
        ({
            let units = wide_of_code_point(v);
            &&& units.len() == 2
            &&& is_lead_surrogate_unit(units[0])
            &&& is_trail_surrogate_unit(units[1])
            &&& combined_scalar(units[0] as u32, units[1] as u32) == v
        }),
{
    let d = v - 0x10000;
    vstd::arithmetic::div_mod::lemma_fundamental_div_mod(d as int, 0x400);
    assert(0 <= d % 0x400 < 0x400);
    assert(d / 0x400 <= 0x3FF) by (nonlinear_arith)
        requires 0 <= d <= 0xFFFFF, d == 0x400 * (d / 0x400) + d % 0x400, 0 <= d % 0x400 < 0x400,
    ;
    assert(0 <= d / 0x400);
}

/// Decoding ill-formed UTF-16 yields code points whose UTF-16 view is
/// the original unit sequence: nothing is lost.
pub proof fn lemma_decode_utf16_round_trip(units: Seq<u16>)
    ensures
        all_code_point_values(decode_utf16(units)),
        wide_of(decode_utf16(units)) == units,
    decreases units.len(),
{
    if units.len() == 0 {
        assert(wide_of(decode_utf16(units)) =~= units);
    } else {
        let vs = decode_utf16(units);
        if is_lead_surrogate_unit(units[0]) && units.len() >= 2 && is_trail_surrogate_unit(
            units[1],
        ) {
            let rest = units.subrange(2, units.len() as int);
            lemma_decode_utf16_round_trip(rest);
            lemma_combined_scalar(units[0] as u32, units[1] as u32);
            assert(vs.drop_first() =~= decode_utf16(rest));
            assert(wide_of(vs) =~= units);
        } else {
            let rest = units.drop_first();
            lemma_decode_utf16_round_trip(rest);
            assert(vs.drop_first() =~= decode_utf16(rest));
            assert(wide_of(vs) =~= units);
        }
        assert forall|i: int| 0 <= i < vs.len() implies is_code_point_value(#[trigger] vs[i]) by {
            if i > 0 {
            }
        }
    }
}

/* Lossy projection to scalar values */

/// The lossy image of a code point: surrogates become U+FFFD.
pub open spec fn lossy_code_point(v: u32) -> u32 {
    if is_surrogate_value(v) {
        0xFFFD
    } else {
        v
    }
}

/// The lossy image of a code point sequence.
pub open spec fn lossy_code_points(vs: Seq<u32>) -> Seq<u32> {
    vs.map_values(|v: u32| lossy_code_point(v))
}

/// Lossy projection leaves a surrogate-free sequence unchanged, never
/// produces a surrogate, and distributes over concatenation.
pub proof fn lemma_lossy_code_points(vs: Seq<u32>, ws: Seq<u32>)
    ensures
        no_surrogate_values(vs) ==> lossy_code_points(vs) == vs,
        no_surrogate_values(lossy_code_points(vs)),
        all_code_point_values(vs) ==> all_code_point_values(lossy_code_points(vs)),
        lossy_code_points(vs + ws) == lossy_code_points(vs) + lossy_code_points(ws),
{
    if no_surrogate_values(vs) {
        assert(lossy_code_points(vs) =~= vs);
    }
    assert(lossy_code_points(vs + ws) =~= lossy_code_points(vs) + lossy_code_points(ws));
}

/* Verified primitives over encoded bytes */

/// Appends the WTF-8 encoding of the code point `v` to `out`.
pub fn push_code_point_bytes(out: &mut Vec<u8>, v: u32)
    requires
        is_code_point_value(v),
    ensures
        final(out)@ == old(out)@ + encode_code_point(v),
{
    if v <= 0x7F {
        proof {
            assert((v & 0x7F) == v && (v & 0x7F) <= 0x7F) by (bit_vector)
                requires v <= 0x7F,
            ;
        }
        out.push((v & 0x7F) as u8);
        assert(out@ =~= old(out)@ + encode_code_point(v));
    } else if v <= 0x7FF {
        proof {
            assert(((v >> 6) & 0x1F) <= 0x1F && (v & 0x3F) <= 0x3F) by (bit_vector);
        }
        let b1: u8 = 0xC0 | ((v >> 6) & 0x1F) as u8;
        let b2: u8 = 0x80 | (v & 0x3F) as u8;
        out.push(b1);
        out.push(b2);
        assert(out@ =~= old(out)@ + encode_code_point(v));
    } else if v <= 0xFFFF {
        proof {
            assert(((v >> 12) & 0x0F) <= 0x0F && ((v >> 6) & 0x3F) <= 0x3F && (v & 0x3F) <= 0x3F)
                by (bit_vector);
        }
        let b1: u8 = 0xE0 | ((v >> 12) & 0x0F) as u8;
        let b2: u8 = 0x80 | ((v >> 6) & 0x3F) as u8;
        let b3: u8 = 0x80 | (v & 0x3F) as u8;
        out.push(b1);
        out.push(b2);
        out.push(b3);
        assert(out@ =~= old(out)@ + encode_code_point(v));
    } else {
        proof {
            assert(((v >> 18) & 0x7) <= 0x7 && ((v >> 12) & 0x3F) <= 0x3F && ((v >> 6) & 0x3F)
                <= 0x3F && (v & 0x3F) <= 0x3F) by (bit_vector);
        }
        let b1: u8 = 0xF0 | ((v >> 18) & 0x7) as u8;
        let b2: u8 = 0x80 | ((v >> 12) & 0x3F) as u8;
        let b3: u8 = 0x80 | ((v >> 6) & 0x3F) as u8;
        let b4: u8 = 0x80 | (v & 0x3F) as u8;
        out.push(b1);
        out.push(b2);
        out.push(b3);
        out.push(b4);
        assert(out@ =~= old(out)@ + encode_code_point(v));
    }
}

/// Reads the code point whose encoding starts at boundary `i`, returning
/// its value and the offset just past it.
pub fn read_code_point(bytes: &Vec<u8>, i: usize) -> (r: (u32, usize))
    requires
        valid_wtf8(bytes@),
        is_boundary(bytes@, i as int),
        i < bytes@.len(),
    ensures
        ({
            let suf = bytes@.subrange(i as int, bytes@.len() as int);
            &&& r.0 == decode_first_codepoint(suf)
            &&& r.1 == i + length_of_first_codepoint(suf)
            &&& i < r.1 <= bytes@.len()
            &&& is_boundary(bytes@, r.1 as int)
            &&& is_code_point_value(r.0)
        }),
{
    proof {
        lemma_take_step(bytes@, i as int);
    }
    let ghost suf = bytes@.subrange(i as int, bytes@.len() as int);
    let n = bytes.len();
    let b1 = bytes[i];
    assert(b1 == suf[0]);
    assert(i + length_of_first_codepoint(suf) <= n);
    if b1 < 0x80 {
        proof {
            lemma_dec_enc_width_1(b1);
            assert((b1 & 0x7F) == b1) by (bit_vector)
                requires b1 < 0x80,
            ;
        }
        (b1 as u32, i + 1)
    } else if b1 < 0xE0 {
        assert(is_leading_byte_width_2(suf[0]));
        let b2 = bytes[i + 1];
        assert(b2 == suf[1]);
        let v: u32 = (((b1 & 0x1F) as u32) << 6u32) | ((b2 & 0x3F) as u32);
        proof {
            lemma_dec_enc_width_2(b1, b2);
            assert(v == codepoint_width_2(b1, b2));
        }
        (v, i + 2)
    } else if b1 < 0xF0 {
        assert(is_leading_byte_width_3(suf[0]));
        let b2 = bytes[i + 1];
        let b3 = bytes[i + 2];
        assert(b2 == suf[1] && b3 == suf[2]);
        let v: u32 = (((b1 & 0x0F) as u32) << 12u32) | (((b2 & 0x3F) as u32) << 6u32) | ((b3
            & 0x3F) as u32);
        proof {
            lemma_dec_enc_width_3(b1, b2, b3);
            assert(v == codepoint_width_3(b1, b2, b3));
        }
        (v, i + 3)
    } else {
        assert(is_leading_byte_width_4(suf[0]));
        let b2 = bytes[i + 1];
        let b3 = bytes[i + 2];
        let b4 = bytes[i + 3];
        assert(b2 == suf[1] && b3 == suf[2] && b4 == suf[3]);
        let v: u32 = (((b1 & 0x07) as u32) << 18u32) | (((b2 & 0x3F) as u32) << 12u32) | (((b3
            & 0x3F) as u32) << 6u32) | ((b4 & 0x3F) as u32);
        proof {
            assert(v == codepoint_width_4(b1, b2, b3, b4));
        }
        (v, i + 4)
    }
}

/// Encoding a sequence of code points, one more at the end.
pub proof fn lemma_encode_points_snoc(vs: Seq<u32>, v: u32)
    ensures
        encode_code_points(vs.push(v)) == encode_code_points(vs) + encode_code_point(v),
    decreases vs.len(),
{
    if vs.len() == 0 {
        assert(vs.push(v)[0] == v);
        assert(vs.push(v).drop_first() =~= Seq::<u32>::empty());
        assert(encode_code_points(Seq::<u32>::empty()) =~= Seq::<u8>::empty());
        assert(encode_code_points(vs) =~= Seq::<u8>::empty());
        assert(encode_code_points(vs.push(v)) =~= encode_code_points(vs) + encode_code_point(v));
    } else {
        lemma_encode_points_snoc(vs.drop_first(), v);
        assert(vs.push(v).drop_first() =~= vs.drop_first().push(v));
        assert(encode_code_points(vs.push(v)) =~= encode_code_points(vs) + encode_code_point(v));
    }
}

/// A byte map that fixes every non-ASCII byte and keeps ASCII bytes in
/// the ASCII range preserves well-formedness and code point count.
pub proof fn lemma_ascii_map_wtf8(s: Seq<u8>, f: spec_fn(u8) -> u8)
    requires
        valid_wtf8(s),
        forall|b: u8| b >= 0x80 ==> #[trigger] f(b) == b,
        forall|b: u8| b < 0x80 ==> #[trigger] f(b) < 0x80,
    ensures
        valid_wtf8(s.map_values(f)),
    decreases s.len(),
{
    if s.len() != 0 {
        let m = s.map_values(f);
        let l = length_of_first_codepoint(s);
        assert(m.len() == s.len());
        assert(m[0] == f(s[0]));
        if is_leading_byte_width_1(s[0]) {
            assert(valid_first_code_point(m));
            assert(length_of_first_codepoint(m) == 1);
        } else {
            assert(s[0] >= 0x80);
            assert(m[0] == s[0]);
            assert forall|k: int| 1 <= k < l implies m[k] == s[k] by {
                assert(is_continuation_byte(s[k]));
            }
            assert(valid_first_code_point(m) && length_of_first_codepoint(m) == l
                && decode_first_codepoint(m) == decode_first_codepoint(s)) by {
                if is_leading_byte_width_2(s[0]) {
                    assert(m[1] == s[1]);
                } else if is_leading_byte_width_3(s[0]) {
                    assert(m[1] == s[1] && m[2] == s[2]);
                } else {
                    assert(m[1] == s[1] && m[2] == s[2] && m[3] == s[3]);
                }
            }
        }
        lemma_ascii_map_wtf8(pop_first_code_point(s), f);
        assert(pop_first_code_point(m) =~= pop_first_code_point(s).map_values(f));
    }
}

/// The effect of appending one code point to a buffer's decoded
/// sequence: a trail surrogate pairs with a final lead surrogate into
/// one supplementary code point; anything else is appended as itself.
pub open spec fn appended_code_point(vs: Seq<u32>, v: u32) -> Seq<u32> {
    if is_trail_surrogate_value(v) && vs.len() > 0 && is_lead_surrogate_value(vs.last()) {
        vs.drop_last().push(combined_scalar(vs.last(), v))
    } else {
        vs.push(v)
    }
}

/// The effect of appending each code point of `new` in turn.
pub open spec fn appended_code_points(vs: Seq<u32>, new: Seq<u32>) -> Seq<u32>
    decreases new.len(),
{
    if new.len() == 0 {
        vs
    } else {
        appended_code_points(appended_code_point(vs, new[0]), new.drop_first())
    }
}

/// Appending a non-surrogate value keeps a sequence surrogate-free.
pub proof fn lemma_no_surrogate_push(vs: Seq<u32>, v: u32)
    requires
        no_surrogate_values(vs),
        !is_surrogate_value(v),
    ensures
        no_surrogate_values(vs.push(v)),
{
    assert forall|i: int| 0 <= i < vs.push(v).len() implies !is_surrogate_value(
        #[trigger] vs.push(v)[i],
    ) by {
        if i < vs.len() {
            assert(vs.push(v)[i] == vs[i]);
        }
    }
}

/* The surrogate codec: pure functions on the 3-byte representation */

/// Decodes a surrogate value from the second and third bytes of its
/// 3-byte encoding; the first byte is always 0xED.
pub fn decode_surrogate(second_byte: u8, third_byte: u8) -> (r: u16)
    requires
        is_continuation_byte(second_byte),
        second_byte >= 0xA0,
        is_continuation_byte(third_byte),
    ensures
        r as u32 == codepoint_width_3(0xED, second_byte, third_byte),
        is_surrogate_value(r as u32),
{
    let r: u16 = 0xD800 | (((second_byte & 0x3F) as u16) << 6u16) | ((third_byte & 0x3F) as u16);
    proof {
        assert(r as u32 == codepoint_width_3(0xED, second_byte, third_byte) && 0xD800 <= r
            <= 0xDFFF) by (bit_vector)
            requires
                0xA0 <= second_byte <= 0xBF,
                0x80 <= third_byte <= 0xBF,
                r == (0xD800 | (((second_byte & 0x3F) as u16) << 6u16) | ((third_byte
                    & 0x3F) as u16)),
        ;
    }
    r
}

/// Combines a lead and a trail surrogate into the supplementary
/// character they encode together.
pub fn decode_surrogate_pair(lead: u16, trail: u16) -> (r: char)
    requires
        is_lead_surrogate_unit(lead),
        is_trail_surrogate_unit(trail),
    ensures
        r as u32 == combined_scalar(lead as u32, trail as u32),
{
    proof {
        lemma_combined_scalar(lead as u32, trail as u32);
    }
    let high: u32 = (lead - 0xD800) as u32;
    let low: u32 = (trail - 0xDC00) as u32;
    proof {
        assert((high << 10u32) == high * 0x400 && ((high << 10u32) | low) == high * 0x400 + low)
            by (bit_vector)
            requires
                high <= 0x3FF,
                low <= 0x3FF,
        ;
    }
    let v: u32 = 0x10000 + ((high << 10u32) | low);
    match char_from_u32(v) {
        Some(c) => c,
        None => vstd::pervasive::unreached(),
    }
}

/* Byte-vector helpers */

/// Copies `bytes[from .. to]` into a fresh vector.
pub fn copy_byte_range(bytes: &[u8], from: usize, to: usize) -> (r: Vec<u8>)
    requires
        from <= to <= bytes@.len(),
    ensures
        r@ == bytes@.subrange(from as int, to as int),
{
    let mut out: Vec<u8> = Vec::new();
    let mut i = from;
    while i < to
        invariant
            from <= i <= to <= bytes@.len(),
            out@ == bytes@.subrange(from as int, i as int),
        decreases to - i,
    {
        out.push(bytes[i]);
        proof {
            assert(out@ =~= bytes@.subrange(from as int, i as int + 1));
        }
        i = i + 1;
    }
    out
}

/// Appends `src[from .. to]` to `dst`.
pub fn append_byte_range(dst: &mut Vec<u8>, src: &[u8], from: usize, to: usize)
    requires
        from <= to <= src@.len(),
    ensures
        final(dst)@ == old(dst)@ + src@.subrange(from as int, to as int),
{
    let mut i = from;
    while i < to
        invariant
            from <= i <= to <= src@.len(),
            dst@ == old(dst)@ + src@.subrange(from as int, i as int),
        decreases to - i,
    {
        dst.push(src[i]);
        proof {
            assert(dst@ =~= old(dst)@ + src@.subrange(from as int, i as int + 1));
        }
        i = i + 1;
    }
    proof {
        assert(dst@ =~= old(dst)@ + src@.subrange(from as int, to as int));
    }
}

/* Bridges to std's text types, taken on trust */

/// Relies on `char::from_u32`: it returns `Some` exactly for values that
/// are Unicode scalars (at most 0x10FFFF and not a surrogate), and the
/// character then carries exactly that value.
#[verifier::external_body]
pub(crate) fn char_from_u32(v: u32) -> (r: Option<char>)
    ensures
        r is Some <==> (is_code_point_value(v) && !is_surrogate_value(v)),
        r matches Some(c) ==> c as u32 == v,
{
    char::from_u32(v)
}

/// Relies on `String::from_utf8`: on valid UTF-8 input it succeeds and
/// returns the string those bytes encode.
#[verifier::external_body]
pub(crate) fn string_from_utf8(bytes: Vec<u8>) -> (r: String)
    requires
        valid_utf8(bytes@),
    ensures
        r@ == decode_utf8(bytes@),
{
    String::from_utf8(bytes).unwrap_or_default()
}

/// Relies on `core::str::from_utf8`: on valid UTF-8 input it succeeds
/// and views the same bytes as a `&str`, without copying.
#[verifier::external_body]
pub(crate) fn str_from_utf8(bytes: &[u8]) -> (r: &str)
    requires
        valid_utf8(bytes@),
    ensures
        r@ == decode_utf8(bytes@),
{
    core::str::from_utf8(bytes).unwrap_or("")
}

/// Relies on `String::into_bytes`: it hands back the string's UTF-8
/// bytes, without copying.
#[verifier::external_body]
pub(crate) fn string_into_bytes(s: String) -> (r: Vec<u8>)
    ensures
        r@ == encode_utf8(s@),
{
    s.into_bytes()
}


} // verus!
