//! Debug renderings: a code point as `U+` plus four to six uppercase
//! hex digits; a WTF-8 sequence as a double-quoted string in which each
//! surrogate appears as `\u{...}` in lowercase hex and common control
//! characters are escaped.

use vstd::prelude::*;
use vstd::utf8::{valid_utf8, decode_utf8};
use crate::code_point::CodePoint;
use crate::wtf8::Wtf8;
use crate::buf::Wtf8Buf;
use crate::codec::{
    valid_wtf8, is_boundary, code_points_of, no_surrogate_values, is_surrogate_value,
    is_code_point_value, encode_code_point, read_code_point, push_code_point_bytes,
    lemma_take_step, lemma_push_front, lemma_wtf8_concat, lemma_utf8_wtf8, string_from_utf8,
};

verus! {

broadcast use {vstd::seq::group_seq_axioms, crate::wtf8::lemma_wtf8_view};

/// The ASCII byte for one hex digit, lowercase.
pub open spec fn lower_hex_digit(d: u32) -> u8 {
    if d < 10 {
        (0x30 + d) as u8
    } else {
        (0x57 + d) as u8
    }
}

/// The ASCII byte for one hex digit, uppercase.
pub open spec fn upper_hex_digit(d: u32) -> u8 {
    if d < 10 {
        (0x30 + d) as u8
    } else {
        (0x37 + d) as u8
    }
}

/// The lowercase hex digits of `v`, most significant first; empty for 0.
pub open spec fn lower_hex_bytes(v: u32) -> Seq<u8>
    decreases v,
{
    if v == 0 {
        seq![]
    } else {
        lower_hex_bytes(v / 16) + seq![lower_hex_digit(v % 16)]
    }
}

/// The uppercase hex digits of `v`, most significant first; empty for 0.
pub open spec fn upper_hex_bytes(v: u32) -> Seq<u8>
    decreases v,
{
    if v == 0 {
        seq![]
    } else {
        upper_hex_bytes(v / 16) + seq![upper_hex_digit(v % 16)]
    }
}

/// Hex digits padded with leading zeros to at least four digits.
pub open spec fn zero_padded4(h: Seq<u8>) -> Seq<u8> {
    if h.len() >= 4 {
        h
    } else {
        Seq::new((4 - h.len()) as nat, |i: int| 0x30u8) + h
    }
}

/// The bytes of a code point's debug rendering: `U+` and four to six
/// uppercase hex digits.
pub open spec fn code_point_debug_bytes(v: u32) -> Seq<u8> {
    seq![0x55u8, 0x2Bu8] + zero_padded4(upper_hex_bytes(v))
}

/// The rendering of one code point inside a quoted debug string: a
/// surrogate as `\u{...}` in lowercase hex, the quote, the backslash
/// and common control characters escaped, anything else verbatim.
pub open spec fn escaped_code_point(v: u32) -> Seq<u8>
    recommends
        is_code_point_value(v),
{
    if is_surrogate_value(v) || v < 0x20 && v != 0x09 && v != 0x0A && v != 0x0D || v == 0x7F {
        seq![0x5Cu8, 0x75u8, 0x7Bu8] + (if v == 0 {
            seq![0x30u8]
        } else {
            lower_hex_bytes(v)
        }) + seq![0x7Du8]
    } else if v == 0x22 {
        seq![0x5Cu8, 0x22u8]
    } else if v == 0x5C {
        seq![0x5Cu8, 0x5Cu8]
    } else if v == 0x09 {
        seq![0x5Cu8, 0x74u8]
    } else if v == 0x0A {
        seq![0x5Cu8, 0x6Eu8]
    } else if v == 0x0D {
        seq![0x5Cu8, 0x72u8]
    } else {
        encode_code_point(v)
    }
}

/// The renderings of a sequence of code points, concatenated.
pub open spec fn debug_body_bytes(vs: Seq<u32>) -> Seq<u8>
    decreases vs.len(),
{
    if vs.len() == 0 {
        seq![]
    } else {
        escaped_code_point(vs[0]) + debug_body_bytes(vs.drop_first())
    }
}

/// The bytes of a WTF-8 sequence's debug rendering: the code points'
/// renderings between double quotes.
pub open spec fn debug_bytes(vs: Seq<u32>) -> Seq<u8> {
    seq![0x22u8] + debug_body_bytes(vs) + seq![0x22u8]
}

/// A sequence of ASCII bytes is valid UTF-8 (and so WTF-8) holding one
/// non-surrogate code point per byte.
proof fn lemma_ascii_bytes(s: Seq<u8>)
    requires
        forall|i: int| 0 <= i < s.len() ==> s[i] < 0x80,
    ensures
        valid_wtf8(s),
        no_surrogate_values(code_points_of(s)),
        valid_utf8(s),
    decreases s.len(),
{
    if s.len() != 0 {
        assert(s[0] < 0x80);
        let rest = crate::codec::pop_first_code_point(s);
        assert(rest =~= s.subrange(1, s.len() as int));
        assert forall|i: int| 0 <= i < rest.len() implies #[trigger] rest[i] < 0x80 by {
            assert(rest[i] == s[i + 1]);
        }
        lemma_ascii_bytes(rest);
        let v = vstd::utf8::decode_first_codepoint(s);
        let b0 = s[0];
        assert((b0 & 0x7F) < 0x80) by (bit_vector);
        let vs = code_points_of(s);
        assert(vs == seq![v] + code_points_of(rest));
        assert forall|i: int| 0 <= i < vs.len() implies !is_surrogate_value(
            #[trigger] vs[i],
        ) by {
            if i > 0 {
                assert(vs[i] == code_points_of(rest)[i - 1]);
            }
        }
    }
    lemma_utf8_wtf8(s);
}

/// All hex digit bytes are ASCII.
proof fn lemma_hex_bytes_ascii(v: u32)
    ensures
        forall|i: int|
            0 <= i < lower_hex_bytes(v).len() ==> #[trigger] lower_hex_bytes(v)[i] < 0x80,
        forall|i: int|
            0 <= i < upper_hex_bytes(v).len() ==> #[trigger] upper_hex_bytes(v)[i] < 0x80,
    decreases v,
{
    if v != 0 {
        lemma_hex_bytes_ascii(v / 16);
        let hl = lower_hex_bytes(v / 16);
        assert forall|i: int|
            0 <= i < lower_hex_bytes(v).len() implies #[trigger] lower_hex_bytes(v)[i]
            < 0x80 by {
            if i < hl.len() {
                assert(lower_hex_bytes(v)[i] == hl[i]);
            } else {
                assert(lower_hex_bytes(v)[i] == lower_hex_digit(v % 16));
            }
        }
        let hu = upper_hex_bytes(v / 16);
        assert forall|i: int|
            0 <= i < upper_hex_bytes(v).len() implies #[trigger] upper_hex_bytes(v)[i]
            < 0x80 by {
            if i < hu.len() {
                assert(upper_hex_bytes(v)[i] == hu[i]);
            } else {
                assert(upper_hex_bytes(v)[i] == upper_hex_digit(v % 16));
            }
        }
    }
}

/// Appending one code point's rendering to the body.
proof fn lemma_debug_body_snoc(vs: Seq<u32>, v: u32)
    ensures
        debug_body_bytes(vs.push(v)) == debug_body_bytes(vs) + escaped_code_point(v),
    decreases vs.len(),
{
    if vs.len() == 0 {
        assert(vs.push(v)[0] == v);
        assert(vs.push(v).drop_first() =~= Seq::<u32>::empty());
        assert(debug_body_bytes(Seq::<u32>::empty()) =~= Seq::<u8>::empty());
        assert(debug_body_bytes(vs) =~= Seq::<u8>::empty());
        assert(debug_body_bytes(vs.push(v)) =~= debug_body_bytes(vs) + escaped_code_point(v));
    } else {
        lemma_debug_body_snoc(vs.drop_first(), v);
        assert(vs.push(v).drop_first() =~= vs.drop_first().push(v));
        assert(debug_body_bytes(vs.push(v)) =~= debug_body_bytes(vs) + escaped_code_point(v));
    }
}

/// Appends the lowercase hex digits of `v`.
fn push_lower_hex(out: &mut Vec<u8>, v: u32)
    ensures
        final(out)@ == old(out)@ + lower_hex_bytes(v),
    decreases v,
{
    if v == 0 {
        proof {
            assert(out@ =~= old(out)@ + lower_hex_bytes(0));
        }
        return ;
    }
    push_lower_hex(out, v / 16);
    let d = v % 16;
    let b: u8 = if d < 10 {
        (0x30 + d) as u8
    } else {
        (0x57 + d) as u8
    };
    out.push(b);
    proof {
        assert(out@ =~= old(out)@ + lower_hex_bytes(v));
    }
}

/// Appends the uppercase hex digits of `v`.
fn push_upper_hex(out: &mut Vec<u8>, v: u32)
    ensures
        final(out)@ == old(out)@ + upper_hex_bytes(v),
    decreases v,
{
    if v == 0 {
        proof {
            assert(out@ =~= old(out)@ + upper_hex_bytes(0));
        }
        return ;
    }
    push_upper_hex(out, v / 16);
    let d = v % 16;
    let b: u8 = if d < 10 {
        (0x30 + d) as u8
    } else {
        (0x37 + d) as u8
    };
    out.push(b);
    proof {
        assert(out@ =~= old(out)@ + upper_hex_bytes(v));
    }
}

impl CodePoint {
    /// The debug rendering: `U+` followed by four to six uppercase hex
    /// digits.  Example: `U+1F4A9`.
    pub fn debug_str(&self) -> (r: String)
        ensures
            r@ == decode_utf8(code_point_debug_bytes(self@)),
    {
        let v = self.to_u32();
        let mut digits: Vec<u8> = Vec::new();
        push_upper_hex(&mut digits, v);
        proof {
            assert(digits@ =~= upper_hex_bytes(v));
        }
        let mut out: Vec<u8> = Vec::new();
        out.push(0x55);
        out.push(0x2B);
        let k = digits.len();
        let needed: usize = if k >= 4 {
            0
        } else {
            4 - k
        };
        let ghost padding = Seq::new(needed as nat, |i: int| 0x30u8);
        let mut pad: usize = 0;
        proof {
            assert(out@ =~= seq![0x55u8, 0x2Bu8] + padding.subrange(0, 0));
        }
        while pad < needed
            invariant
                pad <= needed,
                padding == Seq::new(needed as nat, |i: int| 0x30u8),
                out@ == seq![0x55u8, 0x2Bu8] + padding.subrange(0, pad as int),
            decreases needed - pad,
        {
            out.push(0x30);
            proof {
                assert(out@ =~= seq![0x55u8, 0x2Bu8] + padding.subrange(0, pad as int + 1));
            }
            pad = pad + 1;
        }
        crate::codec::append_byte_range(&mut out, digits.as_slice(), 0, k);
        proof {
            assert(digits@.subrange(0, k as int) =~= digits@);
            assert(padding.subrange(0, padding.len() as int) =~= padding);
            assert(out@ =~= code_point_debug_bytes(v)) by {
                if k >= 4 {
                    assert(zero_padded4(upper_hex_bytes(v)) == upper_hex_bytes(v));
                    assert(padding =~= Seq::<u8>::empty());
                } else {
                    assert(zero_padded4(upper_hex_bytes(v)) == padding + upper_hex_bytes(v));
                }
            }
            lemma_hex_bytes_ascii(v);
            assert forall|i: int| 0 <= i < out@.len() implies out@[i] < 0x80 by {
                if 2 <= i && i < out@.len() - k {
                    assert(out@[i] == 0x30u8);
                }
            }
            lemma_ascii_bytes(out@);
        }
        string_from_utf8(out)
    }
}

impl Wtf8 {
    /// The debug rendering: the content between double quotes, with
    /// each surrogate as `\u{...}` in lowercase hex and common control
    /// characters escaped.  Example: `"a\u{d800}"` for the code points
    /// [U+0061, U+D800].
    pub fn debug_str(&self) -> (r: String)
        requires
            self.wf(),
        ensures
            r@ == decode_utf8(debug_bytes(code_points_of(self@))),
    {
        let n = self.bytes.len();
        let mut out: Vec<u8> = Vec::new();
        out.push(0x22);
        let mut i: usize = 0;
        proof {
            assert(code_points_of(self@.subrange(0, 0)) =~= Seq::<u32>::empty());
            assert(debug_body_bytes(Seq::<u32>::empty()) =~= Seq::<u8>::empty());
            assert(out@ =~= seq![0x22u8] + debug_body_bytes(
                code_points_of(self@.subrange(0, 0)),
            ));
            assert(valid_wtf8(out@) && no_surrogate_values(code_points_of(out@))) by {
                lemma_ascii_bytes(out@);
            }
        }
        while i < n
            invariant
                self.wf(),
                i <= n,
                n == self@.len(),
                is_boundary(self@, i as int),
                out@ == seq![0x22u8] + debug_body_bytes(
                    code_points_of(self@.subrange(0, i as int)),
                ),
                valid_wtf8(out@),
                no_surrogate_values(code_points_of(out@)),
            decreases n - i,
        {
            let (v, next) = read_code_point(&self.bytes, i);
            proof {
                lemma_take_step(self@, i as int);
            }
            let ghost piece = escaped_code_point(v);
            let ghost before = out@;
            if (0xD800 <= v && v <= 0xDFFF) || (v < 0x20 && v != 0x09 && v != 0x0A && v != 0x0D)
                || v == 0x7F {
                out.push(0x5C);
                out.push(0x75);
                out.push(0x7B);
                if v == 0 {
                    out.push(0x30);
                } else {
                    push_lower_hex(&mut out, v);
                }
                out.push(0x7D);
                proof {
                    assert(out@ =~= before + piece);
                    lemma_hex_bytes_ascii(v);
                    assert forall|j: int| 0 <= j < piece.len() implies piece[j] < 0x80 by {
                        let h = (if v == 0 {
                            seq![0x30u8]
                        } else {
                            lower_hex_bytes(v)
                        });
                        if 3 <= j && j < 3 + h.len() {
                            assert(piece[j] == h[j - 3]);
                        }
                    }
                    lemma_ascii_bytes(piece);
                }
            } else if v == 0x22 || v == 0x5C || v == 0x09 || v == 0x0A || v == 0x0D {
                out.push(0x5C);
                if v == 0x22 {
                    out.push(0x22);
                } else if v == 0x5C {
                    out.push(0x5C);
                } else if v == 0x09 {
                    out.push(0x74);
                } else if v == 0x0A {
                    out.push(0x6E);
                } else {
                    out.push(0x72);
                }
                proof {
                    assert(out@ =~= before + piece);
                    lemma_ascii_bytes(piece);
                }
            } else {
                push_code_point_bytes(&mut out, v);
                proof {
                    assert(piece == encode_code_point(v));
                    lemma_push_front(v, Seq::<u8>::empty());
                    assert(encode_code_point(v) + Seq::<u8>::empty() =~= encode_code_point(v));
                    assert(code_points_of(piece) =~= seq![v]);
                }
            }
            proof {
                lemma_wtf8_concat(before, piece);
                assert forall|j: int|
                    0 <= j < code_points_of(out@).len() implies !is_surrogate_value(
                    #[trigger] code_points_of(out@)[j],
                ) by {
                    let a = code_points_of(before);
                    let b = code_points_of(piece);
                    assert(code_points_of(out@) == a + b);
                    if j < a.len() {
                        assert(code_points_of(out@)[j] == a[j]);
                    } else {
                        assert(code_points_of(out@)[j] == b[j - a.len()]);
                    }
                }
                let pre = code_points_of(self@.subrange(0, i as int));
                let cur = code_points_of(self@.subrange(0, next as int));
                assert(cur =~= pre.push(v));
                lemma_debug_body_snoc(pre, v);
                assert(out@ =~= seq![0x22u8] + debug_body_bytes(cur));
            }
            i = next;
        }
        let ghost body = out@;
        out.push(0x22);
        proof {
            assert(self@.subrange(0, n as int) =~= self@);
            let quote = seq![0x22u8];
            assert(out@ =~= body + quote);
            lemma_ascii_bytes(quote);
            lemma_wtf8_concat(body, quote);
            assert forall|j: int|
                0 <= j < code_points_of(out@).len() implies !is_surrogate_value(
                #[trigger] code_points_of(out@)[j],
            ) by {
                let a = code_points_of(body);
                let b = code_points_of(quote);
                assert(code_points_of(out@) == a + b);
                if j < a.len() {
                    assert(code_points_of(out@)[j] == a[j]);
                } else {
                    assert(code_points_of(out@)[j] == b[j - a.len()]);
                }
            }
            lemma_utf8_wtf8(out@);
            assert(out@ =~= debug_bytes(code_points_of(self@)));
        }
        string_from_utf8(out)
    }
}

impl Wtf8Buf {
    /// The debug rendering of the buffer's content; see
    /// `Wtf8::debug_str`.
    pub fn debug_str(&self) -> (r: String)
        requires
            self.wf(),
        ensures
            r@ == decode_utf8(debug_bytes(code_points_of(self@))),
    {
        self.as_slice().debug_str()
    }
}

} // verus!
