//! The immutable WTF-8 sequence type and its scanning, slicing and
//! projection operations.

use vstd::prelude::*;
use vstd::utf8::{encode_utf8, decode_first_codepoint, length_of_first_codepoint};
use crate::codec::{
    valid_wtf8, is_boundary, code_points_of, no_surrogate_values, is_surrogate_value,
    is_lead_surrogate_value, is_trail_surrogate_value, encode_code_point,
    chars_of_code_points, lossy_code_points, lossy_code_point, wide_of, read_code_point,
    push_code_point_bytes, copy_byte_range, decode_surrogate, lemma_split_at_boundary,
    lemma_take_step, lemma_last_cp_bytes, lemma_first_cp_reencode, lemma_surrogate_pattern,
    lemma_encode_first, lemma_encode_code_point_len, lemma_utf8_wtf8, lemma_chars_of,
    lemma_lossy_code_points, lemma_decode_reencode, lemma_encode_code_points_valid,
    lemma_encode_points_snoc, lemma_no_surrogate_push, encode_code_points, str_from_utf8,
    string_from_utf8, lemma_push_front, lemma_wtf8_concat,
};
use crate::iters::Wtf8CodePoints;
use crate::iters::EncodeWide;

verus! {

broadcast use vstd::seq::group_seq_axioms;

/// An immutable sequence of well-formed WTF-8 bytes.
///
/// Similar to a UTF-8 string, but it can additionally hold surrogate
/// code points when they are not in a surrogate pair.
pub struct Wtf8 {
    pub(crate) bytes: Vec<u8>,
}

impl View for Wtf8 {
    type V = Seq<u8>;

    closed spec fn view(&self) -> Seq<u8> {
        self.bytes@
    }
}

/// Within the crate, a `Wtf8`'s view is its byte vector's view.
pub(crate) broadcast proof fn lemma_wtf8_view(w: &Wtf8)
    ensures
        #[trigger] w@ == w.bytes@,
{
}

/// The position lies on a code point boundary: at the start, at the
/// end, or on a byte that does not continue an earlier code point.
pub fn is_code_point_boundary(slice: &Wtf8, index: usize) -> (r: bool)
    ensures
        r == is_boundary(slice@, index as int),
{
    let n = slice.bytes.len();
    if index == n {
        true
    } else if index < n {
        let b = slice.bytes[index];
        b < 128 || b >= 192
    } else {
        false
    }
}

/// The sub-sequence between two code point boundaries; the caller has
/// proved that both offsets are boundaries.
pub fn slice_unchecked(s: &Wtf8, begin: usize, end: usize) -> (r: Wtf8)
    requires
        s.wf(),
        begin <= end,
        is_boundary(s@, begin as int),
        is_boundary(s@, end as int),
    ensures
        r@ == s@.subrange(begin as int, end as int),
        r.wf(),
{
    proof {
        lemma_split_at_boundary(s@, end as int);
        let prefix = s@.subrange(0, end as int);
        assert(is_boundary(prefix, begin as int)) by {
            if begin < end {
                assert(prefix[begin as int] == s@[begin as int]);
            }
        }
        lemma_split_at_boundary(prefix, begin as int);
        assert(prefix.subrange(begin as int, prefix.len() as int) =~= s@.subrange(
            begin as int,
            end as int,
        ));
    }
    Wtf8 { bytes: copy_byte_range(s.bytes.as_slice(), begin, end) }
}

impl Wtf8 {
    /// The invariant every value of this type satisfies: its bytes are
    /// well-formed WTF-8.
    pub open spec fn wf(&self) -> bool {
        valid_wtf8(self@)
    }

    /// Wraps bytes whose well-formedness the caller has proved.
    pub(crate) fn from_bytes_unchecked(bytes: Vec<u8>) -> (r: Wtf8)
        requires
            valid_wtf8(bytes@),
        ensures
            r@ == bytes@,
            r.wf(),
    {
        Wtf8 { bytes }
    }

    /// Copies a UTF-8 string slice; UTF-8 is a subset of WTF-8, so this
    /// always succeeds.
    pub fn from_str(value: &str) -> (r: Wtf8)
        ensures
            r@ == encode_utf8(value@),
            r.wf(),
    {
        let b = value.as_bytes();
        let v = copy_byte_range(b, 0, b.len());
        proof {
            assert(v@ =~= encode_utf8(value@));
            vstd::utf8::encode_utf8_valid_utf8(value@);
            lemma_utf8_wtf8(encode_utf8(value@));
        }
        Wtf8 { bytes: v }
    }

    /// The length in WTF-8 bytes.
    pub fn len(&self) -> (r: usize)
        ensures
            r == self@.len(),
    {
        self.bytes.len()
    }

    pub fn is_empty(&self) -> (r: bool)
        ensures
            r == (self@.len() == 0),
    {
        self.bytes.len() == 0
    }

    /// The raw byte content.
    pub fn as_bytes(&self) -> (r: &[u8])
        ensures
            r@ == self@,
    {
        self.bytes.as_slice()
    }

    /// The byte at `position` when it is in the ASCII range, or 0xFF.
    pub fn ascii_byte_at(&self, position: usize) -> (r: u8)
        requires
            position < self@.len(),
        ensures
            r == (if self@[position as int] < 0x80 {
                self@[position as int]
            } else {
                0xFF
            }),
    {
        let b = self.bytes[position];
        if b < 0x80 {
            b
        } else {
            0xFF
        }
    }

    /// A producer of the sequence's code points.
    pub fn code_points(&self) -> (r: Wtf8CodePoints)
        requires
            self.wf(),
        ensures
            r.wf(),
            r.remaining() == self@,
    {
        let n = self.bytes.len();
        let copy = copy_byte_range(self.bytes.as_slice(), 0, n);
        proof {
            assert(copy@ =~= self@);
        }
        Wtf8CodePoints::new(copy)
    }

    /// A producer of the sequence's UTF-16 code units.
    pub fn encode_wide(&self) -> (r: EncodeWide)
        requires
            self.wf(),
        ensures
            r.wf(),
            r.remaining_units() == wide_of(code_points_of(self@)),
    {
        let n = self.bytes.len();
        let copy = copy_byte_range(self.bytes.as_slice(), 0, n);
        proof {
            assert(copy@ =~= self@);
        }
        EncodeWide::new(copy)
    }

    /// Finds the first surrogate at or after boundary `pos`: its byte
    /// offset and its value.
    pub(crate) fn next_surrogate(&self, pos: usize) -> (r: Option<(usize, u16)>)
        requires
            self.wf(),
            is_boundary(self@, pos as int),
        ensures
            match r {
                None => no_surrogate_values(
                    code_points_of(self@.subrange(pos as int, self@.len() as int)),
                ),
                Some((p, u)) => {
                    &&& pos <= p
                    &&& p + 3 <= self@.len()
                    &&& is_boundary(self@, p as int)
                    &&& no_surrogate_values(code_points_of(self@.subrange(pos as int, p as int)))
                    &&& is_surrogate_value(u as u32)
                    &&& decode_first_codepoint(self@.subrange(p as int, self@.len() as int)) == u
                        as u32
                    &&& length_of_first_codepoint(self@.subrange(p as int, self@.len() as int))
                        == 3
                },
            },
    {
        let n = self.bytes.len();
        let mut cur = pos;
        proof {
            assert(code_points_of(self@.subrange(pos as int, pos as int)) =~= Seq::<u32>::empty());
        }
        while cur < n
            invariant
                self.wf(),
                pos <= cur <= n,
                n == self@.len(),
                is_boundary(self@, pos as int),
                is_boundary(self@, cur as int),
                no_surrogate_values(code_points_of(self@.subrange(pos as int, cur as int))),
            decreases n - cur,
        {
            let (v, next) = read_code_point(&self.bytes, cur);
            proof {
                lemma_take_step(self@, cur as int);
                lemma_split_at_boundary(self@, cur as int);
            }
            if 0xD800 <= v && v <= 0xDFFF {
                proof {
                    lemma_surrogate_pattern(self@.subrange(cur as int, self@.len() as int));
                }
                return Some((cur, v as u16));
            }
            proof {
                let pre = code_points_of(self@.subrange(pos as int, cur as int));
                let suf = self@.subrange(cur as int, self@.len() as int);
                // step forward within the suffix that starts at `pos`
                let tail = self@.subrange(pos as int, self@.len() as int);
                lemma_split_at_boundary(self@, pos as int);
                assert(tail[(cur - pos) as int] == self@[cur as int]) by {
                    assert(cur < self@.len());
                }
                lemma_take_step(tail, (cur - pos) as int);
                assert(tail.subrange((cur - pos) as int, tail.len() as int) =~= suf);
                assert(tail.subrange(0, (cur - pos) as int) =~= self@.subrange(
                    pos as int,
                    cur as int,
                ));
                assert(tail.subrange(0, (next - pos) as int) =~= self@.subrange(
                    pos as int,
                    next as int,
                ));
                assert(code_points_of(self@.subrange(pos as int, next as int)) =~= pre.push(v));
                lemma_no_surrogate_push(pre, v);
            }
            cur = next;
        }
        None
    }

    /// Views the content as UTF-8 exactly when no surrogate is present;
    /// no copy is made.
    pub fn as_str(&self) -> (r: Option<&str>)
        requires
            self.wf(),
        ensures
            r is Some <==> no_surrogate_values(code_points_of(self@)),
            r matches Some(s) ==> s@ == chars_of_code_points(code_points_of(self@)),
    {
        match self.next_surrogate(0) {
            None => {
                proof {
                    assert(self@.subrange(0, self@.len() as int) =~= self@);
                    lemma_utf8_wtf8(self@);
                    lemma_chars_of(self@);
                }
                Some(str_from_utf8(self.bytes.as_slice()))
            },
            Some((p, u)) => {
                proof {
                    lemma_surrogate_witness(self@, p as int, u as u32);
                }
                None
            },
        }
    }

    /// The content as UTF-8 text, with U+FFFD standing in for each
    /// surrogate; identical content when no surrogate is present.
    pub fn to_string_lossy(&self) -> (r: String)
        requires
            self.wf(),
        ensures
            r@ == chars_of_code_points(lossy_code_points(code_points_of(self@))),
    {
        let n = self.bytes.len();
        let mut out: Vec<u8> = Vec::new();
        let mut i: usize = 0;
        proof {
            assert(code_points_of(self@.subrange(0, 0)) =~= Seq::<u32>::empty());
            assert(out@ =~= encode_code_points(
                lossy_code_points(code_points_of(self@.subrange(0, 0))),
            ));
        }
        while i < n
            invariant
                self.wf(),
                i <= n,
                n == self@.len(),
                is_boundary(self@, i as int),
                out@ == encode_code_points(
                    lossy_code_points(code_points_of(self@.subrange(0, i as int))),
                ),
            decreases n - i,
        {
            let (v, next) = read_code_point(&self.bytes, i);
            proof {
                lemma_take_step(self@, i as int);
            }
            let w: u32 = if 0xD800 <= v && v <= 0xDFFF {
                0xFFFD
            } else {
                v
            };
            push_code_point_bytes(&mut out, w);
            proof {
                let pre = code_points_of(self@.subrange(0, i as int));
                let cur = code_points_of(self@.subrange(0, next as int));
                assert(cur =~= pre.push(v));
                lemma_lossy_code_points(pre, seq![v]);
                assert(lossy_code_points(cur) =~= lossy_code_points(pre).push(w)) by {
                    assert(lossy_code_points(cur)[cur.len() - 1] == lossy_code_point(v));
                }
                lemma_encode_points_snoc(lossy_code_points(pre), w);
            }
            i = next;
        }
        proof {
            assert(self@.subrange(0, n as int) =~= self@);
            let vs = code_points_of(self@);
            lemma_decode_reencode(self@);
            lemma_lossy_code_points(vs, vs);
            lemma_encode_code_points_valid(lossy_code_points(vs));
            lemma_utf8_wtf8(out@);
            lemma_chars_of(out@);
        }
        string_from_utf8(out)
    }

    /// The trailing lead surrogate, when the sequence ends in one.
    pub(crate) fn final_lead_surrogate(&self) -> (r: Option<u16>)
        requires
            self.wf(),
        ensures
            ({
                let vs = code_points_of(self@);
                match r {
                    Some(u) => {
                        &&& vs.len() > 0
                        &&& u as u32 == vs.last()
                        &&& is_lead_surrogate_value(vs.last())
                        &&& self@.len() >= 3
                        &&& self@.subrange(self@.len() - 3, self@.len() as int)
                            == encode_code_point(u as u32)
                        &&& valid_wtf8(self@.subrange(0, self@.len() - 3))
                        &&& code_points_of(self@.subrange(0, self@.len() - 3)) == vs.drop_last()
                    },
                    None => vs.len() == 0 || !is_lead_surrogate_value(vs.last()),
                }
            }),
    {
        let len = self.bytes.len();
        let ghost vs = code_points_of(self@);
        if len < 3 {
            proof {
                if vs.len() > 0 && is_lead_surrogate_value(vs.last()) {
                    lemma_last_cp_bytes(self@);
                    lemma_encode_code_point_len(vs.last());
                }
            }
            return None;
        }
        let b1 = self.bytes[len - 3];
        let b2 = self.bytes[len - 2];
        let b3 = self.bytes[len - 1];
        if b1 == 0xED && 0xA0 <= b2 && b2 <= 0xAF {
            proof {
                lemma_split_at_boundary(self@, len - 3);
                let suf = self@.subrange(len - 3, len as int);
                assert(suf[0] == b1 && suf[1] == b2 && suf[2] == b3);
                lemma_surrogate_pattern(suf);
                assert(code_points_of(crate::codec::pop_first_code_point(suf))
                    =~= Seq::<u32>::empty());
                assert(code_points_of(suf) =~= seq![decode_first_codepoint(suf)]);
                lemma_first_cp_reencode(suf);
                assert(crate::codec::take_first_code_point(suf) =~= suf);
            }
            let u = decode_surrogate(b2, b3);
            Some(u)
        } else {
            proof {
                if vs.len() > 0 && is_lead_surrogate_value(vs.last()) {
                    lemma_last_cp_bytes(self@);
                    let e = encode_code_point(vs.last());
                    lemma_encode_first(vs.last(), Seq::<u8>::empty());
                    assert(e + Seq::<u8>::empty() =~= e);
                    lemma_surrogate_pattern(e);
                    assert(self@[len - 3] == e[0] && self@[len - 2] == e[1]);
                }
            }
            None
        }
    }

    /// The leading trail surrogate, when the sequence starts with one.
    pub(crate) fn initial_trail_surrogate(&self) -> (r: Option<u16>)
        requires
            self.wf(),
        ensures
            ({
                let vs = code_points_of(self@);
                match r {
                    Some(u) => {
                        &&& vs.len() > 0
                        &&& u as u32 == vs[0]
                        &&& is_trail_surrogate_value(vs[0])
                        &&& self@.len() >= 3
                        &&& self@.subrange(0, 3) == encode_code_point(u as u32)
                        &&& valid_wtf8(self@.subrange(3, self@.len() as int))
                        &&& code_points_of(self@.subrange(3, self@.len() as int))
                            == vs.drop_first()
                    },
                    None => vs.len() == 0 || !is_trail_surrogate_value(vs[0]),
                }
            }),
    {
        let len = self.bytes.len();
        let ghost vs = code_points_of(self@);
        if len == 0 {
            return None;
        }
        proof {
            lemma_surrogate_pattern(self@);
            lemma_first_cp_reencode(self@);
            assert(vs[0] == decode_first_codepoint(self@));
        }
        if len < 3 {
            return None;
        }
        let b1 = self.bytes[0];
        let b2 = self.bytes[1];
        let b3 = self.bytes[2];
        if b1 == 0xED && 0xB0 <= b2 {
            proof {
                assert(crate::codec::take_first_code_point(self@) =~= self@.subrange(0, 3));
                assert(crate::codec::pop_first_code_point(self@) =~= self@.subrange(
                    3,
                    self@.len() as int,
                ));
            }
            let u = decode_surrogate(b2, b3);
            Some(u)
        } else {
            None
        }
    }

    /// Boxes a copy of this sequence.
    pub fn into_box(&self) -> (r: Box<Wtf8>)
        requires
            self.wf(),
        ensures
            r@ == self@,
            r.wf(),
    {
        let n = self.bytes.len();
        let copy = copy_byte_range(self.bytes.as_slice(), 0, n);
        proof {
            assert(copy@ =~= self@);
        }
        Box::new(Wtf8 { bytes: copy })
    }

    /// A boxed, empty sequence.
    pub fn empty_box() -> (r: Box<Wtf8>)
        ensures
            r@ == Seq::<u8>::empty(),
            r.wf(),
    {
        Box::new(Wtf8 { bytes: Vec::new() })
    }

    /// The sub-sequence between two offsets, exactly when both lie on
    /// code point boundaries and are ordered; `None` reports the
    /// boundary violation that slicing treats as fatal.
    pub fn slice(&self, begin: usize, end: usize) -> (r: Option<Wtf8>)
        requires
            self.wf(),
        ensures
            r is Some <==> (begin <= end && is_boundary(self@, begin as int) && is_boundary(
                self@,
                end as int,
            )),
            r matches Some(w) ==> w@ == self@.subrange(begin as int, end as int) && w.wf(),
    {
        if begin <= end && is_code_point_boundary(self, begin) && is_code_point_boundary(
            self,
            end,
        ) {
            Some(slice_unchecked(self, begin, end))
        } else {
            None
        }
    }
}

/// The ASCII-uppercase image of one byte; anything outside `a ..= z`
/// is untouched.
pub open spec fn to_ascii_upper_byte(b: u8) -> u8 {
    if 0x61 <= b <= 0x7A {
        (b - 0x20) as u8
    } else {
        b
    }
}

/// The ASCII-lowercase image of one byte; anything outside `A ..= Z`
/// is untouched.
pub open spec fn to_ascii_lower_byte(b: u8) -> u8 {
    if 0x41 <= b <= 0x5A {
        (b + 0x20) as u8
    } else {
        b
    }
}

/// Byte-wise ASCII-uppercase image of a sequence.
pub open spec fn ascii_upper(s: Seq<u8>) -> Seq<u8> {
    s.map_values(|b: u8| to_ascii_upper_byte(b))
}

/// Byte-wise ASCII-lowercase image of a sequence.
pub open spec fn ascii_lower(s: Seq<u8>) -> Seq<u8> {
    s.map_values(|b: u8| to_ascii_lower_byte(b))
}

/// One byte of the lowercase image.
fn lower_byte(b: u8) -> (r: u8)
    ensures
        r == to_ascii_lower_byte(b),
{
    if 0x41 <= b && b <= 0x5A {
        b + 0x20
    } else {
        b
    }
}

impl Wtf8 {
    /// True when every byte (so every code point) is ASCII.
    pub fn is_ascii(&self) -> (r: bool)
        ensures
            r == (forall|i: int| 0 <= i < self@.len() ==> self@[i] < 0x80),
    {
        let n = self.bytes.len();
        let mut i: usize = 0;
        while i < n
            invariant
                i <= n,
                n == self@.len(),
                forall|j: int| 0 <= j < i ==> self@[j] < 0x80,
            decreases n - i,
        {
            if self.bytes[i] >= 0x80 {
                return false;
            }
            i = i + 1;
        }
        true
    }

    /// A copy with ASCII letters uppercased, byte-wise; non-ASCII bytes
    /// are untouched.
    pub fn to_ascii_uppercase(&self) -> (r: crate::buf::Wtf8Buf)
        requires
            self.wf(),
        ensures
            r@ == ascii_upper(self@),
            r.wf(),
    {
        let n = self.bytes.len();
        let mut out: Vec<u8> = Vec::new();
        let mut i: usize = 0;
        while i < n
            invariant
                i <= n,
                n == self@.len(),
                out@ == ascii_upper(self@.subrange(0, i as int)),
            decreases n - i,
        {
            let b = self.bytes[i];
            out.push(
                if 0x61 <= b && b <= 0x7A {
                    b - 0x20
                } else {
                    b
                },
            );
            proof {
                assert(out@ =~= ascii_upper(self@.subrange(0, i as int + 1)));
            }
            i = i + 1;
        }
        proof {
            assert(self@.subrange(0, n as int) =~= self@);
            crate::codec::lemma_ascii_map_wtf8(self@, |b: u8| to_ascii_upper_byte(b));
        }
        crate::buf::Wtf8Buf::from_wtf8(Wtf8 { bytes: out })
    }

    /// A copy with ASCII letters lowercased, byte-wise; non-ASCII bytes
    /// are untouched.
    pub fn to_ascii_lowercase(&self) -> (r: crate::buf::Wtf8Buf)
        requires
            self.wf(),
        ensures
            r@ == ascii_lower(self@),
            r.wf(),
    {
        let n = self.bytes.len();
        let mut out: Vec<u8> = Vec::new();
        let mut i: usize = 0;
        while i < n
            invariant
                i <= n,
                n == self@.len(),
                out@ == ascii_lower(self@.subrange(0, i as int)),
            decreases n - i,
        {
            let b = self.bytes[i];
            out.push(lower_byte(b));
            proof {
                assert(out@ =~= ascii_lower(self@.subrange(0, i as int + 1)));
            }
            i = i + 1;
        }
        proof {
            assert(self@.subrange(0, n as int) =~= self@);
            crate::codec::lemma_ascii_map_wtf8(self@, |b: u8| to_ascii_lower_byte(b));
        }
        crate::buf::Wtf8Buf::from_wtf8(Wtf8 { bytes: out })
    }

    /// Equality up to ASCII case, byte-wise.
    pub fn eq_ignore_ascii_case(&self, other: &Wtf8) -> (r: bool)
        ensures
            r == (ascii_lower(self@) == ascii_lower(other@)),
    {
        let n = self.bytes.len();
        if n != other.bytes.len() {
            proof {
                assert(ascii_lower(self@).len() != ascii_lower(other@).len());
            }
            return false;
        }
        let mut i: usize = 0;
        while i < n
            invariant
                i <= n,
                n == self@.len() == other@.len(),
                forall|j: int|
                    0 <= j < i ==> #[trigger] ascii_lower(self@)[j] == ascii_lower(other@)[j],
            decreases n - i,
        {
            let a = lower_byte(self.bytes[i]);
            let b = lower_byte(other.bytes[i]);
            if a != b {
                proof {
                    assert(ascii_lower(self@)[i as int] != ascii_lower(other@)[i as int]);
                }
                return false;
            }
            i = i + 1;
        }
        proof {
            assert(ascii_lower(self@) =~= ascii_lower(other@));
        }
        true
    }

    /// Uppercases ASCII letters in place, byte-wise.
    pub fn make_ascii_uppercase(&mut self)
        requires
            old(self).wf(),
        ensures
            final(self).wf(),
            final(self)@ == ascii_upper(old(self)@),
    {
        let n = self.bytes.len();
        let mut i: usize = 0;
        while i < n
            invariant
                i <= n,
                n == self@.len() == old(self)@.len(),
                forall|j: int|
                    0 <= j < i ==> #[trigger] self@[j] == to_ascii_upper_byte(old(self)@[j]),
                forall|j: int| i <= j < n ==> #[trigger] self@[j] == old(self)@[j],
            decreases n - i,
        {
            let b = self.bytes[i];
            if 0x61 <= b && b <= 0x7A {
                self.bytes[i] = b - 0x20;
            }
            i = i + 1;
        }
        proof {
            assert(self@ =~= ascii_upper(old(self)@));
            crate::codec::lemma_ascii_map_wtf8(old(self)@, |b: u8| to_ascii_upper_byte(b));
        }
    }

    /// Lowercases ASCII letters in place, byte-wise.
    pub fn make_ascii_lowercase(&mut self)
        requires
            old(self).wf(),
        ensures
            final(self).wf(),
            final(self)@ == ascii_lower(old(self)@),
    {
        let n = self.bytes.len();
        let mut i: usize = 0;
        while i < n
            invariant
                i <= n,
                n == self@.len() == old(self)@.len(),
                forall|j: int|
                    0 <= j < i ==> #[trigger] self@[j] == to_ascii_lower_byte(old(self)@[j]),
                forall|j: int| i <= j < n ==> #[trigger] self@[j] == old(self)@[j],
            decreases n - i,
        {
            let b = self.bytes[i];
            if 0x41 <= b && b <= 0x5A {
                self.bytes[i] = b + 0x20;
            }
            i = i + 1;
        }
        proof {
            assert(self@ =~= ascii_lower(old(self)@));
            crate::codec::lemma_ascii_map_wtf8(old(self)@, |b: u8| to_ascii_lower_byte(b));
        }
    }

    /// The bytes fed to a hasher: the content, then one fixed
    /// discriminator byte that keeps this type's hash apart from a
    /// plain byte sequence's.
    pub fn hash_input(&self) -> (r: Vec<u8>)
        ensures
            r@ == self@ + seq![0xFEu8],
    {
        let n = self.bytes.len();
        let mut out = copy_byte_range(self.bytes.as_slice(), 0, n);
        out.push(0xFE);
        proof {
            assert(out@ =~= self@ + seq![0xFEu8]);
        }
        out
    }
}

impl PartialEq for Wtf8 {
    /// Byte-wise equality.
    fn eq(&self, other: &Wtf8) -> (r: bool) {
        let n = self.bytes.len();
        if n != other.bytes.len() {
            return false;
        }
        let mut i: usize = 0;
        while i < n
            invariant
                i <= n,
                n == self@.len() == other@.len(),
                forall|j: int| 0 <= j < i ==> #[trigger] self@[j] == other@[j],
            decreases n - i,
        {
            if self.bytes[i] != other.bytes[i] {
                return false;
            }
            i = i + 1;
        }
        proof {
            assert(self@ =~= other@);
        }
        true
    }
}

impl vstd::std_specs::cmp::PartialEqSpecImpl for Wtf8 {
    open spec fn obeys_eq_spec() -> bool {
        true
    }

    open spec fn eq_spec(&self, other: &Wtf8) -> bool {
        self@ == other@
    }
}

impl Eq for Wtf8 {

}

/// Byte-wise lexicographic order of byte sequences.
pub open spec fn lex_cmp_bytes(a: Seq<u8>, b: Seq<u8>) -> core::cmp::Ordering
    decreases a.len(),
{
    if a.len() == 0 && b.len() == 0 {
        core::cmp::Ordering::Equal
    } else if a.len() == 0 {
        core::cmp::Ordering::Less
    } else if b.len() == 0 {
        core::cmp::Ordering::Greater
    } else if a[0] < b[0] {
        core::cmp::Ordering::Less
    } else if a[0] > b[0] {
        core::cmp::Ordering::Greater
    } else {
        lex_cmp_bytes(a.drop_first(), b.drop_first())
    }
}

/// Sequences agreeing on a common prefix compare as their remainders.
pub proof fn lemma_lex_cmp_common_prefix(a: Seq<u8>, b: Seq<u8>, i: int)
    requires
        0 <= i <= a.len(),
        i <= b.len(),
        forall|j: int| 0 <= j < i ==> a[j] == b[j],
    ensures
        lex_cmp_bytes(a, b) == lex_cmp_bytes(
            a.subrange(i, a.len() as int),
            b.subrange(i, b.len() as int),
        ),
    decreases i,
{
    if i == 0 {
        assert(a.subrange(0, a.len() as int) =~= a);
        assert(b.subrange(0, b.len() as int) =~= b);
    } else {
        assert(a[0] == b[0]);
        let at = a.drop_first();
        let bt = b.drop_first();
        assert forall|j: int| 0 <= j < i - 1 implies at[j] == bt[j] by {
            assert(a[j + 1] == b[j + 1]);
        }
        lemma_lex_cmp_common_prefix(at, bt, i - 1);
        assert(at.subrange(i - 1, at.len() as int) =~= a.subrange(i, a.len() as int));
        assert(bt.subrange(i - 1, bt.len() as int) =~= b.subrange(i, b.len() as int));
    }
}

impl PartialOrd for Wtf8 {
    /// Byte-wise lexicographic comparison.
    fn partial_cmp(&self, other: &Wtf8) -> (r: Option<core::cmp::Ordering>) {
        let n = self.bytes.len();
        let m = other.bytes.len();
        let k = if n < m {
            n
        } else {
            m
        };
        let mut i: usize = 0;
        while i < k
            invariant
                i <= k,
                n == self@.len(),
                m == other@.len(),
                k <= n,
                k <= m,
                forall|j: int| 0 <= j < i ==> self@[j] == other@[j],
            decreases k - i,
        {
            let x = self.bytes[i];
            let y = other.bytes[i];
            if x != y {
                proof {
                    lemma_lex_cmp_common_prefix(self@, other@, i as int);
                    assert(self@.subrange(i as int, n as int)[0] == x);
                    assert(other@.subrange(i as int, m as int)[0] == y);
                }
                if x < y {
                    return Some(core::cmp::Ordering::Less);
                } else {
                    return Some(core::cmp::Ordering::Greater);
                }
            }
            i = i + 1;
        }
        proof {
            lemma_lex_cmp_common_prefix(self@, other@, k as int);
        }
        if n == m {
            Some(core::cmp::Ordering::Equal)
        } else if n < m {
            proof {
                assert(other@.subrange(k as int, m as int).len() > 0);
            }
            Some(core::cmp::Ordering::Less)
        } else {
            proof {
                assert(self@.subrange(k as int, n as int).len() > 0);
            }
            Some(core::cmp::Ordering::Greater)
        }
    }
}

impl vstd::std_specs::cmp::PartialOrdSpecImpl for Wtf8 {
    open spec fn obeys_partial_cmp_spec() -> bool {
        true
    }

    open spec fn partial_cmp_spec(&self, other: &Wtf8) -> Option<core::cmp::Ordering> {
        Some(lex_cmp_bytes(self@, other@))
    }
}

impl Wtf8 {
    /// Overwrites every surrogate's 3-byte encoding, in place, with the
    /// 3-byte encoding of U+FFFD; the replacement has the same length,
    /// so positions of all other bytes do not change.
    pub(crate) fn make_lossy(&mut self)
        requires
            old(self).wf(),
        ensures
            final(self).wf(),
            no_surrogate_values(code_points_of(final(self)@)),
            code_points_of(final(self)@) == lossy_code_points(code_points_of(old(self)@)),
    {
        let mut pos: usize = 0;
        proof {
            assert(code_points_of(self@.subrange(0, 0)) =~= Seq::<u32>::empty());
        }
        loop
            invariant
                self.wf(),
                pos <= self@.len(),
                is_boundary(self@, pos as int),
                lossy_code_points(code_points_of(self@)) == lossy_code_points(
                    code_points_of(old(self)@),
                ),
                no_surrogate_values(code_points_of(self@.subrange(0, pos as int))),
            decreases self@.len() - pos,
        {
            let ghost cur = self@;
            match self.next_surrogate(pos) {
                None => {
                    proof {
                        lemma_split_at_boundary(cur, pos as int);
                        let a = code_points_of(cur.subrange(0, pos as int));
                        let b = code_points_of(cur.subrange(pos as int, cur.len() as int));
                        assert(code_points_of(cur) == a + b);
                        assert forall|j: int|
                            0 <= j < code_points_of(cur).len() implies !is_surrogate_value(
                            #[trigger] code_points_of(cur)[j],
                        ) by {
                            if j < a.len() {
                                assert(code_points_of(cur)[j] == a[j]);
                            } else {
                                assert(code_points_of(cur)[j] == b[j - a.len()]);
                            }
                        }
                        lemma_lossy_code_points(code_points_of(cur), code_points_of(cur));
                    }
                    return ;
                },
                Some((p, u)) => {
                    let n = self.bytes.len();
                    proof {
                        assert(p + 3 <= n);
                    }
                    self.bytes[p] = 0xEF;
                    self.bytes[p + 1] = 0xBF;
                    self.bytes[p + 2] = 0xBD;
                    proof {
                        lemma_replace_surrogate(cur, pos as int, p as int, u as u32, self@);
                    }
                    pos = p + 3;
                },
            }
        }
    }
}

/// Overwriting one surrogate encoding, in place, with U+FFFD's bytes:
/// well-formedness survives, the lossy image is untouched, and the
/// rewritten prefix stays surrogate-free.
proof fn lemma_replace_surrogate(cur: Seq<u8>, pos: int, p: int, u: u32, b2: Seq<u8>)
    requires
        valid_wtf8(cur),
        0 <= pos <= p,
        p + 3 <= cur.len(),
        is_boundary(cur, pos),
        is_boundary(cur, p),
        vstd::utf8::decode_first_codepoint(cur.subrange(p, cur.len() as int)) == u,
        vstd::utf8::length_of_first_codepoint(cur.subrange(p, cur.len() as int)) == 3,
        is_surrogate_value(u),
        no_surrogate_values(code_points_of(cur.subrange(0, pos))),
        no_surrogate_values(code_points_of(cur.subrange(pos, p))),
        b2 == cur.update(p, 0xEFu8).update(p + 1, 0xBFu8).update(p + 2, 0xBDu8),
    ensures
        valid_wtf8(b2),
        b2.len() == cur.len(),
        is_boundary(b2, p + 3),
        lossy_code_points(code_points_of(b2)) == lossy_code_points(code_points_of(cur)),
        no_surrogate_values(code_points_of(b2.subrange(0, p + 3))),
{
    let pre = cur.subrange(0, p);
    let suf = cur.subrange(p, cur.len() as int);
    let post = cur.subrange(p + 3, cur.len() as int);
    let enc_u = encode_code_point(u);
    let enc_f = encode_code_point(0xFFFD);
    assert(vstd::utf8::leading_byte_width_3(0xFFFD) == 0xEF
        && vstd::utf8::second_last_continuation_byte(0xFFFD) == 0xBF
        && vstd::utf8::last_continuation_byte(0xFFFD) == 0xBD) by (bit_vector);
    assert(enc_f =~= seq![0xEFu8, 0xBFu8, 0xBDu8]);
    crate::codec::lemma_take_step(cur, p);
    lemma_split_at_boundary(cur, p);
    crate::codec::lemma_first_cp_reencode(suf);
    assert(enc_u.len() == 3);
    assert(suf =~= enc_u + post) by {
        assert(crate::codec::take_first_code_point(suf) =~= cur.subrange(p, p + 3));
    }
    lemma_push_front(u, post);
    lemma_push_front(0xFFFD, post);
    assert(valid_wtf8(post));
    assert(b2 =~= pre + (enc_f + post));
    lemma_wtf8_concat(pre, enc_f + post);
    let a = code_points_of(pre);
    let t = code_points_of(post);
    assert(code_points_of(cur) == a + (seq![u] + t));
    assert(code_points_of(b2) == a + (seq![0xFFFDu32] + t));
    // the lossy images coincide
    lemma_lossy_code_points(a, seq![u] + t);
    lemma_lossy_code_points(a, seq![0xFFFDu32] + t);
    lemma_lossy_code_points(seq![u], t);
    lemma_lossy_code_points(seq![0xFFFDu32], t);
    assert(lossy_code_points(seq![u]) =~= seq![0xFFFDu32]);
    assert(lossy_code_points(seq![0xFFFDu32]) =~= seq![0xFFFDu32]);
    assert(lossy_code_points(code_points_of(b2)) =~= lossy_code_points(code_points_of(cur)));
    // the prefix before the next scan position has no surrogate
    let b2pre = b2.subrange(0, p + 3);
    assert(b2pre =~= pre + enc_f);
    lemma_push_front(0xFFFD, Seq::<u8>::empty());
    assert(enc_f + Seq::<u8>::empty() =~= enc_f);
    lemma_wtf8_concat(pre, enc_f);
    assert(code_points_of(b2pre) == a.push(0xFFFDu32)) by {
        assert(a + seq![0xFFFDu32] =~= a.push(0xFFFDu32));
    }
    assert(no_surrogate_values(a)) by {
        assert(is_boundary(pre, pos)) by {
            if pos < p {
                assert(pre[pos] == cur[pos]);
            }
        }
        lemma_split_at_boundary(pre, pos);
        let a1 = code_points_of(pre.subrange(0, pos));
        let a2 = code_points_of(pre.subrange(pos, pre.len() as int));
        assert(pre.subrange(0, pos) =~= cur.subrange(0, pos));
        assert(pre.subrange(pos, pre.len() as int) =~= cur.subrange(pos, p));
        assert(a == a1 + a2);
        assert forall|j: int| 0 <= j < a.len() implies !is_surrogate_value(#[trigger] a[j]) by {
            if j < a1.len() {
                assert(a[j] == a1[j]);
            } else {
                assert(a[j] == a2[j - a1.len()]);
            }
        }
    }
    crate::codec::lemma_no_surrogate_push(a, 0xFFFD);
    // the byte after the rewritten encoding still opens a code point
    if p + 3 < cur.len() {
        assert(b2[p + 3] == cur[p + 3]);
    }
}

/// A surrogate decodable at a boundary shows that the whole sequence is
/// not surrogate-free.
proof fn lemma_surrogate_witness(s: Seq<u8>, p: int, u: u32)
    requires
        valid_wtf8(s),
        is_boundary(s, p),
        p < s.len(),
        decode_first_codepoint(s.subrange(p, s.len() as int)) == u,
        is_surrogate_value(u),
    ensures
        !no_surrogate_values(code_points_of(s)),
{
    lemma_split_at_boundary(s, p);
    let pre = code_points_of(s.subrange(0, p));
    let suf = s.subrange(p, s.len() as int);
    assert(code_points_of(suf)[0] == u);
    assert(code_points_of(s)[pre.len() as int] == u);
}

} // verus!
