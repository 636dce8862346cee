//! The owned, growable WTF-8 buffer.  Every append keeps the
//! well-formedness invariant and applies the surrogate-pairing rule at
//! the append boundary, exactly as concatenating the corresponding
//! ill-formed UTF-16 would.

use vstd::prelude::*;
use vstd::utf8::encode_utf8;
use crate::code_point::CodePoint;
use crate::wtf8::Wtf8;
use crate::codec::{
    valid_wtf8, is_boundary, code_points_of, no_surrogate_values, is_lead_surrogate_value,
    is_trail_surrogate_value, encode_code_point, encode_code_points, chars_of_code_points,
    lossy_code_points, combined_scalar, appended_code_point, appended_code_points, decode_utf16,
    decode_surrogate_pair, push_code_point_bytes, append_byte_range, string_from_utf8,
    string_into_bytes, lemma_push_front, lemma_wtf8_concat, lemma_split_at_boundary,
    lemma_utf8_wtf8, lemma_chars_of, lemma_decode_utf16_round_trip,
    lemma_encode_code_points_valid,
};

verus! {

broadcast use {
    vstd::seq::group_seq_axioms,
    vstd::utf8::char_is_scalar,
    crate::wtf8::lemma_wtf8_view,
};

/// An owned, growable string of well-formed WTF-8 bytes.
///
/// Similar to an owned UTF-8 string, but it can additionally hold
/// surrogate code points when they are not in a surrogate pair.
pub struct Wtf8Buf {
    inner: Wtf8,
}

impl View for Wtf8Buf {
    type V = Seq<u8>;

    closed spec fn view(&self) -> Seq<u8> {
        self.inner@
    }
}

impl Wtf8Buf {
    /// The invariant every reachable value satisfies: its bytes are
    /// well-formed WTF-8.
    pub open spec fn wf(&self) -> bool {
        valid_wtf8(self@)
    }

    /// An empty buffer.
    pub fn new() -> (r: Wtf8Buf)
        ensures
            r@ == Seq::<u8>::empty(),
            r.wf(),
    {
        Wtf8Buf { inner: Wtf8::from_bytes_unchecked(Vec::new()) }
    }

    /// An empty buffer with room for `n` bytes before reallocation.
    pub fn with_capacity(n: usize) -> (r: Wtf8Buf)
        ensures
            r@ == Seq::<u8>::empty(),
            r.wf(),
    {
        Wtf8Buf { inner: Wtf8::from_bytes_unchecked(Vec::with_capacity(n)) }
    }

    /// Takes ownership of a UTF-8 string's storage; UTF-8 is a subset
    /// of WTF-8, so this always succeeds and copies nothing.
    pub fn from_string(string: String) -> (r: Wtf8Buf)
        ensures
            r@ == encode_utf8(string@),
            r.wf(),
    {
        let bytes = string_into_bytes(string);
        proof {
            vstd::utf8::encode_utf8_valid_utf8(string@);
            lemma_utf8_wtf8(bytes@);
        }
        Wtf8Buf { inner: Wtf8::from_bytes_unchecked(bytes) }
    }

    /// Copies a UTF-8 string slice into a fresh buffer.
    pub fn from_str(value: &str) -> (r: Wtf8Buf)
        ensures
            r@ == encode_utf8(value@),
            r.wf(),
    {
        Wtf8Buf { inner: Wtf8::from_str(value) }
    }

    /// Wraps an already well-formed sequence, keeping its storage.
    pub(crate) fn from_wtf8(w: Wtf8) -> (r: Wtf8Buf)
        requires
            w.wf(),
        ensures
            r@ == w@,
            r.wf(),
    {
        Wtf8Buf { inner: w }
    }

    /// Empties the buffer.
    pub fn clear(&mut self)
        ensures
            final(self)@ == Seq::<u8>::empty(),
            final(self).wf(),
    {
        self.inner.bytes.clear();
    }

    /// Decodes a potentially ill-formed UTF-16 code unit sequence:
    /// surrogate pairs become their supplementary code point, every
    /// other unit, unpaired surrogates included, stands for itself.
    ///
    /// Lossless: `encode_wide` on the result yields `v` back, exactly.
    pub fn from_wide(v: &[u16]) -> (r: Wtf8Buf)
        ensures
            r.wf(),
            r@ == encode_code_points(decode_utf16(v@)),
            code_points_of(r@) == decode_utf16(v@),
    {
        let n = v.len();
        let mut bytes: Vec<u8> = Vec::with_capacity(n);
        let mut i: usize = 0;
        proof {
            assert(v@.subrange(0, n as int) =~= v@);
        }
        while i < n
            invariant
                i <= n,
                n == v@.len(),
                encode_code_points(decode_utf16(v@)) == bytes@ + encode_code_points(
                    decode_utf16(v@.subrange(i as int, n as int)),
                ),
            decreases n - i,
        {
            let u = v[i];
            let ghost rest = v@.subrange(i as int, n as int);
            proof {
                assert(rest[0] == u);
            }
            if 0xD800 <= u && u <= 0xDBFF && i + 1 < n && 0xDC00 <= v[i + 1] && v[i + 1]
                <= 0xDFFF {
                let c = decode_surrogate_pair(u, v[i + 1]);
                push_code_point_bytes(&mut bytes, c as u32);
                proof {
                    assert(rest[1] == v@[i + 1]);
                    let tail = v@.subrange(i + 2, n as int);
                    assert(rest.subrange(2, rest.len() as int) =~= tail);
                    let vs = decode_utf16(rest);
                    assert(vs == seq![combined_scalar(u as u32, v@[i + 1] as u32)] + decode_utf16(
                        tail,
                    ));
                    assert(vs.drop_first() =~= decode_utf16(tail));
                    assert(encode_code_points(vs) == encode_code_point(vs[0])
                        + encode_code_points(decode_utf16(tail)));
                }
                i = i + 2;
            } else {
                push_code_point_bytes(&mut bytes, u as u32);
                proof {
                    let tail = v@.subrange(i + 1, n as int);
                    assert(rest.drop_first() =~= tail);
                    let vs = decode_utf16(rest);
                    assert(vs == seq![u as u32] + decode_utf16(tail));
                    assert(vs.drop_first() =~= decode_utf16(tail));
                    assert(encode_code_points(vs) == encode_code_point(vs[0])
                        + encode_code_points(decode_utf16(tail)));
                }
                i = i + 1;
            }
        }
        proof {
            assert(v@.subrange(n as int, n as int) =~= Seq::<u16>::empty());
            assert(decode_utf16(Seq::<u16>::empty()) =~= Seq::<u32>::empty());
            assert(encode_code_points(Seq::<u32>::empty()) =~= Seq::<u8>::empty());
            assert(bytes@ =~= encode_code_points(decode_utf16(v@)));
            lemma_decode_utf16_round_trip(v@);
            lemma_encode_code_points_valid(decode_utf16(v@));
        }
        Wtf8Buf { inner: Wtf8::from_bytes_unchecked(bytes) }
    }

    /// Appends the encoding of one code point, without the surrogate
    /// concatenation check; internal callers know no new pair can form
    /// or intend the raw append.
    fn push_code_point_unchecked(&mut self, code_point: CodePoint)
        requires
            old(self).wf(),
        ensures
            final(self).wf(),
            final(self)@ == old(self)@ + encode_code_point(code_point@),
            code_points_of(final(self)@) == code_points_of(old(self)@).push(code_point@),
    {
        proof {
            use_type_invariant(code_point);
        }
        let v = code_point.to_u32();
        push_code_point_bytes(&mut self.inner.bytes, v);
        proof {
            lemma_push_front(v, Seq::<u8>::empty());
            assert(encode_code_point(v) + Seq::<u8>::empty() =~= encode_code_point(v));
            lemma_wtf8_concat(old(self)@, encode_code_point(v));
            assert(code_points_of(final(self)@) =~= code_points_of(old(self)@).push(v));
        }
    }

    /// The buffer's content as an immutable WTF-8 sequence.
    pub fn as_slice(&self) -> (r: &Wtf8)
        ensures
            r@ == self@,
    {
        &self.inner
    }

    /// Reserves room for at least `additional` more bytes.
    pub fn reserve(&mut self, additional: usize)
        ensures
            final(self)@ == old(self)@,
    {
        self.inner.bytes.reserve(additional);
    }

    /// Reserves room for exactly `additional` more bytes.
    pub fn reserve_exact(&mut self, additional: usize)
        requires
            old(self)@.len() + additional <= 0x7FFF_FFFF_FFFF_FFFF,
        ensures
            final(self)@ == old(self)@,
    {
        vec_reserve_exact(&mut self.inner.bytes, additional);
    }

    /// Drops excess capacity.
    pub fn shrink_to_fit(&mut self)
        ensures
            final(self)@ == old(self)@,
    {
        vec_shrink_to_fit(&mut self.inner.bytes);
    }

    /// The number of bytes the buffer can hold without reallocating.
    pub fn capacity(&self) -> (r: usize)
        ensures
            r >= self@.len(),
    {
        vec_capacity(&self.inner.bytes)
    }

    /// Appends a UTF-8 string slice.  UTF-8 text never starts with a
    /// trail surrogate, so no pairing check is needed.
    pub fn push_str(&mut self, other: &str)
        requires
            old(self).wf(),
        ensures
            final(self).wf(),
            final(self)@ == old(self)@ + encode_utf8(other@),
    {
        let b = other.as_bytes();
        append_byte_range(&mut self.inner.bytes, b, 0, b.len());
        proof {
            assert(b@.subrange(0, b@.len() as int) =~= b@);
            vstd::utf8::encode_utf8_valid_utf8(other@);
            lemma_utf8_wtf8(encode_utf8(other@));
            lemma_wtf8_concat(old(self)@, encode_utf8(other@));
        }
    }

    /// Appends a Unicode scalar value.  A scalar is never a surrogate,
    /// so no pairing check is needed.
    pub fn push_char(&mut self, c: char)
        requires
            old(self).wf(),
        ensures
            final(self).wf(),
            final(self)@ == old(self)@ + encode_code_point(c as u32),
            code_points_of(final(self)@) == code_points_of(old(self)@).push(c as u32),
    {
        self.push_code_point_unchecked(CodePoint::from_char(c));
    }

    /// Appends a code point, pairing a trail surrogate with a final
    /// lead surrogate into one supplementary code point, exactly as
    /// concatenating the corresponding ill-formed UTF-16 would.
    pub fn push(&mut self, code_point: CodePoint)
        requires
            old(self).wf(),
        ensures
            final(self).wf(),
            code_points_of(final(self)@) == appended_code_point(
                code_points_of(old(self)@),
                code_point@,
            ),
            ({
                let vs = code_points_of(old(self)@);
                if is_trail_surrogate_value(code_point@) && vs.len() > 0
                    && is_lead_surrogate_value(vs.last()) {
                    final(self)@ == old(self)@.subrange(0, old(self)@.len() - 3)
                        + encode_code_point(combined_scalar(vs.last(), code_point@))
                } else {
                    final(self)@ == old(self)@ + encode_code_point(code_point@)
                }
            }),
    {
        proof {
            use_type_invariant(code_point);
        }
        let v = code_point.to_u32();
        let ghost vs = code_points_of(old(self)@);
        if 0xDC00 <= v && v <= 0xDFFF {
            match self.inner.final_lead_surrogate() {
                Some(lead) => {
                    let n = self.inner.bytes.len();
                    self.inner.bytes.truncate(n - 3);
                    proof {
                        assert(self.inner@ =~= old(self)@.subrange(0, old(self)@.len() - 3));
                    }
                    let c = decode_surrogate_pair(lead, v as u16);
                    self.push_code_point_unchecked(CodePoint::from_char(c));
                    proof {
                        assert(code_points_of(final(self)@) =~= appended_code_point(vs, v));
                    }
                    return ;
                },
                None => {
                },
            }
        }
        self.push_code_point_unchecked(code_point);
        proof {
            assert(code_points_of(self@) =~= appended_code_point(vs, v));
        }
    }

    /// Appends a WTF-8 sequence, pairing surrogates that newly meet at
    /// the append boundary into one supplementary code point.
    pub fn push_wtf8(&mut self, other: &Wtf8)
        requires
            old(self).wf(),
            other.wf(),
        ensures
            final(self).wf(),
            ({
                let vs = code_points_of(old(self)@);
                let ws = code_points_of(other@);
                if vs.len() > 0 && is_lead_surrogate_value(vs.last()) && ws.len() > 0
                    && is_trail_surrogate_value(ws[0]) {
                    code_points_of(final(self)@) == vs.drop_last() + seq![
                        combined_scalar(vs.last(), ws[0]),
                    ] + ws.drop_first()
                } else {
                    final(self)@ == old(self)@ + other@ && code_points_of(final(self)@) == vs
                        + ws
                }
            }),
    {
        let lead_opt = self.inner.final_lead_surrogate();
        let trail_opt = other.initial_trail_surrogate();
        let ghost vs = code_points_of(old(self)@);
        let ghost ws = code_points_of(other@);
        match (lead_opt, trail_opt) {
            (Some(lead), Some(trail)) => {
                let n = self.inner.bytes.len();
                self.inner.bytes.truncate(n - 3);
                proof {
                    assert(self.inner@ =~= old(self)@.subrange(0, old(self)@.len() - 3));
                }
                let c = decode_surrogate_pair(lead, trail);
                self.push_code_point_unchecked(CodePoint::from_char(c));
                let ghost mid = self@;
                let m = other.bytes.len();
                append_byte_range(&mut self.inner.bytes, other.bytes.as_slice(), 3, m);
                proof {
                    let tail = other@.subrange(3, other@.len() as int);
                    lemma_wtf8_concat(mid, tail);
                    assert(code_points_of(final(self)@) =~= vs.drop_last() + seq![
                        combined_scalar(vs.last(), ws[0]),
                    ] + ws.drop_first());
                }
            },
            _ => {
                let m = other.bytes.len();
                append_byte_range(&mut self.inner.bytes, other.bytes.as_slice(), 0, m);
                proof {
                    assert(other@.subrange(0, other@.len() as int) =~= other@);
                    lemma_wtf8_concat(old(self)@, other@);
                }
            },
        }
    }

    /// Shortens the buffer to `new_len` bytes; the new length must lie
    /// on a code point boundary, anything else is the fatal slicing
    /// condition and is excluded here.
    pub fn truncate(&mut self, new_len: usize)
        requires
            old(self).wf(),
            is_boundary(old(self)@, new_len as int),
        ensures
            final(self).wf(),
            final(self)@ == old(self)@.subrange(0, new_len as int),
    {
        proof {
            lemma_split_at_boundary(self@, new_len as int);
        }
        self.inner.bytes.truncate(new_len);
        proof {
            assert(self@ =~= old(self)@.subrange(0, new_len as int));
        }
    }

    /// Converts to a UTF-8 string without copying, exactly when no
    /// surrogate is present; otherwise the buffer comes back unchanged
    /// in the failure value, so nothing is lost.
    pub fn into_string(self) -> (r: Result<String, Wtf8Buf>)
        requires
            self.wf(),
        ensures
            r is Ok <==> no_surrogate_values(code_points_of(self@)),
            r matches Ok(s) ==> s@ == chars_of_code_points(code_points_of(self@)),
            r matches Err(b) ==> b == self,
    {
        match self.inner.next_surrogate(0) {
            None => {
                proof {
                    assert(self@.subrange(0, self@.len() as int) =~= self@);
                    lemma_utf8_wtf8(self@);
                    lemma_chars_of(self@);
                }
                Ok(string_from_utf8(self.inner.bytes))
            },
            Some((p, u)) => {
                proof {
                    lemma_split_at_boundary(self@, p as int);
                    let pre = code_points_of(self@.subrange(0, p as int));
                    let suf = self@.subrange(p as int, self@.len() as int);
                    assert(code_points_of(suf)[0] == u as u32);
                    assert(code_points_of(self@)[pre.len() as int] == u as u32);
                }
                Err(self)
            },
        }
    }

    /// Converts to UTF-8 text, with U+FFFD in place of each surrogate.
    ///
    /// The replacement happens in place: a surrogate's 3-byte encoding
    /// is overwritten by the 3 bytes of U+FFFD, so no reallocation is
    /// needed and no byte outside the surrogates changes.
    pub fn into_string_lossy(self) -> (r: String)
        requires
            self.wf(),
        ensures
            r@ == chars_of_code_points(lossy_code_points(code_points_of(self@))),
    {
        let mut this = self;
        this.inner.make_lossy();
        proof {
            lemma_utf8_wtf8(this@);
            lemma_chars_of(this@);
        }
        string_from_utf8(this.inner.bytes)
    }

    /// Boxes the buffer's content as an immutable sequence, keeping its
    /// storage.
    pub fn into_box(self) -> (r: Box<Wtf8>)
        requires
            self.wf(),
        ensures
            r@ == self@,
            r.wf(),
    {
        Box::new(self.inner)
    }

    /// Reclaims a boxed sequence as a growable buffer.
    pub fn from_box(boxed: Box<Wtf8>) -> (r: Wtf8Buf)
        requires
            boxed.wf(),
        ensures
            r@ == boxed@,
            r.wf(),
    {
        Wtf8Buf { inner: *boxed }
    }

    /// Appends every code point of `code_points` in turn via `push`, so
    /// a lead surrogate followed by a trail surrogate collapses into one
    /// supplementary code point, exactly as direct concatenation would.
    pub fn extend(&mut self, code_points: &[CodePoint])
        requires
            old(self).wf(),
        ensures
            final(self).wf(),
            code_points_of(final(self)@) == appended_code_points(
                code_points_of(old(self)@),
                code_points@.map_values(|cp: CodePoint| cp@),
            ),
    {
        let ghost all = code_points@.map_values(|cp: CodePoint| cp@);
        let n = code_points.len();
        let mut i: usize = 0;
        proof {
            assert(all.subrange(0, n as int) =~= all);
        }
        while i < n
            invariant
                i <= n,
                n == code_points@.len(),
                self.wf(),
                all == code_points@.map_values(|cp: CodePoint| cp@),
                appended_code_points(
                    code_points_of(self@),
                    all.subrange(i as int, n as int),
                ) == appended_code_points(code_points_of(old(self)@), all),
            decreases n - i,
        {
            let ghost rest = all.subrange(i as int, n as int);
            self.push(code_points[i]);
            proof {
                assert(rest[0] == code_points@[i as int]@);
                assert(rest.drop_first() =~= all.subrange(i + 1, n as int));
            }
            i = i + 1;
        }
        proof {
            assert(all.subrange(n as int, n as int) =~= Seq::<u32>::empty());
        }
    }

    /// Builds a buffer from a sequence of code points, pairing
    /// surrogates exactly as `extend` does.
    pub fn from_code_points(code_points: &[CodePoint]) -> (r: Wtf8Buf)
        ensures
            r.wf(),
            code_points_of(r@) == appended_code_points(
                Seq::<u32>::empty(),
                code_points@.map_values(|cp: CodePoint| cp@),
            ),
    {
        let mut buf = Wtf8Buf::new();
        proof {
            assert(code_points_of(buf@) =~= Seq::<u32>::empty());
        }
        buf.extend(code_points);
        buf
    }
}

impl Wtf8Buf {
    /// The bytes fed to a hasher: the content, then one fixed
    /// discriminator byte that keeps this type's hash apart from a
    /// plain byte sequence's.
    pub fn hash_input(&self) -> (r: Vec<u8>)
        ensures
            r@ == self@ + seq![0xFEu8],
    {
        self.inner.hash_input()
    }
}

impl PartialEq for Wtf8Buf {
    /// Byte-wise equality of the contents; capacity is not compared.
    fn eq(&self, other: &Wtf8Buf) -> (r: bool) {
        self.inner == other.inner
    }
}

impl vstd::std_specs::cmp::PartialEqSpecImpl for Wtf8Buf {
    open spec fn obeys_eq_spec() -> bool {
        true
    }

    open spec fn eq_spec(&self, other: &Wtf8Buf) -> bool {
        self@ == other@
    }
}

impl Eq for Wtf8Buf {

}

impl PartialOrd for Wtf8Buf {
    /// Byte-wise lexicographic comparison of the contents.
    fn partial_cmp(&self, other: &Wtf8Buf) -> (r: Option<core::cmp::Ordering>) {
        self.inner.partial_cmp(&other.inner)
    }
}

impl vstd::std_specs::cmp::PartialOrdSpecImpl for Wtf8Buf {
    open spec fn obeys_partial_cmp_spec() -> bool {
        true
    }

    open spec fn partial_cmp_spec(&self, other: &Wtf8Buf) -> Option<core::cmp::Ordering> {
        Some(crate::wtf8::lex_cmp_bytes(self@, other@))
    }
}

/* Capacity operations of `Vec` that vstd leaves unspecified */

/// Relies on `Vec::reserve_exact`: the contents are unchanged; the
/// caller keeps the new capacity below the allocator's limit.
#[verifier::external_body]
fn vec_reserve_exact(v: &mut Vec<u8>, additional: usize)
    requires
        old(v)@.len() + additional <= 0x7FFF_FFFF_FFFF_FFFF,
    ensures
        final(v)@ == old(v)@,
{
    v.reserve_exact(additional);
}

/// Relies on `Vec::shrink_to_fit`: the contents are unchanged.
#[verifier::external_body]
fn vec_shrink_to_fit(v: &mut Vec<u8>)
    ensures
        final(v)@ == old(v)@,
{
    v.shrink_to_fit();
}

/// Relies on `Vec::capacity`: it is at least the current length.
#[verifier::external_body]
fn vec_capacity(v: &Vec<u8>) -> (r: usize)
    ensures
        r >= v@.len(),
{
    v.capacity()
}

} // verus!
