//! Restartable, finite, forward-only producers: code points out of a
//! WTF-8 sequence, and UTF-16 code units out of those code points.

use vstd::prelude::*;
use crate::code_point::CodePoint;
use crate::codec::{
    valid_wtf8, is_boundary, code_points_of, pop_first_code_point, read_code_point, wide_of,
    wide_of_code_point, is_trail_surrogate_unit, lemma_split_at_boundary, lemma_wide_pair,
};
use vstd::utf8::decode_first_codepoint;

verus! {

broadcast use vstd::seq::group_seq_axioms;

/// Produces the code points of a WTF-8 byte sequence, front to back.
///
/// Created by `Wtf8::code_points`.
#[derive(Clone)]
pub struct Wtf8CodePoints {
    bytes: Vec<u8>,
    pos: usize,
}

impl Wtf8CodePoints {
    /// The bytes not yet decoded.
    pub closed spec fn remaining(&self) -> Seq<u8> {
        self.bytes@.subrange(self.pos as int, self.bytes@.len() as int)
    }

    /// The producer's position lies on a code point boundary of a
    /// well-formed sequence.
    pub closed spec fn wf(&self) -> bool {
        valid_wtf8(self.bytes@) && is_boundary(self.bytes@, self.pos as int)
    }

    /// Remaining bytes are well-formed WTF-8.
    pub proof fn lemma_remaining_wf(&self)
        requires
            self.wf(),
        ensures
            valid_wtf8(self.remaining()),
    {
        lemma_split_at_boundary(self.bytes@, self.pos as int);
    }

    /// Starts a producer over the given bytes.
    pub(crate) fn new(bytes: Vec<u8>) -> (r: Wtf8CodePoints)
        requires
            valid_wtf8(bytes@),
        ensures
            r.wf(),
            r.remaining() == bytes@,
    {
        let r = Wtf8CodePoints { bytes, pos: 0 };
        proof {
            assert(r.remaining() =~= r.bytes@);
        }
        r
    }

    /// Decodes and yields the next code point, or `None` at the end.
    pub fn next(&mut self) -> (r: Option<CodePoint>)
        requires
            old(self).wf(),
        ensures
            final(self).wf(),
            match r {
                None => old(self).remaining().len() == 0 && final(self).remaining() == old(
                    self,
                ).remaining(),
                Some(cp) => {
                    &&& old(self).remaining().len() > 0
                    &&& cp@ == decode_first_codepoint(old(self).remaining())
                    &&& final(self).remaining() == pop_first_code_point(old(self).remaining())
                },
            },
    {
        proof {
            lemma_split_at_boundary(self.bytes@, self.pos as int);
        }
        if self.pos >= self.bytes.len() {
            None
        } else {
            let (v, next) = read_code_point(&self.bytes, self.pos);
            let ghost rem = self.remaining();
            self.pos = next;
            proof {
                assert(self.remaining() =~= pop_first_code_point(rem));
            }
            Some(CodePoint::from_u32_unchecked(v))
        }
    }

    /// A lower bound of one code point per four remaining bytes, and an
    /// upper bound of one per byte.
    pub fn size_hint(&self) -> (r: (usize, Option<usize>))
        requires
            self.wf(),
        ensures
            r.0 == (self.remaining().len() + 3) / 4,
            r.1 == Some(self.remaining().len() as usize),
    {
        let len = self.bytes.len() - self.pos;
        let low = len / 4 + if len % 4 != 0 {
            1
        } else {
            0
        };
        proof {
            let n = len as int;
            vstd::arithmetic::div_mod::lemma_fundamental_div_mod(n, 4);
            vstd::arithmetic::div_mod::lemma_fundamental_div_mod_converse(
                n + 3,
                4,
                n / 4 + if n % 4 != 0 { 1int } else { 0int },
                if n % 4 != 0 { n % 4 - 1 } else { 3int },
            );
        }
        (low, Some(len))
    }
}

/// Produces the potentially ill-formed UTF-16 code units of a WTF-8
/// sequence: one unit per code point below 0x10000 (surrogates come out
/// verbatim), a surrogate pair for each supplementary code point.
///
/// Created by `Wtf8::encode_wide`.
#[derive(Clone)]
pub struct EncodeWide {
    code_points: Wtf8CodePoints,
    extra: u16,
}

impl EncodeWide {
    /// The code units not yet produced.
    pub closed spec fn remaining_units(&self) -> Seq<u16> {
        (if self.extra != 0 {
            seq![self.extra]
        } else {
            seq![]
        }) + wide_of(code_points_of(self.code_points.remaining()))
    }

    /// The bytes whose code points have not been produced yet.
    pub closed spec fn remaining_bytes(&self) -> Seq<u8> {
        self.code_points.remaining()
    }

    /// Well-formed state: the underlying producer is well-formed, and a
    /// pending unit is always the trail half of a surrogate pair.
    pub closed spec fn wf(&self) -> bool {
        self.code_points.wf() && (self.extra != 0 ==> is_trail_surrogate_unit(self.extra))
    }

    /// Starts a producer over the given bytes.
    pub(crate) fn new(bytes: Vec<u8>) -> (r: EncodeWide)
        requires
            valid_wtf8(bytes@),
        ensures
            r.wf(),
            r.remaining_units() == wide_of(code_points_of(bytes@)),
    {
        let r = EncodeWide { code_points: Wtf8CodePoints::new(bytes), extra: 0 };
        proof {
            assert(r.remaining_units() =~= wide_of(code_points_of(r.code_points.remaining())));
        }
        r
    }

    /// Yields the next UTF-16 code unit, or `None` at the end.
    pub fn next(&mut self) -> (r: Option<u16>)
        requires
            old(self).wf(),
        ensures
            final(self).wf(),
            match r {
                None => old(self).remaining_units().len() == 0 && final(self).remaining_units()
                    == old(self).remaining_units(),
                Some(u) => {
                    &&& old(self).remaining_units().len() > 0
                    &&& u == old(self).remaining_units()[0]
                    &&& final(self).remaining_units() == old(self).remaining_units().drop_first()
                },
            },
    {
        if self.extra != 0 {
            let tmp = self.extra;
            self.extra = 0;
            proof {
                assert(self.remaining_units() =~= old(self).remaining_units().drop_first());
            }
            return Some(tmp);
        }
        let ghost rem = self.code_points.remaining();
        proof {
            self.code_points.lemma_remaining_wf();
        }
        match self.code_points.next() {
            None => {
                proof {
                    assert(code_points_of(rem) =~= Seq::<u32>::empty());
                    assert(old(self).remaining_units() =~= Seq::<u16>::empty());
                }
                None
            },
            Some(cp) => {
                let v = cp.to_u32();
                let ghost rest = self.code_points.remaining();
                proof {
                    assert(code_points_of(rem) == seq![v] + code_points_of(rest));
                    assert(code_points_of(rem)[0] == v);
                    assert(code_points_of(rem).drop_first() =~= code_points_of(rest));
                    assert(wide_of(code_points_of(rem)) == wide_of_code_point(v) + wide_of(
                        code_points_of(rest),
                    ));
                }
                proof {
                    use_type_invariant(cp);
                }
                if v >= 0x10000 {
                    proof {
                        lemma_wide_pair(v);
                    }
                    let d: u32 = v - 0x10000;
                    proof {
                        assert(d / 0x400 <= 0x3FF) by (nonlinear_arith)
                            requires d <= 0xFFFFF,
                        ;
                        assert(0 <= d % 0x400 < 0x400);
                    }
                    let lead: u16 = 0xD800 + (d / 0x400) as u16;
                    let trail: u16 = 0xDC00 + (d % 0x400) as u16;
                    self.extra = trail;
                    proof {
                        assert(wide_of_code_point(v) == seq![lead, trail]);
                        assert(self.remaining_units() =~= old(self).remaining_units().drop_first());
                    }
                    Some(lead)
                } else {
                    proof {
                        assert(wide_of_code_point(v) == seq![v as u16]);
                        assert(self.remaining_units() =~= old(self).remaining_units().drop_first());
                    }
                    Some(v as u16)
                }
            },
        }
    }

    /// At least one and at most two units per code point: between
    /// one-fourth of the remaining bytes (rounded up) and twice the
    /// remaining bytes.
    pub fn size_hint(&self) -> (r: (usize, Option<usize>))
        requires
            self.wf(),
        ensures
            r.0 == (self.remaining_bytes().len() + 3) / 4,
            self.remaining_bytes().len() <= usize::MAX / 2 ==> r.1 == Some(
                (2 * self.remaining_bytes().len()) as usize,
            ),
    {
        let (low, high) = self.code_points.size_hint();
        let len = match high {
            Some(n) => n,
            None => 0,
        };
        if len <= usize::MAX / 2 {
            (low, Some(2 * len))
        } else {
            (low, None)
        }
    }
}

} // verus!
