use std::rc::Rc;

use vstd::prelude::*;

use crate::delta::{apply_els, Delta, DeltaElement, LengthMismatch};

verus! {

/// Copies `v[start..end]` into a fresh vector.
pub fn copy_range(v: &Vec<u8>, start: usize, end: usize) -> (r: Vec<u8>)
    requires
        start <= end <= v@.len(),
    ensures
        r@ == v@.subrange(start as int, end as int),
{
    let mut r: Vec<u8> = Vec::new();
    let mut i: usize = start;
    while i < end
        invariant
            start <= i <= end <= v@.len(),
            r@ == v@.subrange(start as int, i as int),
        decreases end - i,
    {
        r.push(v[i]);
        i = i + 1;
        assert(r@ =~= v@.subrange(start as int, i as int));
    }
    r
}

/// Appends the bytes of `src` to `dst`.
pub fn append_bytes(dst: &mut Vec<u8>, src: &Vec<u8>)
    ensures
        final(dst)@ == old(dst)@ + src@,
{
    let mut i: usize = 0;
    while i < src.len()
        invariant
            i <= src@.len(),
            dst@ == old(dst)@ + src@.subrange(0, i as int),
        decreases src@.len() - i,
    {
        dst.push(src[i]);
        i = i + 1;
        assert(dst@ =~= old(dst)@ + src@.subrange(0, i as int));
    }
    assert(src@.subrange(0, src@.len() as int) =~= src@);
}

/// A range of a shared byte buffer. Buffers are never changed once built,
/// so ropes can share them.
pub struct Piece {
    buf: Rc<Vec<u8>>,
    start: usize,
    end: usize,
}

spec fn piece_ok(p: Piece) -> bool {
    p.start <= p.end <= p.buf@.len()
}

spec fn piece_bytes(p: Piece) -> Seq<u8> {
    p.buf@.subrange(p.start as int, p.end as int)
}

spec fn pieces_ok(ps: Seq<Piece>) -> bool {
    forall|j: int| 0 <= j < ps.len() ==> piece_ok(#[trigger] ps[j])
}

/// The bytes of the pieces, in order.
spec fn flatten(ps: Seq<Piece>) -> Seq<u8>
    decreases ps.len(),
{
    if ps.len() == 0 {
        Seq::<u8>::empty()
    } else {
        flatten(ps.drop_last()) + piece_bytes(ps.last())
    }
}

proof fn lemma_flatten_prefix(ps: Seq<Piece>, i: int)
    requires
        0 <= i <= ps.len(),
    ensures
        flatten(ps) == flatten(ps.take(i)) + flatten(ps.skip(i)),
    decreases ps.len(),
{
    if i == ps.len() {
        assert(ps.take(i) =~= ps);
        assert(ps.skip(i) =~= Seq::<Piece>::empty());
        assert(flatten(ps) + Seq::<u8>::empty() =~= flatten(ps));
    } else {
        lemma_flatten_prefix(ps.drop_last(), i);
        assert(ps.drop_last().take(i) =~= ps.take(i));
        assert(ps.skip(i).drop_last() =~= ps.drop_last().skip(i));
        assert(ps.skip(i).last() == ps.last());
        assert(flatten(ps) =~= flatten(ps.take(i)) + flatten(ps.skip(i)));
    }
}

/// Piece `j` lands at `[flatten(take(j)).len(), .. + its length)`.
proof fn lemma_piece_at(ps: Seq<Piece>, j: int)
    requires
        0 <= j < ps.len(),
        pieces_ok(ps),
    ensures
        flatten(ps.take(j + 1)) == flatten(ps.take(j)) + piece_bytes(ps[j]),
        flatten(ps.take(j)).len() + piece_bytes(ps[j]).len() <= flatten(ps).len(),
        flatten(ps).subrange(
            flatten(ps.take(j)).len() as int,
            flatten(ps.take(j)).len() + piece_bytes(ps[j]).len() as int,
        ) == piece_bytes(ps[j]),
{
    lemma_flatten_prefix(ps, j + 1);
    assert(ps.take(j + 1).drop_last() =~= ps.take(j));
    assert(ps.take(j + 1).last() == ps[j]);
    let a = flatten(ps.take(j));
    let pb = piece_bytes(ps[j]);
    assert(flatten(ps).subrange(a.len() as int, a.len() + pb.len() as int) =~= pb);
}

/// The bytes of `ps`, copied into one vector.
fn flatten_to_vec(ps: &Vec<Piece>) -> (r: Vec<u8>)
    requires
        pieces_ok(ps@),
    ensures
        r@ == flatten(ps@),
{
    let mut out: Vec<u8> = Vec::new();
    let mut j: usize = 0;
    while j < ps.len()
        invariant
            pieces_ok(ps@),
            j <= ps@.len(),
            out@ == flatten(ps@.take(j as int)),
        decreases ps@.len() - j,
    {
        proof {
            assert(ps@.take(j + 1).drop_last() =~= ps@.take(j as int));
            assert(ps@.take(j + 1).last() == ps@[j as int]);
            assert(piece_ok(ps@[j as int]));
        }
        let piece = &ps[j];
        let bytes = copy_range(&piece.buf, piece.start, piece.end);
        append_bytes(&mut out, &bytes);
        j = j + 1;
    }
    proof {
        assert(ps@.take(j as int) =~= ps@);
    }
    out
}

/// An immutable byte sequence made of pieces of shared buffers. Every edit
/// builds a new rope; the pieces of bytes it keeps point into the buffers
/// of the rope it came from, and no method changes a buffer.
pub struct ByteRope {
    pieces: Vec<Piece>,
    len: usize,
}

impl View for ByteRope {
    type V = Seq<u8>;

    closed spec fn view(&self) -> Seq<u8> {
        flatten(self.pieces@)
    }
}

impl ByteRope {
    #[verifier::type_invariant]
    spec fn inv(&self) -> bool {
        &&& pieces_ok(self.pieces@)
        &&& self.len == flatten(self.pieces@).len()
    }

    pub fn from_vec(bytes: Vec<u8>) -> (r: ByteRope)
        ensures
            r@ == bytes@,
    {
        let n = bytes.len();
        let mut pieces: Vec<Piece> = Vec::new();
        let ghost bv = bytes@;
        let piece = Piece { buf: Rc::new(bytes), start: 0, end: n };
        proof {
            assert(piece_bytes(piece) =~= bv);
        }
        pieces.push(piece);
        proof {
            assert(pieces@.drop_last() =~= Seq::<Piece>::empty());
            assert(flatten(pieces@.drop_last()) =~= Seq::<u8>::empty());
            assert(pieces@.last() == pieces@[0]);
            assert(piece_bytes(pieces@[0]) =~= bv);
            assert(flatten(pieces@) =~= bytes@);
        }
        ByteRope { pieces, len: n }
    }

    pub fn empty() -> (r: ByteRope)
        ensures
            r@ == Seq::<u8>::empty(),
    {
        ByteRope { pieces: Vec::new(), len: 0 }
    }

    pub fn len(&self) -> (r: usize)
        ensures
            r == self@.len(),
    {
        proof {
            use_type_invariant(self);
        }
        self.len
    }

    pub fn is_empty(&self) -> (r: bool)
        ensures
            r == (self@.len() == 0),
    {
        self.len() == 0
    }

    /// The bytes in `[start, end)`, as a new vector.
    pub fn slice_to_vec(&self, start: usize, end: usize) -> (r: Vec<u8>)
        requires
            start <= end <= self@.len(),
        ensures
            r@ == self@.subrange(start as int, end as int),
    {
        let mut parts: Vec<Piece> = Vec::new();
        self.push_range(&mut parts, start, end);
        proof {
            assert(flatten(Seq::<Piece>::empty()) + self@.subrange(start as int, end as int)
                =~= self@.subrange(start as int, end as int));
        }
        flatten_to_vec(&parts)
    }

    pub fn byte_at(&self, i: usize) -> (r: u8)
        requires
            i < self@.len(),
        ensures
            r == self@[i as int],
    {
        proof {
            use_type_invariant(self);
        }
        let v = self.slice_to_vec(i, i + 1);
        v[0]
    }

    /// All bytes of the rope, as a new vector.
    pub fn to_vec(&self) -> (r: Vec<u8>)
        ensures
            r@ == self@,
    {
        let r = self.slice_to_vec(0, self.len());
        assert(self@.subrange(0, self@.len() as int) =~= self@);
        r
    }

    /// A rope with the same bytes, sharing this one's buffers.
    pub fn duplicate(&self) -> (r: ByteRope)
        ensures
            r@ == self@,
    {
        let mut out: Vec<Piece> = Vec::new();
        self.push_range(&mut out, 0, self.len());
        proof {
            assert(self@.subrange(0, self@.len() as int) =~= self@);
            assert(flatten(Seq::<Piece>::empty()) + self@ =~= self@);
        }
        ByteRope { pieces: out, len: self.len() }
    }

    /// Appends to `out` pieces holding the bytes `[start, end)`, sharing
    /// this rope's buffers.
    fn push_range(&self, out: &mut Vec<Piece>, start: usize, end: usize)
        requires
            start <= end <= self@.len(),
            pieces_ok(old(out)@),
        ensures
            pieces_ok(final(out)@),
            flatten(final(out)@) == flatten(old(out)@) + self@.subrange(start as int, end as int),
    {
        proof {
            use_type_invariant(self);
        }
        let ghost ps = self.pieces@;
        let ghost base = flatten(old(out)@);
        let mut p: usize = 0;
        let mut j: usize = 0;
        proof {
            assert(ps.take(0) =~= Seq::<Piece>::empty());
            assert(base + flatten(ps).subrange(start as int, start as int) =~= base);
        }
        while j < self.pieces.len()
            invariant
                ps == self.pieces@,
                pieces_ok(ps),
                flatten(ps).len() <= usize::MAX,
                pieces_ok(out@),
                start <= end <= flatten(ps).len(),
                j <= ps.len(),
                p == flatten(ps.take(j as int)).len(),
                flatten(out@) == base + flatten(ps).subrange(
                    start as int,
                    if p < start {
                        start as int
                    } else if p > end {
                        end as int
                    } else {
                        p as int
                    },
                ),
            decreases ps.len() - j,
        {
            let piece = &self.pieces[j];
            proof {
                lemma_piece_at(ps, j as int);
                assert(piece_ok(ps[j as int]));
                assert(piece_bytes(*piece).len() == piece.end - piece.start);
            }
            let plen = piece.end - piece.start;
            let q = p + plen;
            let lo = if p < start {
                start
            } else if p > end {
                end
            } else {
                p
            };
            let hi = if q < start {
                start
            } else if q > end {
                end
            } else {
                q
            };
            if lo < hi {
                let np = Piece {
                    buf: Rc::clone(&piece.buf),
                    start: piece.start + (lo - p),
                    end: piece.start + (hi - p),
                };
                let ghost old_out = out@;
                out.push(np);
                proof {
                    assert(out@.drop_last() =~= old_out);
                    assert forall|k: int| 0 <= k < out@.len() implies piece_ok(#[trigger] out@[k]) by {
                        if k < old_out.len() {
                            assert(out@[k] == old_out[k]);
                        }
                    }
                    let fl = flatten(ps);
                    assert(p <= lo && hi <= q);
                    assert(fl.subrange(p as int, q as int) == piece_bytes(*piece));
                    assert(piece_bytes(*piece).subrange(lo - p, hi - p) =~= fl.subrange(
                        lo as int,
                        hi as int,
                    ));
                    assert(np.buf@ == piece.buf@);
                    assert(piece_bytes(np) =~= piece_bytes(*piece).subrange(lo - p, hi - p));
                    assert(fl.subrange(start as int, hi as int) =~= fl.subrange(start as int, lo as int)
                        + fl.subrange(lo as int, hi as int));
                }
            }
            p = q;
            j = j + 1;
        }
        proof {
            assert(ps.take(j as int) =~= ps);
        }
    }

    /// The rope with `d` applied; an error when the rope's length is not
    /// the base length of `d`. Copied ranges share this rope's buffers.
    pub fn apply_delta(&self, d: &Delta) -> (r: Result<ByteRope, LengthMismatch>)
        requires
            d.wf(),
            d.new_len() <= usize::MAX,
        ensures
            match r {
                Ok(out) => self@.len() == d.base_len && out@ == d.apply_spec(self@),
                Err(e) => self@.len() != d.base_len && e == (LengthMismatch {
                    expected: d.base_len,
                    found: self@.len() as usize,
                }),
            },
    {
        if self.len() != d.base_len {
            return Err(LengthMismatch { expected: d.base_len, found: self.len() });
        }
        let ghost base = self@;
        let mut out: Vec<Piece> = Vec::new();
        let mut n: usize = 0;
        let mut i: usize = 0;
        while i < d.els.len()
            invariant
                d.wf(),
                base == self@,
                base.len() == d.base_len,
                i <= d.els@.len(),
                pieces_ok(out@),
                flatten(out@) == apply_els(d.els@.take(i as int), base),
                n == flatten(out@).len(),
                d.new_len() <= usize::MAX,
            decreases d.els@.len() - i,
        {
            assert(d.els@.take(i + 1).drop_last() =~= d.els@.take(i as int));
            proof {
                crate::delta::lemma_target_len_mono(d.els@, i + 1, d.els@.len() as int);
                assert(d.els@.take(d.els@.len() as int) =~= d.els@);
                crate::delta::lemma_target_len(d.els@.take(i + 1), base);
            }
            match &d.els[i] {
                DeltaElement::Copy(a, b) => {
                    assert(d.els@[i as int] is Copy);
                    self.push_range(&mut out, *a, *b);
                    n = n + (*b - *a);
                },
                DeltaElement::Insert(v) => {
                    let m = v.len();
                    let ghost old_out = out@;
                    let np = Piece { buf: Rc::new(copy_range(v, 0, m)), start: 0, end: m };
                    proof {
                        assert(v@.subrange(0, m as int) =~= v@);
                        assert(piece_bytes(np) =~= v@);
                    }
                    out.push(np);
                    proof {
                        assert(out@.drop_last() =~= old_out);
                        assert forall|k: int| 0 <= k < out@.len() implies piece_ok(#[trigger] out@[k]) by {
                            if k < old_out.len() {
                                assert(out@[k] == old_out[k]);
                            }
                        }
                    }
                    n = n + m;
                },
            }
            i = i + 1;
        }
        proof {
            assert(d.els@.take(i as int) =~= d.els@);
        }
        Ok(ByteRope { pieces: out, len: n })
    }
}

} // verus!
