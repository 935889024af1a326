use vstd::prelude::*;

use crate::rope::{copy_range, ByteRope};

verus! {

/// One segment of a delta: a copy of the base range `[start, end)`, or
/// literal bytes.
#[derive(Clone, Debug)]
pub enum DeltaElement {
    Copy(usize, usize),
    Insert(Vec<u8>),
}

/// An edit over a base of `base_len` bytes: the target is the concatenation
/// of the segments, in order.
#[derive(Clone, Debug)]
pub struct Delta {
    pub base_len: usize,
    pub els: Vec<DeltaElement>,
}

/// The base of a delta does not have the length the delta was made for.
#[derive(Debug, PartialEq, Eq, Structural)]
pub struct LengthMismatch {
    pub expected: usize,
    pub found: usize,
}

/// The bytes a segment contributes to the target.
pub open spec fn piece(e: DeltaElement, base: Seq<u8>) -> Seq<u8> {
    match e {
        DeltaElement::Copy(a, b) => base.subrange(a as int, b as int),
        DeltaElement::Insert(v) => v@,
    }
}

/// The number of bytes a segment contributes to the target.
pub open spec fn piece_len(e: DeltaElement) -> nat {
    match e {
        DeltaElement::Copy(a, b) => (b - a) as nat,
        DeltaElement::Insert(v) => v@.len(),
    }
}

/// The target of the segments `els` over `base`.
pub open spec fn apply_els(els: Seq<DeltaElement>, base: Seq<u8>) -> Seq<u8>
    decreases els.len(),
{
    if els.len() == 0 {
        Seq::<u8>::empty()
    } else {
        apply_els(els.drop_last(), base) + piece(els.last(), base)
    }
}

/// The length of the target of the segments `els`.
pub open spec fn target_len(els: Seq<DeltaElement>) -> nat
    decreases els.len(),
{
    if els.len() == 0 {
        0
    } else {
        target_len(els.drop_last()) + piece_len(els.last())
    }
}

/// Every copy lies inside a base of `n` bytes, and copies come in base
/// order without overlapping.
pub open spec fn els_wf(els: Seq<DeltaElement>, n: nat) -> bool {
    &&& forall|j: int|
        0 <= j < els.len() ==> match #[trigger] els[j] {
            DeltaElement::Copy(a, b) => a <= b <= n,
            DeltaElement::Insert(_) => true,
        }
    &&& forall|j1: int, j2: int|
        0 <= j1 < j2 < els.len() && (#[trigger] els[j1]) is Copy && (#[trigger] els[j2]) is Copy
            ==> els[j1]->Copy_1 <= els[j2]->Copy_0
}

pub proof fn lemma_target_len(els: Seq<DeltaElement>, base: Seq<u8>)
    requires
        els_wf(els, base.len()),
    ensures
        apply_els(els, base).len() == target_len(els),
    decreases els.len(),
{
    if els.len() > 0 {
        let last = els.last();
        assert(els.drop_last() =~= els.subrange(0, els.len() - 1));
        assert(els[els.len() - 1] == last);
        lemma_target_len(els.drop_last(), base);
    }
}

/// Applying a prefix of the segments gives a prefix of the target.
pub proof fn lemma_apply_prefix(els: Seq<DeltaElement>, base: Seq<u8>, i: int)
    requires
        0 <= i <= els.len(),
    ensures
        apply_els(els, base) == apply_els(els.take(i), base) + apply_els(els.skip(i), base),
    decreases els.len(),
{
    if i == els.len() {
        assert(els.take(i) =~= els);
        assert(els.skip(i) =~= Seq::<DeltaElement>::empty());
        assert(apply_els(els.skip(i), base) =~= Seq::<u8>::empty());
        assert(apply_els(els, base) + Seq::<u8>::empty() =~= apply_els(els, base));
    } else {
        lemma_apply_prefix(els.drop_last(), base, i);
        assert(els.drop_last().take(i) =~= els.take(i));
        assert(els.skip(i).drop_last() =~= els.drop_last().skip(i));
        assert(els.skip(i).last() == els.last());
        assert(apply_els(els.skip(i), base) == apply_els(els.drop_last().skip(i), base) + piece(
            els.last(),
            base,
        ));
        assert(apply_els(els, base) =~= apply_els(els.take(i), base) + apply_els(
            els.skip(i),
            base,
        ));
    }
}

/// Segment `j` of `els` lands at `[target_len(els.take(j)), .. + piece_len)`
/// in the target.
pub proof fn lemma_piece_at(els: Seq<DeltaElement>, base: Seq<u8>, j: int)
    requires
        0 <= j < els.len(),
        els_wf(els, base.len()),
    ensures
        target_len(els.take(j)) + piece_len(els[j]) <= target_len(els),
        apply_els(els, base).subrange(
            target_len(els.take(j)) as int,
            target_len(els.take(j)) + piece_len(els[j]) as int,
        ) == piece(els[j], base),
{
    lemma_apply_prefix(els, base, j + 1);
    let pre = els.take(j + 1);
    assert(pre.drop_last() =~= els.take(j));
    assert(pre.last() == els[j]);
    assert(els_wf(els.take(j), base.len()));
    assert(els_wf(pre, base.len()));
    assert(els_wf(els, base.len()));
    lemma_target_len(els.take(j), base);
    lemma_target_len(pre, base);
    lemma_target_len(els, base);
    assert(els[j] == pre[j]);
    let pl = piece(els[j], base);
    assert(pl.len() == piece_len(els[j]));
    let whole = apply_els(els, base);
    let a = apply_els(els.take(j), base);
    assert(apply_els(pre, base) == a + pl);
    assert(whole == apply_els(pre, base) + apply_els(els.skip(j + 1), base));
    assert(whole.subrange(a.len() as int, a.len() + pl.len() as int) =~= pl);
}

impl Delta {
    /// The segment list is well formed for the stated base length.
    pub open spec fn wf(&self) -> bool {
        els_wf(self.els@, self.base_len as nat)
    }

    /// The target of this delta over `base`.
    pub open spec fn apply_spec(&self, base: Seq<u8>) -> Seq<u8> {
        apply_els(self.els@, base)
    }

    /// The length of the target.
    pub open spec fn new_len(&self) -> nat {
        target_len(self.els@)
    }

    /// Whether every copy lies inside the base and the copies come in base
    /// order without overlapping.
    pub fn is_valid(&self) -> (r: bool)
        ensures
            r == self.wf(),
    {
        let ghost els = self.els@;
        let mut last_end: usize = 0;
        let ghost mut lj: int = -1;
        let mut i: usize = 0;
        while i < self.els.len()
            invariant
                els == self.els@,
                i <= els.len(),
                els_wf(els.take(i as int), self.base_len as nat),
                -1 <= lj < i,
                lj == -1 ==> last_end == 0 && forall|j: int| 0 <= j < i ==> !(#[trigger] els[j] is Copy),
                lj >= 0 ==> els[lj] is Copy && els[lj]->Copy_1 == last_end,
                forall|j: int| 0 <= j < i && (#[trigger] els[j]) is Copy ==> els[j]->Copy_1 <= last_end,
            decreases els.len() - i,
        {
            let ghost pre = els.take(i as int);
            assert(els.take(i + 1) =~= pre.push(els[i as int]));
            if let DeltaElement::Copy(a, b) = &self.els[i] {
                if !(*a <= *b && *b <= self.base_len && last_end <= *a) {
                    proof {
                        if !(*a <= *b && *b <= self.base_len) {
                            assert(!(match els[i as int] {
                                DeltaElement::Copy(a, b) => a <= b <= self.base_len,
                                DeltaElement::Insert(_) => true,
                            }));
                        } else {
                            assert(els[lj]->Copy_1 > els[i as int]->Copy_0);
                        }
                    }
                    return false;
                }
                proof {
                    lemma_push_wf(pre, els[i as int], self.base_len as nat);
                    lj = i as int;
                }
                last_end = *b;
            } else {
                proof {
                    lemma_push_wf(pre, els[i as int], self.base_len as nat);
                }
            }
            i = i + 1;
        }
        proof {
            assert(els.take(i as int) =~= els);
        }
        true
    }

    /// The delta that keeps a base of `base_len` bytes as it is.
    pub fn identity(base_len: usize) -> (r: Delta)
        ensures
            r.wf(),
            r.base_len == base_len,
            forall|base: Seq<u8>| base.len() == base_len ==> #[trigger] r.apply_spec(base) == base,
    {
        let mut els: Vec<DeltaElement> = Vec::new();
        els.push(DeltaElement::Copy(0, base_len));
        let r = Delta { base_len, els };
        assert forall|base: Seq<u8>| base.len() == base_len implies #[trigger] r.apply_spec(base) == base by {
            assert(r.els@.drop_last() =~= Seq::<DeltaElement>::empty());
            assert(apply_els(r.els@.drop_last(), base) =~= Seq::<u8>::empty());
            assert(apply_els(r.els@, base) =~= base);
        }
        r
    }

    /// Replaces the base range `[start, end)` by `bytes`.
    pub fn replace(base_len: usize, start: usize, end: usize, bytes: Vec<u8>) -> (r: Delta)
        requires
            start <= end <= base_len,
        ensures
            r.wf(),
            r.base_len == base_len,
            forall|base: Seq<u8>|
                base.len() == base_len ==> #[trigger] r.apply_spec(base) == base.subrange(
                    0,
                    start as int,
                ) + bytes@ + base.subrange(end as int, base_len as int),
            r.new_len() == start + bytes@.len() + (base_len - end),
    {
        let ghost ins = bytes@;
        let mut els: Vec<DeltaElement> = Vec::new();
        els.push(DeltaElement::Copy(0, start));
        els.push(DeltaElement::Insert(bytes));
        els.push(DeltaElement::Copy(end, base_len));
        let r = Delta { base_len, els };
        assert forall|base: Seq<u8>|
            base.len() == base_len implies #[trigger] r.apply_spec(base) == base.subrange(
                0,
                start as int,
            ) + ins + base.subrange(end as int, base_len as int) by {
            let s = r.els@;
            let s2 = s.drop_last();
            let s1 = s2.drop_last();
            assert(s1.drop_last() =~= Seq::<DeltaElement>::empty());
            assert(apply_els(s1.drop_last(), base) =~= Seq::<u8>::empty());
            assert(s1.last() == DeltaElement::Copy(0, start));
            assert(apply_els(s1, base) =~= base.subrange(0, start as int));
            assert(piece(s2.last(), base) == ins);
            assert(apply_els(s2, base) == apply_els(s1, base) + ins);
            assert(s.last() == DeltaElement::Copy(end, base_len));
            assert(apply_els(s, base) == apply_els(s2, base) + base.subrange(end as int, base_len as int));
        }
        proof {
            let s = r.els@;
            let s2 = s.drop_last();
            let s1 = s2.drop_last();
            assert(s1.drop_last() =~= Seq::<DeltaElement>::empty());
            assert(target_len(s1.drop_last()) == 0);
            assert(s1.last() == DeltaElement::Copy(0, start));
            assert(target_len(s1) == start);
            assert(piece_len(s2.last()) == ins.len());
            assert(target_len(s2) == start + ins.len());
            assert(s.last() == DeltaElement::Copy(end, base_len));
        }
        r
    }

    /// Removes the base range `[start, end)`.
    pub fn delete(base_len: usize, start: usize, end: usize) -> (r: Delta)
        requires
            start <= end <= base_len,
        ensures
            r.wf(),
            r.base_len == base_len,
            forall|base: Seq<u8>|
                base.len() == base_len ==> #[trigger] r.apply_spec(base) == base.subrange(
                    0,
                    start as int,
                ) + base.subrange(end as int, base_len as int),
            r.new_len() == start + (base_len - end),
    {
        let r = Delta::replace(base_len, start, end, Vec::new());
        assert forall|base: Seq<u8>|
            base.len() == base_len implies #[trigger] r.apply_spec(base) == base.subrange(
                0,
                start as int,
            ) + base.subrange(end as int, base_len as int) by {
            assert(base.subrange(0, start as int) + Seq::<u8>::empty() =~= base.subrange(
                0,
                start as int,
            ));
        }
        r
    }

    /// Inserts `bytes` before base position `pos`.
    pub fn insert(base_len: usize, pos: usize, bytes: Vec<u8>) -> (r: Delta)
        requires
            pos <= base_len,
        ensures
            r.wf(),
            r.base_len == base_len,
            forall|base: Seq<u8>|
                base.len() == base_len ==> #[trigger] r.apply_spec(base) == base.subrange(
                    0,
                    pos as int,
                ) + bytes@ + base.subrange(pos as int, base_len as int),
            r.new_len() == base_len + bytes@.len(),
    {
        Delta::replace(base_len, pos, pos, bytes)
    }
}

/// Pushing a segment keeps the segments well formed when a new copy starts
/// after every earlier copy ends.
pub proof fn lemma_push_wf(els: Seq<DeltaElement>, e: DeltaElement, n: nat)
    requires
        els_wf(els, n),
        match e {
            DeltaElement::Copy(a, b) => a <= b <= n && forall|j: int|
                0 <= j < els.len() && (#[trigger] els[j]) is Copy ==> els[j]->Copy_1 <= a,
            DeltaElement::Insert(_) => true,
        },
    ensures
        els_wf(els.push(e), n),
{
    let s = els.push(e);
    assert forall|j: int| 0 <= j < s.len() implies match #[trigger] s[j] {
        DeltaElement::Copy(a, b) => a <= b <= n,
        DeltaElement::Insert(_) => true,
    } by {
        if j < els.len() {
            assert(s[j] == els[j]);
        }
    }
    assert forall|j1: int, j2: int|
        0 <= j1 < j2 < s.len() && (#[trigger] s[j1]) is Copy && (#[trigger] s[j2]) is Copy
            implies s[j1]->Copy_1 <= s[j2]->Copy_0 by {
        assert(s[j1] == els[j1]);
        if j2 < els.len() {
            assert(s[j2] == els[j2]);
        }
    }
}

impl Delta {
    /// The delta that takes the target of `self` over `base` back to `base`.
    /// Its literal bytes are the base bytes that `self` removes; its copies
    /// are the base bytes that `self` keeps; the bytes that `self` inserted
    /// are left out.
    pub fn invert(&self, base: &ByteRope) -> (r: Delta)
        requires
            self.wf(),
            base@.len() == self.base_len,
            self.new_len() <= usize::MAX,
        ensures
            r.wf(),
            r.base_len == self.new_len(),
            r.apply_spec(self.apply_spec(base@)) == base@,
            r.new_len() == base@.len(),
    {
        let ghost els = self.els@;
        let ghost target = self.apply_spec(base@);
        let ghost n = self.new_len();
        let mut inv: Vec<DeltaElement> = Vec::new();
        let mut prev_end: usize = 0;
        let mut out_pos: usize = 0;
        let ghost mut pj: int = 0;
        let mut i: usize = 0;
        proof {
            lemma_target_len(els, base@);
        }
        while i < self.els.len()
            invariant
                self.wf(),
                els == self.els@,
                base@.len() == self.base_len,
                target == apply_els(els, base@),
                n == target_len(els),
                n <= usize::MAX,
                target.len() == n,
                i <= els.len(),
                out_pos == target_len(els.take(i as int)),
                prev_end <= self.base_len,
                prev_end == 0 || (0 <= pj < i && els[pj] is Copy && els[pj]->Copy_1 == prev_end),
                els_wf(inv@, n),
                forall|j: int|
                    0 <= j < inv@.len() && (#[trigger] inv@[j]) is Copy ==> inv@[j]->Copy_1
                        <= out_pos,
                apply_els(inv@, target) == base@.subrange(0, prev_end as int),
            decreases els.len() - i,
        {
            proof {
                assert(els.take(i + 1).drop_last() =~= els.take(i as int));
                assert(els.take(i + 1).last() == els[i as int]);
                lemma_piece_at(els, base@, i as int);
            }
            match &self.els[i] {
                DeltaElement::Copy(a, b) => {
                    let a = *a;
                    let b = *b;
                    proof {
                        if prev_end != 0 {
                            assert(els[pj]->Copy_1 <= els[i as int]->Copy_0);
                        }
                    }
                    let lit = base.slice_to_vec(prev_end, a);
                    let ghost lit_v = lit@;
                    let ghost old_inv = inv@;
                    let e1 = DeltaElement::Insert(lit);
                    proof {
                        lemma_push_wf(inv@, e1, n);
                    }
                    inv.push(e1);
                    proof {
                        assert(inv@.drop_last() =~= old_inv);
                        assert(apply_els(inv@, target) == base@.subrange(0, prev_end as int)
                            + lit_v);
                        assert(apply_els(inv@, target) =~= base@.subrange(0, a as int));
                    }
                    let e2 = DeltaElement::Copy(out_pos, out_pos + (b - a));
                    let ghost mid_inv = inv@;
                    proof {
                        assert forall|j: int|
                            0 <= j < inv@.len() && (#[trigger] inv@[j]) is Copy implies inv@[j]->Copy_1
                                <= out_pos by {
                            if j < old_inv.len() {
                                assert(inv@[j] == old_inv[j]);
                            }
                        }
                        lemma_push_wf(inv@, e2, n);
                    }
                    inv.push(e2);
                    proof {
                        assert(inv@.drop_last() =~= mid_inv);
                        assert(piece(e2, target) == base@.subrange(a as int, b as int));
                        assert(apply_els(inv@, target) =~= base@.subrange(0, b as int));
                        pj = i as int;
                    }
                    prev_end = b;
                    out_pos = out_pos + (b - a);
                },
                DeltaElement::Insert(v) => {
                    out_pos = out_pos + v.len();
                },
            }
            i = i + 1;
        }
        let lit = base.slice_to_vec(prev_end, base.len());
        let ghost lit_v = lit@;
        let ghost old_inv = inv@;
        let e = DeltaElement::Insert(lit);
        proof {
            lemma_push_wf(inv@, e, n);
        }
        inv.push(e);
        proof {
            assert(inv@.drop_last() =~= old_inv);
            assert(apply_els(inv@, target) =~= base@);
            assert(els.take(i as int) =~= els);
            lemma_target_len(inv@, target);
        }
        Delta { base_len: out_pos, els: inv }
    }
}


pub open spec fn clamp(x: int, lo: int, hi: int) -> int {
    if x < lo {
        lo
    } else if x > hi {
        hi
    } else {
        x
    }
}

/// Targets of prefixes grow with the prefix.
pub proof fn lemma_target_len_mono(els: Seq<DeltaElement>, x: int, y: int)
    requires
        0 <= x <= y <= els.len(),
    ensures
        target_len(els.take(x)) <= target_len(els.take(y)),
    decreases y - x,
{
    if x < y {
        lemma_target_len_mono(els, x, y - 1);
        assert(els.take(y).drop_last() =~= els.take(y - 1));
    }
}

impl Delta {
    /// The single delta that does `self` and then `next`. Copies of `next`
    /// are traced back through `self`: the parts that `self` copied from
    /// the base become copies of the base, the parts that `self` inserted
    /// become literal bytes; literal bytes of `next` stay literal. Where an
    /// insertion of `next` meets a deletion of `self` at one position, the
    /// inserted bytes stay where `next` put them in the final text.
    #[verifier::rlimit(60)]
    pub fn chain(&self, next: &Delta) -> (r: Delta)
        requires
            self.wf(),
            next.wf(),
            next.base_len == self.new_len(),
        ensures
            r.wf(),
            r.base_len == self.base_len,
            forall|base: Seq<u8>|
                base.len() == self.base_len ==> #[trigger] r.apply_spec(base) == next.apply_spec(
                    self.apply_spec(base),
                ),
    {
        let ghost d1 = self.els@;
        let ghost d2 = next.els@;
        let ghost n = self.base_len as nat;
        let mut res: Vec<DeltaElement> = Vec::new();
        let ghost mut lastend: int = 0;
        let ghost mut gj: int = 0;
        let ghost mut gmid: int = 0;
        let mut i: usize = 0;
        proof {
            assert forall|base: Seq<u8>| base.len() == n implies apply_els(res@, base)
                == apply_els(d2.take(0), apply_els(d1, base)) by {
                assert(d2.take(0) =~= Seq::<DeltaElement>::empty());
            }
        }
        while i < next.els.len()
            invariant
                self.wf(),
                next.wf(),
                next.base_len == self.new_len(),
                d1 == self.els@,
                d2 == next.els@,
                n == self.base_len,
                i <= d2.len(),
                els_wf(res@, n),
                forall|k: int|
                    0 <= k < res@.len() && (#[trigger] res@[k]) is Copy ==> res@[k]->Copy_1
                        <= lastend,
                lastend == 0 || (0 <= gj < d1.len() && d1[gj] is Copy && target_len(d1.take(gj))
                    < gmid <= target_len(d1.take(gj)) + piece_len(d1[gj]) && lastend
                    == d1[gj]->Copy_0 + gmid - target_len(d1.take(gj))),
                forall|k: int|
                    i <= k < d2.len() && (#[trigger] d2[k]) is Copy ==> gmid <= d2[k]->Copy_0,
                forall|base: Seq<u8>|
                    base.len() == n ==> apply_els(res@, base) == apply_els(
                        d2.take(i as int),
                        apply_els(d1, base),
                    ),
            decreases d2.len() - i,
        {
            proof {
                assert(d2.take(i + 1).drop_last() =~= d2.take(i as int));
                assert(d2.take(i + 1).last() == d2[i as int]);
            }
            match &next.els[i] {
                DeltaElement::Insert(v) => {
                    let lit = copy_range(v, 0, v.len());
                    let ghost old_res = res@;
                    let e = DeltaElement::Insert(lit);
                    proof {
                        assert(v@.subrange(0, v@.len() as int) =~= v@);
                        lemma_push_wf(res@, e, n);
                    }
                    res.push(e);
                    proof {
                        assert(res@.drop_last() =~= old_res);
                        assert forall|k: int|
                            0 <= k < res@.len() && (#[trigger] res@[k]) is Copy implies res@[k]->Copy_1
                                <= lastend by {
                            assert(res@[k] == old_res[k]);
                        }
                    }
                },
                DeltaElement::Copy(a, b) => {
                    let a = *a;
                    let b = *b;
                    let mut j: usize = 0;
                    let mut p: usize = 0;
                    proof {
                        lemma_target_len_mono(d1, 0, d1.len() as int);
                        assert(d1.take(d1.len() as int) =~= d1);
                        assert(d1.take(0) =~= Seq::<DeltaElement>::empty());
                        assert forall|base: Seq<u8>| base.len() == n implies apply_els(res@, base)
                            == apply_els(d2.take(i as int), apply_els(d1, base)) + apply_els(
                            d1,
                            base,
                        ).subrange(a as int, clamp(p as int, a as int, b as int)) by {
                            let mid = apply_els(d1, base);
                            lemma_target_len(d1, base);
                            assert(mid.subrange(a as int, a as int) =~= Seq::<u8>::empty());
                            assert(apply_els(res@, base) + Seq::<u8>::empty() =~= apply_els(
                                res@,
                                base,
                            ));
                        }
                    }
                    while j < self.els.len()
                        invariant
                            self.wf(),
                            next.wf(),
                            next.base_len == self.new_len(),
                            d1 == self.els@,
                            d2 == next.els@,
                            n == self.base_len,
                            i < d2.len(),
                            d2[i as int] == DeltaElement::Copy(a, b),
                            a <= b <= next.base_len,
                            j <= d1.len(),
                            p == target_len(d1.take(j as int)),
                            target_len(d1) == next.base_len,
                            els_wf(res@, n),
                            forall|k: int|
                                0 <= k < res@.len() && (#[trigger] res@[k]) is Copy
                                    ==> res@[k]->Copy_1 <= lastend,
                            lastend == 0 || (0 <= gj < d1.len() && d1[gj] is Copy && target_len(
                                d1.take(gj),
                            ) < gmid <= target_len(d1.take(gj)) + piece_len(d1[gj]) && lastend
                                == d1[gj]->Copy_0 + gmid - target_len(d1.take(gj))),
                            gmid <= clamp(p as int, a as int, b as int),
                            forall|base: Seq<u8>|
                                base.len() == n ==> apply_els(res@, base) == apply_els(
                                    d2.take(i as int),
                                    apply_els(d1, base),
                                ) + apply_els(d1, base).subrange(
                                    a as int,
                                    clamp(p as int, a as int, b as int),
                                ),
                        decreases d1.len() - j,
                    {
                        proof {
                            assert(d1.take(j + 1).drop_last() =~= d1.take(j as int));
                            assert(d1.take(j + 1).last() == d1[j as int]);
                            lemma_target_len_mono(d1, j + 1, d1.len() as int);
                            assert(d1.take(d1.len() as int) =~= d1);
                        }
                        let plen: usize = match &self.els[j] {
                            DeltaElement::Copy(c, e) => *e - *c,
                            DeltaElement::Insert(v) => v.len(),
                        };
                        let ghost q: int = p + plen;
                        assert(q == target_len(d1.take(j + 1)));
                        let lo: usize = if p < a {
                            a
                        } else if p > b {
                            b
                        } else {
                            p
                        };
                        let hi: usize = if p + plen < a {
                            a
                        } else if p + plen > b {
                            b
                        } else {
                            p + plen
                        };
                        if lo < hi {
                            let ghost old_res = res@;
                            let ghost old_lastend = lastend;
                            let e = match &self.els[j] {
                                DeltaElement::Copy(c, _) => DeltaElement::Copy(
                                    *c + (lo - p),
                                    *c + (hi - p),
                                ),
                                DeltaElement::Insert(v) => DeltaElement::Insert(
                                    copy_range(v, lo - p, hi - p),
                                ),
                            };
                            proof {
                                if e is Copy {
                                    let c = d1[j as int]->Copy_0;
                                    if lastend != 0 {
                                        if gj < j {
                                            lemma_target_len_mono(d1, gj + 1, j as int);
                                            assert(d1.take(gj + 1).drop_last() =~= d1.take(gj));
                                            assert(d1.take(gj + 1).last() == d1[gj]);
                                            assert(d1[gj]->Copy_1 <= d1[j as int]->Copy_0);
                                        } else if gj > j {
                                            lemma_target_len_mono(d1, j + 1, gj);
                                        }
                                    }
                                    assert(lastend <= c + (lo - p));
                                }
                                lemma_push_wf(res@, e, n);
                            }
                            res.push(e);
                            proof {
                                assert(res@.drop_last() =~= old_res);
                                if e is Copy {
                                    lastend = e->Copy_1 as int;
                                    gj = j as int;
                                    gmid = hi as int;
                                }
                                assert forall|k: int|
                                    0 <= k < res@.len() && (#[trigger] res@[k]) is Copy
                                        implies res@[k]->Copy_1 <= lastend by {
                                    if k < old_res.len() {
                                        assert(res@[k] == old_res[k]);
                                    }
                                }
                                assert forall|base: Seq<u8>| base.len() == n implies apply_els(
                                    res@,
                                    base,
                                ) == apply_els(d2.take(i as int), apply_els(d1, base)) + apply_els(
                                    d1,
                                    base,
                                ).subrange(a as int, hi as int) by {
                                    let mid = apply_els(d1, base);
                                    lemma_target_len(d1, base);
                                    lemma_piece_at(d1, base, j as int);
                                    let pc = piece(d1[j as int], base);
                                    assert(mid.subrange(p as int, q) == pc);
                                    assert(mid.subrange(lo as int, hi as int) =~= pc.subrange(
                                        lo - p,
                                        hi - p,
                                    ));
                                    assert(piece(e, base) =~= mid.subrange(lo as int, hi as int));
                                    assert(mid.subrange(a as int, hi as int) =~= mid.subrange(
                                        a as int,
                                        lo as int,
                                    ) + mid.subrange(lo as int, hi as int));
                                }
                            }
                        }
                        p = p + plen;
                        j = j + 1;
                    }
                    let ghost old_res = res@;
                    proof {
                        assert(d1.take(j as int) =~= d1);
                        assert forall|k: int|
                            i < k < d2.len() && (#[trigger] d2[k]) is Copy implies gmid
                                <= d2[k]->Copy_0 by {
                            assert(d2[i as int]->Copy_1 <= d2[k]->Copy_0);
                        }
                    }
                },
            }
            i = i + 1;
        }
        proof {
            assert(d2.take(i as int) =~= d2);
        }
        Delta { base_len: self.base_len, els: res }
    }
}

} // verus!
