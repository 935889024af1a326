use vstd::prelude::*;

use crate::delta::{Delta, DeltaElement};

verus! {

/// A run of `n` equal marks.
pub open spec fn runs(n: nat, v: bool) -> Seq<bool> {
    Seq::new(n, |_i: int| v)
}

pub open spec fn head(s: Seq<bool>) -> bool {
    s.len() > 0 && s[0]
}

pub open spec fn tail(s: Seq<bool>) -> Seq<bool> {
    if s.len() > 0 {
        s.drop_first()
    } else {
        s
    }
}

/// `s`, a marking of the unmarked positions of `o`, carried into the
/// space of `o`: marked positions of `o` are left unmarked.
pub open spec fn expand(s: Seq<bool>, o: Seq<bool>) -> Seq<bool>
    decreases o.len(),
{
    if o.len() == 0 {
        Seq::<bool>::empty()
    } else if o[0] {
        seq![false] + expand(s, o.drop_first())
    } else {
        seq![head(s)] + expand(tail(s), o.drop_first())
    }
}

/// The marks of `s` at the unmarked positions of `o`.
pub open spec fn shrink(s: Seq<bool>, o: Seq<bool>) -> Seq<bool>
    decreases o.len(),
{
    if o.len() == 0 {
        Seq::<bool>::empty()
    } else if o[0] {
        shrink(tail(s), o.drop_first())
    } else {
        seq![head(s)] + shrink(tail(s), o.drop_first())
    }
}

/// Positions marked in `a` or in `b`, over the space of `a`.
pub open spec fn union(a: Seq<bool>, b: Seq<bool>) -> Seq<bool> {
    Seq::new(a.len(), |i: int| a[i] || (i < b.len() && b[i]))
}

/// Two ways of adding positions to one common sequence, merged: `ins`
/// marks positions inserted into it, `tombs` positions kept beside it.
/// Where both add at one place, the kept positions come first. The result
/// marks the inserted positions.
pub open spec fn merge_after(ins: Seq<bool>, tombs: Seq<bool>) -> Seq<bool>
    decreases ins.len() + tombs.len(),
{
    if tombs.len() > 0 && tombs[0] {
        seq![false] + merge_after(ins, tombs.drop_first())
    } else if ins.len() > 0 && ins[0] {
        seq![true] + merge_after(ins.drop_first(), tombs)
    } else if ins.len() > 0 && tombs.len() > 0 {
        seq![false] + merge_after(ins.drop_first(), tombs.drop_first())
    } else if ins.len() > 0 {
        seq![false] + merge_after(ins.drop_first(), tombs)
    } else if tombs.len() > 0 {
        seq![false] + merge_after(ins, tombs.drop_first())
    } else {
        Seq::<bool>::empty()
    }
}

/// The bytes of `s` at the unmarked positions of `marks`.
pub open spec fn kept(marks: Seq<bool>, s: Seq<u8>) -> Seq<u8>
    decreases s.len(),
{
    if s.len() == 0 {
        Seq::<u8>::empty()
    } else if head(marks) {
        kept(tail(marks), s.drop_first())
    } else {
        seq![s[0]] + kept(tail(marks), s.drop_first())
    }
}

/// A marking of the positions of a sequence.
pub struct Subset {
    marks: Vec<bool>,
}

impl View for Subset {
    type V = Seq<bool>;

    closed spec fn view(&self) -> Seq<bool> {
        self.marks@
    }
}

/// Appends `n` copies of `v`.
pub fn push_run(out: &mut Vec<bool>, n: usize, v: bool)
    ensures
        final(out)@ == old(out)@ + runs(n as nat, v),
{
    let mut i: usize = 0;
    while i < n
        invariant
            i <= n,
            out@ == old(out)@ + runs(i as nat, v),
        decreases n - i,
    {
        out.push(v);
        i = i + 1;
        assert(out@ =~= old(out)@ + runs(i as nat, v));
    }
}

impl Subset {
    pub fn from_marks(marks: Vec<bool>) -> (r: Subset)
        ensures
            r@ == marks@,
    {
        Subset { marks }
    }

    pub fn len(&self) -> (r: usize)
        ensures
            r == self@.len(),
    {
        self.marks.len()
    }

    /// Whether no position is marked.
    pub fn is_empty(&self) -> (r: bool)
        ensures
            r == forall|i: int| 0 <= i < self@.len() ==> !self@[i],
    {
        let mut i: usize = 0;
        while i < self.marks.len()
            invariant
                i <= self@.len(),
                forall|j: int| 0 <= j < i ==> !self@[j],
            decreases self@.len() - i,
        {
            if self.marks[i] {
                return false;
            }
            i = i + 1;
        }
        true
    }

    /// Positions marked here or in `other`.
    pub fn union(&self, other: &Subset) -> (r: Subset)
        ensures
            r@ == union(self@, other@),
    {
        let mut out: Vec<bool> = Vec::new();
        let mut i: usize = 0;
        while i < self.marks.len()
            invariant
                i <= self@.len(),
                out@.len() == i,
                forall|j: int| 0 <= j < i ==> out@[j] == (self@[j] || (j < other@.len() && other@[j])),
            decreases self@.len() - i,
        {
            let b = self.marks[i] || (i < other.marks.len() && other.marks[i]);
            out.push(b);
            i = i + 1;
        }
        assert(out@ =~= union(self@, other@));
        Subset { marks: out }
    }

    /// This marking carried into the space of `other`, whose unmarked
    /// positions it marks.
    pub fn transform_expand(&self, other: &Subset) -> (r: Subset)
        ensures
            r@ == expand(self@, other@),
    {
        let ghost s = self@;
        let ghost o = other@;
        let mut out: Vec<bool> = Vec::new();
        let mut i: usize = 0;
        let mut k: usize = 0;
        proof {
            assert(o.skip(0) =~= o);
            assert(s.skip(0) =~= s);
        }
        while i < other.marks.len()
            invariant
                s == self@,
                o == other@,
                i <= o.len(),
                k <= i,
                expand(s, o) == out@ + expand(if k <= s.len() { s.skip(k as int) } else { Seq::<bool>::empty() }, o.skip(i as int)),
            decreases o.len() - i,
        {
            let ghost rest_s = if k <= s.len() { s.skip(k as int) } else { Seq::<bool>::empty() };
            proof {
                assert(o.skip(i as int).drop_first() =~= o.skip(i + 1));
                assert(o.skip(i as int)[0] == o[i as int]);
                if k < s.len() {
                    assert(tail(rest_s) =~= s.skip(k + 1));
                    assert(head(rest_s) == s[k as int]);
                } else {
                    assert(tail(rest_s) =~= Seq::<bool>::empty());
                    assert(!head(rest_s));
                }
            }
            if other.marks[i] {
                out.push(false);
                proof {
                    assert(expand(rest_s, o.skip(i as int)) == seq![false] + expand(rest_s, o.skip(i + 1)));
                }
            } else {
                let b = k < self.marks.len() && self.marks[k];
                out.push(b);
                proof {
                    assert(expand(rest_s, o.skip(i as int)) == seq![head(rest_s)] + expand(tail(rest_s), o.skip(i + 1)));
                }
                k = k + 1;
            }
            i = i + 1;
            proof {
                assert(out@.drop_last() + seq![out@.last()] =~= out@);
            }
        }
        proof {
            assert(o.skip(i as int) =~= Seq::<bool>::empty());
            assert(out@ + Seq::<bool>::empty() =~= out@);
        }
        Subset { marks: out }
    }

    /// The marks at the unmarked positions of `other`.
    pub fn transform_shrink(&self, other: &Subset) -> (r: Subset)
        ensures
            r@ == shrink(self@, other@),
    {
        let ghost s = self@;
        let ghost o = other@;
        let mut out: Vec<bool> = Vec::new();
        let mut i: usize = 0;
        proof {
            assert(o.skip(0) =~= o);
            assert(s.skip(0) =~= s);
        }
        while i < other.marks.len()
            invariant
                s == self@,
                o == other@,
                i <= o.len(),
                shrink(s, o) == out@ + shrink(if i <= s.len() { s.skip(i as int) } else { Seq::<bool>::empty() }, o.skip(i as int)),
            decreases o.len() - i,
        {
            let ghost rest_s = if i <= s.len() { s.skip(i as int) } else { Seq::<bool>::empty() };
            proof {
                assert(o.skip(i as int).drop_first() =~= o.skip(i + 1));
                assert(o.skip(i as int)[0] == o[i as int]);
                if i < s.len() {
                    assert(tail(rest_s) =~= s.skip(i + 1));
                    assert(head(rest_s) == s[i as int]);
                } else {
                    assert(tail(rest_s) =~= Seq::<bool>::empty());
                    assert(!head(rest_s));
                }
            }
            if !other.marks[i] {
                let b = i < self.marks.len() && self.marks[i];
                out.push(b);
                proof {
                    assert(out@.drop_last() + seq![out@.last()] =~= out@);
                }
            }
            i = i + 1;
        }
        proof {
            assert(o.skip(i as int) =~= Seq::<bool>::empty());
            assert(out@ + Seq::<bool>::empty() =~= out@);
        }
        Subset { marks: out }
    }

    /// This marking carried into the space of `other` and joined with it.
    pub fn transform_union(&self, other: &Subset) -> (r: Subset)
        ensures
            r@ == union(expand(self@, other@), other@),
    {
        self.transform_expand(other).union(other)
    }

    /// The bytes of `s` at the unmarked positions.
    pub fn delete_from(&self, s: &Vec<u8>) -> (r: Vec<u8>)
        ensures
            r@ == kept(self@, s@),
    {
        let ghost m = self@;
        let mut out: Vec<u8> = Vec::new();
        let mut i: usize = 0;
        proof {
            assert(s@.skip(0) =~= s@);
            assert(m.skip(0) =~= m);
        }
        while i < s.len()
            invariant
                m == self@,
                i <= s@.len(),
                kept(m, s@) == out@ + kept(if i <= m.len() { m.skip(i as int) } else { Seq::<bool>::empty() }, s@.skip(i as int)),
            decreases s@.len() - i,
        {
            let ghost rest_m = if i <= m.len() { m.skip(i as int) } else { Seq::<bool>::empty() };
            proof {
                assert(s@.skip(i as int).drop_first() =~= s@.skip(i + 1));
                assert(s@.skip(i as int)[0] == s@[i as int]);
                if i < m.len() {
                    assert(tail(rest_m) =~= m.skip(i + 1));
                    assert(head(rest_m) == m[i as int]);
                } else {
                    assert(tail(rest_m) =~= Seq::<bool>::empty());
                    assert(!head(rest_m));
                }
            }
            if !(i < self.marks.len() && self.marks[i]) {
                out.push(s[i]);
                proof {
                    assert(out@.drop_last() + seq![out@.last()] =~= out@);
                }
            }
            i = i + 1;
        }
        proof {
            assert(s@.skip(i as int) =~= Seq::<u8>::empty());
            assert(out@ + Seq::<u8>::empty() =~= out@);
        }
        out
    }
}

/// Merges two ways of adding positions to one sequence (see
/// `merge_after`) and marks the inserted positions.
pub fn merge_inserts_after(ins: &Subset, tombs: &Subset) -> (r: Subset)
    ensures
        r@ == merge_after(ins@, tombs@),
{
    let ghost a = ins@;
    let ghost b = tombs@;
    let mut out: Vec<bool> = Vec::new();
    let mut p: usize = 0;
    let mut q: usize = 0;
    proof {
        assert(a.skip(0) =~= a);
        assert(b.skip(0) =~= b);
    }
    while p < ins.marks.len() || q < tombs.marks.len()
        invariant
            a == ins@,
            b == tombs@,
            p <= a.len(),
            q <= b.len(),
            merge_after(a, b) == out@ + merge_after(a.skip(p as int), b.skip(q as int)),
        decreases a.len() - p + b.len() - q,
    {
        let ghost ra = a.skip(p as int);
        let ghost rb = b.skip(q as int);
        proof {
            if p < a.len() {
                assert(ra.drop_first() =~= a.skip(p + 1));
                assert(ra[0] == a[p as int]);
            }
            if q < b.len() {
                assert(rb.drop_first() =~= b.skip(q + 1));
                assert(rb[0] == b[q as int]);
            }
        }
        if q < tombs.marks.len() && tombs.marks[q] {
            out.push(false);
            q = q + 1;
        } else if p < ins.marks.len() && ins.marks[p] {
            out.push(true);
            p = p + 1;
        } else if p < ins.marks.len() && q < tombs.marks.len() {
            out.push(false);
            p = p + 1;
            q = q + 1;
        } else if p < ins.marks.len() {
            out.push(false);
            p = p + 1;
        } else {
            out.push(false);
            q = q + 1;
        }
        proof {
            assert(out@.drop_last() + seq![out@.last()] =~= out@);
        }
    }
    proof {
        assert(a.skip(p as int) =~= Seq::<bool>::empty());
        assert(b.skip(q as int) =~= Seq::<bool>::empty());
        assert(out@ + Seq::<bool>::empty() =~= out@);
    }
    Subset { marks: out }
}

/// Which marking of a delta to take.
#[derive(Clone, Copy, Debug, PartialEq, Eq, Structural)]
pub enum DeltaMarks {
    /// Over the base with the inserted bytes added (each insertion right
    /// after the last kept byte before it): the inserted positions.
    Inserted,
    /// Over the same space: the removed base positions.
    RemovedWithInserts,
    /// Over the base: the removed positions.
    Removed,
}

/// A marking of the segments `els` over a base of `n` bytes, from base
/// position `last` on.
pub open spec fn delta_marks(kind: DeltaMarks, els: Seq<DeltaElement>, last: nat, n: nat) -> Seq<bool>
    decreases els.len(),
{
    if els.len() == 0 {
        runs((n - last) as nat, !(kind is Inserted))
    } else {
        match els[0] {
            DeltaElement::Insert(v) => match kind {
                DeltaMarks::Inserted => runs(v@.len(), true) + delta_marks(kind, els.drop_first(), last, n),
                DeltaMarks::RemovedWithInserts => runs(v@.len(), false) + delta_marks(kind, els.drop_first(), last, n),
                DeltaMarks::Removed => delta_marks(kind, els.drop_first(), last, n),
            },
            DeltaElement::Copy(a, b) => runs((a - last) as nat, !(kind is Inserted)) + runs(
                (b - a) as nat,
                false,
            ) + delta_marks(kind, els.drop_first(), b as nat, n),
        }
    }
}

/// The marking `kind` of the well-formed delta `d`.
pub fn delta_subset(d: &Delta, kind: DeltaMarks) -> (r: Subset)
    requires
        d.wf(),
    ensures
        r@ == delta_marks(kind, d.els@, 0, d.base_len as nat),
{
    let ghost els = d.els@;
    let n = d.base_len;
    let mut out: Vec<bool> = Vec::new();
    let mut last: usize = 0;
    let mut i: usize = 0;
    let removed = !matches!(kind, DeltaMarks::Inserted);
    proof {
        assert(els.skip(0) =~= els);
    }
    while i < d.els.len()
        invariant
            d.wf(),
            els == d.els@,
            n == d.base_len,
            removed == !(kind is Inserted),
            i <= els.len(),
            last <= n,
            forall|j: int| i <= j < els.len() && (#[trigger] els[j]) is Copy ==> last <= els[j]->Copy_0,
            delta_marks(kind, els, 0, n as nat) == out@ + delta_marks(kind, els.skip(i as int), last as nat, n as nat),
        decreases els.len() - i,
    {
        let ghost rest = els.skip(i as int);
        let ghost before = out@;
        proof {
            assert(rest.drop_first() =~= els.skip(i + 1));
            assert(rest[0] == els[i as int]);
        }
        match &d.els[i] {
            DeltaElement::Insert(v) => {
                match kind {
                    DeltaMarks::Inserted => push_run(&mut out, v.len(), true),
                    DeltaMarks::RemovedWithInserts => push_run(&mut out, v.len(), false),
                    DeltaMarks::Removed => {},
                }
                proof {
                    assert(out@ + delta_marks(kind, els.skip(i + 1), last as nat, n as nat) =~= before
                        + delta_marks(kind, rest, last as nat, n as nat));
                }
            },
            DeltaElement::Copy(a, b) => {
                let a = *a;
                let b = *b;
                push_run(&mut out, a - last, removed);
                push_run(&mut out, b - a, false);
                proof {
                    assert(out@ + delta_marks(kind, els.skip(i + 1), b as nat, n as nat) =~= before
                        + delta_marks(kind, rest, last as nat, n as nat));
                    assert forall|j: int| i + 1 <= j < els.len() && (#[trigger] els[j]) is Copy implies b
                        <= els[j]->Copy_0 by {
                        assert(els[i as int]->Copy_1 <= els[j]->Copy_0);
                    }
                }
                last = b;
            },
        }
        i = i + 1;
    }
    let ghost before = out@;
    push_run(&mut out, n - last, removed);
    proof {
        assert(els.skip(i as int) =~= Seq::<DeltaElement>::empty());
        assert(out@ =~= before + delta_marks(kind, els.skip(i as int), last as nat, n as nat));
    }
    Subset { marks: out }
}

} // verus!
