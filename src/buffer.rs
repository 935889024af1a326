use vstd::prelude::*;

use crate::delta::{els_wf, apply_els, lemma_push_wf, Delta, DeltaElement, LengthMismatch};
use crate::history::History;
use crate::render::{contains, lemma_sorted_pairwise, region_at};
use crate::rope::ByteRope;
use crate::selection::{merge_all, remapped, valid_regions, Region, Selection};

verus! {

/// `base` with every byte that a region of `regions` holds set to `byte`.
pub open spec fn replaced(base: Seq<u8>, regions: Seq<Region>, byte: u8) -> Seq<u8> {
    Seq::new(
        base.len(),
        |p: int|
            if region_at(regions, p as nat) is Some {
                byte
            } else {
                base[p]
            },
    )
}

fn filled(byte: u8, n: usize) -> (r: Vec<u8>)
    ensures
        r@ == Seq::new(n as nat, |_p: int| byte),
{
    let mut r: Vec<u8> = Vec::new();
    let mut i: usize = 0;
    while i < n
        invariant
            i <= n,
            r@ == Seq::new(i as nat, |_p: int| byte),
        decreases n - i,
    {
        r.push(byte);
        i = i + 1;
        assert(r@ =~= Seq::new(i as nat, |_p: int| byte));
    }
    r
}

proof fn lemma_replace_piece(
    base: Seq<u8>,
    regs: Seq<Region>,
    byte: u8,
    len: nat,
    k: int,
    prev: int,
    lo: int,
    hi: int,
)
    requires
        valid_regions(regs, len),
        base.len() == len,
        0 <= k < regs.len(),
        regs[k].lo() == lo,
        hi == if regs[k].hi() + 1 < len {
            regs[k].hi() + 1
        } else {
            len as int
        },
        0 <= prev <= lo < len,
        forall|m: int| 0 <= m < k ==> (#[trigger] regs[m]).hi() < prev || regs[m].lo() >= len || prev
            == len,
    ensures
        replaced(base, regs, byte).subrange(0, hi) == replaced(base, regs, byte).subrange(0, prev)
            + base.subrange(prev, lo) + Seq::new((hi - lo) as nat, |_p: int| byte),
{
    let rp = replaced(base, regs, byte);
    assert forall|p: int| prev <= p < lo implies rp[p] == base[p] by {
        assert forall|m: int| 0 <= m < regs.len() implies !contains(#[trigger] regs[m], p as nat) by {
            if m > k {
                lemma_sorted_pairwise(regs, k, m);
            }
        }
    }
    assert(base.subrange(prev, lo) =~= rp.subrange(prev, lo));
    assert forall|p: int| lo <= p < hi implies rp[p] == byte by {
        assert(contains(regs[k], p as nat));
    }
    assert(Seq::new((hi - lo) as nat, |_p: int| byte) =~= rp.subrange(lo, hi));
    assert(rp.subrange(0, hi) =~= rp.subrange(0, prev) + rp.subrange(prev, lo) + rp.subrange(
        lo,
        hi,
    ));
}

/// The delta that sets every byte held by a region of `sel` to `byte`, over
/// a buffer of `len` bytes.
pub fn replace_delta(sel: &Selection, len: usize, byte: u8) -> (r: Delta)
    requires
        valid_regions(sel.regions(), len as nat),
    ensures
        r.wf(),
        r.base_len == len,
        r.new_len() == len,
        forall|base: Seq<u8>|
            base.len() == len ==> #[trigger] r.apply_spec(base) == replaced(
                base,
                sel.regions(),
                byte,
            ),
{
    let ghost regs = sel.regions();
    let n = sel.len();
    let mut els: Vec<DeltaElement> = Vec::new();
    let mut prev: usize = 0;
    let mut k: usize = 0;
    proof {
        assert forall|base: Seq<u8>| base.len() == len implies apply_els(els@, base) == replaced(
            base,
            regs,
            byte,
        ).subrange(0, 0) by {
            assert(replaced(base, regs, byte).subrange(0, 0) =~= Seq::<u8>::empty());
        }
    }
    while k < n
        invariant
            regs == sel.regions(),
            valid_regions(regs, len as nat),
            n == regs.len(),
            k <= n,
            prev <= len,
            els_wf(els@, len as nat),
            forall|j: int| 0 <= j < els@.len() && (#[trigger] els@[j]) is Copy ==> els@[j]->Copy_1 <= prev,
            forall|m: int|
                0 <= m < k ==> (#[trigger] regs[m]).hi() < prev || regs[m].lo() >= len || prev
                    == len,
            forall|m: int| k <= m < n ==> (#[trigger] regs[m]).lo() >= prev,
            forall|base: Seq<u8>|
                base.len() == len ==> apply_els(els@, base) == replaced(base, regs, byte).subrange(
                    0,
                    prev as int,
                ),
        decreases n - k,
    {
        let x = sel.region(k);
        let lo = x.min();
        let xh = x.max();
        if lo < len {
            let hi: usize = if xh < len - 1 {
                xh + 1
            } else {
                len
            };
            proof {
                assert(prev <= lo);
            }
            let ghost old_els = els@;
            let e1 = DeltaElement::Copy(prev, lo);
            proof {
                lemma_push_wf(els@, e1, len as nat);
            }
            els.push(e1);
            let ghost mid_els = els@;
            let fill = filled(byte, hi - lo);
            let ghost fv = fill@;
            let e2 = DeltaElement::Insert(fill);
            proof {
                lemma_push_wf(els@, e2, len as nat);
            }
            els.push(e2);
            proof {
                assert forall|j: int| 0 <= j < els@.len() && (#[trigger] els@[j]) is Copy implies els@[j]->Copy_1
                    <= hi by {
                    if j < old_els.len() {
                        assert(els@[j] == old_els[j]);
                    }
                }
                assert forall|base: Seq<u8>| base.len() == len implies apply_els(els@, base)
                    == replaced(base, regs, byte).subrange(0, hi as int) by {
                    assert(els@.drop_last() =~= mid_els);
                    assert(mid_els.drop_last() =~= old_els);
                    assert(mid_els.last() == DeltaElement::Copy(prev, lo));
                    assert(apply_els(mid_els, base) == apply_els(old_els, base) + base.subrange(
                        prev as int,
                        lo as int,
                    ));
                    assert(els@.last() is Insert && els@.last()->Insert_0@ == fv);
                    assert(apply_els(els@, base) == apply_els(mid_els, base) + fv);
                    lemma_replace_piece(base, regs, byte, len as nat, k as int, prev as int, lo as int, hi as int);
                }
                assert forall|m: int| k < m < n implies (#[trigger] regs[m]).lo() >= hi by {
                    lemma_sorted_pairwise(regs, k as int, m);
                }
            }
            prev = hi;
        } else {
            proof {
                assert forall|m: int| k < m < n implies (#[trigger] regs[m]).lo() >= prev by {
                    lemma_sorted_pairwise(regs, k as int, m);
                }
            }
        }
        k = k + 1;
    }
    let ghost old_els = els@;
    let e = DeltaElement::Copy(prev, len);
    proof {
        lemma_push_wf(els@, e, len as nat);
    }
    els.push(e);
    let r = Delta { base_len: len, els };
    proof {
        assert forall|base: Seq<u8>| base.len() == len implies #[trigger] r.apply_spec(base)
            == replaced(base, regs, byte) by {
            let rp = replaced(base, regs, byte);
            assert(r.els@.drop_last() =~= old_els);
            assert forall|p: int| prev <= p < len implies rp[p] == base[p] by {
                assert forall|m: int| 0 <= m < regs.len() implies !contains(
                    #[trigger] regs[m],
                    p as nat,
                ) by {}
            }
            assert(rp =~= rp.subrange(0, prev as int) + base.subrange(prev as int, len as int));
        }
        let zeros = Seq::new(len as nat, |_p: int| 0u8);
        crate::delta::lemma_target_len(r.els@, zeros);
        assert(r.apply_spec(zeros) == replaced(zeros, regs, byte));
    }
    r
}

/// A buffer being edited: its bytes with their history, and its cursors.
pub struct CurrentBuffer {
    history: History,
    selection: Selection,
    dirty: bool,
}

impl CurrentBuffer {
    pub closed spec fn history_view(&self) -> History {
        self.history
    }

    pub closed spec fn selection_view(&self) -> Selection {
        self.selection
    }

    pub closed spec fn is_dirty(&self) -> bool {
        self.dirty
    }

    pub open spec fn data(&self) -> Seq<u8> {
        self.history_view().current()
    }

    pub open spec fn wf(&self) -> bool {
        &&& self.history_view().wf()
        &&& self.selection_view().valid(self.data().len())
    }

    pub fn new(data: ByteRope) -> (r: CurrentBuffer)
        ensures
            r.wf(),
            r.data() == data@,
            !r.is_dirty(),
            r.history_view().timeline() == seq![data@],
            r.history_view().cursor() == 0,
            !r.history_view().is_recording(),
    {
        CurrentBuffer { history: History::new(data), selection: Selection::new(), dirty: false }
    }

    pub fn data_rope(&self) -> (r: &ByteRope)
        ensures
            r@ == self.data(),
    {
        self.history.rope()
    }

    pub fn selection(&self) -> (r: &Selection)
        ensures
            *r == self.selection_view(),
    {
        &self.selection
    }

    /// Applies `delta` to the bytes, records it for undo, and moves every
    /// cursor through it. An error, and no change, when the buffer's length
    /// is not the delta's base length.
    pub fn apply_delta(&mut self, delta: Delta) -> (r: Result<(), LengthMismatch>)
        requires
            old(self).wf(),
            delta.wf(),
            delta.new_len() <= usize::MAX,
        ensures
            final(self).wf(),
            match r {
                Ok(()) => {
                    &&& old(self).data().len() == delta.base_len
                    &&& final(self).data() == delta.apply_spec(old(self).data())
                    &&& final(self).selection_view().regions() == merge_all(
                        old(self).selection_view().regions().map_values(
                            |x: Region| remapped(x, delta.els@),
                        ),
                    )
                    &&& final(self).is_dirty()
                    &&& final(self).history_view().is_recording()
                    &&& final(self).history_view().cursor() == old(self).history_view().cursor()
                    &&& final(self).history_view().timeline() == old(
                        self,
                    ).history_view().timeline().take(old(self).history_view().cursor() + 1 as int)
                },
                Err(_) => old(self).data().len() != delta.base_len && *final(self) == *old(self),
            },
    {
        let ghost old_data = self.history.current();
        match self.history.apply_and_record(&delta) {
            Err(e) => return Err(e),
            Ok(()) => {},
        };
        let _len = self.history.rope().len();
        proof {
            crate::delta::lemma_target_len(delta.els@, old_data);
        }
        self.selection.apply_delta(&delta);
        self.dirty = true;
        Ok(())
    }

    /// Sets every selected byte to `byte`.
    pub fn replace_selected(&mut self, byte: u8)
        requires
            old(self).wf(),
        ensures
            final(self).wf(),
            final(self).data() == replaced(
                old(self).data(),
                old(self).selection_view().regions(),
                byte,
            ),
    {
        let len = self.history.rope().len();
        let d = replace_delta(&self.selection, len, byte);
        let _ = self.apply_delta(d);
    }

    /// Steps back one committed state, moving every cursor through the
    /// delta applied. Returns whether there was a state to go back to.
    pub fn undo(&mut self) -> (r: bool)
        requires
            old(self).wf(),
        ensures
            final(self).wf(),
            final(self).history_view().timeline() == old(self).history_view().committed_timeline(),
            r == (old(self).history_view().committed_cursor() > 0),
            r ==> final(self).history_view().cursor() == old(self).history_view().committed_cursor()
                - 1,
            !r ==> final(self).history_view().cursor() == old(self).history_view().committed_cursor()
                && final(self).data() == old(self).data()
                && final(self).selection_view() == old(self).selection_view(),
            final(self).data() == final(self).history_view().timeline()[final(self).history_view().cursor() as int],
    {
        let ghost before = self.history.current();
        match self.history.undo() {
            None => false,
            Some(d) => {
                proof {
                    crate::delta::lemma_target_len(d.els@, before);
                }
                self.selection.apply_delta(&d);
                self.dirty = true;
                true
            },
        }
    }

    /// Steps forward one committed state, moving every cursor through the
    /// delta applied. Returns whether there was a state to go forward to.
    pub fn redo(&mut self) -> (r: bool)
        requires
            old(self).wf(),
        ensures
            final(self).wf(),
            final(self).history_view().timeline() == old(self).history_view().committed_timeline(),
            r == (old(self).history_view().committed_cursor() + 1
                < old(self).history_view().committed_timeline().len()),
            r ==> final(self).history_view().cursor() == old(self).history_view().committed_cursor()
                + 1,
            !r ==> final(self).history_view().cursor() == old(self).history_view().committed_cursor()
                && final(self).data() == old(self).data()
                && final(self).selection_view() == old(self).selection_view(),
            final(self).data() == final(self).history_view().timeline()[final(self).history_view().cursor() as int],
    {
        let ghost before = self.history.current();
        match self.history.redo() {
            None => false,
            Some(d) => {
                proof {
                    crate::delta::lemma_target_len(d.els@, before);
                }
                self.selection.apply_delta(&d);
                self.dirty = true;
                true
            },
        }
    }

    /// Puts the edits since the last commit on the undo stack as one step.
    pub fn commit(&mut self)
        requires
            old(self).wf(),
        ensures
            final(self).wf(),
            final(self).data() == old(self).data(),
            final(self).history_view().timeline() == old(self).history_view().committed_timeline(),
            final(self).history_view().cursor() == old(self).history_view().committed_cursor(),
    {
        self.history.commit();
    }
}

} // verus!
