use vstd::prelude::*;

use crate::delta::{Delta, DeltaElement, LengthMismatch};
use crate::rope::ByteRope;
use crate::subset::{
    delta_marks, delta_subset, expand, merge_after, merge_inserts_after, shrink, union, DeltaMarks,
    Subset,
};

verus! {

/// An entry of the edit history: a delta that takes the buffer from one
/// state to another.
pub struct Action {
    pub delta: Delta,
}

impl Action {
    pub fn from_delta(delta: Delta) -> (r: Action)
        ensures
            r.delta == delta,
    {
        Action { delta }
    }

    /// The action that undoes this one, for the buffer `base_rope` it was
    /// applied to.
    pub fn invert(&self, base_rope: &ByteRope) -> (r: Action)
        requires
            self.delta.wf(),
            base_rope@.len() == self.delta.base_len,
            self.delta.new_len() <= usize::MAX,
        ensures
            r.delta.wf(),
            r.delta.base_len == self.delta.new_len(),
            r.delta.apply_spec(self.delta.apply_spec(base_rope@)) == base_rope@,
            r.delta.new_len() == base_rope@.len(),
    {
        Action { delta: self.delta.invert(base_rope) }
    }

    /// The markings of the union space of this action and then `next`
    /// (see `chain_subsets`): its inserted bytes, its removed bytes, and
    /// the inserted bytes of the text before the removals of `next`.
    pub fn subsets_for_chain(self, next: Delta) -> (r: (Subset, Subset, Subset))
        requires
            self.delta.wf(),
            next.wf(),
        ensures
            (r.0@, r.1@, r.2@) == chain_subsets(
                self.delta.els@,
                self.delta.base_len as nat,
                next.els@,
                next.base_len as nat,
            ),
    {
        let ins1 = delta_subset(&self.delta, DeltaMarks::Inserted);
        let del1 = delta_subset(&self.delta, DeltaMarks::RemovedWithInserts);
        let ins2 = delta_subset(&next, DeltaMarks::Inserted);
        let del2 = delta_subset(&next, DeltaMarks::Removed);
        let new_inserts = merge_inserts_after(&ins2, &del1);
        let new_deletes = del2.transform_expand(&del1).transform_expand(&new_inserts);
        let deletes_from_union = del1.transform_expand(&new_inserts).union(&new_deletes);
        let inserts_in_union = ins1.transform_expand(&new_inserts).union(&new_inserts);
        let inserts_in_mid_text = ins1.transform_shrink(&del1);
        let inserts_in_prefinal = inserts_in_mid_text.transform_union(&ins2);
        (inserts_in_union, deletes_from_union, inserts_in_prefinal)
    }

    /// The action that does this one and then `next`.
    pub fn chain(self, next: Delta) -> (r: Action)
        requires
            self.delta.wf(),
            next.wf(),
            next.base_len == self.delta.new_len(),
        ensures
            r.delta.wf(),
            r.delta.base_len == self.delta.base_len,
            forall|base: Seq<u8>|
                base.len() == self.delta.base_len ==> #[trigger] r.delta.apply_spec(base)
                    == next.apply_spec(self.delta.apply_spec(base)),
    {
        Action { delta: self.delta.chain(&next) }
    }
}

/// The markings that relate `d1` and then `d2` to one common space, the
/// union space: every base byte, every byte either delta inserts, in text
/// order, with removed bytes kept in place. The first marks the inserted
/// bytes of the union space, the second the removed ones; the third marks,
/// over the text after `d1` with the insertions of `d2` added, the bytes
/// that either delta inserted.
pub open spec fn chain_subsets(d1: Seq<DeltaElement>, n1: nat, d2: Seq<DeltaElement>, n2: nat) -> (
    Seq<bool>,
    Seq<bool>,
    Seq<bool>,
) {
    let ins1 = delta_marks(DeltaMarks::Inserted, d1, 0, n1);
    let del1 = delta_marks(DeltaMarks::RemovedWithInserts, d1, 0, n1);
    let ins2 = delta_marks(DeltaMarks::Inserted, d2, 0, n2);
    let del2 = delta_marks(DeltaMarks::Removed, d2, 0, n2);
    let new_inserts = merge_after(ins2, del1);
    let new_deletes = expand(expand(del2, del1), new_inserts);
    (
        union(expand(ins1, new_inserts), new_inserts),
        union(expand(del1, new_inserts), new_deletes),
        union(expand(shrink(ins1, del1), ins2), ins2),
    )
}

/// A buffer with its undo and redo stacks. Edits made since the last
/// `commit` are gathered into one action, which `commit` puts on the undo
/// stack.
pub struct History {
    rope: ByteRope,
    current_incomplete: Option<Action>,
    undo: Vec<Action>,
    redo: Vec<Action>,
    states: Ghost<Seq<Seq<u8>>>,
}

impl History {
    /// The committed states of the buffer, oldest first, including those
    /// that can be redone.
    pub closed spec fn timeline(&self) -> Seq<Seq<u8>> {
        self.states@
    }

    /// The index in `timeline` of the last committed state reached.
    pub closed spec fn cursor(&self) -> nat {
        self.undo@.len()
    }

    /// The bytes of the buffer now.
    pub closed spec fn current(&self) -> Seq<u8> {
        self.rope@
    }

    /// Whether edits since the last commit are waiting.
    pub closed spec fn is_recording(&self) -> bool {
        self.current_incomplete is Some
    }

    pub closed spec fn wf(&self) -> bool {
        let u = self.undo@.len();
        let r = self.redo@.len();
        let t = self.states@;
        &&& t.len() == u + r + 1
        &&& forall|k: int| 0 <= k < t.len() ==> (#[trigger] t[k]).len() <= usize::MAX
        &&& match self.current_incomplete {
            None => self.rope@ == t[u as int],
            Some(rec) => r == 0 && rec.delta.wf() && rec.delta.base_len == self.rope@.len()
                && rec.delta.apply_spec(self.rope@) == t[u as int],
        }
        &&& forall|k: int|
            0 <= k < u ==> (#[trigger] self.undo@[k]).delta.wf() && self.undo@[k].delta.base_len
                == t[k + 1].len() && self.undo@[k].delta.apply_spec(t[k + 1]) == t[k]
        &&& forall|k: int|
            0 <= k < r ==> (#[trigger] self.redo@[k]).delta.wf() && self.redo@[k].delta.base_len
                == t[u + r - 1 - k].len() && self.redo@[k].delta.apply_spec(t[u + r - 1 - k])
                == t[u + r - k]
    }

    /// The timeline once waiting edits are committed.
    pub open spec fn committed_timeline(&self) -> Seq<Seq<u8>> {
        if self.is_recording() {
            self.timeline().push(self.current())
        } else {
            self.timeline()
        }
    }

    /// The cursor once waiting edits are committed.
    pub open spec fn committed_cursor(&self) -> nat {
        if self.is_recording() {
            self.cursor() + 1
        } else {
            self.cursor()
        }
    }

    pub fn new(rope: ByteRope) -> (r: History)
        ensures
            r.wf(),
            r.current() == rope@,
            r.timeline() == seq![rope@],
            r.cursor() == 0,
            !r.is_recording(),
    {
        let _len = rope.len();
        let ghost st = seq![rope@];
        History {
            rope,
            current_incomplete: None,
            undo: Vec::new(),
            redo: Vec::new(),
            states: Ghost(st),
        }
    }

    pub fn rope(&self) -> (r: &ByteRope)
        ensures
            r@ == self.current(),
    {
        &self.rope
    }

    /// Applies `delta` to the buffer and adds its inverse to the waiting
    /// action. States that could be redone are dropped. An error, and no
    /// change, when the buffer's length is not the delta's base length.
    pub fn apply_and_record(&mut self, delta: &Delta) -> (r: Result<(), LengthMismatch>)
        requires
            old(self).wf(),
            delta.wf(),
            delta.new_len() <= usize::MAX,
        ensures
            final(self).wf(),
            match r {
                Ok(()) => {
                    &&& old(self).current().len() == delta.base_len
                    &&& final(self).current() == delta.apply_spec(old(self).current())
                    &&& final(self).is_recording()
                    &&& final(self).cursor() == old(self).cursor()
                    &&& final(self).timeline() == old(self).timeline().take(
                        old(self).cursor() + 1 as int,
                    )
                },
                Err(e) => {
                    &&& old(self).current().len() != delta.base_len
                    &&& e == (LengthMismatch {
                        expected: delta.base_len,
                        found: old(self).current().len() as usize,
                    })
                    &&& *final(self) == *old(self)
                },
            },
    {
        let new_rope = match self.rope.apply_delta(delta) {
            Ok(nr) => nr,
            Err(e) => return Err(e),
        };
        let ghost t = self.states@;
        let ghost u = self.undo@.len();
        let _len = new_rope.len();
        proof {
            lemma_delta_len(delta, self.rope@);
        }
        let inverse = Action::from_delta(delta.invert(&self.rope));
        let pending = self.current_incomplete.take();
        let rec = match pending {
            None => inverse,
            Some(prev) => inverse.chain(prev.delta),
        };
        self.current_incomplete = Some(rec);
        self.rope = new_rope;
        self.redo = Vec::new();
        self.states = Ghost(t.take(u + 1 as int));
        Ok(())
    }

    /// Puts the waiting edits, if any, on the undo stack as one action.
    pub fn commit(&mut self)
        requires
            old(self).wf(),
        ensures
            final(self).wf(),
            final(self).current() == old(self).current(),
            final(self).timeline() == old(self).committed_timeline(),
            final(self).cursor() == old(self).committed_cursor(),
            !final(self).is_recording(),
    {
        let pending = self.current_incomplete.take();
        match pending {
            None => {},
            Some(rec) => {
                let ghost t = self.states@;
                let ghost cur = self.rope@;
                let _len = self.rope.len();
                self.undo.push(rec);
                self.states = Ghost(t.push(cur));
            },
        }
    }

    /// Commits waiting edits, then steps back one state. Returns the delta
    /// that was applied to the buffer, or `None` when there was no state to
    /// go back to; then this is a no-op.
    pub fn undo(&mut self) -> (r: Option<Delta>)
        requires
            old(self).wf(),
        ensures
            final(self).wf(),
            !final(self).is_recording(),
            final(self).timeline() == old(self).committed_timeline(),
            r is Some == (old(self).committed_cursor() > 0),
            r is Some ==> final(self).cursor() == old(self).committed_cursor() - 1,
            r is None ==> final(self).cursor() == old(self).committed_cursor()
                && final(self).current() == old(self).current(),
            r matches Some(d) ==> {
                &&& d.wf()
                &&& d.base_len == old(self).current().len()
                &&& d.apply_spec(old(self).current()) == final(self).current()
                &&& d.new_len() <= usize::MAX
            },
            final(self).current() == final(self).timeline()[final(self).cursor() as int],
    {
        self.commit();
        let ghost ud0 = self.undo@;
        match self.undo.pop() {
            None => None,
            Some(action) => {
                let ghost t = self.states@;
                let ghost u = self.undo@.len();
                let ghost rd = self.redo@;
                proof {
                    assert(action == ud0[u as int]);
                    lemma_delta_len(&action.delta, self.rope@);
                    assert(t[u as int].len() <= usize::MAX);
                }
                let back = action.invert(&self.rope);
                let prev = match self.rope.apply_delta(&action.delta) {
                    Ok(p) => p,
                    Err(_) => {
                        proof {
                            assert(false);
                        }
                        return None;
                    },
                };
                self.rope = prev;
                self.redo.push(back);
                proof {
                    assert forall|k: int| 0 <= k < self.redo@.len() implies (#[trigger] self.redo@[k]).delta.wf()
                        && self.redo@[k].delta.base_len == t[u + self.redo@.len() - 1 - k].len()
                        && self.redo@[k].delta.apply_spec(t[u + self.redo@.len() - 1 - k])
                        == t[u + self.redo@.len() - k] by {
                        if k < rd.len() {
                            assert(self.redo@[k] == rd[k]);
                        }
                    }
                }
                Some(action.delta)
            },
        }
    }

    /// Commits waiting edits, then steps forward one state. Returns the
    /// delta that was applied to the buffer, or `None` when there was no
    /// state to go forward to; then this is a no-op.
    pub fn redo(&mut self) -> (r: Option<Delta>)
        requires
            old(self).wf(),
        ensures
            final(self).wf(),
            !final(self).is_recording(),
            final(self).timeline() == old(self).committed_timeline(),
            r is Some == (old(self).committed_cursor() + 1 < old(self).committed_timeline().len()),
            r is Some ==> final(self).cursor() == old(self).committed_cursor() + 1,
            r is None ==> final(self).cursor() == old(self).committed_cursor()
                && final(self).current() == old(self).current(),
            r matches Some(d) ==> {
                &&& d.wf()
                &&& d.base_len == old(self).current().len()
                &&& d.apply_spec(old(self).current()) == final(self).current()
                &&& d.new_len() <= usize::MAX
            },
            final(self).current() == final(self).timeline()[final(self).cursor() as int],
    {
        self.commit();
        let ghost rd0 = self.redo@;
        match self.redo.pop() {
            None => None,
            Some(action) => {
                let ghost t = self.states@;
                let ghost ud = self.undo@;
                let ghost u = ud.len();
                let ghost r0 = rd0.len();
                proof {
                    assert(action == rd0[r0 - 1]);
                    assert(self.rope@ == t[u as int]);
                    lemma_delta_len(&action.delta, self.rope@);
                    assert(t[u + 1 as int].len() <= usize::MAX);
                }
                let back = action.invert(&self.rope);
                let next = match self.rope.apply_delta(&action.delta) {
                    Ok(p) => p,
                    Err(_) => {
                        proof {
                            assert(false);
                        }
                        return None;
                    },
                };
                self.rope = next;
                self.undo.push(back);
                proof {
                    assert forall|k: int| 0 <= k < self.undo@.len() implies (#[trigger] self.undo@[k]).delta.wf()
                        && self.undo@[k].delta.base_len == t[k + 1].len()
                        && self.undo@[k].delta.apply_spec(t[k + 1]) == t[k] by {
                        if k < ud.len() {
                            assert(self.undo@[k] == ud[k]);
                        }
                    }
                }
                Some(action.delta)
            },
        }
    }
}

/// The target of a well-formed delta has the delta's target length.
proof fn lemma_delta_len(d: &Delta, base: Seq<u8>)
    requires
        d.wf(),
        base.len() == d.base_len,
    ensures
        d.apply_spec(base).len() == d.new_len(),
{
    crate::delta::lemma_target_len(d.els@, base);
}

} // verus!
