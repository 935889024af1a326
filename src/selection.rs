use vstd::prelude::*;

use crate::delta::{target_len, Delta, DeltaElement};

verus! {

/// A cursor region over the buffer: the bytes from `anchor` to `caret`,
/// both included. The region points backwards when `caret < anchor`.
#[derive(Clone, Copy, Debug, PartialEq, Eq, Structural)]
pub struct Region {
    pub anchor: usize,
    pub caret: usize,
    pub is_main: bool,
}

impl Region {
    pub open spec fn lo(self) -> usize {
        if self.anchor <= self.caret {
            self.anchor
        } else {
            self.caret
        }
    }

    pub open spec fn hi(self) -> usize {
        if self.anchor <= self.caret {
            self.caret
        } else {
            self.anchor
        }
    }

    pub open spec fn forward(self) -> bool {
        self.anchor <= self.caret
    }

    /// The first byte of the region.
    pub fn min(&self) -> (r: usize)
        ensures
            r == self.lo(),
    {
        if self.anchor <= self.caret {
            self.anchor
        } else {
            self.caret
        }
    }

    /// The last byte of the region.
    pub fn max(&self) -> (r: usize)
        ensures
            r == self.hi(),
    {
        if self.anchor <= self.caret {
            self.caret
        } else {
            self.anchor
        }
    }

    pub fn is_main(&self) -> (r: bool)
        ensures
            r == self.is_main,
    {
        self.is_main
    }
}

/// Whether `b`, which starts no earlier than `a`, is to be merged into `a`:
/// they overlap, or they touch and point the same way.
pub open spec fn joins(a: Region, b: Region) -> bool {
    b.lo() <= a.hi() || (b.lo() == a.hi() + 1 && a.forward() == b.forward())
}

/// The region covering `a` and `b`, pointing as `a` does, main when either
/// is.
pub open spec fn join(a: Region, b: Region) -> Region {
    let lo = a.lo();
    let hi = if a.hi() < b.hi() {
        b.hi()
    } else {
        a.hi()
    };
    if a.forward() {
        Region { anchor: lo, caret: hi, is_main: a.is_main || b.is_main }
    } else {
        Region { anchor: hi, caret: lo, is_main: a.is_main || b.is_main }
    }
}

/// Regions in order, each merged into the one before it where it joins it.
pub open spec fn merge_all(s: Seq<Region>) -> Seq<Region>
    decreases s.len(),
{
    if s.len() == 0 {
        Seq::<Region>::empty()
    } else {
        let m = merge_all(s.drop_last());
        if m.len() > 0 && joins(m.last(), s.last()) {
            m.drop_last().push(join(m.last(), s.last()))
        } else {
            m.push(s.last())
        }
    }
}

pub open spec fn main_count(s: Seq<Region>) -> nat
    decreases s.len(),
{
    if s.len() == 0 {
        0
    } else {
        main_count(s.drop_last()) + if s.last().is_main {
            1nat
        } else {
            0nat
        }
    }
}

/// Regions sorted by their first byte, possibly overlapping.
pub open spec fn starts_sorted(s: Seq<Region>) -> bool {
    forall|k: int| 0 <= k < s.len() - 1 ==> (#[trigger] s[k]).lo() <= s[k + 1].lo()
}

/// Regions in order, apart from each other.
pub open spec fn disjoint_sorted(s: Seq<Region>) -> bool {
    forall|k: int| 0 <= k < s.len() - 1 ==> (#[trigger] s[k]).hi() < s[k + 1].lo()
}

/// Every offset lies in `[0, len]`.
pub open spec fn within(s: Seq<Region>, len: nat) -> bool {
    forall|k: int| 0 <= k < s.len() ==> (#[trigger] s[k]).anchor <= len && s[k].caret <= len
}

/// A valid selection over a buffer of `len` bytes.
pub open spec fn valid_regions(s: Seq<Region>, len: nat) -> bool {
    &&& s.len() > 0
    &&& disjoint_sorted(s)
    &&& within(s, len)
    &&& main_count(s) == 1
}

/// The caret of the main region.
pub open spec fn main_caret(s: Seq<Region>) -> usize {
    s[choose|j: int| 0 <= j < s.len() && (#[trigger] s[j]).is_main].caret
}

pub proof fn lemma_main_count_pos(s: Seq<Region>, j: int)
    requires
        0 <= j < s.len(),
        s[j].is_main,
    ensures
        main_count(s) >= 1,
    decreases s.len(),
{
    if j < s.len() - 1 {
        lemma_main_count_pos(s.drop_last(), j);
    }
}

/// At most one region is main when exactly one is counted.
pub proof fn lemma_main_unique(s: Seq<Region>, j: int, k: int)
    requires
        main_count(s) == 1,
        0 <= j < s.len(),
        0 <= k < s.len(),
        s[j].is_main,
        s[k].is_main,
    ensures
        j == k,
    decreases s.len(),
{
    let last = s.len() - 1;
    if j < last && k < last {
        if s.last().is_main {
            lemma_main_count_pos(s.drop_last(), j);
        }
        lemma_main_unique(s.drop_last(), j, k);
    } else if j < last {
        lemma_main_count_pos(s.drop_last(), j);
    } else if k < last {
        lemma_main_count_pos(s.drop_last(), k);
    }
}

pub proof fn lemma_main_count_push(s: Seq<Region>, r: Region)
    ensures
        main_count(s.push(r)) == main_count(s) + if r.is_main {
            1nat
        } else {
            0nat
        },
{
    assert(s.push(r).drop_last() =~= s);
}

/// Merging keeps the number of main regions when there is at most one.
pub proof fn lemma_merge_main(s: Seq<Region>)
    requires
        main_count(s) <= 1,
    ensures
        main_count(merge_all(s)) == main_count(s),
        s.len() > 0 ==> merge_all(s).len() > 0,
    decreases s.len(),
{
    if s.len() > 0 {
        let pre = s.drop_last();
        lemma_merge_main(pre);
        let m = merge_all(pre);
        if m.len() > 0 && joins(m.last(), s.last()) {
            let d = m.drop_last();
            assert(d.push(m.last()) =~= m);
            lemma_main_count_push(d, m.last());
            lemma_main_count_push(d, join(m.last(), s.last()));
        } else {
            lemma_main_count_push(m, s.last());
        }
    }
}

/// Merging regions sorted by their first byte gives regions apart from
/// each other, with offsets among those of the input.
pub proof fn lemma_merge_sorted(s: Seq<Region>, len: nat)
    requires
        starts_sorted(s),
        within(s, len),
    ensures
        disjoint_sorted(merge_all(s)),
        within(merge_all(s), len),
        s.len() > 0 ==> merge_all(s).len() > 0 && merge_all(s).last().lo() <= s.last().lo(),
    decreases s.len(),
{
    if s.len() > 0 {
        let pre = s.drop_last();
        assert(starts_sorted(pre)) by {
            assert forall|k: int| 0 <= k < pre.len() - 1 implies (#[trigger] pre[k]).lo()
                <= pre[k + 1].lo() by {
                assert(pre[k] == s[k] && pre[k + 1] == s[k + 1]);
            }
        }
        assert(within(pre, len)) by {
            assert forall|k: int| 0 <= k < pre.len() implies (#[trigger] pre[k]).anchor <= len
                && pre[k].caret <= len by {
                assert(pre[k] == s[k]);
            }
        }
        lemma_merge_sorted(pre, len);
        let m = merge_all(pre);
        let x = s.last();
        assert(x == s[s.len() - 1]);
        assert(x.anchor <= len && x.caret <= len);
        if pre.len() > 0 {
            assert(pre.last() == s[s.len() - 2]);
        }
        if m.len() > 0 && joins(m.last(), x) {
            let r = merge_all(s);
            let j = join(m.last(), x);
            assert(r == m.drop_last().push(j));
            assert(m.last() == m[m.len() - 1]);
            assert forall|k: int| 0 <= k < r.len() - 1 implies (#[trigger] r[k]).hi() < r[k
                + 1].lo() by {
                assert(r[k] == m[k]);
                if k + 1 < r.len() - 1 {
                    assert(r[k + 1] == m[k + 1]);
                }
            }
            assert forall|k: int| 0 <= k < r.len() implies (#[trigger] r[k]).anchor <= len
                && r[k].caret <= len by {
                if k < r.len() - 1 {
                    assert(r[k] == m[k]);
                }
            }
        } else {
            let r = merge_all(s);
            assert(r == m.push(x));
            if m.len() > 0 {
                assert(m.last() == m[m.len() - 1]);
            }
            assert forall|k: int| 0 <= k < r.len() - 1 implies (#[trigger] r[k]).hi() < r[k
                + 1].lo() by {
                assert(r[k] == m[k]);
                if k + 1 < r.len() - 1 {
                    assert(r[k + 1] == m[k + 1]);
                }
            }
            assert forall|k: int| 0 <= k < r.len() implies (#[trigger] r[k]).anchor <= len
                && r[k].caret <= len by {
                if k < r.len() - 1 {
                    assert(r[k] == m[k]);
                }
            }
        }
    }
}

/// Merges regions that are sorted by their first byte.
pub fn merge_regions(s: &Vec<Region>) -> (r: Vec<Region>)
    ensures
        r@ == merge_all(s@),
{
    let mut m: Vec<Region> = Vec::new();
    let mut i: usize = 0;
    while i < s.len()
        invariant
            i <= s@.len(),
            m@ == merge_all(s@.take(i as int)),
        decreases s@.len() - i,
    {
        proof {
            assert(s@.take(i + 1).drop_last() =~= s@.take(i as int));
            assert(s@.take(i + 1).last() == s@[i as int]);
        }
        let x = s[i];
        let n = m.len();
        let mut joined = false;
        if n > 0 {
            let last = m[n - 1];
            let lm = last.min();
            let lh = last.max();
            let xl = x.min();
            let xh = x.max();
            let fw_last = last.anchor <= last.caret;
            let fw_x = x.anchor <= x.caret;
            if xl <= lh || (lh < usize::MAX && xl == lh + 1 && fw_last == fw_x) {
                let hi = if lh < xh {
                    xh
                } else {
                    lh
                };
                let j = if fw_last {
                    Region { anchor: lm, caret: hi, is_main: last.is_main || x.is_main }
                } else {
                    Region { anchor: hi, caret: lm, is_main: last.is_main || x.is_main }
                };
                m.set(n - 1, j);
                joined = true;
                proof {
                    assert(m@ =~= merge_all(s@.take(i as int)).drop_last().push(j));
                }
            }
        }
        if !joined {
            m.push(x);
        }
        i = i + 1;
    }
    proof {
        assert(s@.take(i as int) =~= s@);
    }
    m
}

/// Some copy of `els` ends after base offset `x`.
pub open spec fn copied_after(els: Seq<DeltaElement>, x: nat) -> bool {
    exists|j: int| 0 <= j < els.len() && (#[trigger] els[j]) is Copy && x < els[j]->Copy_1
}

/// Where base offset `x` goes in the target of `els`: inside a kept range
/// it follows its byte; inside a removed range it moves to where the next
/// kept byte lands; after the last kept byte it goes to the end. Bytes
/// inserted at its position come before it.
pub open spec fn transform_offset(els: Seq<DeltaElement>, x: nat) -> nat
    decreases els.len(),
{
    if els.len() == 0 {
        0
    } else {
        let pre = els.drop_last();
        if copied_after(pre, x) {
            transform_offset(pre, x)
        } else {
            match els.last() {
                DeltaElement::Copy(a, b) => if x < b {
                    if x >= a {
                        target_len(pre) + (x - a) as nat
                    } else {
                        target_len(pre)
                    }
                } else {
                    target_len(els)
                },
                DeltaElement::Insert(_) => target_len(els),
            }
        }
    }
}

pub proof fn lemma_transform_bound(els: Seq<DeltaElement>, x: nat)
    ensures
        transform_offset(els, x) <= target_len(els),
    decreases els.len(),
{
    if els.len() > 0 {
        lemma_transform_bound(els.drop_last(), x);
    }
}

/// Moving offsets through a delta keeps their order.
pub proof fn lemma_transform_monotone(els: Seq<DeltaElement>, x: nat, y: nat)
    requires
        x <= y,
    ensures
        transform_offset(els, x) <= transform_offset(els, y),
    decreases els.len(),
{
    if els.len() > 0 {
        let pre = els.drop_last();
        lemma_transform_monotone(pre, x, y);
        lemma_transform_bound(pre, x);
        if copied_after(pre, y) {
            let j = choose|j: int| 0 <= j < pre.len() && (#[trigger] pre[j]) is Copy && y < pre[j]->Copy_1;
            assert(x < pre[j]->Copy_1);
        }
    }
}

/// Once a prefix has a copy ending after `x`, later segments do not move it.
pub proof fn lemma_transform_prefix(els: Seq<DeltaElement>, x: nat, i: int)
    requires
        0 <= i <= els.len(),
        copied_after(els.take(i), x),
    ensures
        transform_offset(els, x) == transform_offset(els.take(i), x),
    decreases els.len() - i,
{
    if i < els.len() {
        let j = choose|j: int| 0 <= j < els.take(i).len() && (#[trigger] els.take(i)[j]) is Copy
            && x < els.take(i)[j]->Copy_1;
        assert(els.take(i + 1)[j] == els.take(i)[j]);
        lemma_transform_prefix(els, x, i + 1);
        assert(els.take(i + 1).drop_last() =~= els.take(i));
    } else {
        assert(els.take(i) =~= els);
    }
}

/// Where base offset `x` goes when `d` is applied.
pub fn transform(d: &Delta, x: usize) -> (r: usize)
    requires
        d.wf(),
        d.new_len() <= usize::MAX,
    ensures
        r == transform_offset(d.els@, x as nat),
{
    let ghost els = d.els@;
    let mut p: usize = 0;
    let mut i: usize = 0;
    while i < d.els.len()
        invariant
            d.wf(),
            els == d.els@,
            d.new_len() <= usize::MAX,
            i <= els.len(),
            p == target_len(els.take(i as int)),
            !copied_after(els.take(i as int), x as nat),
            transform_offset(els.take(i as int), x as nat) == p,
        decreases els.len() - i,
    {
        proof {
            assert(els.take(i + 1).drop_last() =~= els.take(i as int));
            assert(els.take(i + 1).last() == els[i as int]);
            crate::delta::lemma_target_len_mono(els, i + 1, els.len() as int);
            assert(els.take(els.len() as int) =~= els);
        }
        match &d.els[i] {
            DeltaElement::Copy(a, b) => {
                if x < *b {
                    let r = if x >= *a {
                        p + (x - *a)
                    } else {
                        p
                    };
                    proof {
                        assert(els.take(i + 1)[i as int] == els[i as int]);
                        assert(copied_after(els.take(i + 1), x as nat));
                        lemma_transform_prefix(els, x as nat, i + 1);
                    }
                    return r;
                }
                p = p + (*b - *a);
            },
            DeltaElement::Insert(v) => {
                p = p + v.len();
            },
        }
        i = i + 1;
        proof {
            assert forall|j: int| 0 <= j < els.take(i as int).len() && (#[trigger] els.take(
                i as int,
            )[j]) is Copy implies !(x < els.take(i as int)[j]->Copy_1) by {
                if j < i - 1 {
                    assert(els.take(i as int)[j] == els.take(i - 1)[j]);
                }
            }
        }
    }
    proof {
        assert(els.take(i as int) =~= els);
    }
    p
}

/// The direction of a cursor move.
#[derive(Clone, Copy, Debug, PartialEq, Eq, Structural)]
pub enum Direction {
    Left,
    Right,
    Up,
    Down,
}

pub open spec fn is_forward(d: Direction) -> bool {
    d is Right || d is Down
}

/// Offset `c` moved by `dist` bytes the given way, kept in `[0, len]`.
pub open spec fn moved_offset(c: nat, forward: bool, dist: nat, len: nat) -> nat {
    if forward {
        if c + dist > len {
            len
        } else {
            c + dist
        }
    } else {
        if c < dist {
            0
        } else {
            (c - dist) as nat
        }
    }
}

/// `count * stride`, or `usize::MAX` when that does not fit.
pub open spec fn move_distance(stride: nat, count: nat) -> nat {
    if stride * count > usize::MAX {
        usize::MAX as nat
    } else {
        stride * count
    }
}

fn distance(stride: usize, count: usize) -> (r: usize)
    ensures
        r == move_distance(stride as nat, count as nat),
{
    if stride == 0 {
        proof {
            assert(stride * count == 0) by (nonlinear_arith)
                requires
                    stride == 0,
            ;
        }
        return 0;
    }
    if count > usize::MAX / stride {
        proof {
            assert(stride * count > usize::MAX) by (nonlinear_arith)
                requires
                    stride > 0,
                    count > usize::MAX / stride,
            ;
        }
        usize::MAX
    } else {
        proof {
            assert(stride * count <= usize::MAX) by (nonlinear_arith)
                requires
                    stride > 0,
                    count <= usize::MAX / stride,
            ;
        }
        stride * count
    }
}

fn move_offset(c: usize, forward: bool, dist: usize, len: usize) -> (r: usize)
    ensures
        r == moved_offset(c as nat, forward, dist as nat, len as nat),
{
    if forward {
        if c > len || dist > len - c {
            len
        } else {
            c + dist
        }
    } else {
        if c < dist {
            0
        } else {
            c - dist
        }
    }
}

pub proof fn lemma_moved_monotone(x: nat, y: nat, forward: bool, dist: nat, len: nat)
    requires
        x <= y,
    ensures
        moved_offset(x, forward, dist, len) <= moved_offset(y, forward, dist, len),
{
}

impl Region {
    /// The region with its caret moved `count * stride` bytes the given way,
    /// within `[0, buffer_len]`, and the anchor on the caret.
    pub fn simple_move(self, direction: Direction, stride: usize, buffer_len: usize, count: usize) -> (r: Region)
        ensures
            r.caret == moved_offset(
                self.caret as nat,
                is_forward(direction),
                move_distance(stride as nat, count as nat),
                buffer_len as nat,
            ),
            r.anchor == r.caret,
            r.is_main == self.is_main,
    {
        let d = distance(stride, count);
        let forward = match direction {
            Direction::Right | Direction::Down => true,
            Direction::Left | Direction::Up => false,
        };
        let c = move_offset(self.caret, forward, d, buffer_len);
        Region { anchor: c, caret: c, is_main: self.is_main }
    }

    /// The region with its caret moved as by `simple_move`, the anchor
    /// staying where it is.
    pub fn simple_extend(self, direction: Direction, stride: usize, buffer_len: usize, count: usize) -> (r: Region)
        ensures
            r.caret == moved_offset(
                self.caret as nat,
                is_forward(direction),
                move_distance(stride as nat, count as nat),
                buffer_len as nat,
            ),
            r.anchor == self.anchor,
            r.is_main == self.is_main,
    {
        let d = distance(stride, count);
        let forward = match direction {
            Direction::Right | Direction::Down => true,
            Direction::Left | Direction::Up => false,
        };
        let c = move_offset(self.caret, forward, d, buffer_len);
        Region { anchor: self.anchor, caret: c, is_main: self.is_main }
    }
}

/// The regions of `s` that share a byte with `[start, end)`, in order.
pub open spec fn overlapping(s: Seq<Region>, start: nat, end: nat) -> Seq<Region>
    decreases s.len(),
{
    if s.len() == 0 {
        s
    } else {
        let sub = overlapping(s.drop_last(), start, end);
        if s.last().hi() >= start && s.last().lo() < end {
            sub.push(s.last())
        } else {
            sub
        }
    }
}

/// The cursor regions of a buffer, in order, apart from each other, one of
/// them the main one.
pub struct Selection {
    regions: Vec<Region>,
}

impl Selection {
    pub closed spec fn regions(&self) -> Seq<Region> {
        self.regions@
    }

    /// A valid selection over a buffer of `len` bytes.
    pub open spec fn valid(&self, len: nat) -> bool {
        valid_regions(self.regions(), len)
    }

    /// One empty-handed region at offset 0, the main one.
    pub fn new() -> (r: Selection)
        ensures
            r.regions() == seq![Region { anchor: 0, caret: 0, is_main: true }],
            forall|len: nat| #[trigger] r.valid(len),
    {
        let mut regions: Vec<Region> = Vec::new();
        regions.push(Region { anchor: 0, caret: 0, is_main: true });
        let r = Selection { regions };
        proof {
            assert(r.regions().drop_last() =~= Seq::<Region>::empty());
            assert(main_count(Seq::<Region>::empty()) == 0);
            assert(r.regions().last().is_main);
            assert(main_count(r.regions()) == 1);
            assert forall|len: nat| #[trigger] r.valid(len) by {
                assert(within(r.regions(), len));
            }
        }
        r
    }

    /// A selection made of `regions`, when they are valid over `len` bytes.
    pub fn from_regions(regions: Vec<Region>, len: usize) -> (r: Option<Selection>)
        ensures
            r is Some <==> valid_regions(regions@, len as nat),
            r matches Some(sel) ==> sel.regions() == regions@,
    {
        if regions.len() == 0 {
            return None;
        }
        let mut mains: usize = 0;
        let mut i: usize = 0;
        while i < regions.len()
            invariant
                i <= regions@.len(),
                mains == main_count(regions@.take(i as int)),
                mains <= i,
                i > 0 ==> regions@.take(i as int).last() == regions@[i - 1],
                disjoint_sorted(regions@.take(i as int)),
                within(regions@.take(i as int), len as nat),
            decreases regions@.len() - i,
        {
            let x = regions[i];
            if x.anchor > len || x.caret > len {
                proof {
                    assert(!within(regions@, len as nat));
                }
                return None;
            }
            if i > 0 && regions[i - 1].max() >= x.min() {
                proof {
                    assert(regions@[i - 1].hi() >= regions@[i as int].lo());
                    assert(!disjoint_sorted(regions@));
                }
                return None;
            }
            proof {
                assert(regions@.take(i + 1).drop_last() =~= regions@.take(i as int));
                let t = regions@.take(i + 1);
                assert forall|k: int| 0 <= k < t.len() - 1 implies (#[trigger] t[k]).hi() < t[k
                    + 1].lo() by {
                    assert(t[k] == regions@[k] && t[k + 1] == regions@[k + 1]);
                }
                assert forall|k: int| 0 <= k < t.len() implies (#[trigger] t[k]).anchor <= len
                    && t[k].caret <= len by {
                    assert(t[k] == regions@[k]);
                }
            }
            if x.is_main {
                mains = mains + 1;
            }
            i = i + 1;
        }
        proof {
            assert(regions@.take(i as int) =~= regions@);
        }
        if mains != 1 {
            return None;
        }
        Some(Selection { regions })
    }

    pub fn len(&self) -> (r: usize)
        ensures
            r == self.regions().len(),
    {
        self.regions.len()
    }

    /// The region at index `k`.
    pub fn region(&self, k: usize) -> (r: Region)
        requires
            k < self.regions().len(),
        ensures
            r == self.regions()[k as int],
    {
        self.regions[k]
    }

    /// The index of the main region.
    pub fn main_selection(&self) -> (r: usize)
        requires
            main_count(self.regions()) == 1,
        ensures
            r < self.regions().len(),
            self.regions()[r as int].is_main,
    {
        let mut i: usize = 0;
        while i < self.regions.len()
            invariant
                i <= self.regions@.len(),
                main_count(self.regions@) == 1,
                main_count(self.regions@.take(i as int)) == 0,
            decreases self.regions@.len() - i,
        {
            proof {
                assert(self.regions@.take(i + 1).drop_last() =~= self.regions@.take(i as int));
            }
            if self.regions[i].is_main {
                return i;
            }
            i = i + 1;
        }
        proof {
            assert(self.regions@.take(i as int) =~= self.regions@);
        }
        0
    }

    /// The caret of the main region.
    pub fn main_cursor_offset(&self) -> (r: usize)
        requires
            main_count(self.regions()) == 1,
        ensures
            r == main_caret(self.regions()),
    {
        let k = self.main_selection();
        proof {
            let j = choose|j: int| 0 <= j < self.regions().len() && (#[trigger] self.regions()[j]).is_main;
            lemma_main_unique(self.regions(), j, k as int);
        }
        self.regions[k].caret
    }

    /// The regions that share a byte with `[start, end)`, in order. The
    /// regions are whole; only drawing cuts them at the range's edges.
    pub fn regions_in_range(&self, start: usize, end: usize) -> (r: Vec<Region>)
        ensures
            r@ == overlapping(self.regions(), start as nat, end as nat),
    {
        let mut r: Vec<Region> = Vec::new();
        let mut i: usize = 0;
        while i < self.regions.len()
            invariant
                i <= self.regions@.len(),
                r@ == overlapping(self.regions@.take(i as int), start as nat, end as nat),
            decreases self.regions@.len() - i,
        {
            proof {
                assert(self.regions@.take(i + 1).drop_last() =~= self.regions@.take(i as int));
                assert(self.regions@.take(i + 1).last() == self.regions@[i as int]);
            }
            let x = self.regions[i];
            if x.max() >= start && x.min() < end {
                r.push(x);
            }
            i = i + 1;
        }
        proof {
            assert(self.regions@.take(i as int) =~= self.regions@);
        }
        r
    }

    /// Moves every offset through `d`, then merges regions that came to
    /// overlap or touch.
    pub fn apply_delta(&mut self, d: &Delta)
        requires
            d.wf(),
            d.new_len() <= usize::MAX,
            old(self).valid(d.base_len as nat),
        ensures
            final(self).regions() == merge_all(
                old(self).regions().map_values(|r: Region| remapped(r, d.els@)),
            ),
            final(self).valid(d.new_len()),
    {
        let ghost src = self.regions@;
        let ghost nl = d.new_len();
        let mut mapped: Vec<Region> = Vec::new();
        let mut i: usize = 0;
        while i < self.regions.len()
            invariant
                d.wf(),
                d.new_len() <= usize::MAX,
                nl == d.new_len(),
                src == self.regions@,
                valid_regions(src, d.base_len as nat),
                i <= src.len(),
                mapped@ == src.take(i as int).map_values(|r: Region| remapped(r, d.els@)),
                starts_sorted(mapped@),
                within(mapped@, nl),
                main_count(mapped@) == main_count(src.take(i as int)),
            decreases src.len() - i,
        {
            let x = self.regions[i];
            let y = Region {
                anchor: transform(d, x.anchor),
                caret: transform(d, x.caret),
                is_main: x.is_main,
            };
            let ghost old_m = mapped@;
            proof {
                lemma_transform_bound(d.els@, x.anchor as nat);
                lemma_transform_bound(d.els@, x.caret as nat);
                if i > 0 {
                    let w = src[i - 1];
                    assert(w.hi() < x.lo());
                    lemma_transform_monotone(d.els@, w.anchor as nat, x.anchor as nat);
                    lemma_transform_monotone(d.els@, w.anchor as nat, x.caret as nat);
                    lemma_transform_monotone(d.els@, w.caret as nat, x.anchor as nat);
                    lemma_transform_monotone(d.els@, w.caret as nat, x.caret as nat);
                    assert(old_m[i - 1] == remapped(w, d.els@));
                }
                assert(src.take(i + 1).drop_last() =~= src.take(i as int));
                assert(src.take(i + 1).last() == x);
                lemma_main_count_push(old_m, y);
            }
            mapped.push(y);
            proof {
                assert(mapped@ =~= src.take(i + 1).map_values(|r: Region| remapped(r, d.els@)));
                assert forall|k: int| 0 <= k < mapped@.len() - 1 implies (#[trigger] mapped@[k]).lo()
                    <= mapped@[k + 1].lo() by {
                    if k + 1 < i {
                        assert(mapped@[k] == old_m[k] && mapped@[k + 1] == old_m[k + 1]);
                    }
                }
                assert forall|k: int| 0 <= k < mapped@.len() implies (#[trigger] mapped@[k]).anchor
                    <= nl && mapped@[k].caret <= nl by {
                    if k < i {
                        assert(mapped@[k] == old_m[k]);
                    }
                }
            }
            i = i + 1;
        }
        proof {
            assert(src.take(i as int) =~= src);
            lemma_merge_sorted(mapped@, nl);
            lemma_merge_main(mapped@);
        }
        self.regions = merge_regions(&mapped);
    }

    /// Moves the caret of every region `count * stride` bytes the given
    /// way, within `[0, buffer_len]`; the anchors follow unless
    /// `extend`. Regions that come to overlap or touch are merged.
    pub fn move_regions(
        &mut self,
        direction: Direction,
        stride: usize,
        buffer_len: usize,
        count: usize,
        extend: bool,
    )
        requires
            old(self).valid(buffer_len as nat),
        ensures
            final(self).regions() == merge_all(
                old(self).regions().map_values(
                    |r: Region| moved_region(r, direction, stride, buffer_len, count, extend),
                ),
            ),
            final(self).valid(buffer_len as nat),
    {
        let ghost src = self.regions@;
        let ghost n = buffer_len as nat;
        let ghost fw = is_forward(direction);
        let ghost dist = move_distance(stride as nat, count as nat);
        let mut mapped: Vec<Region> = Vec::new();
        let mut i: usize = 0;
        while i < self.regions.len()
            invariant
                src == self.regions@,
                n == buffer_len,
                fw == is_forward(direction),
                dist == move_distance(stride as nat, count as nat),
                valid_regions(src, n),
                i <= src.len(),
                mapped@ == src.take(i as int).map_values(
                    |r: Region| moved_region(r, direction, stride, buffer_len, count, extend),
                ),
                starts_sorted(mapped@),
                within(mapped@, n),
                main_count(mapped@) == main_count(src.take(i as int)),
            decreases src.len() - i,
        {
            let x = self.regions[i];
            let y = if extend {
                x.simple_extend(direction, stride, buffer_len, count)
            } else {
                x.simple_move(direction, stride, buffer_len, count)
            };
            let ghost old_m = mapped@;
            proof {
                assert(y == moved_region(x, direction, stride, buffer_len, count, extend));
                if i > 0 {
                    let w = src[i - 1];
                    assert(w.hi() < x.lo());
                    lemma_moved_monotone(w.caret as nat, x.caret as nat, fw, dist, n);
                    assert(old_m[i - 1] == moved_region(w, direction, stride, buffer_len, count, extend));
                }
                assert(src.take(i + 1).drop_last() =~= src.take(i as int));
                assert(src.take(i + 1).last() == x);
                lemma_main_count_push(old_m, y);
            }
            mapped.push(y);
            proof {
                assert(mapped@ =~= src.take(i + 1).map_values(
                    |r: Region| moved_region(r, direction, stride, buffer_len, count, extend),
                ));
                assert forall|k: int| 0 <= k < mapped@.len() - 1 implies (#[trigger] mapped@[k]).lo()
                    <= mapped@[k + 1].lo() by {
                    if k + 1 < i {
                        assert(mapped@[k] == old_m[k] && mapped@[k + 1] == old_m[k + 1]);
                    }
                }
                assert forall|k: int| 0 <= k < mapped@.len() implies (#[trigger] mapped@[k]).anchor
                    <= n && mapped@[k].caret <= n by {
                    if k < i {
                        assert(mapped@[k] == old_m[k]);
                    }
                }
            }
            i = i + 1;
        }
        proof {
            assert(src.take(i as int) =~= src);
            lemma_merge_sorted(mapped@, n);
            lemma_merge_main(mapped@);
        }
        self.regions = merge_regions(&mapped);
    }
}

/// A region with both offsets moved through the segments `els`.
pub open spec fn remapped(r: Region, els: Seq<DeltaElement>) -> Region {
    Region {
        anchor: transform_offset(els, r.anchor as nat) as usize,
        caret: transform_offset(els, r.caret as nat) as usize,
        is_main: r.is_main,
    }
}

/// A region after `simple_move`, or `simple_extend` when `extend`.
pub open spec fn moved_region(
    r: Region,
    direction: Direction,
    stride: usize,
    buffer_len: usize,
    count: usize,
    extend: bool,
) -> Region {
    let c = moved_offset(
        r.caret as nat,
        is_forward(direction),
        move_distance(stride as nat, count as nat),
        buffer_len as nat,
    ) as usize;
    Region { anchor: if extend { r.anchor } else { c }, caret: c, is_main: r.is_main }
}

} // verus!
