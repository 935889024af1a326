use vstd::prelude::*;

use crate::selection::{disjoint_sorted, Region, Selection};

verus! {

/// The levels of the styling stack.
#[derive(Clone, Copy, Debug, PartialEq, Eq, Structural)]
pub enum Priority {
    Basic,
    Selection,
    Cursor,
}

/// The styles a byte can be drawn with.
#[derive(Clone, Copy, Debug, PartialEq, Eq, Structural)]
pub enum StyleKind {
    Default,
    ActiveSelection,
    InactiveSelection,
    ActiveCaret,
    InactiveCaret,
    EmptyCaret,
}

impl StyleKind {
    pub open spec fn level(self) -> Priority {
        match self {
            StyleKind::Default => Priority::Basic,
            StyleKind::ActiveSelection | StyleKind::InactiveSelection => Priority::Selection,
            _ => Priority::Cursor,
        }
    }

    pub fn priority(&self) -> (r: Priority)
        ensures
            r == self.level(),
    {
        match self {
            StyleKind::Default => Priority::Basic,
            StyleKind::ActiveSelection | StyleKind::InactiveSelection => Priority::Selection,
            _ => Priority::Cursor,
        }
    }
}

/// The style changes for one byte cell: before it, in its middle (between
/// the two digits of a hex byte) and after it.
#[derive(Clone, Copy, Debug, PartialEq, Eq, Structural)]
pub struct StylingCommand {
    pub start: Option<StyleKind>,
    pub mid: Option<StyleKind>,
    pub end: Option<StyleKind>,
}

impl StylingCommand {
    pub fn none() -> (r: StylingCommand)
        ensures
            r == (StylingCommand { start: None, mid: None, end: None }),
    {
        StylingCommand { start: None, mid: None, end: None }
    }

    pub fn with_start_style(self, s: StyleKind) -> (r: StylingCommand)
        ensures
            r == (StylingCommand { start: Some(s), ..self }),
    {
        StylingCommand { start: Some(s), ..self }
    }

    pub fn with_mid_style(self, s: StyleKind) -> (r: StylingCommand)
        ensures
            r == (StylingCommand { mid: Some(s), ..self }),
    {
        StylingCommand { mid: Some(s), ..self }
    }

    pub fn with_end_style(self, s: StyleKind) -> (r: StylingCommand)
        ensures
            r == (StylingCommand { end: Some(s), ..self }),
    {
        StylingCommand { end: Some(s), ..self }
    }

    /// The command with its start style dropped, the middle style moved to
    /// the start.
    pub fn with_mid_to_end(self) -> (r: StylingCommand)
        ensures
            r == (StylingCommand { start: self.mid, mid: None, end: self.end }),
    {
        StylingCommand { start: self.mid, mid: None, end: self.end }
    }

    /// Only the end style, placed at the start.
    pub fn take_end_only(self) -> (r: StylingCommand)
        ensures
            r == (StylingCommand { start: self.end, mid: None, end: None }),
    {
        StylingCommand { start: self.end, mid: None, end: None }
    }
}

pub open spec fn selection_style(r: Region) -> StyleKind {
    if r.is_main {
        StyleKind::ActiveSelection
    } else {
        StyleKind::InactiveSelection
    }
}

pub open spec fn caret_style(r: Region) -> StyleKind {
    if r.is_main {
        StyleKind::ActiveCaret
    } else {
        StyleKind::InactiveCaret
    }
}

pub open spec fn contains(r: Region, i: nat) -> bool {
    r.lo() <= i <= r.hi()
}

/// The region of `s` that holds byte `i`, if any.
pub open spec fn region_at(s: Seq<Region>, i: nat) -> Option<Region> {
    if exists|m: int| 0 <= m < s.len() && contains(#[trigger] s[m], i) {
        Some(s[choose|m: int| 0 <= m < s.len() && contains(#[trigger] s[m], i)])
    } else {
        None
    }
}

/// The styling of byte `i` given the region `reg` that holds it. The
/// stack holds the default style and, inside a region, its selection
/// style on top. Events on one byte apply in the order: region start,
/// caret, region end; then a line start restores the top of the stack
/// where nothing set a start style, and otherwise a line end returns to
/// the default style.
pub open spec fn byte_command(i: nat, reg: Option<Region>, half: bool, bpl: nat) -> StylingCommand {
    let c0 = StylingCommand { start: None, mid: None, end: None };
    let top = match reg {
        Some(r) => selection_style(r),
        None => StyleKind::Default,
    };
    let c1 = match reg {
        Some(r) => if r.lo() == i {
            StylingCommand { start: Some(selection_style(r)), ..c0 }
        } else {
            c0
        },
        None => c0,
    };
    let c2 = match reg {
        Some(r) => if r.caret == i {
            if half {
                if i == r.lo() {
                    StylingCommand { mid: Some(caret_style(r)), end: Some(top), ..c1 }
                } else {
                    StylingCommand { start: Some(top), mid: Some(caret_style(r)), ..c1 }
                }
            } else {
                StylingCommand { start: Some(caret_style(r)), end: Some(top), ..c1 }
            }
        } else {
            c1
        },
        None => c1,
    };
    let c3 = match reg {
        Some(r) => if r.hi() == i {
            StylingCommand { end: Some(StyleKind::Default), ..c2 }
        } else {
            c2
        },
        None => c2,
    };
    if i % bpl == 0 && c3.start is None {
        StylingCommand { start: Some(top), ..c3 }
    } else if (i + 1) % bpl == 0 {
        StylingCommand { end: Some(StyleKind::Default), ..c3 }
    } else {
        c3
    }
}

pub proof fn lemma_sorted_pairwise(s: Seq<Region>, a: int, b: int)
    requires
        disjoint_sorted(s),
        0 <= a < b < s.len(),
    ensures
        s[a].hi() < s[b].lo(),
    decreases b - a,
{
    if a + 1 < b {
        lemma_sorted_pairwise(s, a, b - 1);
        assert(s[b - 1].hi() < s[b].lo());
    } else {
        assert(s[a].hi() < s[a + 1].lo());
    }
}

/// The styling commands of the bytes `[start, end)`, one per byte.
pub fn mark_commands(sel: &Selection, start: usize, end: usize, half: bool, bpl: usize) -> (r: Vec<
    StylingCommand,
>)
    requires
        disjoint_sorted(sel.regions()),
        start <= end,
        bpl > 0,
    ensures
        r@.len() == end - start,
        forall|j: int|
            0 <= j < r@.len() ==> #[trigger] r@[j] == byte_command(
                (start + j) as nat,
                region_at(sel.regions(), (start + j) as nat),
                half,
                bpl as nat,
            ),
{
    let ghost all = sel.regions();
    let nregs = sel.len();
    let mut out: Vec<StylingCommand> = Vec::new();
    let mut k: usize = 0;
    let mut i: usize = start;
    while i < end
        invariant
            all == sel.regions(),
            nregs == all.len(),
            disjoint_sorted(all),
            start <= i <= end,
            bpl > 0,
            k <= all.len(),
            forall|m: int| 0 <= m < k ==> (#[trigger] all[m]).hi() < i,
            out@.len() == i - start,
            forall|j: int|
                0 <= j < out@.len() ==> #[trigger] out@[j] == byte_command(
                    (start + j) as nat,
                    region_at(all, (start + j) as nat),
                    half,
                    bpl as nat,
                ),
        decreases end - i,
    {
        while k < nregs && sel.region(k).max() < i
            invariant
                all == sel.regions(),
                nregs == all.len(),
                k <= all.len(),
                forall|m: int| 0 <= m < k ==> (#[trigger] all[m]).hi() < i,
            decreases all.len() - k,
        {
            k = k + 1;
        }
        let reg: Option<Region> = if k < nregs && sel.region(k).min() <= i {
            Some(sel.region(k))
        } else {
            None
        };
        proof {
            if k < all.len() {
                assert forall|m: int| k < m < all.len() implies !contains(
                    #[trigger] all[m],
                    i as nat,
                ) by {
                    lemma_sorted_pairwise(all, k as int, m);
                }
            }
            if reg is Some {
                assert(contains(all[k as int], i as nat));
                let m = choose|m: int| 0 <= m < all.len() && contains(#[trigger] all[m], i as nat);
                assert(m == k);
            } else {
                assert forall|m: int| 0 <= m < all.len() implies !contains(
                    #[trigger] all[m],
                    i as nat,
                ) by {
                    if m > k {
                        lemma_sorted_pairwise(all, k as int, m);
                    }
                }
            }
            assert(reg == region_at(all, i as nat));
        }
        let c = command_for(i, reg, half, bpl);
        out.push(c);
        i = i + 1;
    }
    out
}

/// The styling of byte `i`, held by `reg` if some region holds it.
fn command_for(i: usize, reg: Option<Region>, half: bool, bpl: usize) -> (r: StylingCommand)
    requires
        bpl > 0,
        i < usize::MAX,
    ensures
        r == byte_command(i as nat, reg, half, bpl as nat),
{
    let mut c = StylingCommand::none();
    let top = match reg {
        Some(r) => selection_style_of(&r),
        None => StyleKind::Default,
    };
    if let Some(r) = reg {
        if r.min() == i {
            c = c.with_start_style(selection_style_of(&r));
        }
        if r.caret == i {
            let cs = caret_style_of(&r);
            if half {
                if i == r.min() {
                    c = c.with_mid_style(cs).with_end_style(top);
                } else {
                    c = c.with_start_style(top).with_mid_style(cs);
                }
            } else {
                c = c.with_start_style(cs).with_end_style(top);
            }
        }
        if r.max() == i {
            c = c.with_end_style(StyleKind::Default);
        }
    }
    if i % bpl == 0 && c.start.is_none() {
        c = c.with_start_style(top);
    } else if (i + 1) % bpl == 0 {
        c = c.with_end_style(StyleKind::Default);
    }
    c
}

pub fn selection_style_of(r: &Region) -> (s: StyleKind)
    ensures
        s == selection_style(*r),
{
    if r.is_main {
        StyleKind::ActiveSelection
    } else {
        StyleKind::InactiveSelection
    }
}

pub fn caret_style_of(r: &Region) -> (s: StyleKind)
    ensures
        s == caret_style(*r),
{
    if r.is_main {
        StyleKind::ActiveCaret
    } else {
        StyleKind::InactiveCaret
    }
}

/// What one screen cell shows.
#[derive(Clone, Copy, Debug, PartialEq, Eq, Structural)]
pub enum Glyph {
    /// The high hexadecimal digit of a byte.
    High(u8),
    /// The low hexadecimal digit of a byte.
    Low(u8),
    /// A byte in the text column.
    Text(u8),
    Blank,
}

/// One screen cell with the style it is drawn in.
#[derive(Clone, Copy, Debug, PartialEq, Eq, Structural)]
pub struct Cell {
    pub style: StyleKind,
    pub glyph: Glyph,
}

pub open spec fn or_else(s: Option<StyleKind>, d: StyleKind) -> StyleKind {
    match s {
        Some(x) => x,
        None => d,
    }
}

/// The cells of a row's hex column and the style in force after them,
/// starting in style `init`: each byte gives its two digits and a blank;
/// the start style applies from the first digit, the middle style from
/// the second, the end style from the blank after it.
pub open spec fn hex_run(bytes: Seq<u8>, marks: Seq<StylingCommand>, init: StyleKind) -> (Seq<
    Cell,
>, StyleKind)
    decreases bytes.len(),
{
    if bytes.len() == 0 || marks.len() == 0 {
        (Seq::<Cell>::empty(), init)
    } else {
        let (cells, cur) = hex_run(bytes.drop_last(), marks.drop_last(), init);
        let b = bytes.last();
        let m = marks.last();
        let s1 = or_else(m.start, cur);
        let s2 = or_else(m.mid, s1);
        let s3 = or_else(m.end, s2);
        (
            cells + seq![
                Cell { style: s1, glyph: Glyph::High(b / 16) },
                Cell { style: s2, glyph: Glyph::Low(b % 16) },
                Cell { style: s3, glyph: Glyph::Blank },
            ],
            s3,
        )
    }
}

/// The cells of a row's text column and the style in force after them:
/// each byte is drawn in its start style, and its end style holds after
/// it.
pub open spec fn text_run(bytes: Seq<u8>, marks: Seq<StylingCommand>, init: StyleKind) -> (Seq<
    Cell,
>, StyleKind)
    decreases bytes.len(),
{
    if bytes.len() == 0 || marks.len() == 0 {
        (Seq::<Cell>::empty(), init)
    } else {
        let (cells, cur) = text_run(bytes.drop_last(), marks.drop_last(), init);
        let m = marks.last();
        let s1 = or_else(m.start, cur);
        (cells.push(Cell { style: s1, glyph: Glyph::Text(bytes.last()) }), or_else(m.end, s1))
    }
}

fn or_else_exec(s: Option<StyleKind>, d: StyleKind) -> (r: StyleKind)
    ensures
        r == or_else(s, d),
{
    match s {
        Some(x) => x,
        None => d,
    }
}

/// The cells of the hex column for `bytes` styled by `marks`.
pub fn hex_cells(bytes: &Vec<u8>, marks: &Vec<StylingCommand>, init: StyleKind) -> (r: Vec<Cell>)
    requires
        bytes@.len() == marks@.len(),
    ensures
        r@ == hex_run(bytes@, marks@, init).0,
{
    let mut out: Vec<Cell> = Vec::new();
    let mut cur = init;
    let mut i: usize = 0;
    while i < bytes.len()
        invariant
            bytes@.len() == marks@.len(),
            i <= bytes@.len(),
            (out@, cur) == hex_run(bytes@.take(i as int), marks@.take(i as int), init),
        decreases bytes@.len() - i,
    {
        proof {
            assert(bytes@.take(i + 1).drop_last() =~= bytes@.take(i as int));
            assert(marks@.take(i + 1).drop_last() =~= marks@.take(i as int));
            assert(bytes@.take(i + 1).last() == bytes@[i as int]);
            assert(marks@.take(i + 1).last() == marks@[i as int]);
        }
        let b = bytes[i];
        let m = marks[i];
        let s1 = or_else_exec(m.start, cur);
        let s2 = or_else_exec(m.mid, s1);
        let s3 = or_else_exec(m.end, s2);
        let ghost before = out@;
        out.push(Cell { style: s1, glyph: Glyph::High(b / 16) });
        out.push(Cell { style: s2, glyph: Glyph::Low(b % 16) });
        out.push(Cell { style: s3, glyph: Glyph::Blank });
        proof {
            assert(out@ =~= before + seq![
                Cell { style: s1, glyph: Glyph::High(b / 16) },
                Cell { style: s2, glyph: Glyph::Low(b % 16) },
                Cell { style: s3, glyph: Glyph::Blank },
            ]);
        }
        cur = s3;
        i = i + 1;
    }
    proof {
        assert(bytes@.take(i as int) =~= bytes@);
        assert(marks@.take(i as int) =~= marks@);
    }
    out
}

/// The cells of the text column for `bytes` styled by `marks`.
pub fn text_cells(bytes: &Vec<u8>, marks: &Vec<StylingCommand>, init: StyleKind) -> (r: Vec<Cell>)
    requires
        bytes@.len() == marks@.len(),
    ensures
        r@ == text_run(bytes@, marks@, init).0,
{
    let mut out: Vec<Cell> = Vec::new();
    let mut cur = init;
    let mut i: usize = 0;
    while i < bytes.len()
        invariant
            bytes@.len() == marks@.len(),
            i <= bytes@.len(),
            (out@, cur) == text_run(bytes@.take(i as int), marks@.take(i as int), init),
        decreases bytes@.len() - i,
    {
        proof {
            assert(bytes@.take(i + 1).drop_last() =~= bytes@.take(i as int));
            assert(marks@.take(i + 1).drop_last() =~= marks@.take(i as int));
            assert(bytes@.take(i + 1).last() == bytes@[i as int]);
            assert(marks@.take(i + 1).last() == marks@[i as int]);
        }
        let m = marks[i];
        let s1 = or_else_exec(m.start, cur);
        out.push(Cell { style: s1, glyph: Glyph::Text(bytes[i]) });
        cur = or_else_exec(m.end, s1);
        i = i + 1;
    }
    proof {
        assert(bytes@.take(i as int) =~= bytes@);
        assert(marks@.take(i as int) =~= marks@);
    }
    out
}

} // verus!
