use vstd::prelude::*;
use vstd::string::StringSliceAdditionalSpecFns;

use crate::delta::Delta;
use crate::render::{
    byte_command, hex_cells, hex_run, mark_commands, region_at, text_cells, text_run, Cell, StyleKind,
    StylingCommand,
};
use crate::selection::{
    main_caret, merge_all, moved_region, valid_regions, within, Direction, Region, Selection,
};
use crate::window::{ChunkRequest, Window};

verus! {

pub open spec fn sat(x: int) -> nat {
    if x > usize::MAX {
        usize::MAX as nat
    } else if x < 0 {
        0
    } else {
        x as nat
    }
}

pub fn sat_add(a: usize, b: usize) -> (r: usize)
    ensures
        r == sat(a + b),
{
    if a > usize::MAX - b {
        usize::MAX
    } else {
        a + b
    }
}

pub fn sat_mul(a: usize, b: usize) -> (r: usize)
    ensures
        r == sat(a * b),
{
    if a == 0 {
        proof {
            assert(a * b == 0) by (nonlinear_arith)
                requires
                    a == 0,
            ;
        }
        0
    } else if b > usize::MAX / a {
        proof {
            assert(a * b > usize::MAX) by (nonlinear_arith)
                requires
                    a > 0,
                    b > usize::MAX / a,
            ;
        }
        usize::MAX
    } else {
        proof {
            assert(a * b <= usize::MAX) by (nonlinear_arith)
                requires
                    a > 0,
                    b <= usize::MAX / a,
            ;
            assert(a * b >= 0) by (nonlinear_arith)
                requires
                    a > 0,
                    b >= 0,
            ;
        }
        a * b
    }
}

/// The number of hexadecimal digits of `n`.
pub open spec fn hex_len(n: nat) -> nat
    decreases n,
{
    if n < 16 {
        1
    } else {
        1 + hex_len(n / 16)
    }
}

/// The number of decimal digits of `n`.
pub open spec fn dec_len(n: nat) -> nat
    decreases n,
{
    if n < 10 {
        1
    } else {
        1 + dec_len(n / 10)
    }
}

pub fn hex_digits(n: usize) -> (r: usize)
    ensures
        r == hex_len(n as nat),
{
    let mut m: usize = n;
    let mut k: usize = 1;
    proof {
        lemma_hex_len_pos(n as nat);
    }
    while m >= 16
        invariant
            k + hex_len(m as nat) == 1 + hex_len(n as nat),
            k >= 1,
            hex_len(n as nat) <= n || n == 0,
        decreases m,
    {
        proof {
            lemma_hex_len_pos(m as nat);
            lemma_hex_len_pos((m / 16) as nat);
        }
        m = m / 16;
        k = k + 1;
    }
    k
}

pub proof fn lemma_hex_len_pos(n: nat)
    ensures
        hex_len(n) >= 1,
        n >= 1 ==> hex_len(n) <= n,
    decreases n,
{
    if n >= 16 {
        lemma_hex_len_pos(n / 16);
    }
}

pub proof fn lemma_dec_len_pos(n: nat)
    ensures
        dec_len(n) >= 1,
        n >= 1 ==> dec_len(n) <= n,
    decreases n,
{
    if n >= 10 {
        lemma_dec_len_pos(n / 10);
    }
}

pub fn dec_digits(n: usize) -> (r: usize)
    ensures
        r == dec_len(n as nat),
{
    let mut m: usize = n;
    let mut k: usize = 1;
    proof {
        lemma_dec_len_pos(n as nat);
    }
    while m >= 10
        invariant
            k + dec_len(m as nat) == 1 + dec_len(n as nat),
            k >= 1,
            dec_len(n as nat) <= n || n == 0,
        decreases m,
    {
        proof {
            lemma_dec_len_pos(m as nat);
            lemma_dec_len_pos((m / 10) as nat);
        }
        m = m / 10;
        k = k + 1;
    }
    k
}

/// What the view asks of the file after a scroll.
#[derive(Debug, PartialEq, Eq, Structural)]
pub enum WindowRequest {
    Nothing,
    FetchBottom(ChunkRequest),
    FetchTop(ChunkRequest),
}

/// What a scroll leaves to redraw.
pub enum Redraw {
    /// The view was at its edge and did not move.
    Nothing,
    /// Every row.
    Full,
    /// The terminal scrolled by that many rows; the rows marked `true` are
    /// to be drawn again.
    Rows(u16, Vec<bool>),
}

/// A hex view over a window of a file: which bytes are on screen, how they
/// are styled, and when the window must grow.
pub struct HexView {
    window: Window,
    selection: Selection,
    size: (u16, u16),
    bytes_per_line: usize,
    start_offset: usize,
    half_cursor: bool,
    buffer_name: String,
    dirty: bool,
    info: Option<String>,
}

impl HexView {
    pub closed spec fn window_view(&self) -> Window {
        self.window
    }

    pub closed spec fn selection_view(&self) -> Selection {
        self.selection
    }

    /// The offset in the window of the first byte on screen.
    pub closed spec fn view_start(&self) -> nat {
        self.start_offset as nat
    }

    pub closed spec fn bpl(&self) -> nat {
        self.bytes_per_line as nat
    }

    pub closed spec fn width(&self) -> nat {
        self.size.0 as nat
    }

    pub closed spec fn height(&self) -> nat {
        self.size.1 as nat
    }

    pub closed spec fn half(&self) -> bool {
        self.half_cursor
    }

    pub closed spec fn name_bytes(&self) -> nat {
        vstd::utf8::encode_utf8(self.buffer_name@).len() as usize as nat
    }

    pub closed spec fn is_dirty(&self) -> bool {
        self.dirty
    }

    pub open spec fn wf(&self) -> bool {
        &&& self.window_view().wf()
        &&& self.selection_view().valid(self.window_view().contents().len())
        &&& self.bpl() > 0
        &&& self.height() >= 2
    }

    /// The window offset just past the rows above the status lines.
    pub open spec fn view_end(&self) -> nat {
        sat(self.view_start() + sat((self.height() - 2) * self.bpl()) as int)
    }

    /// The range of window offsets on screen: the rows above the status
    /// line, and one place past the last byte for a caret there.
    pub open spec fn visible_range(&self) -> (nat, nat) {
        let len = self.window_view().contents().len();
        let full = sat(self.view_start() + sat((self.height() - 1) * self.bpl()) as int);
        let end = if sat(len + 1 as int) < full {
            sat(len + 1 as int)
        } else {
            full
        };
        (self.view_start(), end)
    }

    /// A view of `window` on a terminal of `size` columns and rows, with
    /// sixteen bytes per line and one caret at the start.
    pub fn with_window(window: Window, size: (u16, u16), buffer_name: String) -> (r: HexView)
        requires
            window.wf(),
            size.1 >= 2,
        ensures
            r.wf(),
            r.window_view() == window,
            r.view_start() == 0,
            r.bpl() == 16,
            r.width() == size.0,
            r.height() == size.1,
            !r.half(),
            r.selection_view().regions() == seq![
                crate::selection::Region { anchor: 0, caret: 0, is_main: true },
            ],
    {
        HexView {
            window,
            selection: Selection::new(),
            size,
            bytes_per_line: 0x10,
            start_offset: 0,
            half_cursor: false,
            buffer_name,
            dirty: false,
            info: None,
        }
    }

    pub fn set_bytes_per_line(&mut self, bpl: usize)
        requires
            old(self).wf(),
            bpl > 0,
        ensures
            final(self).wf(),
            final(self).bpl() == bpl,
            final(self).window_view() == old(self).window_view(),
            final(self).selection_view() == old(self).selection_view(),
            final(self).view_start() == old(self).view_start(),
            final(self).height() == old(self).height(),
    {
        self.bytes_per_line = bpl;
    }

    pub fn set_half_cursor(&mut self, half: bool)
        requires
            old(self).wf(),
        ensures
            final(self).wf(),
            final(self).half() == half,
            final(self).window_view() == old(self).window_view(),
            final(self).selection_view() == old(self).selection_view(),
            final(self).view_start() == old(self).view_start(),
            final(self).bpl() == old(self).bpl(),
            final(self).height() == old(self).height(),
    {
        self.half_cursor = half;
    }

    pub fn window(&self) -> (r: &Window)
        ensures
            *r == self.window_view(),
    {
        &self.window
    }

    pub fn selection(&self) -> (r: &Selection)
        ensures
            *r == self.selection_view(),
    {
        &self.selection
    }

    pub fn start_offset(&self) -> (r: usize)
        ensures
            r == self.view_start(),
    {
        self.start_offset
    }

    pub fn bytes_per_line(&self) -> (r: usize)
        ensures
            r == self.bpl(),
    {
        self.bytes_per_line
    }

    /// Whether the screen reaches into the last tenth of the window.
    pub fn is_near_bottom(&self) -> (r: bool)
        requires
            self.wf(),
        ensures
            r == (self.window_view().contents().len() - self.view_end()
                < self.window_view().contents().len() / 10),
    {
        let visible_rows = (self.size.1 - 2) as usize;
        let view_end = sat_add(self.start_offset, sat_mul(visible_rows, self.bytes_per_line));
        self.window.is_near_bottom(view_end)
    }

    /// Whether the screen starts in the first tenth of the window.
    pub fn is_near_top(&self) -> (r: bool)
        ensures
            r == (self.view_start() < self.window_view().contents().len() / 10),
    {
        self.window.is_near_top(self.start_offset)
    }

    /// The read the window needs after a scroll: below it when the screen
    /// nears its bottom and the file goes on, else above it when the screen
    /// nears its top and the file starts earlier, else none.
    pub fn manage_buffer(&self) -> (r: WindowRequest)
        requires
            self.wf(),
        ensures
            ({
                let w = self.window_view();
                let len = w.contents().len();
                let below = crate::window::min_nat(
                    w.chunk(),
                    (w.file_size() - w.start() - len) as nat,
                );
                let above = crate::window::min_nat(w.chunk(), w.start());
                let near_bottom = len - self.view_end() < len / 10;
                let near_top = self.view_start() < len / 10;
                if near_bottom && below > 0 {
                    r == WindowRequest::FetchBottom(
                        ChunkRequest { offset: (w.start() + len) as usize, len: below as usize },
                    )
                } else if near_top && above > 0 {
                    r == WindowRequest::FetchTop(
                        ChunkRequest { offset: (w.start() - above) as usize, len: above as usize },
                    )
                } else {
                    r == WindowRequest::Nothing
                }
            }),
    {
        if self.is_near_bottom() {
            let req = self.window.bottom_request();
            if req.len > 0 {
                return WindowRequest::FetchBottom(req);
            }
        }
        if self.is_near_top() {
            let req = self.window.top_request();
            if req.len > 0 {
                return WindowRequest::FetchTop(req);
            }
        }
        WindowRequest::Nothing
    }

    /// Adds the bytes read below the window (see `Window::extend_bottom`).
    /// When the window drops its first chunk, carets and the screen move
    /// with the bytes they were on.
    pub fn receive_bottom(&mut self, chunk: &Vec<u8>)
        requires
            old(self).wf(),
        ensures
            final(self).wf(),
            final(self).bpl() == old(self).bpl(),
            final(self).height() == old(self).height(),
            final(self).half() == old(self).half(),
            final(self).window_view().contents() == old(self).window_view().after_bottom(chunk@),
            final(self).window_view().file_size() == old(self).window_view().file_size(),
            final(self).window_view().chunk() == old(self).window_view().chunk(),
            old(self).window_view().bottom_trims(chunk@) ==> {
                &&& final(self).window_view().start() == old(self).window_view().start()
                    + old(self).window_view().chunk()
                &&& final(self).view_start() == sat(
                    old(self).view_start() - old(self).window_view().chunk(),
                )
            },
            !old(self).window_view().bottom_trims(chunk@) ==> {
                &&& final(self).window_view().start() == old(self).window_view().start()
                &&& final(self).view_start() == old(self).view_start()
                &&& final(self).selection_view() == old(self).selection_view()
            },
    {
        let ghost old_len = self.window.contents().len();
        let dropped = self.window.extend_bottom(chunk);
        let n = self.window.len();
        if dropped > 0 {
            let g = n + dropped;
            proof {
                lemma_valid_grow(self.selection.regions(), old_len, g as nat);
            }
            let d = Delta::delete(g, 0, dropped);
            self.selection.apply_delta(&d);
            self.start_offset = if self.start_offset < dropped {
                0
            } else {
                self.start_offset - dropped
            };
        } else {
            proof {
                lemma_valid_grow(self.selection.regions(), old_len, n as nat);
            }
        }
    }

    /// Adds the bytes read above the window (see `Window::extend_top`).
    /// Carets and the screen move with the bytes they were on. Returns
    /// whether the bytes were taken.
    pub fn receive_top(&mut self, chunk: &Vec<u8>) -> (r: bool)
        requires
            old(self).wf(),
        ensures
            final(self).wf(),
            final(self).bpl() == old(self).bpl(),
            final(self).height() == old(self).height(),
            final(self).half() == old(self).half(),
            r == (chunk@.len() == old(self).window_view().top_len()),
            !r ==> *final(self) == *old(self),
            r ==> {
                &&& final(self).window_view().contents() == old(self).window_view().after_top(chunk@)
                &&& final(self).window_view().start() == old(self).window_view().start() - old(
                    self,
                ).window_view().top_len()
                &&& final(self).view_start() == sat(
                    old(self).view_start() + old(self).window_view().top_len() as int,
                )
            },
    {
        let old_len = self.window.len();
        let added = match self.window.extend_top(chunk) {
            None => return false,
            Some(a) => a,
        };
        let ins = Delta::insert(old_len, 0, crate::rope::copy_range(chunk, 0, added));
        self.selection.apply_delta(&ins);
        let g = old_len + added;
        let n = self.window.len();
        if n < g {
            let d = Delta::delete(g, n, g);
            self.selection.apply_delta(&d);
        }
        self.start_offset = sat_add(self.start_offset, added);
        true
    }

    /// The screen row of window offset `offset`, when it is on screen.
    pub fn offset_to_row(&self, offset: usize) -> (r: Option<u16>)
        requires
            self.wf(),
        ensures
            offset < self.view_start() ==> r is None,
            offset >= self.view_start() && offset - self.view_start() > sat(
                self.bpl() * self.height() as int,
            ) ==> r is None,
            offset >= self.view_start() && offset - self.view_start() <= sat(
                self.bpl() * self.height() as int,
            ) ==> r == Some(((offset - self.view_start()) / self.bpl() as int) as u16),
    {
        if offset < self.start_offset {
            return None;
        }
        let normalized = offset - self.start_offset;
        let bpl = self.bytes_per_line;
        let h = self.size.1 as usize;
        let max_bytes = sat_mul(bpl, h);
        if normalized > max_bytes {
            return None;
        }
        let row = normalized / bpl;
        proof {
            assert(row <= h) by (nonlinear_arith)
                requires
                    bpl > 0,
                    row == normalized / bpl,
                    normalized <= bpl * h || bpl * h > usize::MAX,
                    normalized <= usize::MAX,
            ;
        }
        Some(row as u16)
    }

    /// The window offsets on screen, as `(start, end)`.
    pub fn visible_bytes(&self) -> (r: (usize, usize))
        requires
            self.wf(),
        ensures
            r.0 == self.visible_range().0,
            r.1 == self.visible_range().1,
    {
        let len = self.window.len();
        let full = sat_add(
            self.start_offset,
            sat_mul((self.size.1 - 1) as usize, self.bytes_per_line),
        );
        let past = sat_add(len, 1);
        let end = if past < full {
            past
        } else {
            full
        };
        (self.start_offset, end)
    }

    /// The styling of every byte on screen, in order.
    pub fn mark_commands(&self) -> (r: Vec<StylingCommand>)
        requires
            self.wf(),
        ensures
            ({
                let (start, end) = self.visible_range();
                if start <= end {
                    &&& r@.len() == end - start
                    &&& forall|j: int|
                        0 <= j < r@.len() ==> #[trigger] r@[j] == byte_command(
                            (start + j) as nat,
                            region_at(self.selection_view().regions(), (start + j) as nat),
                            self.half(),
                            self.bpl(),
                        )
                } else {
                    r@.len() == 0
                }
            }),
    {
        let (start, end) = self.visible_bytes();
        if start <= end {
            mark_commands(&self.selection, start, end, self.half_cursor, self.bytes_per_line)
        } else {
            Vec::new()
        }
    }

    /// Scrolls the screen `line_count` rows down, unless the end of the
    /// window is already on screen. When the rows fit on screen the
    /// terminal scrolls them, and only the newly shown rows at the bottom
    /// and the `panel_rows` top rows of the side panel are drawn again.
    pub fn scroll_down(&mut self, line_count: u16, panel_rows: u16) -> (r: Redraw)
        requires
            old(self).wf(),
        ensures
            final(self).wf(),
            final(self).window_view() == old(self).window_view(),
            final(self).selection_view() == old(self).selection_view(),
            final(self).bpl() == old(self).bpl(),
            final(self).height() == old(self).height(),
            ({
                let h = old(self).height();
                if old(self).visible_range().1 >= old(self).window_view().contents().len() {
                    r is Nothing && final(self).view_start() == old(self).view_start()
                } else {
                    &&& final(self).view_start() == sat(
                        old(self).view_start() + sat(old(self).bpl() * line_count) as int,
                    )
                    &&& line_count > h - 1 ==> r is Full
                    &&& line_count <= h - 1 ==> match r {
                        Redraw::Rows(n, rows) => n == line_count && rows@.len() == h && forall|
                            k: int,
                        |
                            0 <= k < h ==> #[trigger] rows@[k] == ((h - 1 - line_count <= k
                                && k <= h - 2) || k < panel_rows),
                        _ => false,
                    }
                }
            }),
    {
        let (_, end) = self.visible_bytes();
        if end >= self.window.len() {
            return Redraw::Nothing;
        }
        let step = sat_mul(self.bytes_per_line, line_count as usize);
        self.start_offset = sat_add(self.start_offset, step);
        let h = self.size.1;
        if line_count > h - 1 {
            return Redraw::Full;
        }
        let first = h - 1 - line_count;
        let rows = row_marks(h, first, h - 1, panel_rows);
        Redraw::Rows(line_count, rows)
    }

    /// Scrolls the screen `line_count` rows up, unless fewer rows are above
    /// it. When the rows fit on screen the terminal scrolls them, and only
    /// the newly shown rows at the top and the side panel's rows are drawn
    /// again.
    pub fn scroll_up(&mut self, line_count: u16, panel_rows: u16) -> (r: Redraw)
        requires
            old(self).wf(),
        ensures
            final(self).wf(),
            final(self).window_view() == old(self).window_view(),
            final(self).selection_view() == old(self).selection_view(),
            final(self).bpl() == old(self).bpl(),
            final(self).height() == old(self).height(),
            ({
                let h = old(self).height();
                let step = sat(old(self).bpl() * line_count as int);
                if old(self).view_start() < step {
                    r is Nothing && final(self).view_start() == old(self).view_start()
                } else {
                    &&& final(self).view_start() == old(self).view_start() - step
                    &&& line_count > h - 1 ==> r is Full
                    &&& line_count <= h - 1 ==> match r {
                        Redraw::Rows(n, rows) => n == line_count && rows@.len() == h && forall|
                            k: int,
                        |
                            0 <= k < h ==> #[trigger] rows@[k] == (k < line_count + panel_rows),
                        _ => false,
                    }
                }
            }),
    {
        let step = sat_mul(self.bytes_per_line, line_count as usize);
        if self.start_offset < step {
            return Redraw::Nothing;
        }
        self.start_offset = self.start_offset - step;
        let h = self.size.1;
        if line_count > h - 1 {
            return Redraw::Full;
        }
        let top = if (line_count as u32) + (panel_rows as u32) > h as u32 {
            h
        } else {
            line_count + panel_rows
        };
        let rows = row_marks(h, 0, top, 0);
        proof {
            assert forall|k: int| 0 <= k < h implies #[trigger] rows@[k] == (k < line_count
                + panel_rows) by {
            }
        }
        Redraw::Rows(line_count, rows)
    }

    /// The width of the status line: buffer name, mode name, selection
    /// count and main caret position, each in its segment.
    pub fn calculate_powerline_length(&self, mode_name: &str) -> (r: usize)
        requires
            self.wf(),
        ensures
            exists|m: int|
                0 <= m < self.selection_view().regions().len() && (#[trigger] self.selection_view().regions()[m]).is_main
                    && r == sat(
                    1 + 2 + self.name_bytes() + (if self.is_dirty() {
                        3int
                    } else {
                        0int
                    }) + 1int + 2 + mode_name.spec_bytes().len() as usize + 1 + dec_len(
                        self.selection_view().regions().len(),
                    ) + dec_len((m + 1) as nat) + 10 + 1 + (if self.window_view().contents().len()
                        > 0 {
                        hex_len(self.selection_view().regions()[m].caret as nat) + hex_len(
                            (self.window_view().contents().len() - 1) as nat,
                        ) + 3int
                    } else {
                        7int
                    }),
                ),
    {
        let sels = self.selection.len();
        let m = self.selection.main_selection();
        let name = self.buffer_name.as_str();
        assert(name.spec_bytes().len() as usize == self.name_bytes());
        let mut length: usize = 1;
        let ghost mut total: int = 1;
        let part = sat_add(2, name.len());
        proof {
            lemma_sat_add(total, part as int, 2 + self.name_bytes() as int);
            total = total + 2 + self.name_bytes();
        }
        length = sat_add(length, part);
        if self.dirty {
            proof {
                lemma_sat_add(total, 3, 3);
                total = total + 3;
            }
            length = sat_add(length, 3);
        }
        proof {
            lemma_sat_add(total, 1, 1);
            total = total + 1;
        }
        length = sat_add(length, 1);
        let part = sat_add(2, mode_name.len());
        proof {
            lemma_sat_add(total, part as int, 2 + mode_name.spec_bytes().len() as usize as int);
            total = total + 2 + mode_name.spec_bytes().len() as usize;
        }
        length = sat_add(length, part);
        proof {
            lemma_sat_add(total, 1, 1);
            total = total + 1;
        }
        length = sat_add(length, 1);
        let d1 = dec_digits(sels);
        let d2 = dec_digits(m + 1);
        let rest = sat_add(d2, 10);
        let part = sat_add(d1, rest);
        proof {
            lemma_sat_add(d1 as int, rest as int, d2 + 10);
            lemma_sat_add(total, part as int, d1 + d2 + 10);
            total = total + d1 + d2 + 10;
        }
        length = sat_add(length, part);
        proof {
            lemma_sat_add(total, 1, 1);
            total = total + 1;
        }
        length = sat_add(length, 1);
        let len = self.window.len();
        if len > 0 {
            let caret = self.selection.region(m).caret;
            let h1 = hex_digits(caret);
            let h2 = hex_digits(len - 1);
            let rest = sat_add(h2, 3);
            let part = sat_add(h1, rest);
            proof {
                lemma_sat_add(h1 as int, rest as int, h2 + 3);
                lemma_sat_add(total, part as int, h1 + h2 + 3);
                total = total + h1 + h2 + 3;
            }
            length = sat_add(length, part);
        } else {
            proof {
                lemma_sat_add(total, 7, 7);
                total = total + 7;
            }
            length = sat_add(length, 7);
        }
        proof {
            assert(self.selection_view().regions()[m as int].is_main);
            assert(length == sat(total));
        }
        length
    }

    /// Moves every caret `count` steps the given way: one byte sideways,
    /// one line up or down; the anchors follow unless `extend`.
    pub fn move_selection(&mut self, direction: Direction, count: usize, extend: bool)
        requires
            old(self).wf(),
        ensures
            final(self).wf(),
            final(self).window_view() == old(self).window_view(),
            final(self).view_start() == old(self).view_start(),
            final(self).bpl() == old(self).bpl(),
            final(self).height() == old(self).height(),
            final(self).half() == old(self).half(),
            final(self).selection_view().regions() == merge_all(
                old(self).selection_view().regions().map_values(
                    |r: Region|
                        moved_region(
                            r,
                            direction,
                            if direction is Up || direction is Down {
                                old(self).bpl() as usize
                            } else {
                                1usize
                            },
                            old(self).window_view().contents().len() as usize,
                            count,
                            extend,
                        ),
                ),
            ),
    {
        let stride = match direction {
            Direction::Up | Direction::Down => self.bytes_per_line,
            Direction::Left | Direction::Right => 1,
        };
        let len = self.window.len();
        self.selection.move_regions(direction, stride, len, count, extend);
    }

    /// The window offsets `[first, last)` of the bytes on screen row `row`.
    pub open spec fn row_range(&self, row: nat) -> (nat, nat) {
        let (vs, ve) = self.visible_range();
        let len = self.window_view().contents().len();
        let first = vs + row * self.bpl();
        let stop = if ve < len {
            ve
        } else {
            len
        };
        let last = if first + self.bpl() < stop {
            first + self.bpl()
        } else {
            stop
        };
        if first < last {
            (first, last)
        } else {
            (0, 0)
        }
    }

    /// The window offsets of the bytes on screen row `row`.
    pub fn row_bounds(&self, row: u16) -> (r: (usize, usize))
        requires
            self.wf(),
        ensures
            r.0 as nat == self.row_range(row as nat).0,
            r.1 as nat == self.row_range(row as nat).1,
            r.0 <= r.1 <= self.window_view().contents().len(),
    {
        let (vs, ve) = self.visible_bytes();
        let len = self.window.len();
        let bpl = self.bytes_per_line;
        let first = sat_add(vs, sat_mul(row as usize, bpl));
        proof {
            assert(row * bpl >= 0) by (nonlinear_arith)
                requires
                    row >= 0,
                    bpl >= 0,
            ;
        }
        let stop = if ve < len {
            ve
        } else {
            len
        };
        let last = if first < stop && bpl < stop - first {
            first + bpl
        } else {
            stop
        };
        if first < last {
            (first, last)
        } else {
            (0, 0)
        }
    }

    /// The cells of screen row `row`: its hex column and its text column,
    /// each starting in the default style.
    pub fn row_cells(&self, row: u16) -> (r: (Vec<Cell>, Vec<Cell>))
        requires
            self.wf(),
        ensures
            ({
                let (first, last) = self.row_range(row as nat);
                let bytes = self.window_view().contents().subrange(first as int, last as int);
                let marks = Seq::new(
                    (last - first) as nat,
                    |j: int|
                        byte_command(
                            (first + j) as nat,
                            region_at(self.selection_view().regions(), (first + j) as nat),
                            self.half(),
                            self.bpl(),
                        ),
                );
                &&& r.0@ == hex_run(bytes, marks, StyleKind::Default).0
                &&& r.1@ == text_run(bytes, marks, StyleKind::Default).0
            }),
    {
        let (first, last) = self.row_bounds(row);
        let bpl = self.bytes_per_line;
        let bytes = self.window.rope().slice_to_vec(first, last);
        let marks = mark_commands(&self.selection, first, last, self.half_cursor, bpl);
        let ghost want = Seq::new(
            (last - first) as nat,
            |j: int|
                byte_command(
                    (first + j) as nat,
                    region_at(self.selection_view().regions(), (first + j) as nat),
                    self.half(),
                    self.bpl(),
                ),
        );
        assert(marks@ =~= want);
        (hex_cells(&bytes, &marks, StyleKind::Default), text_cells(&bytes, &marks, StyleKind::Default))
    }

    /// Scrolls by whole rows until the main caret is on screen, as
    /// `scroll_up` and `scroll_down` do. With an empty window the screen
    /// goes to the start.
    pub fn maybe_update_offset(&mut self, panel_rows: u16) -> (r: Redraw)
        requires
            old(self).wf(),
        ensures
            final(self).wf(),
            final(self).window_view() == old(self).window_view(),
            final(self).selection_view() == old(self).selection_view(),
            final(self).bpl() == old(self).bpl(),
            final(self).height() == old(self).height(),
            ({
                let c = main_caret(old(self).selection_view().regions()) as int;
                let (vs, ve) = old(self).visible_range();
                let b = old(self).bpl() as int;
                if old(self).window_view().contents().len() == 0 {
                    final(self).view_start() == 0 && r is Nothing
                } else if c < vs {
                    let lines = clamp_u16((vs - c + b - 1) / b);
                    final(self).view_start() == if vs < sat(b * lines) {
                        vs
                    } else {
                        (vs - sat(b * lines)) as nat
                    }
                } else if c >= ve {
                    let lines = clamp_u16((c - (ve - 1) + b - 1) / b);
                    final(self).view_start() == if ve >= old(self).window_view().contents().len() {
                        vs
                    } else {
                        sat(vs + sat(b * lines) as int)
                    }
                } else {
                    final(self).view_start() == vs && r is Nothing
                }
            }),
    {
        if self.window.len() == 0 {
            self.start_offset = 0;
            return Redraw::Nothing;
        }
        let c = self.selection.main_cursor_offset();
        let (vs, ve) = self.visible_bytes();
        let bpl = self.bytes_per_line;
        proof {
            let h1 = self.height() - 1;
            assert(h1 * bpl >= 1) by (nonlinear_arith)
                requires
                    h1 >= 1,
                    bpl >= 1,
            ;
        }
        if c < vs {
            let lines = ceil_div(vs - c, bpl);
            self.scroll_up(to_u16(lines), panel_rows)
        } else if c >= ve {
            let lines = ceil_div(c - (ve - 1), bpl);
            self.scroll_down(to_u16(lines), panel_rows)
        } else {
            Redraw::Nothing
        }
    }

    /// Moves the screen straight to the main caret when it is off screen:
    /// to the caret's row when the caret is above, else so that the
    /// caret's row is the last one. The whole screen is then to be drawn.
    pub fn maybe_update_offset_and_draw(&mut self) -> (r: Redraw)
        requires
            old(self).wf(),
        ensures
            final(self).wf(),
            r is Full,
            final(self).window_view() == old(self).window_view(),
            final(self).selection_view() == old(self).selection_view(),
            final(self).bpl() == old(self).bpl(),
            final(self).height() == old(self).height(),
            ({
                let c = main_caret(old(self).selection_view().regions()) as int;
                let (vs, ve) = old(self).visible_range();
                let b = old(self).bpl() as int;
                let row_start = c - c % b;
                let screen = sat((old(self).height() - 1) * b);
                if c < vs {
                    final(self).view_start() == row_start
                } else if c >= ve {
                    final(self).view_start() == sat(sat(row_start + b) - screen)
                } else {
                    final(self).view_start() == vs
                }
            }),
    {
        let c = self.selection.main_cursor_offset();
        let (vs, ve) = self.visible_bytes();
        let bpl = self.bytes_per_line;
        proof {
            assert(c % bpl <= c) by (nonlinear_arith)
                requires
                    bpl > 0,
            ;
        }
        if c < vs {
            self.start_offset = c - c % bpl;
        } else if c >= ve {
            let screen = sat_mul((self.size.1 - 1) as usize, bpl);
            let end = sat_add(c - c % bpl, bpl);
            self.start_offset = if end < screen {
                0
            } else {
                end - screen
            };
        }
        Redraw::Full
    }

    /// Which screen rows show a byte of one of the changed ranges
    /// `[a, b)`, or belong to the `panel_rows` top rows of the side panel.
    pub fn changed_rows(&self, intervals: &Vec<(usize, usize)>, panel_rows: u16) -> (r: Vec<bool>)
        requires
            self.wf(),
        ensures
            r@.len() == self.height(),
            forall|k: int|
                0 <= k < self.height() ==> #[trigger] r@[k] == (k < panel_rows || exists|i: int|
                    0 <= i < intervals@.len() && #[trigger] row_hit(
                        intervals@[i],
                        self.visible_range(),
                        self.bpl(),
                        k,
                    )),
    {
        let (vs, ve) = self.visible_bytes();
        let bpl = self.bytes_per_line;
        let h = self.size.1;
        let mut r: Vec<bool> = Vec::new();
        let mut k: u16 = 0;
        while k < h
            invariant
                self.wf(),
                (vs as nat, ve as nat) == self.visible_range(),
                bpl == self.bpl(),
                h == self.height(),
                k <= h,
                r@.len() == k,
                forall|q: int|
                    0 <= q < k ==> #[trigger] r@[q] == (q < panel_rows || exists|i: int|
                        0 <= i < intervals@.len() && #[trigger] row_hit(
                            intervals@[i],
                            self.visible_range(),
                            self.bpl(),
                            q,
                        )),
            decreases h - k,
        {
            let rl = sat_add(vs, sat_mul(k as usize, bpl));
            let rh = sat_add(rl, bpl);
            proof {
                assert((k + 1) * bpl == k * bpl + bpl) by (nonlinear_arith);
                assert(k * bpl >= 0) by (nonlinear_arith)
                    requires
                        k >= 0,
                        bpl >= 0,
                ;
            }
            let mut hit = k < panel_rows;
            let mut i: usize = 0;
            while i < intervals.len()
                invariant
                    self.wf(),
                    (vs as nat, ve as nat) == self.visible_range(),
                    bpl == self.bpl(),
                    k < h,
                    i <= intervals@.len(),
                    rl == sat(vs + sat(k * bpl) as int),
                    rh == sat(rl + bpl),
                    (k + 1) * bpl == k * bpl + bpl,
                    k * bpl >= 0,
                    hit == (k < panel_rows || exists|m: int|
                        0 <= m < i && #[trigger] row_hit(
                            intervals@[m],
                            self.visible_range(),
                            self.bpl(),
                            k as int,
                        )),
                decreases intervals@.len() - i,
            {
                let (a, b) = intervals[i];
                let lo = if a < vs {
                    vs
                } else {
                    a
                };
                let hi = if b < ve {
                    b
                } else {
                    ve
                };
                let this = lo < hi && rl < hi && lo < rh;
                proof {
                    assert(this == row_hit(intervals@[i as int], self.visible_range(), self.bpl(), k as int));
                    if this {
                        assert(row_hit(intervals@[i as int], self.visible_range(), self.bpl(), k as int));
                    }
                }
                hit = hit || this;
                i = i + 1;
            }
            r.push(hit);
            k = k + 1;
        }
        r
    }
}

/// Whether screen row `k` of a screen `visible` with `bpl` bytes per row
/// shows a byte of `[iv.0, iv.1)`.
pub open spec fn row_hit(iv: (usize, usize), visible: (nat, nat), bpl: nat, k: int) -> bool {
    let lo = if iv.0 < visible.0 {
        visible.0 as int
    } else {
        iv.0 as int
    };
    let hi = if iv.1 < visible.1 {
        iv.1 as int
    } else {
        visible.1 as int
    };
    &&& lo < hi
    &&& visible.0 + k * bpl < hi
    &&& lo < visible.0 + (k + 1) * bpl
}

pub open spec fn clamp_u16(x: int) -> u16 {
    if x > u16::MAX {
        u16::MAX
    } else {
        x as u16
    }
}

fn to_u16(x: usize) -> (r: u16)
    ensures
        r == clamp_u16(x as int),
{
    if x > 65535 {
        65535
    } else {
        x as u16
    }
}

/// `ceil(d / b)`.
fn ceil_div(d: usize, b: usize) -> (r: usize)
    requires
        b > 0,
    ensures
        r == (d + b - 1) / b as int,
{
    let q = d / b;
    proof {
        assert(d % b != 0 ==> q < usize::MAX) by (nonlinear_arith)
            requires
                b > 0,
                q == d / b,
                d <= usize::MAX,
        ;
    }
    let r = if d % b == 0 {
        q
    } else {
        q + 1
    };
    proof {
        assert(r == (d + b - 1) / b as int) by (nonlinear_arith)
            requires
                b > 0,
                q == d / b,
                d % b == 0 ==> r == q,
                d % b != 0 ==> r == q + 1,
        ;
    }
    r
}

/// Marks for the rows of a screen of `h` rows: rows in `[lo, hi)` and rows
/// below `panel`.
fn row_marks(h: u16, lo: u16, hi: u16, panel: u16) -> (r: Vec<bool>)
    ensures
        r@.len() == h,
        forall|k: int| 0 <= k < h ==> #[trigger] r@[k] == ((lo <= k && k < hi) || k < panel),
{
    let mut r: Vec<bool> = Vec::new();
    let mut k: u16 = 0;
    while k < h
        invariant
            k <= h,
            r@.len() == k,
            forall|q: int| 0 <= q < k ==> #[trigger] r@[q] == ((lo <= q && q < hi) || q < panel),
        decreases h - k,
    {
        r.push((lo <= k && k < hi) || k < panel);
        k = k + 1;
    }
    r
}

/// Adding a saturated part saturates the same as adding the part.
pub proof fn lemma_sat_add(a: int, b: int, exact: int)
    requires
        0 <= a,
        0 <= exact,
        b == sat(exact),
    ensures
        sat(sat(a) + b) == sat(a + exact),
{
}

pub proof fn lemma_valid_grow(s: Seq<crate::selection::Region>, a: nat, b: nat)
    requires
        valid_regions(s, a),
        a <= b,
    ensures
        valid_regions(s, b),
{
    assert forall|k: int| 0 <= k < s.len() implies (#[trigger] s[k]).anchor <= b && s[k].caret
        <= b by {
        assert(s[k].anchor <= a && s[k].caret <= a);
    }
}

} // verus!
