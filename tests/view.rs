use teehee::render::{hex_cells, text_cells, Cell, Glyph, StyleKind, StylingCommand};
use teehee::selection::Direction;
use teehee::view::{HexView, Redraw};
use teehee::window::Window;

fn small_view() -> HexView {
    let bytes: Vec<u8> = (0..40).collect();
    let w = Window::new(40, 40, bytes).unwrap();
    HexView::with_window(w, (80, 5), "f".to_string())
}

#[test]
fn rows_of_offsets() {
    let mut v = small_view();
    assert_eq!(v.offset_to_row(0), Some(0));
    assert_eq!(v.offset_to_row(17), Some(1));
    assert_eq!(v.offset_to_row(80), Some(5));
    assert_eq!(v.offset_to_row(81), None);
    v.set_bytes_per_line(8);
    assert_eq!(v.bytes_per_line(), 8);
    assert_eq!(v.offset_to_row(17), Some(2));
}

#[test]
fn visible_range_stops_past_the_last_byte() {
    let v = small_view();
    assert_eq!(v.visible_bytes(), (0, 41));
}

#[test]
fn styling_of_the_first_line() {
    let v = small_view();
    let marks = v.mark_commands();
    assert_eq!(marks.len(), 41);
    assert_eq!(
        marks[0],
        StylingCommand { start: Some(StyleKind::ActiveCaret), mid: None, end: Some(StyleKind::Default) }
    );
    assert_eq!(marks[1], StylingCommand { start: None, mid: None, end: None });
    assert_eq!(marks[15], StylingCommand { start: None, mid: None, end: Some(StyleKind::Default) });
    assert_eq!(marks[16], StylingCommand { start: Some(StyleKind::Default), mid: None, end: None });
}

#[test]
fn half_cursor_styling() {
    let mut v = small_view();
    v.set_half_cursor(true);
    let marks = v.mark_commands();
    assert_eq!(
        marks[0],
        StylingCommand {
            start: Some(StyleKind::ActiveSelection),
            mid: Some(StyleKind::ActiveCaret),
            end: Some(StyleKind::Default),
        }
    );
}

#[test]
fn status_line_width() {
    let v = small_view();
    assert_eq!(v.calculate_powerline_length("NORMAL"), 33);
}

#[test]
fn scrolling_marks_new_rows() {
    let bytes: Vec<u8> = (0..200).map(|i| i as u8).collect();
    let w = Window::new(200, 200, bytes).unwrap();
    let mut v = HexView::with_window(w, (80, 6), "f".to_string());
    match v.scroll_down(2, 1) {
        Redraw::Rows(n, rows) => {
            assert_eq!(n, 2);
            assert_eq!(rows, vec![true, false, false, true, true, false]);
        }
        _ => panic!("two rows fit on screen"),
    }
    assert_eq!(v.start_offset(), 32);
    match v.scroll_up(1, 0) {
        Redraw::Rows(n, rows) => {
            assert_eq!(n, 1);
            assert_eq!(rows, vec![true, false, false, false, false, false]);
        }
        _ => panic!("one row fits on screen"),
    }
    assert_eq!(v.start_offset(), 16);
    assert!(matches!(v.scroll_up(2, 0), Redraw::Nothing));
    assert!(matches!(v.scroll_down(9, 0), Redraw::Full));
}

fn tall_view() -> HexView {
    let bytes: Vec<u8> = (0..200).map(|i| i as u8).collect();
    let w = Window::new(200, 200, bytes).unwrap();
    HexView::with_window(w, (80, 6), "f".to_string())
}

#[test]
fn screen_follows_the_caret_by_rows() {
    let mut v = tall_view();
    assert_eq!(v.visible_bytes(), (0, 80));
    v.move_selection(Direction::Down, 6, false);
    assert_eq!(v.selection().main_cursor_offset(), 96);
    match v.maybe_update_offset(0) {
        Redraw::Rows(n, rows) => {
            assert_eq!(n, 2);
            assert_eq!(rows, vec![false, false, false, true, true, false]);
        }
        _ => panic!("two rows fit on screen"),
    }
    assert_eq!(v.start_offset(), 32);
    assert!(matches!(v.maybe_update_offset(0), Redraw::Nothing));
}

#[test]
fn screen_jumps_to_the_caret() {
    let mut v = tall_view();
    v.move_selection(Direction::Down, 6, false);
    v.maybe_update_offset(0);
    v.move_selection(Direction::Up, 6, false);
    assert!(matches!(v.maybe_update_offset_and_draw(), Redraw::Full));
    assert_eq!(v.start_offset(), 0);
    v.move_selection(Direction::Right, 150, false);
    assert!(matches!(v.maybe_update_offset_and_draw(), Redraw::Full));
    assert_eq!(v.start_offset(), 80);
}

#[test]
fn changed_bytes_mark_their_rows() {
    let mut v = tall_view();
    v.move_selection(Direction::Right, 150, false);
    v.maybe_update_offset_and_draw();
    assert_eq!(v.visible_bytes(), (80, 160));
    let rows = v.changed_rows(&vec![(0, 10), (100, 101), (150, 300)], 1);
    assert_eq!(rows, vec![true, true, false, false, true, false]);
}

#[test]
fn extending_selection_styles_the_region() {
    let mut v = small_view();
    v.move_selection(Direction::Right, 2, true);
    let marks = v.mark_commands();
    assert_eq!(marks[0].start, Some(StyleKind::ActiveSelection));
    assert_eq!(marks[2].start, Some(StyleKind::ActiveCaret));
    assert_eq!(marks[2].end, Some(StyleKind::Default));
}

#[test]
fn cells_of_a_row() {
    let bytes: Vec<u8> = vec![0x4a, 0x00, 0x7f];
    let w = Window::new(3, 16, bytes).unwrap();
    let v = HexView::with_window(w, (80, 5), "f".to_string());
    let (hex, text) = v.row_cells(0);
    assert_eq!(hex.len(), 9);
    assert_eq!(hex[0], Cell { style: StyleKind::ActiveCaret, glyph: Glyph::High(4) });
    assert_eq!(hex[1], Cell { style: StyleKind::ActiveCaret, glyph: Glyph::Low(0xa) });
    assert_eq!(hex[2], Cell { style: StyleKind::Default, glyph: Glyph::Blank });
    assert_eq!(hex[6], Cell { style: StyleKind::Default, glyph: Glyph::High(7) });
    assert_eq!(text, vec![
        Cell { style: StyleKind::ActiveCaret, glyph: Glyph::Text(0x4a) },
        Cell { style: StyleKind::Default, glyph: Glyph::Text(0x00) },
        Cell { style: StyleKind::Default, glyph: Glyph::Text(0x7f) },
    ]);
    let (hex1, text1) = v.row_cells(1);
    assert!(hex1.is_empty() && text1.is_empty());
    assert_eq!(v.row_bounds(0), (0, 3));
}

#[test]
fn cells_with_half_cursor() {
    let marks = vec![StylingCommand {
        start: Some(StyleKind::ActiveSelection),
        mid: Some(StyleKind::ActiveCaret),
        end: Some(StyleKind::Default),
    }];
    let cells = hex_cells(&vec![0xb3], &marks, StyleKind::Default);
    assert_eq!(cells, vec![
        Cell { style: StyleKind::ActiveSelection, glyph: Glyph::High(0xb) },
        Cell { style: StyleKind::ActiveCaret, glyph: Glyph::Low(3) },
        Cell { style: StyleKind::Default, glyph: Glyph::Blank },
    ]);
    let text = text_cells(&vec![0xb3], &marks, StyleKind::InactiveSelection);
    assert_eq!(text, vec![Cell { style: StyleKind::ActiveSelection, glyph: Glyph::Text(0xb3) }]);
}
