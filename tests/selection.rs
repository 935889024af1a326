use teehee::buffer::CurrentBuffer;
use teehee::delta::Delta;
use teehee::rope::ByteRope;
use teehee::selection::{Direction, Region, Selection};

fn region(anchor: usize, caret: usize, is_main: bool) -> Region {
    Region { anchor, caret, is_main }
}

fn regions_of(sel: &Selection) -> Vec<Region> {
    (0..sel.len()).map(|k| sel.region(k)).collect()
}

fn check_valid(sel: &Selection, len: usize) {
    let rs = regions_of(sel);
    assert!(!rs.is_empty());
    assert_eq!(rs.iter().filter(|r| r.is_main).count(), 1);
    for r in rs.iter() {
        assert!(r.anchor <= len && r.caret <= len);
    }
    for w in rs.windows(2) {
        assert!(w[0].max() < w[1].min());
    }
}

#[test]
fn remap_through_insert_and_delete() {
    let mut sel = Selection::from_regions(
        vec![region(0, 1, false), region(4, 4, true), region(8, 6, false)],
        10,
    )
    .unwrap();
    // Insert two bytes at 4: offsets before stay, offsets at or after move.
    sel.apply_delta(&Delta::insert(10, 4, vec![1, 2]));
    assert_eq!(regions_of(&sel), vec![region(0, 1, false), region(6, 6, true), region(10, 8, false)]);
    check_valid(&sel, 12);
    // Delete [5, 9): offsets inside go to the next kept byte, regions merge.
    sel.apply_delta(&Delta::delete(12, 5, 9));
    assert_eq!(regions_of(&sel), vec![region(0, 1, false), region(5, 6, true)]);
    check_valid(&sel, 8);
}

#[test]
fn remap_merges_collapsed_regions() {
    let mut sel = Selection::from_regions(vec![region(1, 1, false), region(3, 3, true)], 5).unwrap();
    sel.apply_delta(&Delta::delete(5, 1, 4));
    assert_eq!(regions_of(&sel), vec![region(1, 1, true)]);
    check_valid(&sel, 2);
}

#[test]
fn moves_clamp_and_merge() {
    let mut sel = Selection::from_regions(vec![region(0, 0, false), region(2, 2, true)], 4).unwrap();
    sel.move_regions(Direction::Right, 1, 4, 10, false);
    assert_eq!(regions_of(&sel), vec![region(4, 4, true)]);
    check_valid(&sel, 4);
}

#[test]
fn extend_keeps_anchor() {
    let mut sel = Selection::new();
    sel.move_regions(Direction::Down, 16, 100, 2, true);
    assert_eq!(regions_of(&sel), vec![region(0, 32, true)]);
    sel.move_regions(Direction::Up, 16, 100, 1, false);
    assert_eq!(regions_of(&sel), vec![region(16, 16, true)]);
    assert_eq!(sel.main_cursor_offset(), 16);
    assert_eq!(sel.main_selection(), 0);
}

#[test]
fn simple_move_saturates() {
    let r = region(5, 5, true);
    assert_eq!(r.simple_move(Direction::Left, 1, 10, 9), region(0, 0, true));
    assert_eq!(r.simple_move(Direction::Down, usize::MAX, 10, 2), region(10, 10, true));
    assert_eq!(r.simple_extend(Direction::Right, 1, 10, 3), region(5, 8, true));
}

#[test]
fn invalid_regions_are_refused() {
    assert!(Selection::from_regions(vec![], 3).is_none());
    assert!(Selection::from_regions(vec![region(0, 4, true)], 3).is_none());
    assert!(Selection::from_regions(vec![region(0, 1, true), region(1, 2, false)], 3).is_none());
    assert!(Selection::from_regions(vec![region(0, 0, true), region(2, 2, true)], 3).is_none());
    assert!(Selection::from_regions(vec![region(0, 0, false)], 3).is_none());
}

#[test]
fn regions_in_range_keeps_whole_regions() {
    let sel = Selection::from_regions(
        vec![region(0, 3, true), region(6, 9, false), region(12, 12, false)],
        20,
    )
    .unwrap();
    let rs = sel.regions_in_range(2, 7);
    assert_eq!(rs, vec![region(0, 3, true), region(6, 9, false)]);
}

#[test]
fn edits_keep_selection_valid() {
    let mut buf = CurrentBuffer::new(ByteRope::from_vec(vec![0, 1, 2, 3, 4, 5, 6, 7]));
    buf.apply_delta(Delta::insert(8, 8, vec![8, 9])).unwrap();
    check_valid(buf.selection(), 10);
    buf.apply_delta(Delta::delete(10, 0, 10)).unwrap();
    check_valid(buf.selection(), 0);
    assert_eq!(buf.data_rope().to_vec(), Vec::<u8>::new());
    assert!(buf.apply_delta(Delta::delete(3, 0, 1)).is_err());
}

#[test]
fn replace_selected_sets_selected_bytes() {
    let mut buf = CurrentBuffer::new(ByteRope::from_vec(vec![0, 1, 2, 3, 4]));
    buf.replace_selected(0xaa);
    assert_eq!(buf.data_rope().to_vec(), vec![0xaa, 1, 2, 3, 4]);
    buf.commit();
}

#[test]
fn undo_and_redo_move_cursors_with_the_bytes() {
    let mut buf = CurrentBuffer::new(ByteRope::from_vec(vec![0, 1, 2, 3]));
    buf.apply_delta(Delta::insert(4, 0, vec![7, 7])).unwrap();
    assert_eq!(buf.selection().main_cursor_offset(), 2);
    buf.commit();
    assert!(buf.undo());
    assert_eq!(buf.data_rope().to_vec(), vec![0, 1, 2, 3]);
    assert_eq!(buf.selection().main_cursor_offset(), 0);
    check_valid(buf.selection(), 4);
    assert!(buf.redo());
    assert_eq!(buf.data_rope().to_vec(), vec![7, 7, 0, 1, 2, 3]);
    check_valid(buf.selection(), 6);
    assert!(!buf.redo());
}
