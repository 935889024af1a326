use teehee::delta::Delta;
use teehee::history::History;
use teehee::rope::ByteRope;

#[test]
fn undo_all_then_redo_some() {
    let mut h = History::new(ByteRope::from_vec(vec![1, 2, 3]));
    let edits = vec![
        Delta::insert(3, 3, vec![4]),
        Delta::delete(4, 0, 1),
        Delta::replace(3, 1, 2, vec![7, 8]),
    ];
    let mut states = vec![h.rope().to_vec()];
    for d in edits.iter() {
        h.apply_and_record(d).unwrap();
        h.commit();
        states.push(h.rope().to_vec());
    }
    assert_eq!(states[3], vec![2, 7, 8, 4]);
    for i in (0..3).rev() {
        assert!(h.undo().is_some());
        assert_eq!(h.rope().to_vec(), states[i]);
    }
    assert!(h.undo().is_none());
    assert_eq!(h.rope().to_vec(), vec![1, 2, 3]);
    for i in 1..3 {
        assert!(h.redo().is_some());
        assert_eq!(h.rope().to_vec(), states[i]);
    }
}

#[test]
fn commit_undo_redo_round_trip() {
    let mut h = History::new(ByteRope::from_vec(vec![0, 1, 2, 3]));
    h.apply_and_record(&Delta::delete(4, 0, 1)).unwrap();
    h.commit();
    let committed = h.rope().to_vec();
    assert!(h.undo().is_some());
    assert_eq!(h.rope().to_vec(), vec![0, 1, 2, 3]);
    assert!(h.redo().is_some());
    assert_eq!(h.rope().to_vec(), committed);
    assert!(h.redo().is_none());
}

#[test]
fn coalesced_edits_undo_as_one() {
    let mut h = History::new(ByteRope::from_vec(vec![0, 1]));
    h.apply_and_record(&Delta::insert(2, 2, vec![2])).unwrap();
    h.apply_and_record(&Delta::insert(3, 3, vec![3])).unwrap();
    h.apply_and_record(&Delta::delete(4, 0, 1)).unwrap();
    assert_eq!(h.rope().to_vec(), vec![1, 2, 3]);
    assert!(h.undo().is_some());
    assert_eq!(h.rope().to_vec(), vec![0, 1]);
    assert!(h.redo().is_some());
    assert_eq!(h.rope().to_vec(), vec![1, 2, 3]);
}

#[test]
fn new_edit_drops_redo() {
    let mut h = History::new(ByteRope::from_vec(vec![5]));
    h.apply_and_record(&Delta::insert(1, 1, vec![6])).unwrap();
    h.commit();
    assert!(h.undo().is_some());
    h.apply_and_record(&Delta::insert(1, 0, vec![4])).unwrap();
    h.commit();
    assert!(h.redo().is_none());
    assert_eq!(h.rope().to_vec(), vec![4, 5]);
}

#[test]
fn empty_stacks_are_no_ops() {
    let mut h = History::new(ByteRope::from_vec(vec![9]));
    assert!(h.undo().is_none());
    assert!(h.redo().is_none());
    assert_eq!(h.rope().to_vec(), vec![9]);
}

#[test]
fn record_with_wrong_length_changes_nothing() {
    let mut h = History::new(ByteRope::from_vec(vec![9, 8]));
    assert!(h.apply_and_record(&Delta::delete(5, 0, 1)).is_err());
    assert_eq!(h.rope().to_vec(), vec![9, 8]);
    assert!(h.undo().is_none());
}
