use teehee::delta::{Delta, DeltaElement, LengthMismatch};
use teehee::rope::ByteRope;

fn rope(bytes: Vec<u8>) -> ByteRope {
    ByteRope::from_vec(bytes)
}

#[test]
fn invert_undoes_a_mixed_edit() {
    let base = rope(vec![10, 11, 12, 13, 14, 15]);
    let d = Delta {
        base_len: 6,
        els: vec![
            DeltaElement::Insert(vec![1, 2]),
            DeltaElement::Copy(1, 3),
            DeltaElement::Insert(vec![9]),
            DeltaElement::Copy(4, 5),
        ],
    };
    let edited = base.apply_delta(&d).unwrap();
    assert_eq!(edited.to_vec(), vec![1, 2, 11, 12, 9, 14]);
    let inv = d.invert(&base);
    assert_eq!(inv.base_len, 6);
    let back = edited.apply_delta(&inv).unwrap();
    assert_eq!(back.to_vec(), vec![10, 11, 12, 13, 14, 15]);
}

#[test]
fn invert_of_identity_restores_empty_rope() {
    let base = rope(vec![]);
    let d = Delta::insert(0, 0, vec![7, 8]);
    let edited = base.apply_delta(&d).unwrap();
    assert_eq!(edited.to_vec(), vec![7, 8]);
    let back = edited.apply_delta(&d.invert(&base)).unwrap();
    assert_eq!(back.to_vec(), Vec::<u8>::new());
}

#[test]
fn chain_matches_applying_in_turn() {
    let base = rope(vec![0, 1, 2, 3, 4, 5, 6, 7]);
    let d1 = Delta::replace(8, 2, 5, vec![20, 21]);
    let mid = base.apply_delta(&d1).unwrap();
    assert_eq!(mid.to_vec(), vec![0, 1, 20, 21, 5, 6, 7]);
    let d2 = Delta::replace(7, 1, 3, vec![30]);
    let fin = mid.apply_delta(&d2).unwrap();
    assert_eq!(fin.to_vec(), vec![0, 30, 21, 5, 6, 7]);
    let c = d1.chain(&d2);
    assert_eq!(base.apply_delta(&c).unwrap().to_vec(), vec![0, 30, 21, 5, 6, 7]);
    let back = fin.apply_delta(&c.invert(&base)).unwrap();
    assert_eq!(back.to_vec(), vec![0, 1, 2, 3, 4, 5, 6, 7]);
}

#[test]
fn chain_with_identity_keeps_the_other_delta() {
    let base = rope(vec![4, 5, 6]);
    let d = Delta::delete(3, 1, 2);
    let id = Delta::identity(2);
    let c = d.chain(&id);
    assert_eq!(base.apply_delta(&c).unwrap().to_vec(), vec![4, 6]);
    let id0 = Delta::identity(3);
    let c2 = id0.chain(&d);
    assert_eq!(base.apply_delta(&c2).unwrap().to_vec(), vec![4, 6]);
}

#[test]
fn chain_of_overlapping_deletes() {
    let base = rope(vec![0, 1, 2, 3, 4, 5]);
    let d1 = Delta::delete(6, 1, 4);
    let d2 = Delta::delete(3, 0, 2);
    let c = d1.chain(&d2);
    assert_eq!(base.apply_delta(&c).unwrap().to_vec(), vec![5]);
}

#[test]
fn chain_insert_where_a_delete_happened() {
    // The later insertion lands exactly where the earlier deletion was; the
    // inserted bytes stay at that position in the final text.
    let base = rope(vec![0, 1, 2, 3]);
    let d1 = Delta::delete(4, 1, 3);
    let d2 = Delta::insert(2, 1, vec![9]);
    let c = d1.chain(&d2);
    assert_eq!(base.apply_delta(&c).unwrap().to_vec(), vec![0, 9, 3]);
    let fin = base.apply_delta(&c).unwrap();
    assert_eq!(fin.apply_delta(&c.invert(&base)).unwrap().to_vec(), vec![0, 1, 2, 3]);
}

#[test]
fn scenario_delete_first_byte() {
    let base = rope(vec![0, 1, 2, 3]);
    let d = Delta::delete(4, 0, 1);
    let out = base.apply_delta(&d).unwrap();
    assert_eq!(out.to_vec(), vec![1, 2, 3]);
    assert_eq!(out.apply_delta(&d.invert(&base)).unwrap().to_vec(), vec![0, 1, 2, 3]);
}

#[test]
fn scenario_delete_middle() {
    let base = rope(vec![0, 1, 2, 3]);
    let d = Delta::delete(4, 1, 3);
    let out = base.apply_delta(&d).unwrap();
    assert_eq!(out.to_vec(), vec![0, 3]);
    assert_eq!(out.apply_delta(&d.invert(&base)).unwrap().to_vec(), vec![0, 1, 2, 3]);
}

#[test]
fn scenario_two_inserts_chained() {
    let base = rope(vec![0, 1, 2, 3]);
    let d1 = Delta::insert(4, 1, vec![5]);
    let mid = base.apply_delta(&d1).unwrap();
    assert_eq!(mid.to_vec(), vec![0, 5, 1, 2, 3]);
    let d2 = Delta::insert(5, 2, vec![6]);
    assert_eq!(mid.apply_delta(&d2).unwrap().to_vec(), vec![0, 5, 6, 1, 2, 3]);
    let c = d1.chain(&d2);
    assert_eq!(base.apply_delta(&c).unwrap().to_vec(), vec![0, 5, 6, 1, 2, 3]);
}

#[test]
fn apply_to_wrong_length_is_an_error() {
    let base = rope(vec![0, 1, 2]);
    let d = Delta::delete(4, 0, 1);
    match base.apply_delta(&d) {
        Err(e) => assert_eq!(e, LengthMismatch { expected: 4, found: 3 }),
        Ok(_) => panic!("a delta for four bytes applied to three"),
    }
}

#[test]
fn rope_slices_and_reads() {
    let r = rope(vec![3, 4, 5, 6]);
    assert_eq!(r.len(), 4);
    assert!(!r.is_empty());
    assert_eq!(r.byte_at(2), 5);
    assert_eq!(r.slice_to_vec(1, 3), vec![4, 5]);
    assert!(ByteRope::empty().is_empty());
}

#[test]
fn validity_of_hand_made_deltas() {
    let ok = Delta { base_len: 4, els: vec![DeltaElement::Copy(0, 1), DeltaElement::Insert(vec![1]), DeltaElement::Copy(2, 4)] };
    assert!(ok.is_valid());
    let overlapping = Delta { base_len: 4, els: vec![DeltaElement::Copy(0, 2), DeltaElement::Copy(1, 3)] };
    assert!(!overlapping.is_valid());
    let past_end = Delta { base_len: 4, els: vec![DeltaElement::Copy(2, 5)] };
    assert!(!past_end.is_valid());
    let backwards = Delta { base_len: 4, els: vec![DeltaElement::Copy(3, 2)] };
    assert!(!backwards.is_valid());
}

#[test]
fn duplicate_keeps_bytes() {
    let r = ByteRope::from_vec(vec![1, 2, 3]);
    let d = r.duplicate();
    assert_eq!(d.to_vec(), vec![1, 2, 3]);
    let edited = d.apply_delta(&Delta::replace(3, 1, 2, vec![9, 9])).unwrap();
    assert_eq!(edited.to_vec(), vec![1, 9, 9, 3]);
    assert_eq!(r.to_vec(), vec![1, 2, 3]);
    assert_eq!(edited.slice_to_vec(2, 4), vec![9, 3]);
}
