use teehee::delta::Delta;
use teehee::history::Action;
use teehee::rope::ByteRope;
use teehee::subset::Subset;

fn rope(bytes: Vec<u8>) -> ByteRope {
    ByteRope::from_vec(bytes)
}

fn delete_from_string(subset: &Subset, text: &str) -> String {
    String::from_utf8(subset.delete_from(&text.as_bytes().to_vec())).unwrap()
}

#[test]
fn test_delete() {
    let base_rope = rope(vec![0, 1, 2, 3]);
    let deletion = Delta::delete(base_rope.len(), 0, 1);
    let inversion = Action::from_delta(deletion.clone()).invert(&base_rope);

    let erased_rope = base_rope.apply_delta(&deletion).unwrap();
    assert_eq!(&erased_rope.to_vec(), &vec![1, 2, 3]);
    let unerased_rope = erased_rope.apply_delta(&inversion.delta).unwrap();
    assert_eq!(&unerased_rope.to_vec(), &vec![0, 1, 2, 3]);
}

#[test]
fn test_middle_delete() {
    let base_rope = rope(vec![0, 1, 2, 3]);
    let deletion = Delta::delete(base_rope.len(), 1, 3);
    let inversion = Action::from_delta(deletion.clone()).invert(&base_rope);

    let erased_rope = base_rope.apply_delta(&deletion).unwrap();
    assert_eq!(&erased_rope.to_vec(), &vec![0, 3]);
    let unerased_rope = erased_rope.apply_delta(&inversion.delta).unwrap();
    assert_eq!(&unerased_rope.to_vec(), &vec![0, 1, 2, 3]);
}

#[test]
fn test_insert() {
    let base_rope = rope(vec![0, 1, 2, 3]);
    let insertion = Delta::replace(base_rope.len(), 1, 1, vec![5]);
    let inversion = Action::from_delta(insertion.clone()).invert(&base_rope);

    let inserted_rope = base_rope.apply_delta(&insertion).unwrap();
    assert_eq!(&inserted_rope.to_vec(), &vec![0, 5, 1, 2, 3]);
    let uninserted_rope = inserted_rope.apply_delta(&inversion.delta).unwrap();
    assert_eq!(&uninserted_rope.to_vec(), &vec![0, 1, 2, 3]);
}

#[test]
fn test_replace() {
    let base_rope = rope(vec![0, 1, 2, 3]);
    let sub = Delta::replace(base_rope.len(), 1, 2, vec![5, 6]);
    let inversion = Action::from_delta(sub.clone()).invert(&base_rope);

    let replaced_rope = base_rope.apply_delta(&sub).unwrap();
    assert_eq!(&replaced_rope.to_vec(), &vec![0, 5, 6, 2, 3]);
    let unreplaced_rope = replaced_rope.apply_delta(&inversion.delta).unwrap();
    assert_eq!(&unreplaced_rope.to_vec(), &vec![0, 1, 2, 3]);
}

#[test]
fn test_chain_delete() {
    let base_rope = rope(vec![0, 1, 2, 3]);
    let deletion1 = Delta::delete(base_rope.len(), 0, 1);
    let mid_rope = base_rope.apply_delta(&deletion1).unwrap();

    let deletion2 = Delta::delete(mid_rope.len(), 0, 1);
    let final_rope = mid_rope.apply_delta(&deletion2).unwrap();

    assert_eq!(&final_rope.to_vec(), &vec![2, 3]);
    let chained_subsets = Action::from_delta(deletion1.clone()).subsets_for_chain(deletion2.clone());
    assert_eq!(&delete_from_string(&chained_subsets.0, "0123"), "0123");
    assert_eq!(&delete_from_string(&chained_subsets.1, "0123"), "23");
    assert_eq!(&delete_from_string(&chained_subsets.2, "123"), "123");

    let chained_delta = Action::from_delta(deletion1).chain(deletion2);
    let chain_final_rope = base_rope.apply_delta(&chained_delta.delta).unwrap();
    assert_eq!(&chain_final_rope.to_vec(), &vec![2, 3]);
}

#[test]
fn test_chain_delete_insert() {
    let base_rope = rope(vec![0, 1, 2, 3]);
    let deletion1 = Delta::delete(base_rope.len(), 0, 1);
    let mid_rope = base_rope.apply_delta(&deletion1).unwrap();

    let insertion = Delta::replace(mid_rope.len(), 1, 1, vec![5, 6]);
    let final_rope = mid_rope.apply_delta(&insertion).unwrap();

    assert_eq!(&final_rope.to_vec(), &vec![1, 5, 6, 2, 3]);
    let chained_subsets = Action::from_delta(deletion1.clone()).subsets_for_chain(insertion.clone());
    assert_eq!(&delete_from_string(&chained_subsets.0, "015623"), "0123");
    assert_eq!(&delete_from_string(&chained_subsets.1, "015623"), "15623");
    assert_eq!(&delete_from_string(&chained_subsets.2, "15623"), "123");

    let chained_delta = Action::from_delta(deletion1).chain(insertion);
    let chain_final_rope = base_rope.apply_delta(&chained_delta.delta).unwrap();
    assert_eq!(&chain_final_rope.to_vec(), &vec![1, 5, 6, 2, 3]);
}

#[test]
fn test_chain_insert_delete() {
    let base_rope = rope(vec![0, 1, 2, 3]);
    let insertion = Delta::replace(base_rope.len(), 0, 0, vec![5, 6, 7]);
    let mid_rope = base_rope.apply_delta(&insertion).unwrap();

    let deletion = Delta::delete(mid_rope.len(), 0, 1);
    let final_rope = mid_rope.apply_delta(&deletion).unwrap();

    assert_eq!(&final_rope.to_vec(), &vec![6, 7, 0, 1, 2, 3]);
    let chained_subsets = Action::from_delta(insertion.clone()).subsets_for_chain(deletion.clone());
    assert_eq!(&delete_from_string(&chained_subsets.0, "5670123"), "0123");
    assert_eq!(&delete_from_string(&chained_subsets.1, "5670123"), "670123");
    assert_eq!(&delete_from_string(&chained_subsets.2, "5670123"), "0123");

    let chained_delta = Action::from_delta(insertion).chain(deletion);
    let chain_final_rope = base_rope.apply_delta(&chained_delta.delta).unwrap();
    assert_eq!(&chain_final_rope.to_vec(), &vec![6, 7, 0, 1, 2, 3]);
}

#[test]
fn test_chain_insert() {
    let base_rope = rope(vec![0, 1, 2, 3]);
    let insertion1 = Delta::replace(base_rope.len(), 1, 1, vec![5]);
    let mid_rope = base_rope.apply_delta(&insertion1).unwrap();

    let insertion2 = Delta::replace(mid_rope.len(), 2, 2, vec![6]);
    let final_rope = mid_rope.apply_delta(&insertion2).unwrap();

    assert_eq!(&final_rope.to_vec(), &vec![0, 5, 6, 1, 2, 3]);
    let chained_subsets = Action::from_delta(insertion1.clone()).subsets_for_chain(insertion2.clone());
    assert_eq!(&delete_from_string(&chained_subsets.0, "056123"), "0123");
    assert_eq!(&delete_from_string(&chained_subsets.1, "056123"), "056123");
    assert_eq!(&delete_from_string(&chained_subsets.2, "056123"), "0123");

    let chained_delta = Action::from_delta(insertion1).chain(insertion2);
    let chain_final_rope = base_rope.apply_delta(&chained_delta.delta).unwrap();
    assert_eq!(&chain_final_rope.to_vec(), &vec![0, 5, 6, 1, 2, 3]);
}
