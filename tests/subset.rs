use teehee::delta::Delta;
use teehee::history::Action;
use teehee::subset::Subset;

fn subset(marks: &[u8]) -> Subset {
    Subset::from_marks(marks.iter().map(|&m| m == 1).collect())
}

fn text(s: &Subset, t: &str) -> String {
    String::from_utf8(s.delete_from(&t.as_bytes().to_vec())).unwrap()
}

#[test]
fn expand_and_shrink_are_inverse() {
    let s = subset(&[1, 0, 1]);
    let other = subset(&[0, 1, 0, 1, 0]);
    let e = s.transform_expand(&other);
    assert_eq!(text(&e, "abcde"), "bcd");
    let back = e.transform_shrink(&other);
    assert_eq!(text(&back, "xyz"), "y");
}

#[test]
fn union_and_emptiness() {
    let a = subset(&[1, 0, 0]);
    let b = subset(&[0, 0, 1]);
    assert_eq!(text(&a.union(&b), "abc"), "b");
    assert!(subset(&[0, 0]).is_empty());
    assert!(!a.is_empty());
    assert_eq!(text(&subset(&[0, 1]).transform_union(&subset(&[1, 0, 0])), "abc"), "b");
}

#[test]
fn insert_where_a_delete_happened_goes_after_it() {
    // The first delta removes [1, 3); the second inserts 9 at the place of
    // the removal. In the union space the removed bytes come first.
    let d1 = Delta::delete(4, 1, 3);
    let d2 = Delta::insert(2, 1, vec![b'9']);
    let (inserted, removed, prefinal) = Action::from_delta(d1).subsets_for_chain(d2);
    assert_eq!(text(&inserted, "01293"), "0123");
    assert_eq!(text(&removed, "01293"), "093");
    assert_eq!(text(&prefinal, "093"), "03");
}
