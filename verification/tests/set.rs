use relax::set::{compare_str, Comparison};
use relax::{OrderedSet, SetElement};

fn labels(items: &[&str]) -> OrderedSet {
    OrderedSet::from_vec(items.iter().map(|s| SetElement::from(s.to_string())).collect())
}

fn label(s: &str) -> SetElement {
    SetElement::from(s.to_string())
}

#[test]
fn sets_are_sorted_and_hold_no_member_twice() {
    let s = labels(&["b", "a", "c", "a", "b"]);
    assert_eq!(s.cardinality(), 3);
    assert_eq!(s.to_string(), "{a b c}");
    assert_eq!(s.get(0).to_string(), "a");
    assert_eq!(s.get(2).to_string(), "c");
    assert_eq!(s.iter().len(), 3);
}

#[test]
fn strings_are_ordered_by_code_point() {
    let s = labels(&["2", "10", "1", "B", "a", ""]);
    assert_eq!(s.to_string(), "{ 1 10 2 B a}");
    assert_eq!(compare_str("abc", "abd"), Comparison::Less);
    assert_eq!(compare_str("abc", "ab"), Comparison::Greater);
    assert_eq!(compare_str("abc", "abc"), Comparison::Equal);
    assert_eq!(compare_str("", "a"), Comparison::Less);
    assert_eq!(compare_str("z", "é"), Comparison::Less);
}

#[test]
fn nested_sets_follow_strings() {
    let ab = SetElement::Nested(labels(&["a", "b"]));
    let a = SetElement::Nested(labels(&["a"]));
    let b = SetElement::Nested(labels(&["b"]));
    let ac = SetElement::Nested(labels(&["a", "c"]));
    let none = SetElement::Nested(OrderedSet::new());
    let s = OrderedSet::from_vec(vec![
        b.clone(),
        ab.clone(),
        label("z"),
        ac.clone(),
        none.clone(),
        a.clone(),
        ab.clone(),
    ]);
    assert_eq!(s.to_string(), "{z {} {a} {a b} {a c} {b}}");
    assert_eq!(label("z").compare(&none), Comparison::Less);
    assert_eq!(none.compare(&label("z")), Comparison::Greater);
    assert_eq!(a.compare(&ab), Comparison::Less);
    assert_eq!(b.compare(&ac), Comparison::Greater);
    assert_eq!(ab.compare(&ab.clone()), Comparison::Equal);
    assert!(ab.equals(&ab.clone()));
    assert!(!ab.equals(&ac));
    assert!(!a.equals(&label("a")));
}

#[test]
fn insert_keeps_the_order() {
    let mut s = OrderedSet::new();
    assert_eq!(s.cardinality(), 0);
    assert!(s.insert(label("m")));
    assert!(s.insert(label("a")));
    assert!(s.insert(label("z")));
    assert!(!s.insert(label("m")));
    assert!(s.insert(label("n")));
    assert_eq!(s.to_string(), "{a m n z}");
    assert_eq!(s.position(&label("n")), Some(2));
    assert_eq!(s.position(&label("b")), None);
    assert!(s.contains(&label("z")));
    assert!(!s.contains(&label("y")));
}

#[test]
fn equality_and_copies() {
    let s = labels(&["a", "b"]);
    let t = labels(&["b", "a"]);
    let u = labels(&["a", "c"]);
    assert!(s.equals(&t));
    assert!(!s.equals(&u));
    assert!(!s.equals(&labels(&["a"])));
    assert!(s.clone().equals(&s));
    assert_eq!(s.compare(&u), Comparison::Less);
    assert_eq!(u.compare(&s), Comparison::Greater);
    assert_eq!(s.compare(&t), Comparison::Equal);
    assert_eq!(s.compare(&labels(&["a"])), Comparison::Greater);
}

#[test]
fn subsets_unions_and_intersections() {
    let s = labels(&["a", "b", "c", "d"]);
    let u = labels(&["b", "d", "e"]);
    assert!(!u.is_subset(&s));
    assert!(labels(&["b", "d"]).is_subset(&s));
    assert!(OrderedSet::new().is_subset(&s));
    assert!(s.is_subset(&s));
    assert_eq!(s.union(&u).to_string(), "{a b c d e}");
    assert_eq!(s.intersection(&u).to_string(), "{b d}");
    assert_eq!(u.intersection(&s).to_string(), "{b d}");
    assert_eq!(s.intersection(&labels(&["x"])).to_string(), "{}");
    assert_eq!(s.union(&OrderedSet::new()).to_string(), "{a b c d}");
    assert_eq!(s.member_mask(&u), vec![false, true, false, true]);
    assert_eq!(s.subset_by_mask(&vec![true, false, false, true]).to_string(), "{a d}");
}

#[test]
fn enumerated_intersection_tells_both_positions() {
    let s = labels(&["a", "b", "c", "d"]);
    let u = labels(&["b", "d", "e"]);
    let mut it = s.intersection_enumerated(&u);
    let (at, e) = it.next().unwrap();
    assert_eq!(at, (1, 0));
    assert_eq!(e.to_string(), "b");
    let (at, e) = it.next().unwrap();
    assert_eq!(at, (3, 1));
    assert_eq!(e.to_string(), "d");
    assert!(it.next().is_none());
    assert!(it.next().is_none());
    let nothing = OrderedSet::new();
    let mut none = s.intersection_enumerated(&nothing);
    assert!(none.next().is_none());
}

#[test]
fn elements_from_numbers_and_characters() {
    assert_eq!(SetElement::from(-12).to_string(), "-12");
    assert_eq!(SetElement::from(&'q').to_string(), "q");
    assert_eq!(SetElement::from("text".to_string()).to_string(), "text");
    assert!(SetElement::from(7).equals(&label("7")));
}
