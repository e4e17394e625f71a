use relax::relation::operators::converse;
use relax::relation::{PartialOrder, Relation, RelationVec};
use relax::{OrderedSet, RelationError, SetElement};

fn numbers(items: &[i32]) -> OrderedSet {
    OrderedSet::from_vec(items.iter().map(|i| SetElement::from(*i)).collect())
}

fn divides() -> RelationVec {
    let n8: Vec<u8> = (1..=8).collect();
    RelationVec::from_predicate(&n8, |(&x, &y)| y % x == 0).unwrap()
}

#[test]
fn upsets_and_downsets() {
    let r = divides();
    assert_eq!(r.upset(&SetElement::from(2)).unwrap().to_string(), "{2 4 6 8}");
    assert_eq!(r.upset(&SetElement::from(5)).unwrap().to_string(), "{5}");
    assert_eq!(r.downset(&SetElement::from(6)).unwrap().to_string(), "{1 2 3 6}");
    assert_eq!(r.upset(&SetElement::from(9)).err(), Some(RelationError::ElementNotFound));
    assert_eq!(r.downset(&SetElement::from(0)).err(), Some(RelationError::ElementNotFound));
    let c = converse(&r);
    for x in r.get_domain().0.iter().iter() {
        assert!(r.upset(x).unwrap().equals(&c.downset(x).unwrap()));
        assert!(r.downset(x).unwrap().equals(&c.upset(x).unwrap()));
        assert!(r.upset(x).unwrap().contains(x));
    }
}

#[test]
fn bounds() {
    let r = divides();
    assert_eq!(r.bound_upper(&numbers(&[2, 3])).to_string(), "{6}");
    assert_eq!(r.bound_upper(&numbers(&[2])).to_string(), "{2 4 6 8}");
    assert_eq!(r.bound_lower(&numbers(&[4, 6])).to_string(), "{1 2}");
    assert_eq!(r.bound_upper(&numbers(&[3, 5])).to_string(), "{}");
    let none = OrderedSet::new();
    assert!(r.bound_upper(&none).equals(r.get_domain().0));
    assert!(r.bound_lower(&none).equals(r.get_domain().0));
}

#[test]
fn greatest_and_smallest_elements() {
    let r = divides();
    assert_eq!(r.elements_greatest(&numbers(&[1, 2, 4])).to_string(), "{4}");
    assert_eq!(r.elements_greatest(&numbers(&[2, 3])).to_string(), "{}");
    assert_eq!(r.elements_smallest(&numbers(&[2, 4, 6])).to_string(), "{2}");
    assert_eq!(r.elements_smallest(&numbers(&[4, 6])).to_string(), "{}");
}

#[test]
fn suprema_and_infima() {
    let r = divides();
    assert_eq!(r.supremum(&numbers(&[2, 3])).to_string(), "{6}");
    assert_eq!(r.supremum(&numbers(&[2, 4])).to_string(), "{4}");
    assert_eq!(r.supremum(&numbers(&[3, 5])).to_string(), "{}");
    assert_eq!(r.infimum(&numbers(&[4, 6])).to_string(), "{2}");
    assert_eq!(r.infimum(&numbers(&[3, 5])).to_string(), "{1}");
}
