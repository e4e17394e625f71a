use relax::random::generate_random;
use relax::relation::operators::{empty, universal};
use relax::relation::{eq, Relation};
use relax::{OrderedSet, SetElement};

fn numbers(from: i32, to: i32) -> OrderedSet {
    OrderedSet::from_vec((from..to).map(SetElement::from).collect())
}

#[test]
fn density_zero_gives_the_empty_relation() {
    let s = numbers(1, 3);
    let r = generate_random((s.clone(), s.clone()), 0, 1);
    assert!(eq(&r, &empty((&s, &s))));
    let r = generate_random((s.clone(), numbers(0, 5)), 0, 9);
    assert_eq!(r.table(), &vec![false; 10]);
}

#[test]
fn density_one_gives_the_universal_relation() {
    let s = numbers(1, 3);
    let r = generate_random((s.clone(), s.clone()), 1, 1);
    assert!(eq(&r, &universal((&s, &s))));
    let r = generate_random((s.clone(), numbers(0, 5)), 7, 7);
    assert_eq!(r.table(), &vec![true; 10]);
}

#[test]
fn any_density_fills_the_whole_table() {
    let x = numbers(0, 4);
    let y = numbers(0, 6);
    let r = generate_random((x.clone(), y.clone()), 1, 2);
    assert_eq!(r.table().len(), 24);
    assert!(r.get_domain().0.equals(&x));
    assert!(r.get_domain().1.equals(&y));
}

#[test]
fn a_middling_density_gives_both_outcomes() {
    let x = numbers(0, 20);
    let r = generate_random((x.clone(), x), 1, 2);
    assert!(r.table().iter().any(|&b| b));
    assert!(r.table().iter().any(|&b| !b));
}
