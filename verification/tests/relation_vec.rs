use relax::relation;
use relax::relation::operators::{complement, converse, empty, intersection, union, universal};
use relax::relation::endorelation::identity;
use relax::relation::{Endorelation, Relation, RelationVec};
use relax::{OrderedSet, RelationError, SetElement};

const ALPHABET: [char; 26] = [
    'a', 'b', 'c', 'd', 'e', 'f', 'g', 'h', 'i', 'j', 'k', 'l', 'm', 'n', 'o', 'p', 'q', 'r', 's',
    't', 'u', 'v', 'w', 'x', 'y', 'z',
];

fn letters(n: usize) -> OrderedSet {
    OrderedSet::from_vec(ALPHABET[0..n].iter().map(SetElement::from).collect())
}

fn numbers(from: i32, to: i32) -> OrderedSet {
    OrderedSet::from_vec((from..to).map(SetElement::from).collect())
}

fn on_letters(n: usize, table: Vec<bool>) -> RelationVec {
    RelationVec::new((letters(n), letters(n)), table).unwrap()
}

#[test]
fn eval_at_homogeneous() {
    let x = numbers(0, 3);
    let r = RelationVec::new(
        (x.clone(), x),
        vec![true, false, false, false, true, false, false, false, true],
    )
    .unwrap();
    assert!(r.eval_at(0, 0));
    assert!(!r.eval_at(0, 1));
    assert!(!r.eval_at(0, 2));
    assert!(!r.eval_at(1, 0));
    assert!(r.eval_at(1, 1));
    assert!(!r.eval_at(1, 2));
    assert!(!r.eval_at(2, 0));
    assert!(!r.eval_at(2, 1));
    assert!(r.eval_at(2, 2));
}

#[test]
fn eval_at_heterogeneous() {
    let x = numbers(0, 3);
    let y = OrderedSet::from_vec(['a', 'b'].iter().map(SetElement::from).collect());
    let r = RelationVec::new((x, y), vec![true, false, false, true, false, false]).unwrap();
    assert!(r.eval_at(0, 0));
    assert!(!r.eval_at(0, 1));
    assert!(!r.eval_at(1, 0));
    assert!(r.eval_at(1, 1));
    assert!(!r.eval_at(2, 0));
    assert!(!r.eval_at(2, 1));
}

#[test]
fn relation_vec_is_reflexive() {
    let table = vec![true, false, false, true, true, false, false, false, true];
    let r1 = on_letters(3, table);
    assert!(r1.is_reflexive());
}

#[test]
fn relation_vec_is_irreflexive() {
    let table = vec![
        false, true, true, true, //
        false, false, true, true, //
        true, true, false, true, //
        false, true, false, false,
    ];
    let r1 = on_letters(4, table);
    assert!(r1.is_irreflexive());
}

#[test]
fn relation_vec_is_antisymmetric() {
    let table = vec![
        true, false, false, false, //
        false, true, true, false, //
        true, false, false, false, //
        false, true, false, true,
    ];
    let r1 = on_letters(4, table);
    assert!(r1.is_antisymmetric());
}

#[test]
fn relation_vec_is_transitive() {
    let table = vec![
        false, false, false, false, //
        true, false, true, false, //
        true, false, false, false, //
        true, true, true, false,
    ];
    let r1 = on_letters(4, table);
    assert!(r1.is_transitive());
}

#[test]
fn relation_vec_is_symmetric() {
    let table = vec![
        true, false, true, false, //
        false, true, true, true, //
        true, true, false, false, //
        false, true, false, true,
    ];
    let r1 = on_letters(4, table);
    assert!(r1.is_symmetric());
}

#[test]
fn relation_vec_is_asymmetric() {
    let table = vec![
        false, false, false, false, //
        false, false, true, false, //
        true, false, false, false, //
        false, true, false, false,
    ];
    let r1 = on_letters(4, table);
    assert!(r1.is_asymmetric());
}

#[test]
fn relation_vec_is_preorder() {
    let table = vec![
        true, false, true, true, false, //
        false, true, false, false, false, //
        false, false, true, true, false, //
        false, false, true, true, false, //
        false, false, false, false, true,
    ];
    let r1 = on_letters(5, table);
    assert!(r1.is_reflexive());
    assert!(r1.is_transitive());
    assert!(!r1.is_symmetric());
    assert!(r1.is_preorder());
    assert!(!r1.is_equivalent());
}

#[test]
fn relation_vec_is_equivalent() {
    let table = vec![
        true, false, true, true, false, //
        false, true, false, false, false, //
        true, false, true, true, false, //
        true, false, true, true, false, //
        false, false, false, false, true,
    ];
    let r1 = on_letters(5, table);
    assert!(r1.is_reflexive());
    assert!(r1.is_transitive());
    assert!(r1.is_symmetric());
    assert!(r1.is_preorder());
    assert!(r1.is_equivalent());
}

#[test]
fn relation_vec_is_difunctional() {
    let table = vec![
        false, false, true, false, false, true, false, true, true, true, //
        false, false, false, true, true, false, false, false, false, false, //
        false, false, false, true, true, false, false, false, false, false, //
        false, false, true, false, false, true, false, true, true, true, //
        false, false, false, false, false, false, false, false, false, false, //
        true, false, false, false, false, false, false, false, false, false, //
        true, false, false, false, false, false, false, false, false, false, //
        false, true, false, false, false, false, false, false, false, false, //
        false, false, false, true, true, false, false, false, false, false, //
        false, false, false, false, false, false, false, false, false, false,
    ];
    let r1 = on_letters(10, table);
    assert!(r1.is_difunctional());
}

#[test]
fn relation_vec_relation_mod8_equal() {
    let n32: Vec<u8> = (1..=32).collect();
    let r = RelationVec::from_predicate(&n32, |(&x, &y)| x % 8 == y % 8).unwrap();
    assert!(r.is_reflexive());
    assert!(!r.is_irreflexive());
    assert!(!r.is_antisymmetric());
    assert!(r.is_symmetric());
    assert!(!r.is_asymmetric());
    assert!(r.is_transitive());
    assert!(r.is_lefttotal());
    assert!(!r.is_injective());
    assert!(r.is_surjective());
}

#[test]
fn relation_vec_relation_divisible() {
    let n32: Vec<u8> = (1..=32).collect();
    let r = RelationVec::from_predicate(&n32, |(&x, &y)| y % x == 0).unwrap();
    assert!(r.is_reflexive());
    assert!(!r.is_irreflexive());
    assert!(r.is_antisymmetric());
    assert!(!r.is_symmetric());
    assert!(!r.is_asymmetric());
    assert!(r.is_transitive());
    assert!(r.is_lefttotal());
    assert!(!r.is_injective());
    assert!(r.is_surjective());
}

#[test]
fn new_endorelation() {
    let n8: Vec<u8> = (1..=8).collect();
    let s8a = OrderedSet::from_vec((1..=8).map(|i: i32| SetElement::from(i.to_string())).collect());
    let s8b = OrderedSet::from_vec((1..=8).map(|i: i32| SetElement::from(i.to_string())).collect());
    let s8: (&OrderedSet, &OrderedSet) = (&s8a, &s8b);
    let top = RelationVec::from_predicate(&n8, |(&x, &y)| x >= y).unwrap();
    let bot = RelationVec::from_predicate(&n8, |(&x, &y)| x <= y).unwrap();

    assert!(relation::eq(&union(&top, &bot).unwrap(), &universal(s8)));
    assert!(relation::eq(
        &intersection(
            &RelationVec::from_predicate(&n8, |(&x, &y)| x <= y).unwrap(),
            &RelationVec::from_predicate(&n8, |(&x, &y)| x >= y).unwrap(),
        )
        .unwrap(),
        &identity(s8).unwrap()
    ));

    assert!(relation::eq(
        &union(&complement(&top), &identity(s8).unwrap()).unwrap(),
        &bot
    ));
    assert!(relation::eq(
        &union(&complement(&bot), &identity(s8).unwrap()).unwrap(),
        &top
    ));

    assert!(relation::eq(&converse(&top), &bot));
    assert!(relation::eq(&converse(&bot), &top));
}

fn check_union<R: Endorelation, S: Endorelation, T: Endorelation>(a: &R, b: &S, c: &T) {
    let r = a;
    assert!(r.is_homogeneous());

    let neutral = &empty(r.get_domain());
    let absorbing = &universal(r.get_domain());

    assert!(relation::eq(&union(r, neutral).unwrap(), r));
    assert!(relation::eq(&union(r, absorbing).unwrap(), absorbing));
    assert!(relation::eq(&union(r, r).unwrap(), r));
    assert!(relation::eq(
        &union(a, &union(b, c).unwrap()).unwrap(),
        &union(&union(a, b).unwrap(), c).unwrap(),
    ));
    assert!(relation::eq(&union(a, b).unwrap(), &union(b, a).unwrap()));
}

fn check_intersection<R: Endorelation, S: Endorelation, T: Endorelation>(a: &R, b: &S, c: &T) {
    let r = a;
    assert!(r.is_homogeneous());

    let neutral = &universal(r.get_domain());
    let absorbing = &empty(r.get_domain());

    assert!(relation::eq(&intersection(r, neutral).unwrap(), r));
    assert!(relation::eq(&intersection(r, absorbing).unwrap(), absorbing));
    assert!(relation::eq(&intersection(r, r).unwrap(), r));
    assert!(relation::eq(
        &intersection(a, &intersection(b, c).unwrap()).unwrap(),
        &intersection(&intersection(a, b).unwrap(), c).unwrap()
    ));
    assert!(relation::eq(&intersection(a, b).unwrap(), &intersection(b, a).unwrap()));
}

fn check_distributivity_union_intersection<R: Endorelation, S: Endorelation, T: Endorelation>(
    a: &R,
    b: &S,
    c: &T,
) {
    assert!(relation::eq(
        &intersection(a, &union(b, c).unwrap()).unwrap(),
        &union(&intersection(a, b).unwrap(), &intersection(a, c).unwrap()).unwrap(),
    ));
    assert!(relation::eq(
        &intersection(&union(a, b).unwrap(), c).unwrap(),
        &union(&intersection(a, c).unwrap(), &intersection(b, c).unwrap()).unwrap(),
    ));
}

fn check_de_morgan<R: Relation>(a: &R, b: &R) {
    assert!(relation::eq(
        &complement(&union(a, b).unwrap()),
        &intersection(&complement(a), &complement(b)).unwrap(),
    ));
    assert!(relation::eq(
        &complement(&intersection(a, b).unwrap()),
        &union(&complement(a), &complement(b)).unwrap(),
    ));
}

#[test]
fn relation_property_test() {
    let n8: Vec<u8> = (1..=8).collect();
    let s8a = OrderedSet::from_vec((1..=8).map(|i: i32| SetElement::from(i.to_string())).collect());
    let s8b = OrderedSet::from_vec((1..=8).map(|i: i32| SetElement::from(i.to_string())).collect());
    let s8: (&OrderedSet, &OrderedSet) = (&s8a, &s8b);

    let div = RelationVec::from_predicate(&n8, |(&x, &y)| y % x == 0).unwrap();
    let le = RelationVec::from_predicate(&n8, |(&x, &y)| x <= y).unwrap();
    let ge = RelationVec::from_predicate(&n8, |(&x, &y)| x >= y).unwrap();

    check_union(&div, &le, &ge);
    check_intersection(&div, &le, &ge);
    check_distributivity_union_intersection(&div, &le, &ge);
    check_de_morgan(&div, &le);

    let lt = RelationVec::from_predicate(&n8, |(&x, &y)| x < y).unwrap();
    assert!(relation::eq(&complement(&ge), &lt));
    assert!(relation::eq(
        &intersection(&identity(s8).unwrap(), &universal(s8)).unwrap(),
        &union(&identity(s8).unwrap(), &empty(s8)).unwrap()
    ));
}

#[test]
fn eval() {
    let r1 = on_letters(3, vec![true, false, false, false, true, false, false, false, true]);
    let a = SetElement::from(&'a');
    let b = SetElement::from(&'b');
    let c = SetElement::from(&'c');
    assert!(r1.eval(&a, &a).unwrap());
    assert!(!r1.eval(&a, &b).unwrap());
    assert!(!r1.eval(&a, &c).unwrap());
    assert!(!r1.eval(&b, &a).unwrap());
    assert!(r1.eval(&b, &b).unwrap());
    assert!(!r1.eval(&b, &c).unwrap());
    assert!(!r1.eval(&c, &a).unwrap());
    assert!(!r1.eval(&c, &b).unwrap());
    assert!(r1.eval(&c, &c).unwrap());
}

#[test]
fn homogeneous() {
    let s1 = letters(3);
    let s2 = OrderedSet::from_vec(['a', 'b', 'c'].iter().map(SetElement::from).collect());
    let r1 = RelationVec::new((s1, s2), vec![false; 9]).unwrap();
    assert!(r1.is_homogeneous());

    let s3 = OrderedSet::from_vec(['x', 'y', 'z'].iter().map(SetElement::from).collect());
    let r2 = RelationVec::new((letters(3), s3), vec![false; 9]).unwrap();
    assert!(!r2.is_homogeneous());
}

#[test]
fn new_empty() {
    let domain = letters(3);
    let r1 = RelationVec::new_empty(&domain);
    assert!(r1.table().iter().all(|&b| !b));
}

#[test]
fn new_full() {
    let domain = letters(3);
    let r1 = RelationVec::new_full(&domain);
    assert!(r1.table().iter().all(|&b| b));
}

#[test]
fn new_id() {
    let domain = letters(3);
    let r1 = RelationVec::new_id(&domain);
    let d = r1.get_domain();
    for (i0, e0) in d.0.iter().iter().enumerate() {
        for (i1, e1) in d.1.iter().iter().enumerate() {
            assert_eq!(r1.eval(e0, e1), Ok(i0 == i1));
        }
    }
}

#[test]
fn new_top() {
    let domain = letters(3);
    let r1 = RelationVec::new_top(&domain);
    let d = r1.get_domain();
    for (i0, e0) in d.0.iter().iter().enumerate() {
        for (i1, e1) in d.1.iter().iter().enumerate() {
            assert_eq!(r1.eval(e0, e1), Ok(i0 <= i1));
        }
    }
}

#[test]
fn new_bottom() {
    let domain = letters(3);
    let r1 = RelationVec::new_bottom(&domain);
    let d = r1.get_domain();
    for (i0, e0) in d.0.iter().iter().enumerate() {
        for (i1, e1) in d.1.iter().iter().enumerate() {
            assert_eq!(r1.eval(e0, e1), Ok(i0 >= i1));
        }
    }
}

#[test]
fn new_rejects_a_table_of_the_wrong_length() {
    let r = RelationVec::new((letters(3), letters(2)), vec![true; 5]);
    assert_eq!(r.err(), Some(RelationError::TableLengthMismatch));
    let r = RelationVec::new((letters(3), letters(2)), vec![true; 6]);
    assert!(r.is_ok());
    let r = RelationVec::new((letters(0), letters(2)), vec![]);
    assert!(r.is_ok());
}

#[test]
fn table_index_is_row_major() {
    let r = RelationVec::new((letters(3), letters(2)), vec![false; 6]).unwrap();
    assert_eq!(r.get_table_index(0, 0), 0);
    assert_eq!(r.get_table_index(0, 1), 1);
    assert_eq!(r.get_table_index(1, 0), 2);
    assert_eq!(r.get_table_index(2, 1), 5);
}

#[test]
fn from_predicate_rejects_duplicate_labels() {
    let items = vec![1, 2, 1];
    let r = RelationVec::from_predicate(&items, |(&x, &y)| x == y);
    assert_eq!(r.err(), Some(RelationError::TableLengthMismatch));
}

#[test]
fn from_predicate_follows_the_sequence() {
    let items = vec![3, 1, 2];
    let r = RelationVec::from_predicate(&items, |(&x, &y)| x < y).unwrap();
    assert_eq!(
        r.table(),
        &vec![false, false, false, true, false, true, true, false, false]
    );
    assert!(r.is_homogeneous());
    assert_eq!(r.get_domain().0.cardinality(), 3);
    assert_eq!(r.get_domain().0.to_string(), "{1 2 3}");
}

#[test]
fn from_relation_freezes_a_heterogeneous_relation() {
    let x = numbers(0, 3);
    let y = letters(2);
    let r = RelationVec::new((x, y), vec![true, false, false, true, true, true]).unwrap();
    let c = converse(&r);
    let frozen = RelationVec::from_relation(&c);
    assert_eq!(frozen.table(), &vec![true, false, true, false, true, true]);
    assert!(relation::eq(&frozen, &c));
    assert_eq!(frozen.get_domain().0.cardinality(), 2);
    assert_eq!(frozen.get_domain().1.cardinality(), 3);
    let same = RelationVec::from_relation(&r);
    assert_eq!(same.table(), r.table());
}

#[test]
fn from_cells_asks_for_every_pair() {
    let r = RelationVec::from_cells((letters(2), letters(3)), |ix, iy| ix + iy == 2);
    assert_eq!(r.table(), &vec![false, false, true, false, true, false]);
}

#[test]
fn try_eval_at_reports_indices_out_of_range() {
    let r = RelationVec::new((letters(3), letters(2)), vec![true; 6]).unwrap();
    assert_eq!(r.try_eval_at(2, 1), Ok(true));
    assert_eq!(r.try_eval_at(3, 0), Err(RelationError::IndexOutOfRange));
    assert_eq!(r.try_eval_at(0, 2), Err(RelationError::IndexOutOfRange));
}

#[test]
fn eval_reports_elements_outside_the_domain() {
    let r = on_letters(2, vec![true, false, false, true]);
    let a = SetElement::from(&'a');
    let z = SetElement::from(&'z');
    assert_eq!(r.eval(&a, &z), Err(RelationError::ElementNotFound));
    assert_eq!(r.eval(&z, &a), Err(RelationError::ElementNotFound));
    assert_eq!(r.eval(&a, &a), Ok(true));
}
