use relax::cow::LCow;
use relax::relation::endorelation::{closure_reflexive, closure_symmetric, identity};
use relax::relation::operators::{
    complement, concatenation, converse, empty, intersection, union, universal, Complement,
    Concatenation, Converse, Empty, Identity, Intersection, Union, Universal,
};
use relax::relation::partial_order::is_sublattice;
use relax::relation::{eq, neq, Endorelation, Relation, RelationVec};
use relax::{OrderedSet, RelationError, SetElement};

fn labels(items: &[&str]) -> OrderedSet {
    OrderedSet::from_vec(items.iter().map(|s| SetElement::from(s.to_string())).collect())
}

fn n8() -> Vec<u8> {
    (1..=8).collect()
}

fn divides() -> RelationVec {
    RelationVec::from_predicate(&n8(), |(&x, &y)| y % x == 0).unwrap()
}

fn le() -> RelationVec {
    RelationVec::from_predicate(&n8(), |(&x, &y)| x <= y).unwrap()
}

fn ge() -> RelationVec {
    RelationVec::from_predicate(&n8(), |(&x, &y)| x >= y).unwrap()
}

fn three_by_two() -> RelationVec {
    RelationVec::new(
        (labels(&["a", "b", "c"]), labels(&["x", "y"])),
        vec![true, false, false, false, true, true],
    )
    .unwrap()
}

fn two_by_four() -> RelationVec {
    RelationVec::new(
        (labels(&["x", "y"]), labels(&["k", "l", "m", "n"])),
        vec![false, true, false, true, true, false, false, false],
    )
    .unwrap()
}

fn four_by_three() -> RelationVec {
    RelationVec::new(
        (labels(&["k", "l", "m", "n"]), labels(&["a", "b", "c"])),
        vec![
            true, false, false, //
            false, true, true, //
            false, false, false, //
            true, true, false,
        ],
    )
    .unwrap()
}

#[test]
fn complement_is_involutive() {
    for r in [divides(), le(), three_by_two()] {
        assert!(eq(&complement(&complement(&r)), &r));
    }
    let r = three_by_two();
    let c = complement(&r);
    assert!(!c.eval_at(0, 0));
    assert!(c.eval_at(0, 1));
    assert!(neq(&c, &r));
}

#[test]
fn converse_is_involutive() {
    for r in [divides(), ge(), three_by_two()] {
        assert!(eq(&converse(&converse(&r)), &r));
    }
    let r = three_by_two();
    let c = converse(&r);
    assert_eq!(c.get_domain().0.to_string(), "{x y}");
    assert_eq!(c.get_domain().1.to_string(), "{a b c}");
    assert!(c.eval_at(1, 2));
    assert!(!c.eval_at(1, 0));
}

#[test]
fn union_laws() {
    let (a, b, c) = (divides(), le(), ge());
    let none = empty(a.get_domain());
    let all = universal(a.get_domain());
    assert!(eq(&union(&a, &b).unwrap(), &union(&b, &a).unwrap()));
    assert!(eq(
        &union(&a, &union(&b, &c).unwrap()).unwrap(),
        &union(&union(&a, &b).unwrap(), &c).unwrap()
    ));
    assert!(eq(&union(&a, &none).unwrap(), &a));
    assert!(eq(&union(&a, &all).unwrap(), &all));
    assert!(eq(&union(&a, &a).unwrap(), &a));
}

#[test]
fn intersection_laws() {
    let (a, b, c) = (divides(), le(), ge());
    let none = empty(a.get_domain());
    let all = universal(a.get_domain());
    assert!(eq(&intersection(&a, &b).unwrap(), &intersection(&b, &a).unwrap()));
    assert!(eq(
        &intersection(&a, &intersection(&b, &c).unwrap()).unwrap(),
        &intersection(&intersection(&a, &b).unwrap(), &c).unwrap()
    ));
    assert!(eq(&intersection(&a, &all).unwrap(), &a));
    assert!(eq(&intersection(&a, &none).unwrap(), &none));
    assert!(eq(&intersection(&a, &a).unwrap(), &a));
}

#[test]
fn union_and_intersection_distribute_over_each_other() {
    let (a, b, c) = (divides(), le(), ge());
    assert!(eq(
        &union(&a, &intersection(&b, &c).unwrap()).unwrap(),
        &intersection(&union(&a, &b).unwrap(), &union(&a, &c).unwrap()).unwrap()
    ));
    assert!(eq(
        &union(&intersection(&a, &b).unwrap(), &c).unwrap(),
        &intersection(&union(&a, &c).unwrap(), &union(&b, &c).unwrap()).unwrap()
    ));
    assert!(eq(
        &intersection(&a, &union(&b, &c).unwrap()).unwrap(),
        &union(&intersection(&a, &b).unwrap(), &intersection(&a, &c).unwrap()).unwrap()
    ));
    assert!(eq(
        &intersection(&union(&a, &b).unwrap(), &c).unwrap(),
        &union(&intersection(&a, &c).unwrap(), &intersection(&b, &c).unwrap()).unwrap()
    ));
}

#[test]
fn de_morgan_laws() {
    let (a, b) = (divides(), le());
    assert!(eq(
        &complement(&union(&a, &b).unwrap()),
        &intersection(&complement(&a), &complement(&b)).unwrap()
    ));
    assert!(eq(
        &complement(&intersection(&a, &b).unwrap()),
        &union(&complement(&a), &complement(&b)).unwrap()
    ));
}

#[test]
fn concatenation_evaluates_through_the_shared_domain() {
    let p = three_by_two();
    let q = two_by_four();
    let c = concatenation(&p, &q).unwrap();
    assert_eq!(c.get_domain().0.cardinality(), 3);
    assert_eq!(c.get_domain().1.cardinality(), 4);
    let frozen = RelationVec::from_relation(&c);
    assert_eq!(
        frozen.table(),
        &vec![
            false, true, false, true, //
            false, false, false, false, //
            true, true, false, true,
        ]
    );
}

#[test]
fn concatenation_is_associative() {
    let (a, b, c) = (three_by_two(), two_by_four(), four_by_three());
    assert!(eq(
        &concatenation(&a, &concatenation(&b, &c).unwrap()).unwrap(),
        &concatenation(&concatenation(&a, &b).unwrap(), &c).unwrap()
    ));
    let (a, b, c) = (divides(), le(), ge());
    assert!(eq(
        &concatenation(&a, &concatenation(&b, &c).unwrap()).unwrap(),
        &concatenation(&concatenation(&a, &b).unwrap(), &c).unwrap()
    ));
}

#[test]
fn concatenation_with_the_empty_relation_is_empty() {
    let r = three_by_two();
    let z = labels(&["p", "q", "r", "s"]);
    let none = empty((r.get_domain().1, &z));
    let c = concatenation(&r, &none).unwrap();
    assert!(eq(&c, &empty((r.get_domain().0, &z))));
    let none = empty((&z, r.get_domain().0));
    let c = concatenation(&none, &r).unwrap();
    assert!(eq(&c, &empty((&z, r.get_domain().1))));
    let d = divides();
    let absorbing = empty(d.get_domain());
    assert!(eq(&concatenation(&d, &absorbing).unwrap(), &absorbing));
}

#[test]
fn concatenation_distributes_over_union() {
    let (a, b, c) = (divides(), le(), ge());
    assert!(eq(
        &concatenation(&a, &union(&b, &c).unwrap()).unwrap(),
        &union(&concatenation(&a, &b).unwrap(), &concatenation(&a, &c).unwrap()).unwrap()
    ));
    assert!(eq(
        &concatenation(&union(&a, &b).unwrap(), &c).unwrap(),
        &union(&concatenation(&a, &c).unwrap(), &concatenation(&b, &c).unwrap()).unwrap()
    ));
}

#[test]
fn concatenation_is_not_commutative() {
    let s = labels(&["a", "b"]);
    let r = RelationVec::new((s.clone(), s.clone()), vec![false, true, false, false]).unwrap();
    let t = RelationVec::new((s.clone(), s.clone()), vec![false, false, true, false]).unwrap();
    let rt = RelationVec::from_relation(&concatenation(&r, &t).unwrap());
    let tr = RelationVec::from_relation(&concatenation(&t, &r).unwrap());
    assert_eq!(rt.table(), &vec![true, false, false, false]);
    assert_eq!(tr.table(), &vec![false, false, false, true]);
    assert!(neq(&rt, &tr));
}

#[test]
fn converse_distributes() {
    let (a, b) = (three_by_two(), two_by_four());
    assert!(eq(
        &converse(&concatenation(&a, &b).unwrap()),
        &concatenation(&converse(&b), &converse(&a)).unwrap()
    ));
    let (a, b) = (divides(), le());
    assert!(eq(
        &converse(&concatenation(&a, &b).unwrap()),
        &concatenation(&converse(&b), &converse(&a)).unwrap()
    ));
    assert!(eq(
        &converse(&union(&a, &b).unwrap()),
        &union(&converse(&a), &converse(&b)).unwrap()
    ));
    assert!(eq(
        &converse(&intersection(&a, &b).unwrap()),
        &intersection(&converse(&a), &converse(&b)).unwrap()
    ));
}

fn compound_properties_agree<R: Endorelation>(r: &R) {
    assert_eq!(r.is_homogeneous(), !r.is_heterogeneous());
    assert_eq!(r.is_bijective(), r.is_injective() && r.is_surjective());
    assert_eq!(r.is_function(), r.is_functional() && r.is_lefttotal());
    assert_eq!(r.is_asymmetric(), r.is_irreflexive() && r.is_antisymmetric());
    assert_eq!(r.is_preorder(), r.is_reflexive() && r.is_transitive());
    assert_eq!(r.is_partial_order(), r.is_preorder() && r.is_antisymmetric());
    assert_eq!(r.is_equivalent(), r.is_preorder() && r.is_symmetric());
    assert!(!(r.is_reflexive() && r.is_irreflexive()) || r.get_domain().0.cardinality() == 0);
}

#[test]
fn compound_properties_are_conjunctions() {
    compound_properties_agree(&divides());
    compound_properties_agree(&le());
    compound_properties_agree(&three_by_two());
    compound_properties_agree(&complement(&ge()));
    let s = labels(&["a", "b", "c"]);
    compound_properties_agree(&Identity::new(&s));
    compound_properties_agree(&Empty::new(&s));
    compound_properties_agree(&Universal::new(&s));
}

#[test]
fn divides_is_a_partial_order() {
    let r = divides();
    assert!(r.is_reflexive());
    assert!(r.is_antisymmetric());
    assert!(r.is_transitive());
    assert!(r.is_lefttotal());
    assert!(r.is_surjective());
    assert!(!r.is_symmetric());
    assert!(!r.is_irreflexive());
    assert!(!r.is_injective());
    assert!(r.is_partial_order());
    assert!(!r.is_equivalent());
    assert!(!r.is_functional());
    assert!(!r.is_difunctional());
}

#[test]
fn union_of_le_and_ge_is_universal() {
    let s = OrderedSet::from_vec((1..=8).map(SetElement::from).collect());
    let (le, ge) = (le(), ge());
    assert!(eq(&union(&le, &ge).unwrap(), &universal((&s, &s))));
    assert!(eq(&intersection(&le, &ge).unwrap(), &identity((&s, &s)).unwrap()));
}

#[test]
fn complement_of_ge_is_lt() {
    let lt = RelationVec::from_predicate(&n8(), |(&x, &y)| x < y).unwrap();
    assert!(eq(&complement(&ge()), &lt));
}

#[test]
fn identity_table_on_three_members() {
    let s = OrderedSet::from_vec((1..=3).map(SetElement::from).collect());
    let r = RelationVec::new(
        (s.clone(), s.clone()),
        vec![true, false, false, false, true, false, false, false, true],
    )
    .unwrap();
    assert!(r.is_reflexive());
    assert!(r.is_symmetric());
    assert!(r.is_antisymmetric());
    assert!(r.is_difunctional());
    assert!(r.is_bijective());
    assert!(r.is_function());
    assert!(eq(&r, &Identity::new(&s)));
    assert!(eq(&r, &RelationVec::new_id(&s)));
}

#[test]
fn mod8_is_an_equivalence() {
    let n32: Vec<u8> = (1..=32).collect();
    let r = RelationVec::from_predicate(&n32, |(&x, &y)| x % 8 == y % 8).unwrap();
    assert!(r.is_reflexive());
    assert!(r.is_symmetric());
    assert!(r.is_transitive());
    assert!(!r.is_antisymmetric());
    assert!(!r.is_irreflexive());
    assert!(r.is_lefttotal());
    assert!(r.is_surjective());
    assert!(!r.is_injective());
    assert!(r.is_equivalent());
    assert!(r.is_difunctional());
}

#[test]
fn properties_of_one_set_are_false_between_two_sets() {
    let r = RelationVec::new(
        (labels(&["a", "b"]), labels(&["x", "y"])),
        vec![true, false, false, true],
    )
    .unwrap();
    assert!(r.is_heterogeneous());
    assert!(!r.is_reflexive());
    assert!(!r.is_irreflexive());
    assert!(!r.is_symmetric());
    assert!(!r.is_antisymmetric());
    assert!(!r.is_transitive());
    assert!(!r.is_asymmetric());
    assert!(!r.is_preorder());
    assert!(!r.is_partial_order());
    assert!(!r.is_equivalent());
    assert!(!r.is_difunctional());
    assert!(r.is_injective());
    assert!(r.is_functional());
    assert!(r.is_bijective());
    assert!(r.is_function());
}

#[test]
fn functional_and_injective_count_per_row_and_column() {
    let r = three_by_two();
    assert!(!r.is_functional());
    assert!(!r.is_injective());
    assert!(!r.is_lefttotal());
    assert!(r.is_surjective());
    let c = converse(&r);
    assert!(!c.is_injective());
    assert!(c.is_lefttotal());
    assert!(!c.is_surjective());
    let f = RelationVec::new(
        (labels(&["a", "b", "c"]), labels(&["x", "y"])),
        vec![true, false, false, true, false, true],
    )
    .unwrap();
    assert!(f.is_functional());
    assert!(f.is_function());
    assert!(!f.is_injective());
    assert!(f.is_surjective());
    assert!(!f.is_bijective());
}

#[test]
fn transitive_and_difunctional_find_counterexamples() {
    let s = labels(&["a", "b", "c"]);
    let chain = RelationVec::new(
        (s.clone(), s.clone()),
        vec![false, true, false, false, false, true, false, false, false],
    )
    .unwrap();
    assert!(!chain.is_transitive());
    assert!(chain.is_antisymmetric());
    assert!(chain.is_difunctional());
    let fork = RelationVec::new(
        (s.clone(), s.clone()),
        vec![true, true, false, false, true, true, false, false, false],
    )
    .unwrap();
    assert!(!fork.is_difunctional());
    let loops = RelationVec::new(
        (s.clone(), s.clone()),
        vec![false, true, false, true, false, false, false, false, false],
    )
    .unwrap();
    assert!(!loops.is_transitive());
    assert!(loops.is_symmetric());
    assert!(!loops.is_antisymmetric());
}

#[test]
fn lattices_are_not_decided() {
    let r = divides();
    assert!(!r.is_lattice());
    assert!(!is_sublattice(&r, &le()));
}

#[test]
fn operators_reject_incompatible_domains() {
    let a = three_by_two();
    let b = two_by_four();
    assert_eq!(union(&a, &b).err(), Some(RelationError::DomainMismatch));
    assert_eq!(intersection(&a, &b).err(), Some(RelationError::DomainMismatch));
    assert_eq!(concatenation(&b, &a).err(), Some(RelationError::DomainMismatch));
    assert_eq!(Union::new(&a, &b).err(), Some(RelationError::DomainMismatch));
    assert_eq!(Intersection::new(&a, &b).err(), Some(RelationError::DomainMismatch));
    assert_eq!(Concatenation::new(&b, &a).err(), Some(RelationError::DomainMismatch));
    assert!(Concatenation::new(&a, &b).is_ok());
    assert_eq!(identity(a.get_domain()).err(), Some(RelationError::DomainMismatch));
    assert_eq!(Identity::over(a.get_domain()).err(), Some(RelationError::DomainMismatch));
    assert_eq!(closure_reflexive(&a).err(), Some(RelationError::DomainMismatch));
    assert_eq!(closure_symmetric(&a).err(), Some(RelationError::DomainMismatch));
}

#[test]
fn closures_add_what_is_missing() {
    let lt = RelationVec::from_predicate(&n8(), |(&x, &y)| x < y).unwrap();
    assert!(eq(&closure_reflexive(&lt).unwrap(), &le()));
    let s = OrderedSet::from_vec((1..=8).map(SetElement::from).collect());
    let id = Identity::new(&s);
    let ne = complement(&id);
    assert!(eq(&closure_symmetric(&lt).unwrap(), &ne));
}

#[test]
fn operators_hold_borrowed_or_owned_operands() {
    let r = three_by_two();
    let owned = Complement::with(LCow::owned(r.clone()));
    let borrowed = Complement::new(&r);
    assert!(eq(&owned, &borrowed));
    let inner: Converse<RelationVec> = Converse::with(LCow::from(&r));
    let back = Converse::with(LCow::owned(inner));
    assert!(eq(&back, &r));
    let both = Union::with(LCow::from(r.clone()), LCow::borrowed(&r)).unwrap();
    assert!(eq(&both, &r));
    assert!(LCow::owned(7).get() == &7);
    assert!(LCow::borrowed(&7).get() == &7);
}

#[test]
fn source_and_range() {
    let r = three_by_two();
    assert_eq!(r.source().to_string(), "{a c}");
    assert_eq!(r.range().to_string(), "{x y}");
    let none = Empty::over(r.get_domain());
    assert_eq!(none.source().to_string(), "{}");
    assert_eq!(none.range().to_string(), "{}");
}

#[test]
fn images_and_preimages() {
    let r = three_by_two();
    assert_eq!(r.image(&labels(&["a"])).to_string(), "{x}");
    assert_eq!(r.image(&labels(&["b"])).to_string(), "{}");
    assert_eq!(r.image(&labels(&["a", "c"])).to_string(), "{x y}");
    assert_eq!(r.image(&labels(&["a", "z"])).to_string(), "{x}");
    assert_eq!(r.preimage(&labels(&["y"])).to_string(), "{c}");
    assert_eq!(r.preimage(&labels(&["x"])).to_string(), "{a c}");
    assert_eq!(r.image_strict(&labels(&["a", "c"])).to_string(), "{x}");
    assert_eq!(r.image_strict(&labels(&["a", "b"])).to_string(), "{}");
    assert_eq!(r.image_strict(&labels(&[])).to_string(), "{x y}");
    assert_eq!(r.preimage_strict(&labels(&["x", "y"])).to_string(), "{c}");
    assert_eq!(r.preimage_strict(&labels(&["x"])).to_string(), "{a c}");
    assert_eq!(r.preimage_strict(&labels(&[])).to_string(), "{a b c}");
}

#[test]
fn index_ranges_cover_the_domains() {
    let r = three_by_two();
    assert_eq!(r.ixs(), 0..3);
    assert_eq!(r.iys(), 0..2);
    assert_eq!(r.len_x(), 3);
    assert_eq!(r.len_y(), 2);
}
