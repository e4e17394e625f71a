use relax::relation::operators::empty;
use relax::tex::ToTex;
use relax::{OrderedSet, RelationVec, SetElement};

#[test]
fn to_tex() {
    let r = RelationVec::from_predicate(&(1..5).collect::<Vec<_>>(), |(x, y)| x < y).unwrap();
    let tex = r#"\begin{array}{c|cccc}
 & 1 & 2 & 3 & 4 \\ \hline
1 & \false & \true  & \true  & \true  \\
2 & \false & \false & \true  & \true  \\
3 & \false & \false & \false & \true  \\
4 & \false & \false & \false & \false
\end{array}"#;
    assert_eq!(tex, r.to_tex().to_string());
}

#[test]
fn to_tex_of_a_relation_without_members() {
    let none = OrderedSet::new();
    let r = empty((&none, &none));
    assert_eq!(r.to_tex().to_string(), "\\begin{array}{c|}\n \\\\ \\hline\n\n\\end{array}");
}

#[test]
fn to_tex_writes_nested_sets_in_braces() {
    let inner = OrderedSet::from_vec(vec![
        SetElement::from("b".to_string()),
        SetElement::from("a".to_string()),
    ]);
    let x = OrderedSet::from_vec(vec![SetElement::Nested(inner)]);
    let r = RelationVec::new((x.clone(), x), vec![true]).unwrap();
    assert_eq!(
        r.to_tex().to_string(),
        "\\begin{array}{c|c}\n & {a b} \\\\ \\hline\n{a b} & \\true \n\\end{array}"
    );
}
