//! Ordered sets: finite, sorted collections without duplicates.

use vstd::prelude::*;
use crate::element::{
    char_lt, element_lt, element_text, element_wf, lemma_element_lt_irreflexive,
    lemma_element_lt_total, lemma_element_lt_transitive, lemma_first_difference_is, members_text,
    set_wf, str_lt, ElementView,
};
use crate::select::{lemma_select_ext, lemma_select_step, lemma_select_wf, select};

verus! {

/// An element of an ordered set: a string or a nested ordered set.
#[derive(Debug)]
pub enum SetElement {
    Str(String),
    Nested(OrderedSet),
}

/// A finite set of elements, held in ascending order without duplicates.
#[derive(Debug)]
pub struct OrderedSet {
    elems: Vec<SetElement>,
}

/// How one value stands to another in a total order.
#[derive(Clone, Copy, Debug, PartialEq, Eq, Structural)]
pub enum Comparison {
    Less,
    Equal,
    Greater,
}

/// How `a` stands to `b` in the order of elements.
pub open spec fn compare_spec(a: ElementView, b: ElementView) -> Comparison {
    if a == b {
        Comparison::Equal
    } else if element_lt(a, b) {
        Comparison::Less
    } else {
        Comparison::Greater
    }
}

/// The three outcomes of a comparison exclude one another, and `Greater`
/// means that the second element precedes the first.
pub proof fn lemma_compare_spec(a: ElementView, b: ElementView)
    ensures
        compare_spec(a, b) == Comparison::Less <==> element_lt(a, b),
        compare_spec(a, b) == Comparison::Equal <==> a == b,
        compare_spec(a, b) == Comparison::Greater <==> element_lt(b, a),
{
    lemma_element_lt_irreflexive(a);
    if a != b {
        lemma_element_lt_total(a, b);
        if element_lt(a, b) && element_lt(b, a) {
            lemma_element_lt_transitive(a, b, a);
        }
    }
}

/// Compares two strings lexicographically by the code points of their
/// characters. Characters are reached by counting from the start, so the
/// cost grows with the square of the length of what the strings share.
pub fn compare_str(x: &str, y: &str) -> (c: Comparison)
    ensures
        c == compare_spec(ElementView::Str(x@), ElementView::Str(y@)),
{
    let nx = x.unicode_len();
    let ny = y.unicode_len();
    let mut k: usize = 0;
    while k < nx && k < ny
        invariant
            nx == x@.len(),
            ny == y@.len(),
            k <= nx,
            k <= ny,
            forall|i: int| 0 <= i < k ==> x@[i] == y@[i],
        decreases nx - k,
    {
        let a = x.get_char(k);
        let b = y.get_char(k);
        if a != b {
            proof {
                lemma_first_difference_is(x@, y@, k as int);
                lemma_first_difference_is(y@, x@, k as int);
                lemma_compare_spec(ElementView::Str(x@), ElementView::Str(y@));
                assert(str_lt(x@, y@) == char_lt(a, b));
                assert(str_lt(y@, x@) == char_lt(b, a));
            }
            if (a as u32) < (b as u32) {
                return Comparison::Less;
            } else {
                return Comparison::Greater;
            }
        }
        k += 1;
    }
    proof {
        lemma_first_difference_is(x@, y@, k as int);
        lemma_first_difference_is(y@, x@, k as int);
        lemma_compare_spec(ElementView::Str(x@), ElementView::Str(y@));
        if nx == ny {
            assert(x@ =~= y@);
        }
    }
    if nx < ny {
        Comparison::Less
    } else if nx == ny {
        Comparison::Equal
    } else {
        Comparison::Greater
    }
}

/// The value of an element.
pub open spec fn element_view(e: SetElement) -> ElementView
    decreases e, 0nat,
{
    match e {
        SetElement::Str(s) => ElementView::Str(s@),
        SetElement::Nested(s) => ElementView::Nested(members_view(s.members(), s.members().len())),
    }
}

/// The values of the first `n` members of a sequence of elements.
pub open spec fn members_view(v: Seq<SetElement>, n: nat) -> Seq<ElementView>
    decreases v, n,
{
    if n == 0 || n > v.len() {
        Seq::empty()
    } else {
        members_view(v, (n - 1) as nat).push(element_view(v[n - 1]))
    }
}

/// `members_view(v, n)` holds the values of `v[0]` to `v[n - 1]`, in order.
pub proof fn lemma_members_view(v: Seq<SetElement>, n: nat)
    requires
        n <= v.len(),
    ensures
        members_view(v, n).len() == n,
        forall|i: int| 0 <= i < n ==> #[trigger] members_view(v, n)[i] == element_view(v[i]),
    decreases n,
{
    if n > 0 {
        lemma_members_view(v, (n - 1) as nat);
    }
}

impl View for SetElement {
    type V = ElementView;

    open spec fn view(&self) -> ElementView {
        element_view(*self)
    }
}

impl View for OrderedSet {
    type V = Seq<ElementView>;

    open spec fn view(&self) -> Seq<ElementView> {
        members_view(self.members(), self.members().len())
    }
}

impl SetElement {
    /// Validity: nested sets are ordered sets at every depth.
    pub open spec fn wf(self) -> bool {
        element_wf(self@)
    }

}

impl SetElement {
    /// Whether two elements have the same value.
    pub fn equals(&self, other: &SetElement) -> (b: bool)
        ensures
            b == (self@ == other@),
        decreases self,
    {
        match self {
            SetElement::Str(s) => match other {
                SetElement::Str(t) => *s == *t,
                SetElement::Nested(_) => false,
            },
            SetElement::Nested(s) => match other {
                SetElement::Str(_) => false,
                SetElement::Nested(t) => s.equals(t),
            },
        }
    }
}

impl Clone for SetElement {
    /// A copy of the element with the same value.
    fn clone(&self) -> (res: SetElement)
        ensures
            res@ == self@,
        decreases self,
    {
        match self {
            SetElement::Str(s) => SetElement::Str(s.clone()),
            SetElement::Nested(s) => SetElement::Nested(s.clone()),
        }
    }
}

impl OrderedSet {
    /// The members as they are stored.
    pub closed spec fn members(self) -> Seq<SetElement> {
        self.elems@
    }

    /// Validity: the members are strictly ascending and each is valid.
    pub open spec fn wf(self) -> bool {
        set_wf(self@)
    }

    /// The empty set.
    pub fn new() -> (s: OrderedSet)
        ensures
            s@ == Seq::<ElementView>::empty(),
            s.wf(),
    {
        OrderedSet { elems: Vec::new() }
    }

    /// The number of members.
    pub fn cardinality(&self) -> (n: usize)
        ensures
            n == self@.len(),
    {
        proof {
            lemma_members_view(self.members(), self.members().len());
        }
        self.elems.len()
    }

    /// The member at position `i` of the ascending order.
    pub fn get(&self, i: usize) -> (e: &SetElement)
        requires
            i < self@.len(),
        ensures
            e@ == self@[i as int],
    {
        proof {
            lemma_members_view(self.members(), self.members().len());
        }
        &self.elems[i]
    }

    /// The members in ascending order.
    pub fn iter(&self) -> (v: &Vec<SetElement>)
        ensures
            v@.len() == self@.len(),
            forall|i: int| 0 <= i < v@.len() ==> (#[trigger] v@[i])@ == self@[i],
    {
        proof {
            lemma_members_view(self.members(), self.members().len());
        }
        &self.elems
    }
}

impl OrderedSet {
    /// Whether two sets have the same members.
    pub fn equals(&self, other: &OrderedSet) -> (b: bool)
        ensures
            b == (self@ == other@),
        decreases self,
    {
        proof {
            lemma_members_view(self.members(), self.members().len());
            lemma_members_view(other.members(), other.members().len());
        }
        if self.elems.len() != other.elems.len() {
            return false;
        }
        let n = self.elems.len();
        let mut i: usize = 0;
        while i < n
            invariant
                i <= n,
                n == self.elems.len(),
                n == other.elems.len(),
                self@.len() == n,
                other@.len() == n,
                forall|k: int| 0 <= k < n ==> #[trigger] self@[k] == element_view(self.elems@[k]),
                forall|k: int| 0 <= k < n ==> #[trigger] other@[k] == element_view(other.elems@[k]),
                forall|k: int| 0 <= k < i ==> self@[k] == other@[k],
            decreases n - i,
        {
            if !self.elems[i].equals(&other.elems[i]) {
                assert(self@[i as int] != other@[i as int]);
                return false;
            }
            i += 1;
        }
        assert(self@ =~= other@);
        true
    }
}

impl Default for OrderedSet {
    /// The empty set.
    fn default() -> (s: OrderedSet)
        ensures
            s@ == Seq::<ElementView>::empty(),
            s.wf(),
    {
        OrderedSet::new()
    }
}

impl Clone for OrderedSet {
    /// A copy of the set with the same members.
    fn clone(&self) -> (res: OrderedSet)
        ensures
            res@ == self@,
        decreases self,
    {
        proof {
            lemma_members_view(self.members(), self.members().len());
        }
        let n = self.elems.len();
        let mut out: Vec<SetElement> = Vec::new();
        let mut i: usize = 0;
        while i < n
            invariant
                i <= n,
                n == self.elems.len(),
                out@.len() == i,
                forall|k: int| 0 <= k < i ==> element_view(#[trigger] out@[k]) == element_view(self.elems@[k]),
            decreases n - i,
        {
            out.push(self.elems[i].clone());
            i += 1;
        }
        let res = OrderedSet { elems: out };
        proof {
            lemma_members_view(res.members(), res.members().len());
            lemma_members_view(self.members(), self.members().len());
            assert(res@ =~= self@);
        }
        res
    }
}

impl SetElement {
    /// The element as text: a string as it is, a nested set as its members
    /// between braces.
    pub fn to_string(&self) -> (s: String)
        ensures
            s@ == element_text(self@),
        decreases self,
    {
        match self {
            SetElement::Str(s) => s.clone(),
            SetElement::Nested(m) => m.to_string(),
        }
    }

    /// How this element stands to `other` in the order of elements.
    pub fn compare(&self, other: &SetElement) -> (c: Comparison)
        ensures
            c == compare_spec(self@, other@),
        decreases self,
    {
        proof {
            lemma_compare_spec(self@, other@);
        }
        match self {
            SetElement::Str(s) => match other {
                SetElement::Str(t) => compare_str(s.as_str(), t.as_str()),
                SetElement::Nested(_) => Comparison::Less,
            },
            SetElement::Nested(s) => match other {
                SetElement::Str(_) => Comparison::Greater,
                SetElement::Nested(t) => s.compare(t),
            },
        }
    }
}

impl OrderedSet {
    /// How this set stands to `other` in the order of elements: by the
    /// members at the first difference, or by the number of members where
    /// one set is the beginning of the other.
    pub fn compare(&self, other: &OrderedSet) -> (c: Comparison)
        ensures
            c == compare_spec(ElementView::Nested(self@), ElementView::Nested(other@)),
        decreases self,
    {
        proof {
            lemma_members_view(self.members(), self.members().len());
            lemma_members_view(other.members(), other.members().len());
        }
        let nx = self.elems.len();
        let ny = other.elems.len();
        let mut k: usize = 0;
        while k < nx && k < ny
            invariant
                nx == self.elems.len(),
                ny == other.elems.len(),
                nx == self@.len(),
                ny == other@.len(),
                k <= nx,
                k <= ny,
                forall|i: int| 0 <= i < nx ==> #[trigger] self@[i] == element_view(self.elems@[i]),
                forall|i: int| 0 <= i < ny ==> #[trigger] other@[i] == element_view(other.elems@[i]),
                forall|i: int| 0 <= i < k ==> self@[i] == other@[i],
            decreases nx - k,
        {
            let c = self.elems[k].compare(&other.elems[k]);
            match c {
                Comparison::Equal => {},
                _ => {
                    proof {
                        let a = self@[k as int];
                        let b = other@[k as int];
                        assert(c == compare_spec(a, b));
                        lemma_compare_spec(a, b);
                        lemma_first_difference_is(self@, other@, k as int);
                        lemma_first_difference_is(other@, self@, k as int);
                        lemma_compare_spec(
                            ElementView::Nested(self@),
                            ElementView::Nested(other@),
                        );
                    }
                    return c;
                },
            }
            k += 1;
        }
        proof {
            lemma_first_difference_is(self@, other@, k as int);
            lemma_first_difference_is(other@, self@, k as int);
            lemma_compare_spec(ElementView::Nested(self@), ElementView::Nested(other@));
            if nx == ny {
                assert(self@ =~= other@);
            }
        }
        if nx < ny {
            Comparison::Less
        } else if nx == ny {
            Comparison::Equal
        } else {
            Comparison::Greater
        }
    }

    /// The position of the member with the value of `e`, if there is one.
    pub fn position(&self, e: &SetElement) -> (r: Option<usize>)
        ensures
            match r {
                Some(i) => i < self@.len() && self@[i as int] == e@,
                None => !self@.contains(e@),
            },
    {
        proof {
            lemma_members_view(self.members(), self.members().len());
        }
        let n = self.elems.len();
        let mut i: usize = 0;
        while i < n
            invariant
                n == self.elems.len(),
                n == self@.len(),
                i <= n,
                forall|k: int| 0 <= k < n ==> #[trigger] self@[k] == element_view(self.elems@[k]),
                forall|k: int| 0 <= k < i ==> self@[k] != e@,
            decreases n - i,
        {
            if self.elems[i].equals(e) {
                return Some(i);
            }
            i += 1;
        }
        None
    }

    /// Whether some member has the value of `e`.
    pub fn contains(&self, e: &SetElement) -> (b: bool)
        ensures
            b == self@.contains(e@),
    {
        self.position(e).is_some()
    }

    /// Adds `e` to the set, at its place in the order, unless a member
    /// with its value is there already. Says whether it was added.
    pub fn insert(&mut self, e: SetElement) -> (added: bool)
        requires
            old(self).wf(),
            e.wf(),
        ensures
            final(self).wf(),
            added == !old(self)@.contains(e@),
            final(self)@.to_set() == old(self)@.to_set().insert(e@),
            !added ==> final(self)@ == old(self)@,
            added ==> exists|i: int|
                0 <= i <= old(self)@.len() && final(self)@ == #[trigger] old(self)@.insert(i, e@),
    {
        proof {
            lemma_members_view(self.members(), self.members().len());
        }
        let ghost before = self@;
        let n = self.elems.len();
        let mut i: usize = 0;
        while i < n
            invariant
                *self == *old(self),
                before == self@,
                self.wf(),
                n == self.elems.len(),
                n == before.len(),
                i <= n,
                forall|k: int| 0 <= k < n ==> #[trigger] before[k] == element_view(self.elems@[k]),
                forall|k: int| 0 <= k < i ==> element_lt(#[trigger] before[k], e@),
            ensures
                i < n ==> element_lt(e@, before[i as int]),
            decreases n - i,
        {
            let c = self.elems[i].compare(&e);
            proof {
                lemma_compare_spec(before[i as int], e@);
            }
            match c {
                Comparison::Less => {},
                Comparison::Equal => {
                    assert(before.to_set().insert(e@) =~= before.to_set());
                    return false;
                },
                Comparison::Greater => {
                    break ;
                },
            }
            i += 1;
        }
        proof {
            assert(i < n ==> element_lt(e@, before[i as int]));
            assert forall|k: int| i <= k < n implies element_lt(e@, #[trigger] before[k]) by {
                if k > i {
                    assert(element_lt(before[i as int], before[k]));
                    lemma_element_lt_transitive(e@, before[i as int], before[k]);
                }
            }
            assert forall|k: int| 0 <= k < n implies before[k] != e@ by {
                lemma_element_lt_irreflexive(e@);
            }
        }
        let ghost inserted = e@;
        self.elems.insert(i, e);
        proof {
            lemma_members_view(self.members(), self.members().len());
            let after = self@;
            assert(after =~= before.insert(i as int, inserted));
            assert forall|a: int, b: int| 0 <= a < b < after.len() implies element_lt(
                after[a],
                after[b],
            ) by {
                if b < i {
                    assert(element_lt(before[a], before[b]));
                } else if b == i {
                    assert(element_lt(before[a], inserted));
                } else if a < i {
                    assert(element_lt(before[a], before[b - 1]));
                } else if a == i {
                    assert(element_lt(inserted, before[b - 1]));
                } else {
                    assert(element_lt(before[a - 1], before[b - 1]));
                }
            }
            assert forall|k: int| 0 <= k < after.len() implies element_wf(
                #[trigger] after[k],
            ) by {
                if k < i {
                    assert(element_wf(before[k]));
                } else if k > i {
                    assert(element_wf(before[k - 1]));
                }
            }
            assert forall|a: ElementView|
                after.to_set().contains(a) == before.to_set().insert(inserted).contains(a) by {
                if after.contains(a) {
                    let k = choose|k: int| 0 <= k < after.len() && after[k] == a;
                    if k < i {
                        assert(before[k] == a);
                    } else if k > i {
                        assert(before[k - 1] == a);
                    }
                }
                if before.contains(a) {
                    let k = choose|k: int| 0 <= k < before.len() && before[k] == a;
                    if k < i {
                        assert(after[k] == a);
                    } else {
                        assert(after[k + 1] == a);
                    }
                }
                if a == inserted {
                    assert(after[i as int] == a);
                }
            }
            assert(after.to_set() =~= before.to_set().insert(inserted));
        }
        true
    }

    /// The set of the elements of `v`.
    pub fn from_vec(v: Vec<SetElement>) -> (s: OrderedSet)
        requires
            forall|i: int| 0 <= i < v@.len() ==> (#[trigger] v@[i]).wf(),
        ensures
            s.wf(),
            s@.to_set() == members_view(v@, v@.len() as nat).to_set(),
    {
        let ghost all = members_view(v@, v@.len() as nat);
        proof {
            lemma_members_view(v@, v@.len() as nat);
        }
        let mut s = OrderedSet::new();
        let mut v = v;
        let ghost mut taken: int = 0;
        let n = v.len();
        assert(Seq::<ElementView>::empty().to_set() =~= Set::<ElementView>::empty());
        assert(all.skip(n as int).to_set() =~= Set::<ElementView>::empty());
        while v.len() > 0
            invariant
                s.wf(),
                v@.len() <= n,
                n == all.len(),
                forall|i: int| 0 <= i < v@.len() ==> (#[trigger] v@[i]).wf(),
                forall|i: int| 0 <= i < v@.len() ==> element_view(#[trigger] v@[i]) == all[i],
                s@.to_set() == all.skip(v@.len() as int).to_set(),
            decreases v@.len(),
        {
            let ghost m = v@.len() as int;
            let e = v.pop().unwrap();
            s.insert(e);
            proof {
                let a = all.skip(m - 1);
                let b = all.skip(m);
                assert forall|x: ElementView| a.to_set().contains(x) == b.to_set().insert(
                    all[m - 1],
                ).contains(x) by {
                    if a.contains(x) {
                        let k = choose|k: int| 0 <= k < a.len() && a[k] == x;
                        if k > 0 {
                            assert(b[k - 1] == x);
                        }
                    }
                    if b.contains(x) {
                        let k = choose|k: int| 0 <= k < b.len() && b[k] == x;
                        assert(a[k + 1] == x);
                    }
                    if x == all[m - 1] {
                        assert(a[0] == x);
                    }
                }
                assert(a.to_set() =~= b.to_set().insert(all[m - 1]));
            }
        }
        assert(all.skip(0) =~= all);
        s
    }
}

/// A vector of `n` entries, all `value`.
fn filled(n: usize, value: bool) -> (v: Vec<bool>)
    ensures
        v@.len() == n,
        forall|i: int| 0 <= i < n ==> v@[i] == value,
{
    let mut v: Vec<bool> = Vec::new();
    let mut i: usize = 0;
    while i < n
        invariant
            i <= n,
            v@.len() == i,
            forall|k: int| 0 <= k < i ==> v@[k] == value,
        decreases n - i,
    {
        v.push(value);
        i += 1;
    }
    v
}

/// A walk through two ordered sets in step that stops at each member
/// they share and tells its position in either set.
#[derive(Debug)]
pub struct EnumeratedIntersection<'a> {
    s: &'a OrderedSet,
    u: &'a OrderedSet,
    i: usize,
    j: usize,
}

impl<'a> EnumeratedIntersection<'a> {
    /// The members of the first set.
    pub closed spec fn left(self) -> Seq<ElementView> {
        self.s@
    }

    /// The members of the second set.
    pub closed spec fn right(self) -> Seq<ElementView> {
        self.u@
    }

    /// How far the walk has come in the first and in the second set.
    pub closed spec fn cursor(self) -> (int, int) {
        (self.i as int, self.j as int)
    }

    /// Validity: both sets are ordered, and no member that the walk has
    /// passed in one set is still to come in the other.
    pub open spec fn wf(self) -> bool {
        &&& set_wf(self.left())
        &&& set_wf(self.right())
        &&& 0 <= self.cursor().0 <= self.left().len()
        &&& 0 <= self.cursor().1 <= self.right().len()
        &&& forall|a: int, b: int|
            0 <= a < self.cursor().0 && self.cursor().1 <= b < self.right().len()
                ==> #[trigger] self.left()[a] != #[trigger] self.right()[b]
        &&& forall|a: int, b: int|
            self.cursor().0 <= a < self.left().len() && 0 <= b < self.cursor().1
                ==> #[trigger] self.left()[a] != #[trigger] self.right()[b]
    }

    /// The next member that both sets hold, with its positions in the
    /// first and in the second set, or `None` when the first set has no
    /// further member that the second holds too.
    pub fn next(&mut self) -> (r: Option<((usize, usize), &'a SetElement)>)
        requires
            old(self).wf(),
        ensures
            final(self).wf(),
            final(self).left() == old(self).left(),
            final(self).right() == old(self).right(),
            match r {
                Some(((a, b), e)) => {
                    &&& old(self).cursor().0 <= a < old(self).left().len()
                    &&& old(self).cursor().1 <= b < old(self).right().len()
                    &&& old(self).left()[a as int] == old(self).right()[b as int]
                    &&& e@ == old(self).right()[b as int]
                    &&& final(self).cursor() == (a + 1, b + 1)
                    &&& forall|a2: int|
                        old(self).cursor().0 <= a2 < a ==> !old(self).right().contains(
                            #[trigger] old(self).left()[a2],
                        )
                },
                None => {
                    &&& final(self).cursor().0 >= old(self).cursor().0
                    &&& forall|a2: int|
                        old(self).cursor().0 <= a2 < old(self).left().len() ==> !old(
                            self,
                        ).right().contains(#[trigger] old(self).left()[a2])
                },
            },
    {
        let s: &'a OrderedSet = self.s;
        let u: &'a OrderedSet = self.u;
        let n = s.cardinality();
        let m = u.cardinality();
        let ghost left = s@;
        let ghost right = u@;
        let ghost start = self.i as int;
        while self.i < n && self.j < m
            invariant
                self.wf(),
                self.s == s,
                self.u == u,
                left == s@,
                right == u@,
                left == old(self).left(),
                right == old(self).right(),
                start == old(self).cursor().0,
                self.j >= old(self).cursor().1,
                n == left.len(),
                m == right.len(),
                start <= self.i,
                forall|a2: int| start <= a2 < self.i ==> !right.contains(#[trigger] left[a2]),
            decreases (n - self.i) + (m - self.j),
        {
            let i = self.i;
            let j = self.j;
            let e = u.get(j);
            let c = s.get(i).compare(e);
            proof {
                lemma_compare_spec(left[i as int], right[j as int]);
            }
            match c {
                Comparison::Less => {
                    proof {
                        assert forall|b: int| 0 <= b < m implies left[i as int] != right[b] by {
                            if b >= j {
                                if b > j {
                                    assert(element_lt(right[j as int], right[b]));
                                    lemma_element_lt_transitive(
                                        left[i as int],
                                        right[j as int],
                                        right[b],
                                    );
                                }
                                lemma_element_lt_irreflexive(left[i as int]);
                            }
                        }
                    }
                    self.i = i + 1;
                },
                Comparison::Equal => {
                    proof {
                        assert forall|a: int, b: int| 0 <= a < i + 1 && j + 1 <= b < m implies left[a]
                            != right[b] by {
                            if a == i {
                                assert(element_lt(right[j as int], right[b]));
                                lemma_element_lt_irreflexive(right[b]);
                            }
                        }
                        assert forall|a: int, b: int| i + 1 <= a < n && 0 <= b < j + 1 implies left[a]
                            != right[b] by {
                            if b == j {
                                assert(element_lt(left[i as int], left[a]));
                                lemma_element_lt_irreflexive(left[a]);
                            }
                        }
                    }
                    self.i = i + 1;
                    self.j = j + 1;
                    return Some(((i, j), e));
                },
                Comparison::Greater => {
                    proof {
                        assert forall|a: int| i <= a < n implies left[a] != right[j as int] by {
                            if a > i {
                                assert(element_lt(left[i as int], left[a]));
                                lemma_element_lt_transitive(
                                    right[j as int],
                                    left[i as int],
                                    left[a],
                                );
                            }
                            lemma_element_lt_irreflexive(right[j as int]);
                        }
                    }
                    self.j = j + 1;
                },
            }
        }
        None
    }
}

impl OrderedSet {
    /// The members at the positions whose entry in `mask` is true.
    pub fn subset_by_mask(&self, mask: &Vec<bool>) -> (res: OrderedSet)
        requires
            mask@.len() == self@.len(),
        ensures
            res@ == select(self@, |i: int| mask@[i]),
            self.wf() ==> res.wf(),
    {
        proof {
            lemma_members_view(self.members(), self.members().len());
        }
        let ghost keep = |i: int| mask@[i];
        let n = self.elems.len();
        let mut out: Vec<SetElement> = Vec::new();
        let ghost mut acc: Seq<ElementView> = Seq::empty();
        let mut i: usize = 0;
        assert(self@.take(0) =~= Seq::<ElementView>::empty());
        while i < n
            invariant
                n == self.elems.len(),
                n == self@.len(),
                n == mask@.len(),
                i <= n,
                keep == |i: int| mask@[i],
                forall|k: int| 0 <= k < n ==> #[trigger] self@[k] == element_view(self.elems@[k]),
                acc == select(self@.take(i as int), keep),
                out@.len() == acc.len(),
                forall|k: int| 0 <= k < acc.len() ==> element_view(#[trigger] out@[k]) == acc[k],
            decreases n - i,
        {
            proof {
                lemma_select_step(self@, keep, i as int);
            }
            if mask[i] {
                out.push(self.elems[i].clone());
                proof {
                    acc = acc.push(self@[i as int]);
                }
            }
            i += 1;
        }
        let res = OrderedSet { elems: out };
        proof {
            assert(self@.take(n as int) =~= self@);
            lemma_members_view(res.members(), res.members().len());
            assert(res@ =~= acc);
            if self.wf() {
                lemma_select_wf(self@, keep);
            }
        }
        res
    }

    /// The set as text: its members in order, one space between
    /// neighbours, between braces.
    pub fn to_string(&self) -> (s: String)
        ensures
            s@ == element_text(ElementView::Nested(self@)),
        decreases self,
    {
        proof {
            lemma_members_view(self.members(), self.members().len());
        }
        let n = self.elems.len();
        let mut out = String::from_str("{");
        let mut i: usize = 0;
        while i < n
            invariant
                n == self.elems.len(),
                n == self@.len(),
                i <= n,
                forall|k: int| 0 <= k < n ==> #[trigger] self@[k] == element_view(self.elems@[k]),
                out@ == "{"@ + members_text(self@, i as nat),
            decreases n - i,
        {
            let ghost before = out@;
            if i > 0 {
                out.append(" ");
            }
            let text = self.elems[i].to_string();
            out.append(text.as_str());
            proof {
                let prior = members_text(self@, i as nat);
                let item = element_text(self@[i as int]);
                if i > 0 {
                    assert(out@ =~= "{"@ + (prior + " "@ + item));
                } else {
                    assert(prior =~= Seq::<char>::empty());
                    assert(out@ =~= "{"@ + item);
                }
            }
            i += 1;
        }
        out.append("}");
        out
    }

    /// A walk through the members that this set shares with `other`.
    pub fn intersection_enumerated<'a>(&'a self, other: &'a OrderedSet) -> (it:
        EnumeratedIntersection<'a>)
        requires
            self.wf(),
            other.wf(),
        ensures
            it.wf(),
            it.left() == self@,
            it.right() == other@,
            it.cursor() == (0int, 0int),
    {
        EnumeratedIntersection { s: self, u: other, i: 0, j: 0 }
    }

    /// For each member of this set, whether `other` holds it too.
    pub fn member_mask(&self, other: &OrderedSet) -> (mask: Vec<bool>)
        requires
            self.wf(),
            other.wf(),
        ensures
            mask@.len() == self@.len(),
            forall|i: int| 0 <= i < self@.len() ==> mask@[i] == other@.contains(#[trigger] self@[i]),
    {
        let n = self.cardinality();
        let mut mask = filled(n, false);
        let mut it = self.intersection_enumerated(other);
        loop
            invariant
                it.wf(),
                it.left() == self@,
                it.right() == other@,
                n == self@.len(),
                mask@.len() == n,
                forall|a: int|
                    0 <= a < it.cursor().0 ==> mask@[a] == other@.contains(#[trigger] self@[a]),
                forall|a: int| it.cursor().0 <= a < n ==> !mask@[a],
            ensures
                forall|a: int| 0 <= a < n ==> mask@[a] == other@.contains(#[trigger] self@[a]),
            decreases n - it.cursor().0,
        {
            match it.next() {
                Some(((a, _b), _e)) => {
                    mask.set(a, true);
                },
                None => {
                    break ;
                },
            }
        }
        mask
    }

    /// Whether `other` holds every member of this set.
    pub fn is_subset(&self, other: &OrderedSet) -> (b: bool)
        requires
            self.wf(),
            other.wf(),
        ensures
            b == forall|i: int| 0 <= i < self@.len() ==> other@.contains(#[trigger] self@[i]),
    {
        let mask = self.member_mask(other);
        let n = mask.len();
        let mut i: usize = 0;
        while i < n
            invariant
                n == self@.len(),
                n == mask@.len(),
                i <= n,
                forall|k: int| 0 <= k < n ==> mask@[k] == other@.contains(#[trigger] self@[k]),
                forall|k: int| 0 <= k < i ==> other@.contains(#[trigger] self@[k]),
            decreases n - i,
        {
            if !mask[i] {
                assert(!other@.contains(self@[i as int]));
                return false;
            }
            i += 1;
        }
        true
    }

    /// The members of this set that `other` holds too, in order.
    pub fn intersection(&self, other: &OrderedSet) -> (res: OrderedSet)
        requires
            self.wf(),
            other.wf(),
        ensures
            res.wf(),
            res@ == select(self@, |i: int| other@.contains(self@[i])),
    {
        let mask = self.member_mask(other);
        proof {
            lemma_select_ext(self@, |i: int| mask@[i], |i: int| other@.contains(self@[i]));
        }
        self.subset_by_mask(&mask)
    }

    /// The members of this set and of `other`, in order: both sets are
    /// walked in step, and of two equal members one is taken.
    pub fn union(&self, other: &OrderedSet) -> (res: OrderedSet)
        requires
            self.wf(),
            other.wf(),
        ensures
            res.wf(),
            res@.to_set() == self@.to_set().union(other@.to_set()),
    {
        proof {
            lemma_members_view(self.members(), self.members().len());
            lemma_members_view(other.members(), other.members().len());
        }
        let n = self.elems.len();
        let m = other.elems.len();
        let mut out: Vec<SetElement> = Vec::new();
        let ghost mut acc: Seq<ElementView> = Seq::empty();
        let mut i: usize = 0;
        let mut j: usize = 0;
        proof {
            assert(self@.take(0).to_set() =~= Set::<ElementView>::empty());
            assert(other@.take(0).to_set() =~= Set::<ElementView>::empty());
            assert(acc.to_set() =~= Set::<ElementView>::empty().union(Set::<ElementView>::empty()));
        }
        while i < n || j < m
            invariant
                self.wf(),
                other.wf(),
                n == self.elems.len(),
                m == other.elems.len(),
                n == self@.len(),
                m == other@.len(),
                i <= n,
                j <= m,
                forall|k: int| 0 <= k < n ==> #[trigger] self@[k] == element_view(self.elems@[k]),
                forall|k: int| 0 <= k < m ==> #[trigger] other@[k] == element_view(other.elems@[k]),
                out@.len() == acc.len(),
                forall|k: int| 0 <= k < acc.len() ==> element_view(#[trigger] out@[k]) == acc[k],
                set_wf(acc),
                acc.to_set() == self@.take(i as int).to_set().union(other@.take(j as int).to_set()),
                forall|k: int, a: int|
                    0 <= k < acc.len() && i <= a < n ==> element_lt(
                        #[trigger] acc[k],
                        #[trigger] self@[a],
                    ),
                forall|k: int, b: int|
                    0 <= k < acc.len() && j <= b < m ==> element_lt(
                        #[trigger] acc[k],
                        #[trigger] other@[b],
                    ),
            decreases (n - i) + (m - j),
        {
            let c = if i == n {
                Comparison::Greater
            } else if j == m {
                Comparison::Less
            } else {
                self.elems[i].compare(&other.elems[j])
            };
            let ghost before = acc;
            let ghost taken = if c == Comparison::Greater {
                other@[j as int]
            } else {
                self@[i as int]
            };
            proof {
                if i < n && j < m {
                    lemma_compare_spec(self@[i as int], other@[j as int]);
                }
                lemma_take_to_set(self@, i as int);
                lemma_take_to_set(other@, j as int);
                acc = before.push(taken);
                assert(element_wf(taken));
                assert forall|k: int| 0 <= k < acc.len() implies element_wf(#[trigger] acc[k]) by {
                    if k < before.len() {
                        assert(element_wf(before[k]));
                    }
                }
                assert forall|x: int, y: int| 0 <= x < y < acc.len() implies element_lt(
                    acc[x],
                    acc[y],
                ) by {
                    if y < before.len() {
                        assert(element_lt(before[x], before[y]));
                    }
                }
                lemma_push_to_set(before, taken);
            }
            match c {
                Comparison::Less => {
                    out.push(self.elems[i].clone());
                    proof {
                        assert forall|k: int, b: int|
                            0 <= k < acc.len() && j <= b < m implies element_lt(
                            #[trigger] acc[k],
                            #[trigger] other@[b],
                        ) by {
                            if k == before.len() && b > j {
                                assert(element_lt(other@[j as int], other@[b]));
                                lemma_element_lt_transitive(taken, other@[j as int], other@[b]);
                            }
                        }
                        assert forall|k: int, a: int|
                            0 <= k < acc.len() && i + 1 <= a < n implies element_lt(
                            #[trigger] acc[k],
                            #[trigger] self@[a],
                        ) by {
                            if k == before.len() {
                                assert(element_lt(self@[i as int], self@[a]));
                            }
                        }
                        assert(acc.to_set() =~= self@.take(i + 1).to_set().union(
                            other@.take(j as int).to_set(),
                        ));
                    }
                    i += 1;
                },
                Comparison::Equal => {
                    out.push(self.elems[i].clone());
                    proof {
                        assert forall|k: int, b: int|
                            0 <= k < acc.len() && j + 1 <= b < m implies element_lt(
                            #[trigger] acc[k],
                            #[trigger] other@[b],
                        ) by {
                            if k == before.len() {
                                assert(element_lt(other@[j as int], other@[b]));
                            }
                        }
                        assert forall|k: int, a: int|
                            0 <= k < acc.len() && i + 1 <= a < n implies element_lt(
                            #[trigger] acc[k],
                            #[trigger] self@[a],
                        ) by {
                            if k == before.len() {
                                assert(element_lt(self@[i as int], self@[a]));
                            }
                        }
                        assert(acc.to_set() =~= self@.take(i + 1).to_set().union(
                            other@.take(j + 1).to_set(),
                        ));
                    }
                    i += 1;
                    j += 1;
                },
                Comparison::Greater => {
                    out.push(other.elems[j].clone());
                    proof {
                        assert forall|k: int, a: int|
                            0 <= k < acc.len() && i <= a < n implies element_lt(
                            #[trigger] acc[k],
                            #[trigger] self@[a],
                        ) by {
                            if k == before.len() && a > i {
                                assert(element_lt(self@[i as int], self@[a]));
                                lemma_element_lt_transitive(taken, self@[i as int], self@[a]);
                            }
                        }
                        assert forall|k: int, b: int|
                            0 <= k < acc.len() && j + 1 <= b < m implies element_lt(
                            #[trigger] acc[k],
                            #[trigger] other@[b],
                        ) by {
                            if k == before.len() {
                                assert(element_lt(other@[j as int], other@[b]));
                            }
                        }
                        assert(acc.to_set() =~= self@.take(i as int).to_set().union(
                            other@.take(j + 1).to_set(),
                        ));
                    }
                    j += 1;
                },
            }
        }
        let res = OrderedSet { elems: out };
        proof {
            lemma_members_view(res.members(), res.members().len());
            assert(res@ =~= acc);
            assert(self@.take(n as int) =~= self@);
            assert(other@.take(m as int) =~= other@);
        }
        res
    }
}

/// The first `i + 1` members of a sequence are its first `i` members and
/// the member at `i`.
proof fn lemma_take_to_set(s: Seq<ElementView>, i: int)
    ensures
        0 <= i < s.len() ==> s.take(i + 1).to_set() == s.take(i).to_set().insert(s[i]),
{
    if 0 <= i < s.len() {
        assert(s.take(i + 1) =~= s.take(i).push(s[i]));
        lemma_push_to_set(s.take(i), s[i]);
    }
}

/// A sequence with one more member holds that member and what it held.
proof fn lemma_push_to_set(s: Seq<ElementView>, e: ElementView)
    ensures
        s.push(e).to_set() == s.to_set().insert(e),
{
    let t = s.push(e);
    assert forall|x: ElementView| t.to_set().contains(x) == s.to_set().insert(e).contains(x) by {
        if t.contains(x) {
            let k = choose|k: int| 0 <= k < t.len() && t[k] == x;
            if k < s.len() {
                assert(s[k] == x);
            }
        }
        if s.contains(x) {
            let k = choose|k: int| 0 <= k < s.len() && s[k] == x;
            assert(t[k] == x);
        }
        if x == e {
            assert(t[s.len() as int] == x);
        }
    }
    assert(t.to_set() =~= s.to_set().insert(e));
}

/// `label` is the element that is the string `item` is displayed as.
pub open spec fn label_of<T: core::fmt::Display>(item: T, label: ElementView) -> bool {
    exists|s: String| #[trigger]
        vstd::string::to_string_from_display_ensures::<T>(&item, s) && label == ElementView::Str(s@)
}

impl From<String> for SetElement {
    /// The element that is the string `s`.
    fn from(s: String) -> (e: SetElement)
        ensures
            e@ == ElementView::Str(s@),
            e.wf(),
    {
        SetElement::Str(s)
    }
}

impl vstd::std_specs::convert::FromSpecImpl<String> for SetElement {
    open spec fn obeys_from_spec() -> bool {
        true
    }

    open spec fn from_spec(s: String) -> SetElement {
        SetElement::Str(s)
    }
}

impl From<i32> for SetElement {
    /// The element that is the number `i` written out.
    fn from(i: i32) -> (e: SetElement)
        ensures
            label_of(i, e@),
            e.wf(),
    {
        SetElement::Str(i.to_string())
    }
}

impl vstd::std_specs::convert::FromSpecImpl<i32> for SetElement {
    open spec fn obeys_from_spec() -> bool {
        false
    }

    open spec fn from_spec(i: i32) -> SetElement {
        arbitrary()
    }
}

impl From<&char> for SetElement {
    /// The element that is the character `c` as a string.
    fn from(c: &char) -> (e: SetElement)
        ensures
            label_of(*c, e@),
            e.wf(),
    {
        SetElement::Str(c.to_string())
    }
}

impl vstd::std_specs::convert::FromSpecImpl<&char> for SetElement {
    open spec fn obeys_from_spec() -> bool {
        false
    }

    open spec fn from_spec(c: &char) -> SetElement {
        arbitrary()
    }
}

} // verus!
