use vstd::prelude::*;

use crate::order::{compare_names, is_strictly_sorted, name_lt, strictly_sorted, MalformedInput};

verus! {

/// A disjunction of principals: any one of them suffices.
///
/// The principals are held without duplicates; the order in which they are
/// stored carries no meaning. They are kept in a `Vec` rather than a
/// `BTreeSet`: vstd describes a `BTreeSet` only for keys that obey its model
/// of `Ord`, which `String` does not, so nothing could be proved of a set of
/// names held there. For the same reason a clause is built from a `Vec` or an
/// array of names, not from a `BTreeSet`.
#[derive(Debug, Clone)]
pub struct Clause {
    pub(crate) principals: Vec<String>,
}

/// The set of principal names held in a sequence of strings.
pub open spec fn names_of(v: Seq<String>) -> Set<Seq<char>> {
    v.map_values(|s: String| s@).to_set()
}

/// The set of principal names held in a sequence of string slices.
pub open spec fn str_names(v: Seq<&str>) -> Set<Seq<char>> {
    v.map_values(|s: &str| s@).to_set()
}

/// The disjunction `a` implies the disjunction `b`: every principal of `a`
/// is one of `b`.
pub open spec fn clause_implies(a: Set<Seq<char>>, b: Set<Seq<char>>) -> bool {
    a.subset_of(b)
}

/// The false clause implies every clause.
pub proof fn law_empty_implies_all(c: Set<Seq<char>>)
    ensures
        clause_implies(Set::empty(), c),
{
}

/// Implication between clauses is reflexive and transitive.
pub proof fn law_clause_preorder(a: Set<Seq<char>>, b: Set<Seq<char>>, c: Set<Seq<char>>)
    ensures
        clause_implies(a, a),
        clause_implies(a, b) && clause_implies(b, c) ==> clause_implies(a, c),
{
}

/// A clause implies exactly the clauses that contain all of its principals:
/// a subset implies its superset, and a clause with a principal that `b`
/// lacks does not imply `b`.
pub proof fn law_clause_subset_order(a: Set<Seq<char>>, b: Set<Seq<char>>)
    ensures
        a.subset_of(b) ==> clause_implies(a, b),
        (exists|p: Seq<char>| a.contains(p) && !b.contains(p)) ==> !clause_implies(a, b),
{
}

/// What it means to hold a name, and that a clause is finite.
pub proof fn lemma_names_of(v: Seq<String>, p: Seq<char>)
    ensures
        names_of(v).finite(),
        names_of(v).contains(p) <==> exists|i: int| 0 <= i < v.len() && (#[trigger] v[i])@ == p,
{
    let m = v.map_values(|s: String| s@);
    vstd::seq_lib::seq_to_set_is_finite(m);
    if names_of(v).contains(p) {
        let k = choose|k: int| 0 <= k < m.len() && #[trigger] m[k] == p;
        assert(v[k]@ == p);
    }
    if exists|i: int| 0 <= i < v.len() && (#[trigger] v[i])@ == p {
        let i = choose|i: int| 0 <= i < v.len() && (#[trigger] v[i])@ == p;
        assert(m[i] == p);
    }
}

/// Every clause names finitely many principals.
pub proof fn lemma_clause_finite(c: &Clause)
    ensures
        c@.finite(),
{
    lemma_names_of(c.principals@, Seq::empty());
}

impl View for Clause {
    type V = Set<Seq<char>>;

    open(crate) spec fn view(&self) -> Set<Seq<char>> {
        names_of(self.principals@)
    }
}

impl Clause {
    /// No principal is stored twice.
    pub open(crate) spec fn wf(&self) -> bool {
        forall|i: int, j: int|
            0 <= i < j < self.principals@.len() ==> self.principals@[i]@ != self.principals@[j]@
    }

    /// The false clause: a disjunction of no principal.
    pub fn empty() -> (r: Clause)
        ensures
            r.wf(),
            r@ == Set::<Seq<char>>::empty(),
    {
        let r = Clause { principals: Vec::new() };
        assert(r@ =~= Set::<Seq<char>>::empty());
        r
    }

    /// The clause of the given principals, each kept once.
    pub fn new<const N: usize>(principals: [&str; N]) -> (r: Clause)
        ensures
            r.wf(),
            r@ == str_names(principals@),
    {
        let mut r = Clause::empty();
        let mut i: usize = 0;
        while i < N
            invariant
                0 <= i <= N,
                principals@.len() == N,
                r.wf(),
                r@ == str_names(principals@.take(i as int)),
            decreases N - i,
        {
            let name = principals[i].to_owned();
            r.insert(name);
            proof {
                let f = |s: &str| s@;
                let t = principals@.take(i as int);
                assert(principals@.take(i + 1) =~= t.push(principals@[i as int]));
                assert(t.push(principals@[i as int]).map_values(f) =~= t.map_values(f).push(name@));
                t.map_values(f).lemma_push_to_set_commute(name@);
            }
            i = i + 1;
        }
        assert(principals@.take(N as int) =~= principals@);
        r
    }

    /// The clause of the principals in `principals`, each kept once.
    pub fn new_from_vec(principals: Vec<String>) -> (r: Clause)
        ensures
            r.wf(),
            r@ == names_of(principals@),
    {
        Clause::from_names(&principals)
    }

    /// The clause of the principals in `principals`, each kept once.
    pub fn from_names(principals: &Vec<String>) -> (r: Clause)
        ensures
            r.wf(),
            r@ == names_of(principals@),
    {
        let mut r = Clause::empty();
        let mut i: usize = 0;
        while i < principals.len()
            invariant
                0 <= i <= principals@.len(),
                r.wf(),
                r@ == names_of(principals@.take(i as int)),
            decreases principals@.len() - i,
        {
            let name = principals[i].clone();
            r.insert(name);
            proof {
                let f = |s: String| s@;
                let t = principals@.take(i as int);
                assert(principals@.take(i + 1) =~= t.push(principals@[i as int]));
                assert(t.push(principals@[i as int]).map_values(f) =~= t.map_values(f).push(name@));
                t.map_values(f).lemma_push_to_set_commute(name@);
            }
            i = i + 1;
        }
        assert(principals@.take(principals@.len() as int) =~= principals@);
        r
    }

    /// A copy of the clause.
    pub fn duplicate(&self) -> (r: Clause)
        requires
            self.wf(),
        ensures
            r.wf(),
            r@ == self@,
    {
        let mut v: Vec<String> = Vec::new();
        let mut i: usize = 0;
        while i < self.principals.len()
            invariant
                0 <= i <= self.principals@.len(),
                v@.len() == i,
                forall|k: int| 0 <= k < i ==> (#[trigger] v@[k])@ == self.principals@[k]@,
            decreases self.principals@.len() - i,
        {
            v.push(self.principals[i].clone());
            i = i + 1;
        }
        let r = Clause { principals: v };
        assert(r.principals@.map_values(|s: String| s@) =~= self.principals@.map_values(
            |s: String| s@,
        ));
        r
    }

    /// The clause of the principals of `self` and of `other`: the
    /// disjunction of the two.
    pub fn union(&self, other: &Clause) -> (r: Clause)
        requires
            self.wf(),
        ensures
            r.wf(),
            r@ == self@.union(other@),
    {
        let mut r = self.duplicate();
        let mut i: usize = 0;
        while i < other.principals.len()
            invariant
                0 <= i <= other.principals@.len(),
                r.wf(),
                r@ == self@.union(names_of(other.principals@.take(i as int))),
            decreases other.principals@.len() - i,
        {
            let name = other.principals[i].clone();
            r.insert(name);
            proof {
                let f = |s: String| s@;
                let t = other.principals@.take(i as int);
                assert(other.principals@.take(i + 1) =~= t.push(other.principals@[i as int]));
                assert(t.push(other.principals@[i as int]).map_values(f) =~= t.map_values(f).push(
                    name@,
                ));
                t.map_values(f).lemma_push_to_set_commute(name@);
                assert(r@ =~= self@.union(names_of(other.principals@.take(i + 1))));
            }
            i = i + 1;
        }
        assert(other.principals@.take(other.principals@.len() as int) =~= other.principals@);
        r
    }

    /// Whether `self` and `other` share a principal.
    pub fn meets(&self, other: &Clause) -> (r: bool)
        ensures
            r == !self@.disjoint(other@),
    {
        let mut i: usize = 0;
        while i < self.principals.len()
            invariant
                0 <= i <= self.principals@.len(),
                forall|k: int| 0 <= k < i ==> !other@.contains(#[trigger] self.principals@[k]@),
            decreases self.principals@.len() - i,
        {
            if other.contains(&self.principals[i]) {
                proof {
                    lemma_names_of(self.principals@, self.principals@[i as int]@);
                    assert(self@.contains(self.principals@[i as int]@));
                }
                return true;
            }
            i = i + 1;
        }
        assert forall|p: Seq<char>| self@.contains(p) implies !other@.contains(p) by {
            lemma_names_of(self.principals@, p);
        }
        false
    }

    /// The principals of the clause, each once.
    pub fn names(&self) -> (r: Vec<String>)
        requires
            self.wf(),
        ensures
            names_of(r@) == self@,
            forall|i: int, j: int| 0 <= i < j < r@.len() ==> r@[i]@ != r@[j]@,
    {
        self.duplicate().principals
    }

    /// The clause whose canonical form is `names`. Input that is not in
    /// canonical form, principals in strictly increasing order, is refused.
    pub fn from_canonical(names: Vec<String>) -> (r: Result<Clause, MalformedInput>)
        ensures
            r is Ok <==> strictly_sorted(names@),
            r is Ok ==> r->Ok_0.wf() && r->Ok_0@ == names_of(names@),
    {
        if is_strictly_sorted(&names) {
            Ok(Clause::new_from_vec(names))
        } else {
            Err(MalformedInput)
        }
    }

    /// The canonical form of the clause: its principals in strictly
    /// increasing order.
    pub fn to_canonical(&self) -> (r: Vec<String>)
        requires
            self.wf(),
        ensures
            strictly_sorted(r@),
            names_of(r@) == self@,
    {
        let mut out: Vec<String> = Vec::new();
        let mut k: usize = 0;
        while k < self.principals.len()
            invariant
                0 <= k <= self.principals@.len(),
                self.wf(),
                strictly_sorted(out@),
                names_of(out@) == names_of(self.principals@.take(k as int)),
            decreases self.principals@.len() - k,
        {
            let x = self.principals[k].clone();
            proof {
                lemma_names_of(out@, x@);
                lemma_names_of(self.principals@.take(k as int), x@);
                assert forall|j: int| 0 <= j < k implies (#[trigger] self.principals@.take(k as int)[j])@ != x@ by {
                    assert(self.principals@.take(k as int)[j] == self.principals@[j]);
                }
            }
            let mut i: usize = 0;
            while i < out.len() && compare_names(&out[i], &x) < 0
                invariant
                    0 <= i <= out@.len(),
                    forall|j: int| 0 <= j < i ==> name_lt((#[trigger] out@[j])@, x@),
                decreases out@.len() - i,
            {
                i = i + 1;
            }
            let ghost before = out@;
            proof {
                if i < out@.len() {
                    lemma_names_of(out@, out@[i as int]@);
                    assert(out@[i as int]@ != x@);
                }
            }
            out.insert(i, x);
            proof {
                let t = self.principals@.take(k as int);
                let f = |s: String| s@;
                assert(self.principals@.take(k + 1) =~= t.push(self.principals@[k as int]));
                assert(t.push(self.principals@[k as int]).map_values(f) =~= t.map_values(f).push(x@));
                t.map_values(f).lemma_push_to_set_commute(x@);
                assert forall|p: Seq<char>| names_of(out@).contains(p) <==> #[trigger] names_of(before).insert(x@).contains(p) by {
                    lemma_names_of(out@, p);
                    lemma_names_of(before, p);
                    if names_of(before).contains(p) && p != x@ {
                        let j = choose|j: int| 0 <= j < before.len() && (#[trigger] before[j])@ == p;
                        if j < i {
                            assert(out@[j] == before[j]);
                        } else {
                            assert(out@[j + 1] == before[j]);
                        }
                    }
                    if names_of(out@).contains(p) {
                        let j = choose|j: int| 0 <= j < out@.len() && (#[trigger] out@[j])@ == p;
                        if j < i {
                            assert(out@[j] == before[j]);
                        } else if j > i {
                            assert(out@[j] == before[j - 1]);
                        }
                    }
                    if p == x@ {
                        assert(out@[i as int] == x);
                    }
                }
                assert(names_of(out@) =~= names_of(before).insert(x@));
                assert forall|j: int| 0 <= j < out@.len() - 1 implies name_lt((#[trigger] out@[j])@, out@[j + 1]@) by {
                    if j + 1 < i {
                        assert(out@[j] == before[j] && out@[j + 1] == before[j + 1]);
                    } else if j + 1 == i {
                        assert(out@[j] == before[j]);
                    } else if j > i {
                        assert(out@[j] == before[j - 1] && out@[j + 1] == before[j]);
                    } else {
                        assert(out@[j + 1] == before[j]);
                    }
                }
            }
            k = k + 1;
        }
        assert(self.principals@.take(self.principals@.len() as int) =~= self.principals@);
        out
    }

    /// Whether `name` is one of the clause's principals.
    pub fn contains(&self, name: &String) -> (r: bool)
        ensures
            r == self@.contains(name@),
    {
        let mut i: usize = 0;
        while i < self.principals.len()
            invariant
                0 <= i <= self.principals@.len(),
                forall|k: int| 0 <= k < i ==> self.principals@[k]@ != name@,
            decreases self.principals@.len() - i,
        {
            if self.principals[i] == *name {
                proof {
                    lemma_names_of(self.principals@, name@);
                    assert(self.principals@[i as int]@ == name@);
                }
                return true;
            }
            i = i + 1;
        }
        proof {
            lemma_names_of(self.principals@, name@);
        }
        false
    }

    /// Adds a principal unless it is already there.
    fn insert(&mut self, name: String)
        requires
            old(self).wf(),
        ensures
            final(self).wf(),
            final(self)@ == old(self)@.insert(name@),
    {
        if !self.contains(&name) {
            let ghost before = self.principals@;
            self.principals.push(name);
            proof {
                let f = |s: String| s@;
                assert(self.principals@.map_values(f) =~= before.map_values(f).push(name@));
                before.map_values(f).lemma_push_to_set_commute(name@);
                assert forall|i: int| 0 <= i < before.len() implies before[i]@ != name@ by {
                    lemma_names_of(before, name@);
                }
            }
        } else {
            assert(self@.insert(name@) =~= self@);
        }
    }

    /// Whether every principal of `self` is a principal of `other`: the
    /// disjunction `self` then implies the disjunction `other`.
    pub fn implies(&self, other: &Clause) -> (r: bool)
        ensures
            r == clause_implies(self@, other@),
    {
        let mut i: usize = 0;
        while i < self.principals.len()
            invariant
                0 <= i <= self.principals@.len(),
                forall|k: int| 0 <= k < i ==> other@.contains(#[trigger] self.principals@[k]@),
            decreases self.principals@.len() - i,
        {
            if !other.contains(&self.principals[i]) {
                proof {
                    lemma_names_of(self.principals@, self.principals@[i as int]@);
                    assert(self@.contains(self.principals@[i as int]@));
                }
                return false;
            }
            i = i + 1;
        }
        assert forall|p: Seq<char>| self@.contains(p) implies other@.contains(p) by {
            lemma_names_of(self.principals@, p);
        }
        true
    }
}

impl<'a, const N: usize> From<[&'a str; N]> for Clause {
    fn from(principals: [&'a str; N]) -> (r: Clause)
        ensures
            r.wf(),
            r@ == str_names(principals@),
    {
        Clause::new(principals)
    }
}

// A clause is fixed by its set of names, not by the order in which they are
// stored, so no single value stands for `from`; its own `ensures` says what
// the result holds.
impl<'a, const N: usize> vstd::std_specs::convert::FromSpecImpl<[&'a str; N]> for Clause {
    open spec fn obeys_from_spec() -> bool {
        false
    }

    open spec fn from_spec(v: [&'a str; N]) -> Clause {
        arbitrary()
    }
}

impl From<Vec<String>> for Clause {
    fn from(principals: Vec<String>) -> (r: Clause)
        ensures
            r.wf(),
            r@ == names_of(principals@),
    {
        Clause::new_from_vec(principals)
    }
}

// As for arrays, the order of the names is left open.
impl vstd::std_specs::convert::FromSpecImpl<Vec<String>> for Clause {
    open spec fn obeys_from_spec() -> bool {
        false
    }

    open spec fn from_spec(v: Vec<String>) -> Clause {
        arbitrary()
    }
}

impl PartialEq for Clause {
    fn eq(&self, other: &Clause) -> (r: bool) {
        let r = self.implies(other) && other.implies(self);
        proof {
            if r {
                assert(self@ =~= other@);
            }
        }
        r
    }
}

impl vstd::std_specs::cmp::PartialEqSpecImpl for Clause {
    open spec fn obeys_eq_spec() -> bool {
        true
    }

    open spec fn eq_spec(&self, other: &Clause) -> bool {
        self@ == other@
    }
}

impl Eq for Clause {
}

} // verus!
