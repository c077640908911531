use vstd::prelude::*;

use crate::clause::{lemma_clause_finite, names_of, Clause};
use crate::order::{compare_lists, is_strictly_sorted, list_lt, name_seq, strictly_sorted, MalformedInput};

verus! {

/// A set of principal names: the meaning of one clause.
pub type Names = Set<Seq<char>>;

/// Some other clause of `s` lies inside `c`, which is then redundant in the
/// conjunction `s`.
pub open spec fn subsumed(c: Names, s: Set<Names>) -> bool {
    exists|d: Names| #[trigger] s.contains(d) && d != c && d.subset_of(c)
}

/// The clauses of `s` that no other clause of `s` subsumes.
pub open spec fn minimal(s: Set<Names>) -> Set<Names> {
    Set::new(|c: Names| s.contains(c) && !subsumed(c, s))
}

/// No clause of `s` lies inside another one.
pub open spec fn is_antichain(s: Set<Names>) -> bool {
    forall|c: Names, d: Names| #[trigger] s.contains(c) && #[trigger] s.contains(d) && c.subset_of(d) ==> c == d
}

/// Every clause of `s` is finite.
pub open spec fn all_finite(s: Set<Names>) -> bool {
    forall|c: Names| #[trigger] s.contains(c) ==> c.finite()
}

/// The conjunction `f` entails the conjunction `g`: each clause of `g` is
/// implied by some clause of `f`.
pub open spec fn entails(f: Set<Names>, g: Set<Names>) -> bool {
    forall|c2: Names| #[trigger] g.contains(c2) ==> exists|c1: Names| #[trigger] f.contains(c1) && c1.subset_of(c2)
}

/// Every union of a clause of `a` with a clause of `b`.
pub open spec fn pairs(a: Set<Names>, b: Set<Names>) -> Set<Names> {
    Set::new(|u: Names| exists|c1: Names, c2: Names| #[trigger] a.contains(c1) && #[trigger] b.contains(c2) && u == c1.union(c2))
}

/// The conjunction of `a` and `b`, in canonical form.
pub open spec fn conj(a: Set<Names>, b: Set<Names>) -> Set<Names> {
    minimal(a.union(b))
}

/// The disjunction of `a` and `b`, in canonical form: OR distributed over AND.
pub open spec fn disj(a: Set<Names>, b: Set<Names>) -> Set<Names> {
    minimal(pairs(a, b))
}

/// The set of clauses held in a sequence of clauses.
pub open spec fn views_of(v: Seq<Clause>) -> Set<Names> {
    v.map_values(|c: Clause| c@).to_set()
}

/// What it means to hold a clause, and that the set is finite.
pub proof fn lemma_views_of(v: Seq<Clause>, c: Names)
    ensures
        views_of(v).finite(),
        views_of(v).contains(c) <==> exists|i: int| 0 <= i < v.len() && (#[trigger] v[i])@ == c,
{
    let m = v.map_values(|c: Clause| c@);
    vstd::seq_lib::seq_to_set_is_finite(m);
    if views_of(v).contains(c) {
        let k = choose|k: int| 0 <= k < m.len() && #[trigger] m[k] == c;
        assert(v[k]@ == c);
    }
    if exists|i: int| 0 <= i < v.len() && (#[trigger] v[i])@ == c {
        let i = choose|i: int| 0 <= i < v.len() && (#[trigger] v[i])@ == c;
        assert(m[i] == c);
    }
}

/// The canonical clauses are pairwise unrelated.
pub proof fn lemma_minimal_antichain(s: Set<Names>)
    ensures
        is_antichain(minimal(s)),
{
}

/// The clauses of `f` that share no principal with `owned`: those that the
/// holder of `owned` cannot satisfy alone.
pub open spec fn released(f: Set<Names>, owned: Names) -> Set<Names> {
    Set::new(|c: Names| f.contains(c) && c.disjoint(owned))
}

/// A set without redundant clauses is its own canonical form.
pub proof fn lemma_minimal_of_antichain(s: Set<Names>)
    requires
        is_antichain(s),
    ensures
        minimal(s) == s,
{
    assert(minimal(s) =~= s);
}

/// Below each clause of `x` lies a canonical one.
pub proof fn lemma_minimal_below(x: Set<Names>, c: Names)
    requires
        all_finite(x),
        x.contains(c),
    ensures
        exists|m: Names| #[trigger] minimal(x).contains(m) && m.subset_of(c),
    decreases c.len(),
{
    if subsumed(c, x) {
        let d = choose|d: Names| #[trigger] x.contains(d) && d != c && d.subset_of(c);
        assert(exists|p: Seq<char>| c.contains(p) && !d.contains(p)) by {
            if !(exists|p: Seq<char>| c.contains(p) && !d.contains(p)) {
                assert(d =~= c);
            }
        }
        let p = choose|p: Seq<char>| c.contains(p) && !d.contains(p);
        d.lemma_subset_not_in_lt(c, p);
        lemma_minimal_below(x, d);
        let m = choose|m: Names| #[trigger] minimal(x).contains(m) && m.subset_of(d);
        assert(m.subset_of(c));
    } else {
        assert(minimal(x).contains(c));
    }
}

/// Two sets have one canonical form when one lies inside the other and
/// each clause of the larger lies above a clause of the smaller.
pub proof fn lemma_minimal_cover(a: Set<Names>, b: Set<Names>)
    requires
        a.subset_of(b),
        forall|u: Names| #[trigger] b.contains(u) ==> exists|v: Names| #[trigger] a.contains(v) && v.subset_of(u),
    ensures
        minimal(a) == minimal(b),
{
    assert forall|e: Names| minimal(b).contains(e) implies #[trigger] minimal(a).contains(e) by {
        let v = choose|v: Names| #[trigger] a.contains(v) && v.subset_of(e);
        assert(b.contains(v));
        if v != e {
            assert(subsumed(e, b));
        }
        if subsumed(e, a) {
            let d = choose|d: Names| #[trigger] a.contains(d) && d != e && d.subset_of(e);
            assert(b.contains(d));
            assert(subsumed(e, b));
        }
    }
    assert forall|e: Names| minimal(a).contains(e) implies #[trigger] minimal(b).contains(e) by {
        if subsumed(e, b) {
            let d = choose|d: Names| #[trigger] b.contains(d) && d != e && d.subset_of(e);
            let v = choose|v: Names| #[trigger] a.contains(v) && v.subset_of(d);
            if v == e {
                assert(d =~= e);
            }
            assert(subsumed(e, a));
        }
    }
    assert(minimal(a) =~= minimal(b));
}

/// Unions of finite clauses are finite.
pub proof fn lemma_pairs_finite(a: Set<Names>, b: Set<Names>)
    requires
        all_finite(a),
        all_finite(b),
    ensures
        all_finite(pairs(a, b)),
{
    assert forall|u: Names| #[trigger] pairs(a, b).contains(u) implies u.finite() by {
        let (c1, c2) = choose|c1: Names, c2: Names| #[trigger] a.contains(c1) && #[trigger] b.contains(c2) && u == c1.union(c2);
    }
}

/// Pairing is symmetric.
pub proof fn lemma_pairs_commute(a: Set<Names>, b: Set<Names>)
    ensures
        pairs(a, b) == pairs(b, a),
{
    assert forall|u: Names| #[trigger] pairs(a, b).contains(u) implies pairs(b, a).contains(u) by {
        let (c1, c2) = choose|c1: Names, c2: Names| #[trigger] a.contains(c1) && #[trigger] b.contains(c2) && u == c1.union(c2);
        assert(u == c2.union(c1));
    }
    assert forall|u: Names| #[trigger] pairs(b, a).contains(u) implies pairs(a, b).contains(u) by {
        let (c1, c2) = choose|c1: Names, c2: Names| #[trigger] b.contains(c1) && #[trigger] a.contains(c2) && u == c1.union(c2);
        assert(u == c2.union(c1));
    }
    assert(pairs(a, b) =~= pairs(b, a));
}

/// Canonicalizing the left operand first does not change a disjunction.
pub proof fn lemma_disj_minimal_left(p: Set<Names>, c: Set<Names>)
    requires
        all_finite(p),
    ensures
        minimal(pairs(minimal(p), c)) == minimal(pairs(p, c)),
{
    assert forall|u: Names| pairs(minimal(p), c).contains(u) implies #[trigger] pairs(p, c).contains(u) by {
        let (c1, c2) = choose|c1: Names, c2: Names| #[trigger] minimal(p).contains(c1) && #[trigger] c.contains(c2) && u == c1.union(c2);
        assert(p.contains(c1));
    }
    assert forall|u: Names| #[trigger] pairs(p, c).contains(u) implies exists|v: Names| #[trigger] pairs(minimal(p), c).contains(v) && v.subset_of(u) by {
        let (c1, c2) = choose|c1: Names, c2: Names| #[trigger] p.contains(c1) && #[trigger] c.contains(c2) && u == c1.union(c2);
        lemma_minimal_below(p, c1);
        let m = choose|m: Names| #[trigger] minimal(p).contains(m) && m.subset_of(c1);
        assert(pairs(minimal(p), c).contains(m.union(c2)));
        assert(m.union(c2).subset_of(u));
    }
    lemma_minimal_cover(pairs(minimal(p), c), pairs(p, c));
}

/// Canonicalizing one operand first does not change a conjunction.
pub proof fn lemma_conj_minimal_left(p: Set<Names>, c: Set<Names>)
    requires
        all_finite(p),
    ensures
        minimal(minimal(p).union(c)) == minimal(p.union(c)),
{
    assert forall|u: Names| #[trigger] p.union(c).contains(u) implies exists|v: Names| #[trigger] minimal(p).union(c).contains(v) && v.subset_of(u) by {
        if p.contains(u) {
            lemma_minimal_below(p, u);
            let m = choose|m: Names| #[trigger] minimal(p).contains(m) && m.subset_of(u);
            assert(minimal(p).union(c).contains(m));
        } else {
            assert(minimal(p).union(c).contains(u));
        }
    }
    lemma_minimal_cover(minimal(p).union(c), p.union(c));
}

/// Pairing is associative.
pub proof fn lemma_pairs_assoc(a: Set<Names>, b: Set<Names>, c: Set<Names>)
    ensures
        pairs(pairs(a, b), c) == pairs(a, pairs(b, c)),
{
    assert forall|u: Names| #[trigger] pairs(pairs(a, b), c).contains(u) implies pairs(a, pairs(b, c)).contains(u) by {
        let (x, z) = choose|x: Names, z: Names| #[trigger] pairs(a, b).contains(x) && #[trigger] c.contains(z) && u == x.union(z);
        let (p, q) = choose|p: Names, q: Names| #[trigger] a.contains(p) && #[trigger] b.contains(q) && x == p.union(q);
        assert(pairs(b, c).contains(q.union(z)));
        assert(u =~= p.union(q.union(z)));
    }
    assert forall|u: Names| #[trigger] pairs(a, pairs(b, c)).contains(u) implies pairs(pairs(a, b), c).contains(u) by {
        let (p, y) = choose|p: Names, y: Names| #[trigger] a.contains(p) && #[trigger] pairs(b, c).contains(y) && u == p.union(y);
        let (q, z) = choose|q: Names, z: Names| #[trigger] b.contains(q) && #[trigger] c.contains(z) && y == q.union(z);
        assert(pairs(a, b).contains(p.union(q)));
        assert(u =~= p.union(q).union(z));
    }
    assert(pairs(pairs(a, b), c) =~= pairs(a, pairs(b, c)));
}

/// Conjunction with true changes nothing and conjunction with false is
/// false; disjunction with true is true and disjunction with false changes
/// nothing.
pub proof fn law_formula_units(f: &Formula)
    requires
        f.wf(),
    ensures
        conj(f@, Set::empty()) == f@,
        conj(f@, set![Set::empty()]) == set![Set::<Seq<char>>::empty()],
        disj(f@, Set::empty()) == Set::<Names>::empty(),
        disj(f@, set![Set::empty()]) == f@,
{
    let bot: Set<Names> = set![Set::empty()];
    assert(f@.union(Set::empty()) =~= f@);
    lemma_minimal_of_antichain(f@);
    assert forall|c: Names| #[trigger] minimal(f@.union(bot)).contains(c) <==> bot.contains(c) by {
        if bot.contains(c) {
            assert(c =~= Set::<Seq<char>>::empty());
            assert(f@.union(bot).contains(c));
            if subsumed(c, f@.union(bot)) {
                let d = choose|d: Names| #[trigger] f@.union(bot).contains(d) && d != c && d.subset_of(c);
                assert(d =~= c);
            }
        } else if f@.union(bot).contains(c) {
            assert(f@.union(bot).contains(Set::empty()));
            assert(subsumed(c, f@.union(bot)));
        }
    }
    assert(minimal(f@.union(bot)) =~= bot);
    assert(pairs(f@, Set::empty()) =~= Set::<Names>::empty());
    assert(minimal(Set::<Names>::empty()) =~= Set::<Names>::empty());
    assert forall|u: Names| #[trigger] pairs(f@, bot).contains(u) <==> f@.contains(u) by {
        if f@.contains(u) {
            assert(bot.contains(Set::empty()));
            assert(u =~= u.union(Set::empty()));
        }
        if pairs(f@, bot).contains(u) {
            let (c1, c2) = choose|c1: Names, c2: Names| #[trigger] f@.contains(c1) && #[trigger] bot.contains(c2) && u == c1.union(c2);
            assert(u =~= c1);
        }
    }
    assert(pairs(f@, bot) =~= f@);
}

/// Entailment is reflexive.
pub proof fn lemma_entails_refl(f: Set<Names>)
    ensures
        entails(f, f),
{
    assert forall|c2: Names| #[trigger] f.contains(c2) implies exists|c1: Names| #[trigger] f.contains(c1) && c1.subset_of(c2) by {
        assert(c2.subset_of(c2));
    }
}

/// Between canonical formulas that entail each other, each clause of `g`
/// is one of `f`.
proof fn lemma_entails_antichains(f: Set<Names>, g: Set<Names>)
    requires
        is_antichain(f),
        is_antichain(g),
        entails(f, g),
        entails(g, f),
    ensures
        g.subset_of(f),
{
    assert forall|c: Names| g.contains(c) implies f.contains(c) by {
        let c1 = choose|c1: Names| #[trigger] f.contains(c1) && c1.subset_of(c);
        let c0 = choose|c0: Names| #[trigger] g.contains(c0) && c0.subset_of(c1);
        assert(c0.subset_of(c));
        assert(c0 == c);
        assert(c1 =~= c);
    }
}

/// The canonical form of a formula: each clause in canonical form, the
/// clauses in strictly increasing order, and none implying another.
pub open spec fn canonical_lists(v: Seq<Vec<String>>) -> bool {
    &&& forall|i: int| 0 <= i < v.len() ==> strictly_sorted((#[trigger] v[i])@)
    &&& forall|i: int| 0 <= i < v.len() - 1 ==> list_lt(name_seq((#[trigger] v[i])@), name_seq(v[i + 1]@))
    &&& forall|i: int, j: int|
        0 <= i < v.len() && 0 <= j < v.len() && i != j ==> !names_of((#[trigger] v[i])@).subset_of(
            names_of((#[trigger] v[j])@),
        )
}

/// The set of clauses written as lists of names.
pub open spec fn lists_view(v: Seq<Vec<String>>) -> Set<Names> {
    v.map_values(|l: Vec<String>| names_of(l@)).to_set()
}

/// What it means for a list of name lists to hold a clause.
proof fn lemma_lists_view(v: Seq<Vec<String>>, c: Names)
    ensures
        lists_view(v).contains(c) <==> exists|i: int| 0 <= i < v.len() && names_of((#[trigger] v[i])@) == c,
{
    let m = v.map_values(|l: Vec<String>| names_of(l@));
    if lists_view(v).contains(c) {
        let k = choose|k: int| 0 <= k < m.len() && #[trigger] m[k] == c;
        assert(names_of(v[k]@) == c);
    }
    if exists|i: int| 0 <= i < v.len() && names_of((#[trigger] v[i])@) == c {
        let i = choose|i: int| 0 <= i < v.len() && names_of((#[trigger] v[i])@) == c;
        assert(m[i] == c);
    }
}

/// Whether a clause before position `k` holds the same principals as the
/// clause at `k`.
fn seen_before(v: &Vec<Clause>, k: usize) -> (r: bool)
    requires
        k < v@.len(),
    ensures
        r == exists|j: int| 0 <= j < k && (#[trigger] v@[j])@ == v@[k as int]@,
{
    let mut j: usize = 0;
    while j < k
        invariant
            k < v@.len(),
            0 <= j <= k,
            forall|a: int| 0 <= a < j ==> (#[trigger] v@[a])@ != v@[k as int]@,
        decreases k - j,
    {
        if v[j].implies(&v[k]) && v[k].implies(&v[j]) {
            assert(v@[j as int]@ =~= v@[k as int]@);
            return true;
        }
        j = j + 1;
    }
    false
}

/// Whether the lists hold clauses in canonical form, in strictly increasing
/// order.
fn lists_sorted(lists: &Vec<Vec<String>>) -> (r: bool)
    ensures
        r == ((forall|i: int| 0 <= i < lists@.len() ==> strictly_sorted((#[trigger] lists@[i])@)) && (forall|i: int|
            0 <= i < lists@.len() - 1 ==> list_lt(name_seq((#[trigger] lists@[i])@), name_seq(lists@[i + 1]@)))),
{
    let mut i: usize = 0;
    while i < lists.len()
        invariant
            0 <= i <= lists@.len(),
            forall|j: int| 0 <= j < i ==> strictly_sorted((#[trigger] lists@[j])@),
            forall|j: int| 0 <= j < i && j < lists@.len() - 1 ==> list_lt(name_seq((#[trigger] lists@[j])@), name_seq(lists@[j + 1]@)),
        decreases lists@.len() - i,
    {
        if !is_strictly_sorted(&lists[i]) {
            return false;
        }
        if i + 1 < lists.len() && compare_lists(&lists[i], &lists[i + 1]) >= 0 {
            return false;
        }
        i = i + 1;
    }
    true
}

/// Whether no clause of `v` implies another one.
fn pairwise_unrelated(v: &Vec<Clause>) -> (r: bool)
    ensures
        r == forall|i: int, j: int|
            0 <= i < v@.len() && 0 <= j < v@.len() && i != j ==> !(#[trigger] v@[i])@.subset_of((#[trigger] v@[j])@),
{
    let mut i: usize = 0;
    while i < v.len()
        invariant
            0 <= i <= v@.len(),
            forall|a: int, b: int|
                0 <= a < i && 0 <= b < v@.len() && a != b ==> !(#[trigger] v@[a])@.subset_of((#[trigger] v@[b])@),
        decreases v@.len() - i,
    {
        let mut j: usize = 0;
        while j < v.len()
            invariant
                0 <= i < v@.len(),
                0 <= j <= v@.len(),
                forall|a: int, b: int|
                    0 <= a < i && 0 <= b < v@.len() && a != b ==> !(#[trigger] v@[a])@.subset_of((#[trigger] v@[b])@),
                forall|b: int| 0 <= b < j && b != i ==> !v@[i as int]@.subset_of((#[trigger] v@[b])@),
            decreases v@.len() - j,
        {
            if j != i && v[i].implies(&v[j]) {
                return false;
            }
            j = j + 1;
        }
        i = i + 1;
    }
    true
}

/// True is implied by every formula, and false implies every formula.
pub proof fn law_formula_bounds(f: Set<Names>)
    ensures
        entails(f, Set::empty()),
        entails(set![Set::empty()], f),
{
    assert forall|c2: Names| #[trigger] f.contains(c2) implies exists|c1: Names|
        #[trigger] set![Set::<Seq<char>>::empty()].contains(c1) && c1.subset_of(c2) by {
        assert(set![Set::<Seq<char>>::empty()].contains(Set::empty()));
    }
}

/// A conjunction of clauses: all of them must hold. The empty formula is
/// true; the formula of the one empty clause is false.
///
/// No clause implies another one: the formula is kept minimal.
#[derive(Debug, Clone)]
pub struct Formula {
    pub(crate) clauses: Vec<Clause>,
}

impl View for Formula {
    type V = Set<Names>;

    open(crate) spec fn view(&self) -> Set<Names> {
        views_of(self.clauses@)
    }
}

/// Whether the clause at `i` is in canonical form and stands first among the
/// clauses equal to it.
fn first_minimal(v: &Vec<Clause>, i: usize) -> (r: bool)
    requires
        i < v@.len(),
    ensures
        r == (minimal(views_of(v@)).contains(v@[i as int]@) && forall|j: int|
            0 <= j < i ==> (#[trigger] v@[j])@ != v@[i as int]@),
{
    let c = &v[i];
    let mut j: usize = 0;
    while j < v.len()
        invariant
            0 <= j <= v@.len(),
            i < v@.len(),
            c == v@[i as int],
            forall|k: int| 0 <= k < j ==> !((#[trigger] v@[k])@ != c@ && v@[k]@.subset_of(c@)),
            forall|k: int| 0 <= k < j && k < i ==> (#[trigger] v@[k])@ != c@,
        decreases v@.len() - j,
    {
        let d = &v[j];
        if d.implies(c) {
            if !c.implies(d) {
                proof {
                    lemma_views_of(v@, d@);
                }
                return false;
            } else {
                assert(d@ =~= c@);
                if j < i {
                    return false;
                }
            }
        }
        j = j + 1;
    }
    proof {
        lemma_views_of(v@, c@);
        if subsumed(c@, views_of(v@)) {
            let d = choose|d: Names| #[trigger] views_of(v@).contains(d) && d != c@ && d.subset_of(c@);
            lemma_views_of(v@, d);
        }
    }
    true
}

/// Appends a copy of each clause of `f`.
fn push_all(out: &mut Vec<Clause>, f: &Formula)
    requires
        f.wf(),
        forall|k: int| 0 <= k < old(out)@.len() ==> (#[trigger] old(out)@[k]).wf(),
    ensures
        forall|k: int| 0 <= k < final(out)@.len() ==> (#[trigger] final(out)@[k]).wf(),
        views_of(final(out)@) == views_of(old(out)@).union(f@),
{
    let ghost start = out@;
    let mut i: usize = 0;
    while i < f.clauses.len()
        invariant
            0 <= i <= f.clauses@.len(),
            f.wf(),
            forall|k: int| 0 <= k < out@.len() ==> (#[trigger] out@[k]).wf(),
            views_of(out@) == views_of(start).union(views_of(f.clauses@.take(i as int))),
        decreases f.clauses@.len() - i,
    {
        let c = f.clauses[i].duplicate();
        let ghost before = out@;
        out.push(c);
        proof {
            let g = |c: Clause| c@;
            let t = f.clauses@.take(i as int);
            assert(out@.map_values(g) =~= before.map_values(g).push(c@));
            before.map_values(g).lemma_push_to_set_commute(c@);
            assert(f.clauses@.take(i + 1) =~= t.push(f.clauses@[i as int]));
            assert(t.push(f.clauses@[i as int]).map_values(g) =~= t.map_values(g).push(c@));
            t.map_values(g).lemma_push_to_set_commute(c@);
            assert(views_of(out@) =~= views_of(start).union(views_of(f.clauses@.take(i + 1))));
        }
        i = i + 1;
    }
    assert(f.clauses@.take(f.clauses@.len() as int) =~= f.clauses@);
}

/// The unions of `c1` with each clause of `b`.
pub open spec fn unions_with(c1: Names, b: Set<Names>) -> Set<Names> {
    Set::new(|u: Names| exists|c2: Names| #[trigger] b.contains(c2) && u == c1.union(c2))
}

proof fn lemma_unions_with_insert(c1: Names, s: Set<Names>, x: Names)
    ensures
        unions_with(c1, s.insert(x)) == unions_with(c1, s).insert(c1.union(x)),
{
    assert forall|u: Names| #[trigger] unions_with(c1, s.insert(x)).contains(u) implies unions_with(c1, s).insert(c1.union(x)).contains(u) by {
        let c2 = choose|c2: Names| #[trigger] s.insert(x).contains(c2) && u == c1.union(c2);
        if c2 != x {
            assert(s.contains(c2));
        }
    }
    assert forall|u: Names| #[trigger] unions_with(c1, s).insert(c1.union(x)).contains(u) implies unions_with(c1, s.insert(x)).contains(u) by {
        if u == c1.union(x) {
            assert(s.insert(x).contains(x));
        } else {
            let c2 = choose|c2: Names| #[trigger] s.contains(c2) && u == c1.union(c2);
            assert(s.insert(x).contains(c2));
        }
    }
    assert(unions_with(c1, s.insert(x)) =~= unions_with(c1, s).insert(c1.union(x)));
}

proof fn lemma_pairs_insert(s: Set<Names>, b: Set<Names>, x: Names)
    ensures
        pairs(s.insert(x), b) == pairs(s, b).union(unions_with(x, b)),
{
    assert forall|u: Names| #[trigger] pairs(s.insert(x), b).contains(u) implies pairs(s, b).union(unions_with(x, b)).contains(u) by {
        let (c1, c2) = choose|c1: Names, c2: Names| #[trigger] s.insert(x).contains(c1) && #[trigger] b.contains(c2) && u == c1.union(c2);
        if c1 != x {
            assert(s.contains(c1));
            assert(pairs(s, b).contains(u));
        } else {
            assert(unions_with(x, b).contains(u));
        }
    }
    assert forall|u: Names| #[trigger] pairs(s, b).union(unions_with(x, b)).contains(u) implies pairs(s.insert(x), b).contains(u) by {
        if pairs(s, b).contains(u) {
            let (c1, c2) = choose|c1: Names, c2: Names| #[trigger] s.contains(c1) && #[trigger] b.contains(c2) && u == c1.union(c2);
            assert(s.insert(x).contains(c1));
        } else {
            let c2 = choose|c2: Names| #[trigger] b.contains(c2) && u == x.union(c2);
            assert(s.insert(x).contains(x));
        }
    }
    assert(pairs(s.insert(x), b) =~= pairs(s, b).union(unions_with(x, b)));
}

/// Appends the union of `c1` with each clause of `b`.
fn push_unions(out: &mut Vec<Clause>, c1: &Clause, b: &Formula)
    requires
        c1.wf(),
        forall|k: int| 0 <= k < old(out)@.len() ==> (#[trigger] old(out)@[k]).wf(),
    ensures
        forall|k: int| 0 <= k < final(out)@.len() ==> (#[trigger] final(out)@[k]).wf(),
        views_of(final(out)@) == views_of(old(out)@).union(unions_with(c1@, b@)),
{
    let ghost start = out@;
    let mut i: usize = 0;
    while i < b.clauses.len()
        invariant
            0 <= i <= b.clauses@.len(),
            c1.wf(),
            forall|k: int| 0 <= k < out@.len() ==> (#[trigger] out@[k]).wf(),
            views_of(out@) == views_of(start).union(unions_with(c1@, views_of(b.clauses@.take(i as int)))),
        decreases b.clauses@.len() - i,
    {
        let u = c1.union(&b.clauses[i]);
        let ghost before = out@;
        out.push(u);
        proof {
            let g = |c: Clause| c@;
            let t = b.clauses@.take(i as int);
            let t1 = b.clauses@.take(i + 1);
            assert(out@.map_values(g) =~= before.map_values(g).push(u@));
            before.map_values(g).lemma_push_to_set_commute(u@);
            assert(t1 =~= t.push(b.clauses@[i as int]));
            assert(t.push(b.clauses@[i as int]).map_values(g) =~= t.map_values(g).push(b.clauses@[i as int]@));
            t.map_values(g).lemma_push_to_set_commute(b.clauses@[i as int]@);
            lemma_unions_with_insert(c1@, views_of(t), b.clauses@[i as int]@);
            assert(views_of(out@) =~= views_of(start).union(unions_with(c1@, views_of(t1))));
        }
        i = i + 1;
    }
    assert(b.clauses@.take(b.clauses@.len() as int) =~= b.clauses@);
}

impl Formula {
    /// Each clause is well formed and none implies another.
    pub open(crate) spec fn wf(&self) -> bool {
        &&& forall|i: int| 0 <= i < self.clauses@.len() ==> (#[trigger] self.clauses@[i]).wf()
        &&& is_antichain(self@)
    }

    /// The true formula: no clause at all.
    pub fn top() -> (r: Formula)
        ensures
            r.wf(),
            r@ == Set::<Names>::empty(),
    {
        let r = Formula { clauses: Vec::new() };
        assert(r@ =~= Set::<Names>::empty());
        r
    }

    /// The false formula: the one empty clause.
    pub fn bottom() -> (r: Formula)
        ensures
            r.wf(),
            r@ == Set::<Names>::empty().insert(Set::<Seq<char>>::empty()),
    {
        let c = Clause::empty();
        let r = Formula { clauses: vec![c] };
        proof {
            let g = |c: Clause| c@;
            assert(r.clauses@.map_values(g) =~= seq![c@]);
            assert(seq![c@].to_set() =~= Set::<Names>::empty().insert(c@)) by {
                lemma_views_of(r.clauses@, c@);
            }
        }
        r
    }

    /// A copy of the formula.
    pub fn duplicate(&self) -> (r: Formula)
        requires
            self.wf(),
        ensures
            r.wf(),
            r@ == self@,
    {
        let mut v: Vec<Clause> = Vec::new();
        push_all(&mut v, self);
        assert(views_of(Seq::<Clause>::empty()) =~= Set::<Names>::empty());
        assert(views_of(v@) =~= self@);
        Formula { clauses: v }
    }

    /// The clauses of the formula.
    pub fn clause_list(&self) -> (r: Vec<Clause>)
        requires
            self.wf(),
        ensures
            views_of(r@) == self@,
            forall|i: int| 0 <= i < r@.len() ==> (#[trigger] r@[i]).wf(),
    {
        self.duplicate().clauses
    }

    /// Whether some clause of `self` implies `c2`.
    fn some_implies(&self, c2: &Clause) -> (r: bool)
        ensures
            r == exists|c1: Names| #[trigger] self@.contains(c1) && c1.subset_of(c2@),
    {
        let mut i: usize = 0;
        while i < self.clauses.len()
            invariant
                0 <= i <= self.clauses@.len(),
                forall|k: int| 0 <= k < i ==> !(#[trigger] self.clauses@[k])@.subset_of(c2@),
            decreases self.clauses@.len() - i,
        {
            if self.clauses[i].implies(c2) {
                proof {
                    lemma_views_of(self.clauses@, self.clauses@[i as int]@);
                    assert(self@.contains(self.clauses@[i as int]@));
                }
                return true;
            }
            i = i + 1;
        }
        proof {
            if exists|c1: Names| #[trigger] self@.contains(c1) && c1.subset_of(c2@) {
                let c1 = choose|c1: Names| #[trigger] self@.contains(c1) && c1.subset_of(c2@);
                lemma_views_of(self.clauses@, c1);
            }
        }
        false
    }

    /// Whether `self` implies `other`: each clause of `other` is implied by
    /// some clause of `self`.
    pub fn implies(&self, other: &Formula) -> (r: bool)
        ensures
            r == entails(self@, other@),
    {
        let mut i: usize = 0;
        while i < other.clauses.len()
            invariant
                0 <= i <= other.clauses@.len(),
                forall|k: int| 0 <= k < i ==> exists|c1: Names| #[trigger] self@.contains(c1) && c1.subset_of((#[trigger] other.clauses@[k])@),
            decreases other.clauses@.len() - i,
        {
            if !self.some_implies(&other.clauses[i]) {
                proof {
                    lemma_views_of(other.clauses@, other.clauses@[i as int]@);
                }
                return false;
            }
            i = i + 1;
        }
        proof {
            assert forall|c2: Names| #[trigger] other@.contains(c2) implies exists|c1: Names|
                #[trigger] self@.contains(c1) && c1.subset_of(c2) by {
                lemma_views_of(other.clauses@, c2);
            }
        }
        true
    }

    /// Whether `self` and `other` hold the same clauses.
    pub fn same_as(&self, other: &Formula) -> (r: bool)
        requires
            self.wf(),
            other.wf(),
        ensures
            r == (self@ == other@),
    {
        let r = self.implies(other) && other.implies(self);
        proof {
            if r {
                lemma_entails_antichains(self@, other@);
                lemma_entails_antichains(other@, self@);
                assert(self@ =~= other@);
            } else if self@ == other@ {
                lemma_entails_refl(self@);
            }
        }
        r
    }

    /// The conjunction of `self` and `other`, minimized.
    pub fn conjunction(&self, other: &Formula) -> (r: Formula)
        requires
            self.wf(),
            other.wf(),
        ensures
            r.wf(),
            r@ == conj(self@, other@),
    {
        let mut v: Vec<Clause> = Vec::new();
        push_all(&mut v, self);
        push_all(&mut v, other);
        assert(views_of(Seq::<Clause>::empty()) =~= Set::<Names>::empty());
        assert(views_of(v@) =~= self@.union(other@));
        Formula::from_clauses(v)
    }

    /// The disjunction of `self` and `other`: the union of each clause of
    /// `self` with each clause of `other`, minimized.
    pub fn disjunction(&self, other: &Formula) -> (r: Formula)
        requires
            self.wf(),
            other.wf(),
        ensures
            r.wf(),
            r@ == disj(self@, other@),
    {
        let mut v: Vec<Clause> = Vec::new();
        let mut i: usize = 0;
        while i < self.clauses.len()
            invariant
                0 <= i <= self.clauses@.len(),
                self.wf(),
                forall|k: int| 0 <= k < v@.len() ==> (#[trigger] v@[k]).wf(),
                views_of(v@) == pairs(views_of(self.clauses@.take(i as int)), other@),
            decreases self.clauses@.len() - i,
        {
            let ghost before = v@;
            push_unions(&mut v, &self.clauses[i], other);
            proof {
                let g = |c: Clause| c@;
                let t = self.clauses@.take(i as int);
                let t1 = self.clauses@.take(i + 1);
                let ci = self.clauses@[i as int]@;
                assert(t1 =~= t.push(self.clauses@[i as int]));
                assert(t.push(self.clauses@[i as int]).map_values(g) =~= t.map_values(g).push(ci));
                t.map_values(g).lemma_push_to_set_commute(ci);
                lemma_pairs_insert(views_of(t), other@, ci);
            }
            i = i + 1;
        }
        assert(self.clauses@.take(self.clauses@.len() as int) =~= self.clauses@);
        Formula::from_clauses(v)
    }

    /// Each clause of `self` is finite, and so is the set of them.
    pub proof fn lemma_finite(&self)
        ensures
            self@.finite(),
            all_finite(self@),
    {
        assert forall|c: Names| #[trigger] self@.contains(c) implies c.finite() by {
            lemma_views_of(self.clauses@, c);
            let i = choose|i: int| 0 <= i < self.clauses@.len() && (#[trigger] self.clauses@[i])@ == c;
            lemma_clause_finite(&self.clauses@[i]);
        }
        lemma_views_of(self.clauses@, Set::empty());
    }

    /// The formula without the clauses that mention a principal of `owned`:
    /// each of them is satisfied by the holder of `owned`.
    pub fn without_covered(&self, owned: &Clause) -> (r: Formula)
        requires
            self.wf(),
        ensures
            r.wf(),
            r@ == released(self@, owned@),
    {
        let mut out: Vec<Clause> = Vec::new();
        let mut i: usize = 0;
        while i < self.clauses.len()
            invariant
                0 <= i <= self.clauses@.len(),
                self.wf(),
                forall|k: int| 0 <= k < out@.len() ==> (#[trigger] out@[k]).wf(),
                views_of(out@) == released(views_of(self.clauses@.take(i as int)), owned@),
            decreases self.clauses@.len() - i,
        {
            let ghost before = out@;
            let ghost ci = self.clauses@[i as int]@;
            let ghost t = self.clauses@.take(i as int);
            let ghost g = |c: Clause| c@;
            proof {
                assert(self.clauses@.take(i + 1) =~= t.push(self.clauses@[i as int]));
                assert(t.push(self.clauses@[i as int]).map_values(g) =~= t.map_values(g).push(ci));
                t.map_values(g).lemma_push_to_set_commute(ci);
            }
            if !self.clauses[i].meets(owned) {
                let c = self.clauses[i].duplicate();
                out.push(c);
                proof {
                    assert(out@.map_values(g) =~= before.map_values(g).push(c@));
                    before.map_values(g).lemma_push_to_set_commute(c@);
                    assert(views_of(out@) =~= released(views_of(self.clauses@.take(i + 1)), owned@));
                }
            } else {
                assert(views_of(out@) =~= released(views_of(self.clauses@.take(i + 1)), owned@));
            }
            i = i + 1;
        }
        assert(self.clauses@.take(self.clauses@.len() as int) =~= self.clauses@);
        Formula { clauses: out }
    }

    /// The canonical form of the formula: each clause in canonical form, the
    /// clauses in strictly increasing order.
    pub fn to_canonical(&self) -> (r: Vec<Vec<String>>)
        requires
            self.wf(),
        ensures
            canonical_lists(r@),
            lists_view(r@) == self@,
    {
        let mut out: Vec<Vec<String>> = Vec::new();
        let mut k: usize = 0;
        while k < self.clauses.len()
            invariant
                0 <= k <= self.clauses@.len(),
                self.wf(),
                forall|i: int| 0 <= i < out@.len() ==> strictly_sorted((#[trigger] out@[i])@),
                forall|i: int| 0 <= i < out@.len() - 1 ==> list_lt(name_seq((#[trigger] out@[i])@), name_seq(out@[i + 1]@)),
                forall|i: int, j: int|
                    0 <= i < out@.len() && 0 <= j < out@.len() && i != j ==> names_of((#[trigger] out@[i])@) != names_of((#[trigger] out@[j])@),
                lists_view(out@) == views_of(self.clauses@.take(k as int)),
            decreases self.clauses@.len() - k,
        {
            let ghost t = self.clauses@.take(k as int);
            let ghost ck = self.clauses@[k as int]@;
            proof {
                let g = |c: Clause| c@;
                assert(self.clauses@.take(k + 1) =~= t.push(self.clauses@[k as int]));
                assert(t.push(self.clauses@[k as int]).map_values(g) =~= t.map_values(g).push(ck));
                t.map_values(g).lemma_push_to_set_commute(ck);
                lemma_views_of(t, ck);
            }
            if seen_before(&self.clauses, k) {
                proof {
                    let j = choose|j: int| 0 <= j < k && (#[trigger] self.clauses@[j])@ == ck;
                    assert(t[j] == self.clauses@[j]);
                    assert(views_of(t).insert(ck) =~= views_of(t));
                }
            } else {
                let x = self.clauses[k].to_canonical();
                proof {
                    assert forall|j: int| 0 <= j < t.len() implies (#[trigger] t[j])@ != ck by {
                        assert(t[j] == self.clauses@[j]);
                    }
                    lemma_lists_view(out@, ck);
                }
                let mut i: usize = 0;
                while i < out.len() && compare_lists(&out[i], &x) < 0
                    invariant
                        0 <= i <= out@.len(),
                        forall|j: int| 0 <= j < i ==> list_lt(name_seq((#[trigger] out@[j])@), name_seq(x@)),
                    decreases out@.len() - i,
                {
                    i = i + 1;
                }
                let ghost before = out@;
                proof {
                    if i < out@.len() {
                        assert(names_of(out@[i as int]@) != ck);
                        if name_seq(out@[i as int]@) == name_seq(x@) {
                            assert(names_of(out@[i as int]@) == names_of(x@));
                        }
                    }
                }
                out.insert(i, x);
                proof {
                    assert forall|c: Names| lists_view(out@).contains(c) <==> #[trigger] lists_view(before).insert(ck).contains(c) by {
                        lemma_lists_view(out@, c);
                        lemma_lists_view(before, c);
                        if lists_view(before).contains(c) && c != ck {
                            let j = choose|j: int| 0 <= j < before.len() && names_of((#[trigger] before[j])@) == c;
                            if j < i {
                                assert(out@[j] == before[j]);
                            } else {
                                assert(out@[j + 1] == before[j]);
                            }
                        }
                        if lists_view(out@).contains(c) {
                            let j = choose|j: int| 0 <= j < out@.len() && names_of((#[trigger] out@[j])@) == c;
                            if j < i {
                                assert(out@[j] == before[j]);
                            } else if j > i {
                                assert(out@[j] == before[j - 1]);
                            }
                        }
                        if c == ck {
                            assert(out@[i as int] == x);
                        }
                    }
                    assert(lists_view(out@) =~= lists_view(before).insert(ck));
                    assert forall|j: int| 0 <= j < out@.len() implies strictly_sorted((#[trigger] out@[j])@) by {
                        if j < i {
                            assert(out@[j] == before[j]);
                        } else if j > i {
                            assert(out@[j] == before[j - 1]);
                        }
                    }
                    assert forall|j: int| 0 <= j < out@.len() - 1 implies list_lt(name_seq((#[trigger] out@[j])@), name_seq(out@[j + 1]@)) by {
                        if j + 1 < i {
                            assert(out@[j] == before[j] && out@[j + 1] == before[j + 1]);
                        } else if j + 1 == i {
                            assert(out@[j] == before[j]);
                        } else if j > i {
                            assert(out@[j] == before[j - 1] && out@[j + 1] == before[j]);
                        } else {
                            assert(out@[j + 1] == before[j]);
                        }
                    }
                    assert forall|a: int, b: int|
                        0 <= a < out@.len() && 0 <= b < out@.len() && a != b implies names_of((#[trigger] out@[a])@) != names_of((#[trigger] out@[b])@) by {
                        let ia = if a < i { a } else if a > i { a - 1 } else { -1 };
                        let ib = if b < i { b } else if b > i { b - 1 } else { -1 };
                        if ia >= 0 {
                            assert(out@[a] == before[ia]);
                        }
                        if ib >= 0 {
                            assert(out@[b] == before[ib]);
                        }
                        if a == i {
                            assert(names_of(before[ib]@) != ck);
                        }
                        if b == i {
                            assert(names_of(before[ia]@) != ck);
                        }
                    }
                }
            }
            k = k + 1;
        }
        proof {
            assert(self.clauses@.take(self.clauses@.len() as int) =~= self.clauses@);
            assert forall|a: int, b: int|
                0 <= a < out@.len() && 0 <= b < out@.len() && a != b implies !names_of((#[trigger] out@[a])@).subset_of(
                names_of((#[trigger] out@[b])@)) by {
                lemma_lists_view(out@, names_of(out@[a]@));
                lemma_lists_view(out@, names_of(out@[b]@));
            }
        }
        out
    }

    /// The formula whose canonical form is `lists`. Input that is not in
    /// canonical form is refused.
    pub fn from_canonical(lists: Vec<Vec<String>>) -> (r: Result<Formula, MalformedInput>)
        ensures
            r is Ok <==> canonical_lists(lists@),
            r is Ok ==> r->Ok_0.wf() && r->Ok_0@ == lists_view(lists@),
    {
        if !lists_sorted(&lists) {
            return Err(MalformedInput);
        }
        let mut clauses: Vec<Clause> = Vec::new();
        let mut i: usize = 0;
        while i < lists.len()
            invariant
                0 <= i <= lists@.len(),
                clauses@.len() == i,
                forall|k: int| 0 <= k < i ==> (#[trigger] clauses@[k]).wf() && clauses@[k]@ == names_of(lists@[k]@),
            decreases lists@.len() - i,
        {
            clauses.push(Clause::from_names(&lists[i]));
            i = i + 1;
        }
        if !pairwise_unrelated(&clauses) {
            proof {
                let (a, b) = choose|a: int, b: int|
                    0 <= a < clauses@.len() && 0 <= b < clauses@.len() && a != b && (#[trigger] clauses@[a])@.subset_of(
                        (#[trigger] clauses@[b])@);
                assert(names_of(lists@[a]@).subset_of(names_of(lists@[b]@)));
            }
            return Err(MalformedInput);
        }
        let f = Formula { clauses };
        proof {
            assert(f.clauses@.map_values(|c: Clause| c@) =~= lists@.map_values(
                |l: Vec<String>| names_of(l@),
            ));
            assert forall|c: Names, d: Names| #[trigger] f@.contains(c) && #[trigger] f@.contains(d) && c.subset_of(d) implies c == d by {
                lemma_views_of(f.clauses@, c);
                lemma_views_of(f.clauses@, d);
                let a = choose|a: int| 0 <= a < f.clauses@.len() && (#[trigger] f.clauses@[a])@ == c;
                let b = choose|b: int| 0 <= b < f.clauses@.len() && (#[trigger] f.clauses@[b])@ == d;
            }
            assert forall|a: int, b: int|
                0 <= a < lists@.len() && 0 <= b < lists@.len() && a != b implies !names_of((#[trigger] lists@[a])@).subset_of(
                names_of((#[trigger] lists@[b])@)) by {
                assert(f.clauses@[a]@ == names_of(lists@[a]@));
                assert(f.clauses@[b]@ == names_of(lists@[b]@));
            }
        }
        Ok(f)
    }

    /// The formula of the given clauses, minimized: a clause implied by
    /// another one is dropped.
    pub fn from_clauses(clauses: Vec<Clause>) -> (r: Formula)
        requires
            forall|i: int| 0 <= i < clauses@.len() ==> (#[trigger] clauses@[i]).wf(),
        ensures
            r.wf(),
            r@ == minimal(views_of(clauses@)),
    {
        let ghost target = minimal(views_of(clauses@));
        let mut out: Vec<Clause> = Vec::new();
        let mut i: usize = 0;
        while i < clauses.len()
            invariant
                0 <= i <= clauses@.len(),
                forall|k: int| 0 <= k < clauses@.len() ==> (#[trigger] clauses@[k]).wf(),
                forall|k: int| 0 <= k < out@.len() ==> (#[trigger] out@[k]).wf(),
                target == minimal(views_of(clauses@)),
                views_of(out@) == Set::new(
                    |c: Names| target.contains(c) && exists|k: int| 0 <= k < i && (#[trigger] clauses@[k])@ == c,
                ),
            decreases clauses@.len() - i,
        {
            let keep = first_minimal(&clauses, i);
            let ghost before = out@;
            let ghost ci = clauses@[i as int]@;
            if keep {
                let c = clauses[i].duplicate();
                out.push(c);
                proof {
                    let f = |c: Clause| c@;
                    assert(out@.map_values(f) =~= before.map_values(f).push(c@));
                    before.map_values(f).lemma_push_to_set_commute(c@);
                }
            }
            proof {
                assert forall|c: Names| #[trigger] views_of(out@).contains(c) == (target.contains(c) && exists|k: int|
                    0 <= k < i + 1 && (#[trigger] clauses@[k])@ == c) by {
                    if exists|k: int| 0 <= k < i + 1 && (#[trigger] clauses@[k])@ == c {
                        let k = choose|k: int| 0 <= k < i + 1 && (#[trigger] clauses@[k])@ == c;
                        if k < i {
                            assert(exists|k: int| 0 <= k < i && (#[trigger] clauses@[k])@ == c);
                        } else if !keep && target.contains(c) {
                            let j = choose|j: int| 0 <= j < i && (#[trigger] clauses@[j])@ == ci;
                            assert(exists|k: int| 0 <= k < i && (#[trigger] clauses@[k])@ == c);
                        }
                    }
                }
                assert(views_of(out@) =~= Set::new(
                    |c: Names| target.contains(c) && exists|k: int| 0 <= k < i + 1 && (#[trigger] clauses@[k])@ == c,
                ));
            }
            i = i + 1;
        }
        let r = Formula { clauses: out };
        proof {
            assert forall|c: Names| #[trigger] target.contains(c) implies r@.contains(c) by {
                lemma_views_of(clauses@, c);
            }
            assert(r@ =~= target);
            lemma_minimal_antichain(views_of(clauses@));
        }
        r
    }
}

} // verus!
