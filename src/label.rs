use vstd::prelude::*;

use crate::clause::{names_of, str_names, Clause};
use crate::formula::{
    conj, disj, entails, lemma_conj_minimal_left, lemma_disj_minimal_left, lemma_entails_refl, lemma_minimal_cover,
    lemma_minimal_of_antichain, lemma_pairs_assoc, minimal, lemma_pairs_commute, lemma_pairs_finite, pairs,
    released, Formula, Names,
};
use crate::{HasPrivilege, Label};

verus! {

/// A label seen as its pair of formulas: (secrecy, integrity).
pub type LabelView = (Set<Names>, Set<Names>);

/// The join: each component is the conjunction of the two.
pub open spec fn lub_of(a: LabelView, b: LabelView) -> LabelView {
    (conj(a.0, b.0), conj(a.1, b.1))
}

/// The meet: each component is the disjunction of the two.
pub open spec fn glb_of(a: LabelView, b: LabelView) -> LabelView {
    (disj(a.0, b.0), disj(a.1, b.1))
}

/// Data at `a` may move to `b`: `a`'s secrecy implies `b`'s, and `b`'s
/// integrity implies `a`'s.
pub open spec fn flows(a: LabelView, b: LabelView) -> bool {
    entails(a.0, b.0) && entails(b.1, a.1)
}

/// Each formula of `a` implies the matching formula of `b`.
pub open spec fn pair_entails(a: LabelView, b: LabelView) -> bool {
    entails(a.0, b.0) && entails(a.1, b.1)
}

/// `a` with every clause dropped that a principal of `owned` satisfies.
pub open spec fn downgraded(a: LabelView, owned: Names) -> LabelView {
    (released(a.0, owned), released(a.1, owned))
}

proof fn lemma_conj_laws(a: &Formula, b: &Formula, c: &Formula)
    requires
        a.wf(),
        b.wf(),
        c.wf(),
    ensures
        conj(a@, b@) == conj(b@, a@),
        conj(conj(a@, b@), c@) == conj(a@, conj(b@, c@)),
        conj(a@, a@) == a@,
{
    a.lemma_finite();
    b.lemma_finite();
    c.lemma_finite();
    assert(a@.union(b@) =~= b@.union(a@));
    lemma_conj_minimal_left(a@.union(b@), c@);
    lemma_conj_minimal_left(b@.union(c@), a@);
    assert(b@.union(c@).union(a@) =~= a@.union(b@).union(c@));
    assert(a@.union(b@.union(c@)) =~= b@.union(c@).union(a@));
    assert(minimal(b@.union(c@)).union(a@) =~= a@.union(minimal(b@.union(c@))));
    assert(a@.union(a@) =~= a@);
    lemma_minimal_of_antichain(a@);
}

proof fn lemma_disj_laws(a: &Formula, b: &Formula, c: &Formula)
    requires
        a.wf(),
        b.wf(),
        c.wf(),
    ensures
        disj(a@, b@) == disj(b@, a@),
        disj(disj(a@, b@), c@) == disj(a@, disj(b@, c@)),
        disj(a@, a@) == a@,
{
    a.lemma_finite();
    b.lemma_finite();
    c.lemma_finite();
    lemma_pairs_commute(a@, b@);
    lemma_pairs_finite(a@, b@);
    lemma_pairs_finite(b@, c@);
    lemma_disj_minimal_left(pairs(a@, b@), c@);
    lemma_pairs_commute(a@, minimal(pairs(b@, c@)));
    lemma_disj_minimal_left(pairs(b@, c@), a@);
    lemma_pairs_commute(pairs(b@, c@), a@);
    lemma_pairs_assoc(a@, b@, c@);
    assert forall|u: Names| a@.contains(u) implies #[trigger] pairs(a@, a@).contains(u) by {
        assert(u =~= u.union(u));
    }
    assert forall|u: Names| #[trigger] pairs(a@, a@).contains(u) implies exists|v: Names|
        #[trigger] a@.contains(v) && v.subset_of(u) by {
        let (c1, c2) = choose|c1: Names, c2: Names| #[trigger] a@.contains(c1) && #[trigger] a@.contains(c2) && u == c1.union(c2);
        assert(c1.subset_of(u));
    }
    lemma_minimal_cover(a@, pairs(a@, a@));
    lemma_minimal_of_antichain(a@);
}

/// The join and the meet are each commutative, associative and idempotent;
/// `flows` is reflexive and transitive.
pub proof fn law_label_lattice(a: &DCLabel, b: &DCLabel, c: &DCLabel)
    requires
        a.wf(),
        b.wf(),
        c.wf(),
    ensures
        lub_of(a@, b@) == lub_of(b@, a@),
        lub_of(lub_of(a@, b@), c@) == lub_of(a@, lub_of(b@, c@)),
        lub_of(a@, a@) == a@,
        glb_of(a@, b@) == glb_of(b@, a@),
        glb_of(glb_of(a@, b@), c@) == glb_of(a@, glb_of(b@, c@)),
        glb_of(a@, a@) == a@,
        flows(a@, a@),
        flows(a@, b@) && flows(b@, c@) ==> flows(a@, c@),
{
    lemma_conj_laws(&a.secrecy, &b.secrecy, &c.secrecy);
    lemma_conj_laws(&a.integrity, &b.integrity, &c.integrity);
    lemma_disj_laws(&a.secrecy, &b.secrecy, &c.secrecy);
    lemma_disj_laws(&a.integrity, &b.integrity, &c.integrity);
    lemma_entails_refl(a.secrecy@);
    lemma_entails_refl(a.integrity@);
    if flows(a@, b@) && flows(b@, c@) {
        assert forall|x: Names| #[trigger] c.secrecy@.contains(x) implies exists|y: Names|
            #[trigger] a.secrecy@.contains(y) && y.subset_of(x) by {
            let z = choose|z: Names| #[trigger] b.secrecy@.contains(z) && z.subset_of(x);
            let y = choose|y: Names| #[trigger] a.secrecy@.contains(y) && y.subset_of(z);
        }
        assert forall|x: Names| #[trigger] a.integrity@.contains(x) implies exists|y: Names|
            #[trigger] c.integrity@.contains(y) && y.subset_of(x) by {
            let z = choose|z: Names| #[trigger] b.integrity@.contains(z) && z.subset_of(x);
            let y = choose|y: Names| #[trigger] c.integrity@.contains(y) && y.subset_of(z);
        }
    }
}

/// A downgraded label is implied, component by component, by the label it
/// came from: it is never more restrictive. A privilege that owns no
/// principal of any clause leaves the label as it is.
pub proof fn law_downgrade_weakens(l: &DCLabel, owned: Names)
    requires
        l.wf(),
    ensures
        pair_entails(l@, downgraded(l@, owned)),
        (forall|c: Names| #[trigger] l.secrecy@.contains(c) ==> c.disjoint(owned)) && (forall|c: Names|
            #[trigger] l.integrity@.contains(c) ==> c.disjoint(owned)) ==> downgraded(l@, owned) == l@,
{
    let d = downgraded(l@, owned);
    assert forall|c2: Names| #[trigger] d.0.contains(c2) implies exists|c1: Names| #[trigger] l.secrecy@.contains(c1) && c1.subset_of(c2) by {
        assert(c2.subset_of(c2));
    }
    assert forall|c2: Names| #[trigger] d.1.contains(c2) implies exists|c1: Names| #[trigger] l.integrity@.contains(c1) && c1.subset_of(c2) by {
        assert(c2.subset_of(c2));
    }
    if (forall|c: Names| #[trigger] l.secrecy@.contains(c) ==> c.disjoint(owned)) && (forall|c: Names|
        #[trigger] l.integrity@.contains(c) ==> c.disjoint(owned)) {
        assert(d.0 =~= l.secrecy@);
        assert(d.1 =~= l.integrity@);
    }
}

/// The outcome of a downgrade that the privilege held cannot justify.
#[derive(Debug, Clone, Copy, PartialEq, Eq)]
pub struct InsufficientPrivilege;

/// A credential that owns a set of principals.
#[derive(Debug, Clone)]
pub struct Privilege {
    pub(crate) owned: Clause,
}

impl View for Privilege {
    type V = Names;

    open(crate) spec fn view(&self) -> Names {
        self.owned@
    }
}

impl Privilege {
    /// The privilege of the given principals.
    pub fn new<const N: usize>(principals: [&str; N]) -> (r: Privilege)
        ensures
            r@ == str_names(principals@),
    {
        Privilege { owned: Clause::new(principals) }
    }

    /// The privilege of the principals in `principals`.
    pub fn new_from_vec(principals: Vec<String>) -> (r: Privilege)
        ensures
            r@ == names_of(principals@),
    {
        Privilege { owned: Clause::new_from_vec(principals) }
    }
}

/// A decentralized label: a secrecy formula and an integrity formula.
#[derive(Debug, Clone)]
pub struct DCLabel {
    pub secrecy: Formula,
    pub integrity: Formula,
}

impl View for DCLabel {
    type V = LabelView;

    open spec fn view(&self) -> LabelView {
        (self.secrecy@, self.integrity@)
    }
}

impl DCLabel {
    /// Both formulas are in canonical form.
    pub open spec fn wf(&self) -> bool {
        self.secrecy.wf() && self.integrity.wf()
    }

    /// The label of the given formulas.
    pub fn new(secrecy: Formula, integrity: Formula) -> (r: DCLabel)
        ensures
            r@ == (secrecy@, integrity@),
            secrecy.wf() && integrity.wf() ==> r.wf(),
    {
        DCLabel { secrecy, integrity }
    }

    /// Whether each formula of `self` implies the matching formula of
    /// `other`.
    pub fn implies_as_formula_pair(&self, other: &DCLabel) -> (r: bool)
        ensures
            r == pair_entails(self@, other@),
    {
        self.secrecy.implies(&other.secrecy) && self.integrity.implies(&other.integrity)
    }

    /// A copy of the label.
    pub fn duplicate(&self) -> (r: DCLabel)
        requires
            self.wf(),
        ensures
            r.wf(),
            r@ == self@,
    {
        DCLabel { secrecy: self.secrecy.duplicate(), integrity: self.integrity.duplicate() }
    }
}

impl Label for DCLabel {
    open spec fn valid(&self) -> bool {
        self.wf()
    }

    fn lub(self, rhs: DCLabel) -> (r: DCLabel)
        ensures
            r@ == lub_of(self@, rhs@),
    {
        DCLabel {
            secrecy: self.secrecy.conjunction(&rhs.secrecy),
            integrity: self.integrity.conjunction(&rhs.integrity),
        }
    }

    fn glb(self, rhs: DCLabel) -> (r: DCLabel)
        ensures
            r@ == glb_of(self@, rhs@),
    {
        DCLabel {
            secrecy: self.secrecy.disjunction(&rhs.secrecy),
            integrity: self.integrity.disjunction(&rhs.integrity),
        }
    }

    fn can_flow_to(&self, rhs: &DCLabel) -> (r: bool)
        ensures
            r == flows(self@, rhs@),
    {
        self.secrecy.implies(&rhs.secrecy) && rhs.integrity.implies(&self.integrity)
    }
}

impl HasPrivilege for DCLabel {
    type Privilege = Privilege;

    open spec fn valid_for_privilege(&self) -> bool {
        self.wf()
    }

    fn downgrade(self, privilege: &Privilege) -> (r: DCLabel)
        ensures
            r@ == downgraded(self@, privilege@),
    {
        DCLabel {
            secrecy: self.secrecy.without_covered(&privilege.owned),
            integrity: self.integrity.without_covered(&privilege.owned),
        }
    }

    fn downgrade_to(self, target: DCLabel, privilege: &Privilege) -> (r: Result<
        DCLabel,
        InsufficientPrivilege,
    >)
        ensures
            flows(downgraded(self@, privilege@), target@) <==> r is Ok,
            r is Ok ==> r->Ok_0@ == downgraded(self@, privilege@),
    {
        let d = self.downgrade(privilege);
        if d.can_flow_to(&target) {
            Ok(d)
        } else {
            Err(InsufficientPrivilege)
        }
    }

    fn can_flow_to_with_privilege(&self, rhs: &DCLabel, privilege: &Privilege) -> (r: bool)
        ensures
            r == flows(downgraded(self@, privilege@), rhs@),
    {
        let d = self.duplicate().downgrade(privilege);
        d.can_flow_to(rhs)
    }
}

} // verus!
