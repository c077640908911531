use vstd::prelude::*;

pub mod clause;
pub mod formula;
pub mod label;
pub mod order;

pub use clause::Clause;
pub use formula::Formula;
pub use label::{DCLabel, InsufficientPrivilege, Privilege};
pub use order::MalformedInput;

verus! {

/// A security label: values ordered by `can_flow_to`, with a join (`lub`)
/// and a meet (`glb`).
pub trait Label: Sized {
    /// The label is in canonical form.
    spec fn valid(&self) -> bool;

    /// The label of information combined from `self` and `rhs`.
    fn lub(self, rhs: Self) -> (r: Self)
        requires
            self.valid(),
            rhs.valid(),
        ensures
            r.valid(),
    ;

    /// The most permissive label that both `self` and `rhs` flow to.
    fn glb(self, rhs: Self) -> (r: Self)
        requires
            self.valid(),
            rhs.valid(),
        ensures
            r.valid(),
    ;

    /// Whether data labelled `self` may move to a context labelled `rhs`.
    fn can_flow_to(&self, rhs: &Self) -> bool;
}

/// A label that the holder of a privilege may relax.
pub trait HasPrivilege: Sized {
    /// The credential that relaxes a label.
    type Privilege;

    /// The label is in canonical form.
    spec fn valid_for_privilege(&self) -> bool;

    /// The label relaxed by everything that `privilege` owns.
    fn downgrade(self, privilege: &Self::Privilege) -> (r: Self)
        requires
            self.valid_for_privilege(),
        ensures
            r.valid_for_privilege(),
    ;

    /// The label relaxed by `privilege`, provided that it then flows to
    /// `target`; otherwise the privilege is insufficient.
    fn downgrade_to(self, target: Self, privilege: &Self::Privilege) -> (r: Result<
        Self,
        InsufficientPrivilege,
    >)
        requires
            self.valid_for_privilege(),
        ensures
            r is Ok ==> r->Ok_0.valid_for_privilege(),
    ;

    /// Whether `self`, relaxed by `privilege`, may flow to `rhs`.
    fn can_flow_to_with_privilege(&self, rhs: &Self, privilege: &Self::Privilege) -> bool
        requires
            self.valid_for_privilege(),
    ;
}

} // verus!
