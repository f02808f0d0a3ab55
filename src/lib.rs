//! Operational transformation over UTF-8 text: a byte-wise operation algebra,
//! a line-wise one, selection-carrying wrappers, and the server and client
//! sides of the reconciliation protocol.
use vstd::prelude::*;

pub mod text;
pub mod charwise;
pub mod charwise_laws;
pub mod linewise;
pub mod linewise_laws;
pub mod selection;
pub mod cs;
pub use cs::server;
pub use cs::client;

verus! {

/// An edit of some target, described by a model that the proofs read.
///
/// `apply` carries out the edit, `compose` chains two edits, and `transform`
/// rebases two concurrent edits of one target on each other.
pub trait Operation: Sized {
    type Target;

    type Model;

    type Content;

    /// The edit, as the proofs see it.
    spec fn op_model(&self) -> Self::Model;

    /// A target, as the proofs see it.
    spec fn target_model(t: &Self::Target) -> Self::Content;

    /// The internal invariant of the edit.
    spec fn op_valid(&self) -> bool;

    /// The edit can be applied to the content.
    spec fn fits(op: Self::Model, c: Self::Content) -> bool;

    /// `b` can follow `a`.
    spec fn composable(a: Self::Model, b: Self::Model) -> bool;

    /// `a` and `b` are concurrent edits of one content.
    spec fn transformable(a: Self::Model, b: Self::Model) -> bool;

    spec fn apply_model(op: Self::Model, c: Self::Content) -> Self::Content;

    spec fn compose_model(a: Self::Model, b: Self::Model) -> Self::Model;

    spec fn transform_model(a: Self::Model, b: Self::Model) -> (Self::Model, Self::Model);

    spec fn nop_model(c: Self::Content) -> Self::Model;

    spec fn empty_model() -> Self::Model;

    spec fn empty_content() -> Self::Content;

    /// The edit of the empty target that does nothing.
    fn empty() -> (r: Self)
        ensures
            r.op_valid(),
            r.op_model() == Self::empty_model(),
    ;

    /// The empty target.
    fn empty_target() -> (r: Self::Target)
        ensures
            Self::target_model(&r) == Self::empty_content(),
    ;

    fn copy_op(&self) -> (r: Self)
        requires
            self.op_valid(),
        ensures
            r.op_valid(),
            r.op_model() == self.op_model(),
    ;

    fn copy_target(t: &Self::Target) -> (r: Self::Target)
        ensures
            Self::target_model(&r) == Self::target_model(t),
    ;

    /// The edit that leaves `target` as it is.
    fn nop(target: &Self::Target) -> (r: Self)
        ensures
            r.op_valid(),
            r.op_model() == Self::nop_model(Self::target_model(target)),
    ;

    fn fits_target(&self, target: &Self::Target) -> (r: bool)
        requires
            self.op_valid(),
        ensures
            r == Self::fits(self.op_model(), Self::target_model(target)),
    ;

    fn composes_with(&self, other: &Self) -> (r: bool)
        requires
            self.op_valid(),
            other.op_valid(),
        ensures
            r == Self::composable(self.op_model(), other.op_model()),
    ;

    fn transforms_with(&self, other: &Self) -> (r: bool)
        requires
            self.op_valid(),
            other.op_valid(),
        ensures
            r == Self::transformable(self.op_model(), other.op_model()),
    ;

    fn apply(&self, target: &Self::Target) -> (r: Self::Target)
        requires
            self.op_valid(),
            Self::fits(self.op_model(), Self::target_model(target)),
        ensures
            Self::target_model(&r) == Self::apply_model(self.op_model(), Self::target_model(target)),
    ;

    fn compose(self, other: Self) -> (r: Self)
        requires
            self.op_valid(),
            other.op_valid(),
            Self::composable(self.op_model(), other.op_model()),
        ensures
            r.op_valid(),
            r.op_model() == Self::compose_model(self.op_model(), other.op_model()),
    ;

    fn transform(self, other: Self) -> (r: (Self, Self))
        requires
            self.op_valid(),
            other.op_valid(),
            Self::transformable(self.op_model(), other.op_model()),
        ensures
            r.0.op_valid(),
            r.1.op_valid(),
            (r.0.op_model(), r.1.op_model()) == Self::transform_model(self.op_model(), other.op_model()),
    ;
}

} // verus!
