use vstd::prelude::*;

verus! {

/// Mathematical view of a combination failure.
#[verifier::ext_equal]
pub enum ErrorView {
    /// The register compiler received events spanning more than one
    /// register number.
    MismatchedRegister { expected: u8, found: u8 },
    /// An identifier's required groups are split inconsistently across
    /// images, so no image may safely own it.
    UnresolvedGroupConflict { identifier: usize, images: Seq<usize> },
    /// An identifier was supplied by some image yet produced no
    /// divergence: an engine invariant was violated.
    InternalInconsistency,
}

/// A combination failure, reported to the caller instead of aborting.
#[derive(Clone, PartialEq, Eq, Debug)]
pub enum CombineError {
    /// The register compiler received events spanning more than one
    /// register number; `expected` is the first event's register and
    /// `found` the first other register met.
    MismatchedRegister { expected: u8, found: u8 },
    /// The groups required by `identifier` are split inconsistently
    /// across the listed images, which partially hold them.
    UnresolvedGroupConflict { identifier: usize, images: Vec<usize> },
    /// An identifier was supplied by some image yet produced no
    /// divergence.
    InternalInconsistency,
}

impl View for CombineError {
    type V = ErrorView;

    open spec fn view(&self) -> ErrorView {
        match self {
            CombineError::MismatchedRegister { expected, found } => ErrorView::MismatchedRegister {
                expected: *expected,
                found: *found,
            },
            CombineError::UnresolvedGroupConflict { identifier, images } => ErrorView::UnresolvedGroupConflict {
                identifier: *identifier,
                images: images@,
            },
            CombineError::InternalInconsistency => ErrorView::InternalInconsistency,
        }
    }
}

} // verus!
