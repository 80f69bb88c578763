use vstd::prelude::*;

verus! {

/// The failures that the collision engine reports to its caller.
///
/// Every failure is an explicit value; no operation of the engine panics on
/// inputs admitted by its precondition, and a failed operation leaves the
/// manager it was called on unchanged.
#[derive(Clone, Copy, Debug, PartialEq, Eq, Structural)]
pub enum CollisionError {
    /// A polygon with fewer than three vertices was supplied where a polygon
    /// is required.
    InvalidShape,
    /// The angle-constrained displacement loop reached its iteration cap
    /// without reaching a collision-free placement.
    ResolutionExhausted,
    /// The interval-level probe reached its depth cap without finding a free
    /// stacking level.
    StackingExhausted,
    /// A displacement step would have pushed a vertex outside the coordinate
    /// range the engine supports.
    OutOfRange,
}

impl CollisionError {
    /// A short description of the failure, for callers that report errors as
    /// text.
    pub fn message(&self) -> (r: &'static str)
        ensures
            r@ == match self {
                CollisionError::InvalidShape => "polygon must have at least 3 vertices"@,
                CollisionError::ResolutionExhausted => {
                    "maximum iterations reached while resolving collisions"@
                },
                CollisionError::StackingExhausted => {
                    "maximum depth reached while stacking line intervals"@
                },
                CollisionError::OutOfRange => {
                    "displacement left the supported coordinate range"@
                },
            },
    {
        match self {
            CollisionError::InvalidShape => "polygon must have at least 3 vertices",
            CollisionError::ResolutionExhausted => {
                "maximum iterations reached while resolving collisions"
            },
            CollisionError::StackingExhausted => {
                "maximum depth reached while stacking line intervals"
            },
            CollisionError::OutOfRange => "displacement left the supported coordinate range",
        }
    }
}

} // verus!
