//! The ways in which a stage of the pipeline can reject its input. Every
//! error names the stage that met it, and a shape error the dimension in
//! which the input is wrong.

use vstd::prelude::*;

verus! {

/// A stage of the pipeline.
#[derive(Clone, Copy, Debug, PartialEq, Eq, Structural)]
pub enum Stage {
    /// Adjustment of the primary variable for confounders.
    Adjuster,
    /// Matching of sources to targets, and the distances between them.
    Matcher,
    /// Reduction of values and distances to group means.
    Aggregator,
}

/// A count that must agree with another.
#[derive(Clone, Copy, Debug, PartialEq, Eq, Structural)]
pub enum Dimension {
    /// The variable rows of source and target.
    Variables,
    /// The entities of source and target.
    Entities,
    /// The group numbers, of which every source entity has one.
    Groups,
    /// The rows of the distances, of which every source entity has one.
    DistanceRows,
    /// The columns of the distances, of which there is at least one.
    DistanceColumns,
    /// The slopes, of which every confounder has one of each kind.
    Slopes,
}

/// Why a stage produced no result.
#[derive(Clone, Copy, Debug, PartialEq, Eq, Structural)]
pub enum MutationError {
    /// The stage was given no entity to work on.
    EmptyInput(Stage),
    /// The stage was given parts that disagree in the named dimension.
    ShapeMismatch(Stage, Dimension),
    /// A relative distance was asked of a source value of zero.
    ZeroSource,
    /// A value that the stage computes cannot be held in 64 bits.
    Overflow(Stage),
    /// The result of the stage would have more cells than a table can hold.
    TooLarge(Stage),
}

/// The fault, if any, in the entity counts of a source and a target row.
pub open spec fn count_fault(sources: nat, targets: nat) -> Option<MutationError> {
    if sources == 0 || targets == 0 {
        Some(MutationError::EmptyInput(Stage::Matcher))
    } else if sources != targets {
        Some(MutationError::ShapeMismatch(Stage::Matcher, Dimension::Entities))
    } else {
        None
    }
}

} // verus!
