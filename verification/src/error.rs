use vstd::prelude::*;

verus! {

/// The errors that clustering surfaces to its caller.
#[derive(Clone, Copy, Debug, PartialEq, Eq, Structural)]
pub enum MeanShiftError {
    /// The dataset is empty or not rectangular, a supplied bandwidth is not
    /// positive, or a distance-strategy name is unknown.
    InvalidInput,
    /// An operation needs state that has not been computed yet, such as
    /// predicting labels before a model was fitted.
    PreconditionNotMet,
    /// No seed converged to a mode with positive support.
    NoClustersFound,
}

impl MeanShiftError {
    /// A short description of the error.
    pub fn message(&self) -> (s: String)
        ensures
            s@ == self.spec_message(),
    {
        match self {
            MeanShiftError::InvalidInput => "invalid input".to_owned(),
            MeanShiftError::PreconditionNotMet => "precondition not met".to_owned(),
            MeanShiftError::NoClustersFound => "no clusters found".to_owned(),
        }
    }

    pub open spec fn spec_message(&self) -> Seq<char> {
        match self {
            MeanShiftError::InvalidInput => "invalid input"@,
            MeanShiftError::PreconditionNotMet => "precondition not met"@,
            MeanShiftError::NoClustersFound => "no clusters found"@,
        }
    }
}

} // verus!
