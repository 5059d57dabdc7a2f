use vstd::prelude::*;

verus! {

/// Mean squared error between a prediction and a target of the same shape.
#[derive(Debug, Default, Clone, Copy, PartialEq, Eq)]
pub struct MSELoss;

/// Binary cross-entropy between predicted probabilities and 0/1 targets.
#[derive(Debug, Default, Clone, Copy, PartialEq, Eq)]
pub struct BCELoss;

/// Categorical cross-entropy between predicted class probabilities and
/// one-hot targets, averaged over the rows of the batch.
#[derive(Debug, Default, Clone, Copy, PartialEq, Eq)]
pub struct CrossEntropyLoss;

impl MSELoss {
    pub fn new() -> (res: Self)
        ensures
            res == MSELoss,
    {
        MSELoss
    }
}

impl BCELoss {
    pub fn new() -> (res: Self)
        ensures
            res == BCELoss,
    {
        BCELoss
    }
}

impl CrossEntropyLoss {
    pub fn new() -> (res: Self)
        ensures
            res == CrossEntropyLoss,
    {
        CrossEntropyLoss
    }
}

} // verus!
