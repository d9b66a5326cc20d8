use vstd::prelude::*;

verus! {

/// Why an input was turned down.
#[derive(Clone, Copy, Debug, PartialEq, Eq, Structural)]
pub enum ClassifyError {
    /// The dataset holds no value, so it has neither a minimum nor a maximum.
    EmptyDataset,
    /// More breaks were asked for than there are positions to cut at.
    InvalidBinCount,
}

} // verus!
