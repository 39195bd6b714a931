use vstd::prelude::*;

verus! {

/// A tree node: scenario index `s`, time step `t`, and tag `d`.
///
/// On canonical grid nodes `d` is always `1`; on the master node of a
/// compressed cluster run `d` carries the length of the run.
#[derive(Clone, Copy, PartialEq, Eq, Structural, Debug)]
pub struct Node {
    pub s: usize,
    pub t: usize,
    pub d: usize,
}

/// A node together with its assigned numeric value.
///
/// Raw samples carry `d == 1`; compressed cluster runs carry the run length
/// in `d` and the run's anchor value in `value`.
#[derive(Clone, Copy, PartialEq, Eq, Structural, Debug)]
pub struct Sample {
    pub s: usize,
    pub t: usize,
    pub d: usize,
    pub value: i64,
}

/// The error conditions surfaced by the library.
#[derive(Clone, Copy, PartialEq, Eq, Structural, Debug)]
pub enum GridError {
    /// A coordinate lies outside the valid bounds of the tree.
    OutOfRange,
    /// The historical dataset is shorter than the sampling window some
    /// scenario requires.
    InsufficientData,
    /// A degenerate configuration: a branching factor or stage length of
    /// zero, a zero coarse-grid duration, or a negative tolerance.
    DegenerateConfiguration,
}

} // verus!
