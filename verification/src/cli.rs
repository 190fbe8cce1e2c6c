//! Options of the receipt generator that the library itself knows about.
use vstd::prelude::*;

verus! {

/// Whether item prices already include tax.
#[derive(Debug, Clone, Copy, PartialEq, Eq)]
pub enum TaxMode {
    /// Item prices already include tax; just show the breakdown.
    Inclusive,
    /// Item prices are pre-tax; tax is calculated and added on top.
    Exclusive,
}

} // verus!
