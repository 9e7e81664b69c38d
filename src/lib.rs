//! Integer core of a survival-analysis toolkit: vector-tier selection,
//! validation of risk/event counts, survival factors, risk-set construction
//! (sequential and partitioned) and the Kaplan-Meier counting pipeline.
use vstd::prelude::*;

pub mod error;
pub mod capabilities;
pub mod kernel;
pub mod risk_set;
pub mod kaplan_meier;

verus! {

} // verus!
