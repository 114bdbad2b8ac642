//! The settings of a run.
use vstd::prelude::*;

verus! {

/// The settings of a run: the meter reading files, the smoothing window in
/// days, and the weather provider's account.
#[derive(Clone, Debug, PartialEq, Eq)]
pub struct Config {
    pub electric_file: String,
    pub gas_file: String,
    pub smoothing_days: u8,
    pub visual_crossing: VisualCrossing,
}

/// The location queried and the key of the account.
#[derive(Clone, Debug, PartialEq, Eq)]
pub struct VisualCrossing {
    pub address: String,
    pub api_key: String,
}

} // verus!
