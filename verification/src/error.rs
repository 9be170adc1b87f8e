//! Why a configuration is rejected.

use vstd::prelude::*;

verus! {

/// What is wrong with a part of the configuration.
#[derive(Clone, Copy, Debug, PartialEq, Eq, Structural)]
pub enum Fault {
    /// A classification has no thresholds.
    NoThresholds,
    /// A group name is the empty string.
    EmptyGroupName,
    /// A group expiration of zero seconds.
    ZeroGroupExpiration,
    /// A threshold whose upper stake bound lies below its lower one.
    HighStakeBelowLowStake,
    /// A threshold over a window of zero milliseconds.
    ZeroDuration,
    /// Connections would count as useless after zero milliseconds.
    ZeroUselessConnectionDuration,
    /// More leader slots than an epoch has.
    TooManyLeaderSlots,
}

/// A fault together with the place where it was found.
#[derive(Debug, PartialEq, Eq)]
pub struct ConfigError {
    /// The configuration key of the part that is at fault.
    pub section: String,
    /// The index of the threshold at fault, where the fault is a threshold's.
    pub threshold: Option<usize>,
    /// What is wrong.
    pub fault: Fault,
}

/// A configuration error with its section as a sequence of characters.
pub struct ConfigErrorView {
    pub section: Seq<char>,
    pub threshold: Option<usize>,
    pub fault: Fault,
}

impl View for ConfigError {
    type V = ConfigErrorView;

    open spec fn view(&self) -> ConfigErrorView {
        ConfigErrorView { section: self.section@, threshold: self.threshold, fault: self.fault }
    }
}

impl ConfigError {
    /// The error for `fault` found in `section`, at the threshold `threshold` if any.
    pub fn new(section: &str, threshold: Option<usize>, fault: Fault) -> (e: Self)
        ensures
            e@ == (ConfigErrorView { section: section@, threshold, fault }),
    {
        ConfigError { section: section.to_owned(), threshold, fault }
    }
}

} // verus!
