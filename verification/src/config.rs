//! The fixed parameters of one run, set at startup and read-only
//! thereafter.

use vstd::prelude::*;

verus! {

/// Everything the program is told at startup: where to read the
/// sensor, where to publish, and how often.
pub struct Config {
    pub file: String,
    pub address: String,
    pub port: u16,
    pub username: String,
    pub password: String,
    pub topic: String,
    pub verbose: bool,
    pub interval_secs: u64,
    pub retain: bool,
}

impl Config {
    /// The protocol keep-alive interval equals the publish interval.
    pub fn keep_alive_secs(&self) -> (r: u64)
        ensures
            r == self.interval_secs,
    {
        self.interval_secs
    }
}

} // verus!
