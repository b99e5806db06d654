//! A verified core for a small temperature publisher.
//!
//! The library parses a sensor reading from text as an exact decimal
//! number, rescales readings above a fixed threshold, and formats the
//! result with two digits after the decimal point.  Around that core it
//! holds the pure decisions of the surrounding program: building a client
//! identifier and reacting to events of the broker connection.

use vstd::prelude::*;

pub mod client_id;
pub mod config;
pub mod digits;
pub mod events;
pub mod format;
pub mod reading;
pub mod sample;

verus! {

/// Powers of ten, the base of all scale arithmetic here.
pub open spec fn pow10(n: nat) -> nat
    decreases n,
{
    if n == 0 {
        1
    } else {
        10 * pow10((n - 1) as nat)
    }
}

} // verus!
