//! Events emitted toward the shared synthetic output device.

use vstd::prelude::*;

verus! {

/// One event for the synthetic device, in plain values; the caller turns
/// these into the OS representation and writes them in one batch per
/// synchronization frame.
#[derive(Clone, Copy, Debug, PartialEq, Eq, Structural)]
pub enum OutEvent {
    /// Move an absolute axis to a value.
    Axis { code: u16, value: i32 },
    /// Press or release a button.
    Key { code: u16, pressed: bool },
}

} // verus!
