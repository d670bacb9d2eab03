//! Live uplink stream: the event pushed to dashboard clients.
use vstd::prelude::*;

verus! {

/// A single uplink, as pushed to dashboard clients.
#[derive(Debug)]
pub struct UplinkEvent {
    /// Device that sent the uplink.
    pub device_id: String,
    /// Current sensor reading.
    pub current: i32,
    /// ISO 8601 receive timestamp.
    pub received_at: String,
}

} // verus!
