//! Domain records shared by the store, the fleet views and the API.
use vstd::prelude::*;

verus! {

/// Lifecycle status of a device that may uplink.
pub const ACTIVE: &'static str = "active";

/// Lifecycle status of a revoked device.
pub const INACTIVE: &'static str = "inactive";

/// The characters of [`ACTIVE`].
pub open spec fn active_text() -> Seq<char> {
    seq!['a', 'c', 't', 'i', 'v', 'e']
}

/// The characters of [`INACTIVE`].
pub open spec fn inactive_text() -> Seq<char> {
    seq!['i', 'n', 'a', 'c', 't', 'i', 'v', 'e']
}

/// The status constants hold the characters of their spec texts.
pub proof fn lemma_status_texts()
    ensures
        ACTIVE@ == active_text(),
        INACTIVE@ == inactive_text(),
{
    reveal_strlit("active");
    reveal_strlit("inactive");
}

/// A registered device.
#[derive(Debug)]
pub struct DeviceRecord {
    /// Unique device identifier.
    pub device_id: String,
    /// Owner of the device.
    pub owner_id: String,
    /// Subject DN of the device's client certificate, if known.
    pub subject_dn: Option<String>,
    /// Lifecycle status (`active` / `inactive`).
    pub status: String,
    /// Registration timestamp (RFC 3339).
    pub created_at: String,
}

/// One stored uplink. `payload` is the uplink's JSON document, as text.
#[derive(Debug)]
pub struct UplinkRecord {
    /// Device that sent the uplink.
    pub device_id: String,
    /// Receive timestamp (RFC 3339).
    pub received_at: String,
    /// The JSON payload the device sent.
    pub payload: String,
}

} // verus!
