//! What the dashboard pages show: table rows, the status toggle, and the
//! readings behind the sparkline.
use vstd::prelude::*;

use crate::json::{find_json_i64, json_i64_at};
use crate::models::{active_text, lemma_status_texts, DeviceRecord, UplinkRecord, ACTIVE, INACTIVE};
use crate::text::same_text;

pub use crate::fleet::Staleness;

verus! {

/// One row of the fleet table.
#[derive(Debug)]
pub struct FleetRow {
    /// The device record.
    pub device: DeviceRecord,
    /// Most recent uplink timestamp, if any.
    pub last_uplink: Option<String>,
    /// Freshness classification of `last_uplink`.
    pub staleness: Staleness,
}

/// The revoke/reactivate toggle of a device with status `status`: the
/// status the form submits, and the button's verb.
pub open spec fn status_toggle_spec(status: Seq<char>) -> (Seq<char>, Seq<char>) {
    if status == active_text() {
        (crate::models::inactive_text(), "revoke"@)
    } else {
        (active_text(), "reactivate"@)
    }
}

/// Revoke/reactivate toggle for a device: the next status and the verb.
pub fn status_toggle(status: &str) -> (r: (&'static str, &'static str))
    ensures
        (r.0@, r.1@) == status_toggle_spec(status@),
{
    proof {
        lemma_status_texts();
    }
    if same_text(status, ACTIVE) {
        (INACTIVE, "revoke")
    } else {
        (ACTIVE, "reactivate")
    }
}

/// The JSON pointer of the current reading of an uplink payload.
pub open spec fn current_pointer() -> Seq<char> {
    seq!['/', 'c', 'u', 'r', 'r', 'e', 'n', 't']
}

/// The current readings of `uplinks`, walking from the last uplink to the
/// first, skipping payloads without an integer `current`, each truncated to
/// `i32`.
pub open spec fn readings(uplinks: Seq<UplinkRecord>) -> Seq<i32>
    decreases uplinks.len(),
{
    if uplinks.len() == 0 {
        Seq::empty()
    } else {
        let head = match json_i64_at(uplinks.last().payload@, current_pointer()) {
            Some(v) => seq![#[verifier::truncate] (v as i32)],
            None => Seq::empty(),
        };
        head + readings(uplinks.drop_last())
    }
}

/// Sparkline data of the device page: with uplinks listed newest first, the
/// readings come oldest to newest, left to right.
pub fn sparkline_values(uplinks: &[UplinkRecord]) -> (values: Vec<i32>)
    ensures
        values@ == readings(uplinks@),
{
    let mut values: Vec<i32> = Vec::new();
    let mut i = uplinks.len();
    let pointer = "/current";
    proof {
        reveal_strlit("/current");
    }
    assert(pointer@ == current_pointer());
    assert(uplinks@.subrange(0, i as int) =~= uplinks@);
    assert(values@ + readings(uplinks@) =~= readings(uplinks@));
    while i > 0
        invariant
            i <= uplinks@.len(),
            pointer@ == current_pointer(),
            readings(uplinks@) == values@ + readings(uplinks@.subrange(0, i as int)),
        decreases i,
    {
        let ghost prefix = uplinks@.subrange(0, i as int);
        assert(prefix.drop_last() =~= uplinks@.subrange(0, i - 1));
        assert(prefix.last() == uplinks@[i - 1]);
        let found = find_json_i64(uplinks[i - 1].payload.as_str(), pointer);
        let ghost before = values@;
        match found {
            Some(v) => {
                let r = #[verifier::truncate] (v as i32);
                values.push(r);
                assert(values@ =~= before + seq![#[verifier::truncate] (v as i32)]);
            },
            None => {},
        }
        assert(values@ + readings(uplinks@.subrange(0, i - 1)) =~= before + readings(prefix));
        i = i - 1;
    }
    assert(uplinks@.subrange(0, 0) =~= Seq::<UplinkRecord>::empty());
    assert(values@ =~= values@ + Seq::<i32>::empty());
    values
}

} // verus!
