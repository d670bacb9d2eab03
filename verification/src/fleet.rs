//! Fleet health: staleness classification and machine-readable snapshots.
//!
//! Shared by the JSON API (`GET /fleet`, `GET /fleet/summary`), the
//! dashboard, and the staleness watchdog: one definition of "healthy".
use vstd::prelude::*;

use crate::json::{find_json_str, json_str_at};
use crate::models::{active_text, lemma_status_texts, DeviceRecord, UplinkRecord, ACTIVE};
use crate::text::same_text;
use crate::time::{
    clock_reading, last_four_digit_year_second, lemma_parse_inverts_format,
    lemma_reading_text_parses_to_its_second, parse_rfc3339, parse_rfc3339_unix, reading_second,
    rfc3339_of_reading, rfc3339_text,
};

verus! {

/// Seconds since last uplink below which a device is "fresh".
pub const FRESH_SECS: u64 = 900;

/// Seconds since last uplink below which a device is "stale" (beyond: "dark").
pub const DARK_SECS: u64 = 7200;

/// How recently a device has been heard from.
#[derive(Debug, Clone, Copy, PartialEq, Eq, Structural)]
pub enum Staleness {
    /// Uplinked within the fresh window.
    Fresh,
    /// Uplinked, but not recently.
    Stale,
    /// No uplink for a long time.
    Dark,
    /// Never uplinked, or timestamp unparseable.
    Unknown,
}

/// The label text of each staleness class.
pub open spec fn staleness_label(s: Staleness) -> Seq<char> {
    match s {
        Staleness::Fresh => seq!['f', 'r', 'e', 's', 'h'],
        Staleness::Stale => seq!['s', 't', 'a', 'l', 'e'],
        Staleness::Dark => seq!['d', 'a', 'r', 'k'],
        Staleness::Unknown => seq!['u', 'n', 'k', 'n', 'o', 'w', 'n'],
    }
}

impl Staleness {
    /// CSS class / short label.
    pub fn label(self) -> (l: &'static str)
        ensures
            l@ == staleness_label(self),
    {
        proof {
            reveal_strlit("fresh");
            reveal_strlit("stale");
            reveal_strlit("dark");
            reveal_strlit("unknown");
        }
        match self {
            Staleness::Fresh => "fresh",
            Staleness::Stale => "stale",
            Staleness::Dark => "dark",
            Staleness::Unknown => "unknown",
        }
    }
}

/// Classification of an uplink made at Unix second `at`, seen at `now`.
pub open spec fn staleness_at(at: nat, now: nat) -> Staleness {
    let age: int = if now >= at {
        now - at
    } else {
        0
    };
    if age < FRESH_SECS {
        Staleness::Fresh
    } else if age < DARK_SECS {
        Staleness::Stale
    } else {
        Staleness::Dark
    }
}

/// Classification of a last-uplink timestamp (as text) at `now`.
pub open spec fn staleness_spec(last_uplink: Option<Seq<char>>, now: nat) -> Staleness {
    match last_uplink {
        Some(t) => match parse_rfc3339(t) {
            Some(at) => staleness_at(at, now),
            None => Staleness::Unknown,
        },
        None => Staleness::Unknown,
    }
}

/// Classify a last-uplink timestamp against the fixed thresholds.
pub fn staleness_of(last_uplink: Option<&str>, now_unix: u64) -> (s: Staleness)
    ensures
        s == staleness_spec(
            match last_uplink {
                Some(t) => Some(t@),
                None => None,
            },
            now_unix as nat,
        ),
{
    match last_uplink {
        Some(text) => match parse_rfc3339_unix(text) {
            Some(at) => {
                let age = now_unix.saturating_sub(at);
                if age < FRESH_SECS {
                    Staleness::Fresh
                } else if age < DARK_SECS {
                    Staleness::Stale
                } else {
                    Staleness::Dark
                }
            },
            None => Staleness::Unknown,
        },
        None => Staleness::Unknown,
    }
}

/// Order of the staleness classes as a device ages: fresh, stale, dark
/// (unknown, for a missing or unreadable timestamp, apart).
pub open spec fn age_rank(s: Staleness) -> int {
    match s {
        Staleness::Fresh => 0,
        Staleness::Stale => 1,
        Staleness::Dark => 2,
        Staleness::Unknown => 3,
    }
}

/// Time only ages a device: with the same last uplink, a later look never
/// finds it fresher, and whether its timestamp counts as unknown does not
/// change.
pub proof fn lemma_staleness_only_worsens(last_uplink: Option<Seq<char>>, now1: nat, now2: nat)
    requires
        now1 <= now2,
    ensures
        (staleness_spec(last_uplink, now1) == Staleness::Unknown) == (staleness_spec(
            last_uplink,
            now2,
        ) == Staleness::Unknown),
        age_rank(staleness_spec(last_uplink, now1)) <= age_rank(staleness_spec(last_uplink, now2)),
{
}

/// An uplink stamped with the clock's own reading is fresh from that second
/// until `FRESH_SECS` seconds later.
pub proof fn lemma_just_received_is_fresh(secs: nat, nanos: nat, now: nat)
    requires
        secs <= last_four_digit_year_second(),
        secs <= now < secs + FRESH_SECS,
    ensures
        staleness_spec(Some(rfc3339_text(secs, nanos)), now) == Staleness::Fresh,
{
    lemma_parse_inverts_format(secs, nanos);
}

/// One device's health, as served by `GET /fleet`.
#[derive(Debug)]
pub struct FleetDevice {
    /// Unique device identifier.
    pub device_id: String,
    /// Owner of the device.
    pub owner_id: String,
    /// Lifecycle status (`active` / `inactive`).
    pub status: String,
    /// Most recent uplink timestamp, if any.
    pub last_uplink: Option<String>,
    /// Freshness classification of `last_uplink`.
    pub staleness: Staleness,
    /// Firmware version last reported by the device, if any.
    pub fw: Option<String>,
}

/// Aggregate counts, as served by `GET /fleet/summary`.
#[derive(Debug, PartialEq, Eq, Structural)]
pub struct FleetSummary {
    /// Total registered devices.
    pub total: usize,
    /// Devices with `active` status.
    pub active: usize,
    /// Devices with `inactive` status.
    pub inactive: usize,
    /// Active devices heard from within the fresh window.
    pub fresh: usize,
    /// Active devices heard from, but not recently.
    pub stale: usize,
    /// Active devices silent past the dark threshold.
    pub dark: usize,
    /// Active devices that have never uplinked.
    pub never: usize,
}

impl Default for FleetSummary {
    fn default() -> (s: Self)
        ensures
            s == (FleetSummary {
                total: 0,
                active: 0,
                inactive: 0,
                fresh: 0,
                stale: 0,
                dark: 0,
                never: 0,
            }),
    {
        FleetSummary { total: 0, active: 0, inactive: 0, fresh: 0, stale: 0, dark: 0, never: 0 }
    }
}

/// The optional text held by an optional string.
pub open spec fn opt_text(o: Option<String>) -> Option<Seq<char>> {
    match o {
        Some(s) => Some(s@),
        None => None,
    }
}

/// The JSON pointer of the firmware-version field of an uplink payload.
pub open spec fn fw_pointer() -> Seq<char> {
    seq!['/', 'f', 'w']
}

/// The latest uplink recorded for `id` in `latest`: when several are listed,
/// the one listed last (later entries replace earlier ones).
pub open spec fn latest_for(latest: Seq<UplinkRecord>, id: Seq<char>) -> Option<UplinkRecord>
    decreases latest.len(),
{
    if latest.len() == 0 {
        None
    } else if latest.last().device_id@ == id {
        Some(latest.last())
    } else {
        latest_for(latest.drop_last(), id)
    }
}

/// A device's health given its latest uplink (if any) at `now`.
pub open spec fn fleet_device_spec(
    device: DeviceRecord,
    latest: Option<UplinkRecord>,
    now: nat,
    d: FleetDevice,
) -> bool {
    &&& d.device_id@ == device.device_id@
    &&& d.owner_id@ == device.owner_id@
    &&& d.status@ == device.status@
    &&& opt_text(d.last_uplink) == match latest {
        Some(u) => Some(u.received_at@),
        None => None,
    }
    &&& d.staleness == staleness_spec(opt_text(d.last_uplink), now)
    &&& opt_text(d.fw) == match latest {
        Some(u) => json_str_at(u.payload@, fw_pointer()),
        None => None,
    }
}

/// One device's health row, from its record and its latest uplink.
pub fn fleet_device_of(device: &DeviceRecord, latest: Option<&UplinkRecord>, now_unix: u64) -> (d:
    FleetDevice)
    ensures
        fleet_device_spec(
            *device,
            match latest {
                Some(u) => Some(*u),
                None => None,
            },
            now_unix as nat,
            d,
        ),
{
    let (last_uplink, fw) = match latest {
        Some(u) => {
            let pointer = "/fw";
            proof {
                reveal_strlit("/fw");
            }
            assert(pointer@ == fw_pointer());
            let fw = find_json_str(u.payload.as_str(), pointer);
            assert(opt_text(fw) == json_str_at(u.payload@, fw_pointer()));
            (Some(u.received_at.clone()), fw)
        },
        None => (None, None),
    };
    let staleness = match &last_uplink {
        Some(at) => staleness_of(Some(at.as_str()), now_unix),
        None => staleness_of(None, now_unix),
    };
    let d = FleetDevice {
        device_id: device.device_id.clone(),
        owner_id: device.owner_id.clone(),
        status: device.status.clone(),
        last_uplink,
        staleness,
        fw,
    };
    assert(d.device_id@ == device.device_id@);
    assert(opt_text(d.last_uplink) == match latest {
        Some(u) => Some(u.received_at@),
        None => None,
    });
    assert(d.staleness == staleness_spec(opt_text(d.last_uplink), now_unix as nat));
    assert(opt_text(d.fw) == match latest {
        Some(u) => json_str_at(u.payload@, fw_pointer()),
        None => None,
    });
    d
}

/// Index of the last uplink of `latest` recorded for `id`.
fn find_latest(latest: &[UplinkRecord], id: &str) -> (r: Option<usize>)
    ensures
        match r {
            Some(i) => i < latest@.len() && latest_for(latest@, id@) == Some(latest@[i as int]),
            None => latest_for(latest@, id@) is None,
        },
{
    let mut i = latest.len();
    assert(latest@.subrange(0, i as int) =~= latest@);
    while i > 0
        invariant
            i <= latest@.len(),
            latest_for(latest@, id@) == latest_for(latest@.subrange(0, i as int), id@),
        decreases i,
    {
        let ghost prefix = latest@.subrange(0, i as int);
        assert(prefix.drop_last() =~= latest@.subrange(0, i - 1));
        if same_text(latest[i - 1].device_id.as_str(), id) {
            return Some(i - 1);
        }
        i = i - 1;
    }
    None
}

/// `rows` is the health snapshot of `devices` at `now`: one row per device,
/// in the same order, each built from the device's latest uplink.
pub open spec fn is_snapshot(
    devices: Seq<DeviceRecord>,
    latest: Seq<UplinkRecord>,
    now: nat,
    rows: Seq<FleetDevice>,
) -> bool {
    &&& rows.len() == devices.len()
    &&& forall|i: int|
        0 <= i < devices.len() ==> fleet_device_spec(
            #[trigger] devices[i],
            latest_for(latest, devices[i].device_id@),
            now,
            rows[i],
        )
}

/// Snapshot of every device's health at `now` (Unix seconds): one row per
/// device, in the order given, with the latest uplink from `latest`.
pub fn snapshot(devices: &[DeviceRecord], latest: &[UplinkRecord], now_unix: u64) -> (rows: Vec<
    FleetDevice,
>)
    ensures
        is_snapshot(devices@, latest@, now_unix as nat, rows@),
{
    let mut rows: Vec<FleetDevice> = Vec::new();
    let mut i: usize = 0;
    while i < devices.len()
        invariant
            i <= devices@.len(),
            rows@.len() == i,
            forall|k: int|
                0 <= k < i ==> fleet_device_spec(
                    #[trigger] devices@[k],
                    latest_for(latest@, devices@[k].device_id@),
                    now_unix as nat,
                    rows@[k],
                ),
        decreases devices@.len() - i,
    {
        let device = &devices[i];
        let row = match find_latest(latest, device.device_id.as_str()) {
            Some(j) => fleet_device_of(device, Some(&latest[j]), now_unix),
            None => fleet_device_of(device, None, now_unix),
        };
        rows.push(row);
        i = i + 1;
    }
    rows
}

/// The device's status is `active`.
pub open spec fn is_active(d: FleetDevice) -> bool {
    d.status@ == active_text()
}

/// How many rows of `rows` satisfy `p`.
pub open spec fn count_where(rows: Seq<FleetDevice>, p: spec_fn(FleetDevice) -> bool) -> nat
    decreases rows.len(),
{
    if rows.len() == 0 {
        0
    } else {
        count_where(rows.drop_last(), p) + if p(rows.last()) {
            1nat
        } else {
            0nat
        }
    }
}

/// Active devices in staleness class `s`.
pub open spec fn active_in(s: Staleness) -> spec_fn(FleetDevice) -> bool {
    |d: FleetDevice| is_active(d) && d.staleness == s
}

/// Aggregate a snapshot into summary counts. Staleness buckets count only
/// ACTIVE devices: a revoked device going quiet is expected, not an alert.
pub fn summarize(devices: &[FleetDevice]) -> (summary: FleetSummary)
    ensures
        summary.total == devices@.len(),
        summary.active == count_where(devices@, |d: FleetDevice| is_active(d)),
        summary.inactive == count_where(devices@, |d: FleetDevice| !is_active(d)),
        summary.fresh == count_where(devices@, active_in(Staleness::Fresh)),
        summary.stale == count_where(devices@, active_in(Staleness::Stale)),
        summary.dark == count_where(devices@, active_in(Staleness::Dark)),
        summary.never == count_where(devices@, active_in(Staleness::Unknown)),
        summary.total == summary.active + summary.inactive,
        summary.active == summary.fresh + summary.stale + summary.dark + summary.never,
{
    let mut summary = FleetSummary {
        total: devices.len(),
        active: 0,
        inactive: 0,
        fresh: 0,
        stale: 0,
        dark: 0,
        never: 0,
    };
    proof {
        lemma_status_texts();
    }
    let mut i: usize = 0;
    while i < devices.len()
        invariant
            i <= devices@.len(),
            summary.total == devices@.len(),
            ACTIVE@ == active_text(),
            ({
                let seen = devices@.subrange(0, i as int);
                &&& summary.active == count_where(seen, |d: FleetDevice| is_active(d))
                &&& summary.inactive == count_where(seen, |d: FleetDevice| !is_active(d))
                &&& summary.fresh == count_where(seen, active_in(Staleness::Fresh))
                &&& summary.stale == count_where(seen, active_in(Staleness::Stale))
                &&& summary.dark == count_where(seen, active_in(Staleness::Dark))
                &&& summary.never == count_where(seen, active_in(Staleness::Unknown))
                &&& summary.active + summary.inactive == i
                &&& summary.active == summary.fresh + summary.stale + summary.dark + summary.never
            }),
        decreases devices@.len() - i,
    {
        let ghost seen = devices@.subrange(0, i as int);
        let ghost next = devices@.subrange(0, i + 1);
        assert(next.drop_last() =~= seen);
        let device = &devices[i];
        if same_text(device.status.as_str(), ACTIVE) {
            summary.active = summary.active + 1;
            match device.staleness {
                Staleness::Fresh => summary.fresh = summary.fresh + 1,
                Staleness::Stale => summary.stale = summary.stale + 1,
                Staleness::Dark => summary.dark = summary.dark + 1,
                Staleness::Unknown => summary.never = summary.never + 1,
            }
        } else {
            summary.inactive = summary.inactive + 1;
        }
        i = i + 1;
    }
    assert(devices@.subrange(0, i as int) =~= devices@);
    summary
}

/// The Unix second that an instant of the clock counts as: the clock's
/// seconds as long as its RFC 3339 text has a four-digit year, otherwise 0.
pub open spec fn clock_seconds(secs: nat) -> nat {
    if secs <= last_four_digit_year_second() {
        secs
    } else {
        0
    }
}

/// Snapshot at a clock reading (whole seconds and nanoseconds since the
/// Unix epoch, `None` for a clock before it): the reading is stamped as
/// RFC 3339 text and parsed back, falling back to 0, so the snapshot is
/// taken at the reading's second ([`reading_second`]).
pub fn snapshot_at_reading(
    devices: &[DeviceRecord],
    latest: &[UplinkRecord],
    reading: Option<(u64, u32)>,
) -> (rows: Vec<FleetDevice>)
    ensures
        is_snapshot(devices@, latest@, reading_second(reading), rows@),
{
    let stamp = rfc3339_of_reading(reading);
    let parsed = parse_rfc3339_unix(stamp.as_str());
    proof {
        lemma_reading_text_parses_to_its_second(reading);
    }
    let now_unix = match parsed {
        Some(v) => v,
        None => 0,
    };
    snapshot(devices, latest, now_unix)
}

/// Snapshot at the current wall-clock time: the snapshot is taken at the
/// second of the clock's reading (or at 0 for a clock before the epoch or
/// past the year 9999, where the stamp no longer parses).
pub fn snapshot_now(devices: &[DeviceRecord], latest: &[UplinkRecord]) -> (rows: Vec<FleetDevice>)
    ensures
        exists|r: Option<(u64, u32)>|
            (r matches Some(t) ==> t.1 < 1_000_000_000) && #[trigger] is_snapshot(
                devices@,
                latest@,
                reading_second(r),
                rows@,
            ),
        exists|secs: nat| #[trigger] is_snapshot(devices@, latest@, clock_seconds(secs), rows@),
{
    let reading = clock_reading();
    let rows = snapshot_at_reading(devices, latest, reading);
    proof {
        let secs: nat = match reading {
            Some(t) => t.0 as nat,
            None => 0,
        };
        assert(clock_seconds(secs) == reading_second(reading));
    }
    rows
}

} // verus!
