use supervictor::json::{compact_json, find_json_i64, find_json_str};
use supervictor::fleet::{
    fleet_device_of, snapshot, snapshot_now, staleness_of, summarize, FleetDevice, FleetSummary,
    Staleness,
};
use supervictor::models::{DeviceRecord, UplinkRecord};
use supervictor::time::{format_rfc3339, now_rfc3339, parse_rfc3339_unix};

fn device(id: &str, status: &str) -> DeviceRecord {
    DeviceRecord {
        device_id: id.into(),
        owner_id: "owner-1".into(),
        subject_dn: None,
        status: status.into(),
        created_at: "2026-07-01T00:00:00+00:00".into(),
    }
}

fn uplink(id: &str, at: &str, payload: &str) -> UplinkRecord {
    UplinkRecord { device_id: id.into(), received_at: at.into(), payload: payload.into() }
}

const NOW: u64 = 1_782_900_000; // 2026-07-01T10:00:00Z

#[test]
fn staleness_thresholds() {
    let at = |secs: u64| format_rfc3339(secs, 0);
    assert_eq!(staleness_of(Some(&at(NOW)), NOW), Staleness::Fresh);
    assert_eq!(staleness_of(Some(&at(NOW - 899)), NOW), Staleness::Fresh);
    assert_eq!(staleness_of(Some(&at(NOW - 900)), NOW), Staleness::Stale);
    assert_eq!(staleness_of(Some(&at(NOW - 7_199)), NOW), Staleness::Stale);
    assert_eq!(staleness_of(Some(&at(NOW - 7_200)), NOW), Staleness::Dark);
    // an uplink from the future counts as age zero
    assert_eq!(staleness_of(Some(&at(NOW + 3_600)), NOW), Staleness::Fresh);
    assert_eq!(staleness_of(None, NOW), Staleness::Unknown);
    assert_eq!(staleness_of(Some("not a timestamp"), NOW), Staleness::Unknown);
}

#[test]
fn labels() {
    assert_eq!(Staleness::Fresh.label(), "fresh");
    assert_eq!(Staleness::Stale.label(), "stale");
    assert_eq!(Staleness::Dark.label(), "dark");
    assert_eq!(Staleness::Unknown.label(), "unknown");
}

#[test]
fn fleet_reports_staleness_and_fw() {
    let devices = vec![
        device("fresh-dev", "active"),
        device("silent-dev", "active"),
        device("revoked-dev", "inactive"),
    ];
    let latest = vec![uplink(
        "fresh-dev",
        "2026-07-01T10:00:00+00:00",
        r#"{"current":5,"fw":"0.1.0"}"#,
    )];
    let fleet = snapshot(&devices, &latest, NOW);
    assert_eq!(fleet.len(), 3);
    assert_eq!(fleet[0].device_id, "fresh-dev");
    assert_eq!(fleet[0].staleness, Staleness::Fresh);
    assert_eq!(fleet[0].fw.as_deref(), Some("0.1.0"));
    assert_eq!(fleet[0].last_uplink.as_deref(), Some("2026-07-01T10:00:00+00:00"));
    assert_eq!(fleet[1].staleness, Staleness::Unknown);
    assert!(fleet[1].fw.is_none(), "no fw when never uplinked");
    assert!(fleet[1].last_uplink.is_none());
    assert_eq!(fleet[2].status, "inactive");
}

#[test]
fn fw_is_read_from_the_payload_json() {
    let d = device("d", "active");
    let with_fw = uplink("d", "2026-07-01T09:00:00+00:00", r#"{"current":1,"fw":"9.9.9"}"#);
    let no_fw = uplink("d", "2026-07-01T09:00:00+00:00", r#"{"current":3}"#);
    let numeric_fw = uplink("d", "2026-07-01T09:00:00+00:00", r#"{"fw":7}"#);
    let not_json = uplink("d", "2026-07-01T09:00:00+00:00", "fw");
    assert_eq!(fleet_device_of(&d, Some(&with_fw), NOW).fw.as_deref(), Some("9.9.9"));
    assert!(fleet_device_of(&d, Some(&no_fw), NOW).fw.is_none());
    assert!(fleet_device_of(&d, Some(&numeric_fw), NOW).fw.is_none());
    assert!(fleet_device_of(&d, Some(&not_json), NOW).fw.is_none());
    assert_eq!(fleet_device_of(&d, Some(&with_fw), NOW).staleness, Staleness::Stale);
}

#[test]
fn later_latest_entries_win() {
    let devices = vec![device("d", "active")];
    let latest = vec![
        uplink("d", "2026-07-01T06:00:00+00:00", r#"{"fw":"old"}"#),
        uplink("other", "2026-07-01T10:00:00+00:00", r#"{"fw":"x"}"#),
        uplink("d", "2026-07-01T09:59:00+00:00", r#"{"fw":"new"}"#),
    ];
    let fleet = snapshot(&devices, &latest, NOW);
    assert_eq!(fleet[0].fw.as_deref(), Some("new"));
    assert_eq!(fleet[0].staleness, Staleness::Fresh);
}

fn row(status: &str, staleness: Staleness) -> FleetDevice {
    FleetDevice {
        device_id: "x".into(),
        owner_id: "o".into(),
        status: status.into(),
        last_uplink: None,
        staleness,
        fw: None,
    }
}

#[test]
fn summary_counts_only_active_devices_in_staleness_buckets() {
    let devices = vec![
        row("active", Staleness::Fresh),
        row("active", Staleness::Unknown),
        row("inactive", Staleness::Dark),
    ];
    let summary = summarize(&devices);
    assert_eq!(
        summary,
        FleetSummary { total: 3, active: 2, inactive: 1, fresh: 1, stale: 0, dark: 0, never: 1 }
    );
}

#[test]
fn summary_of_every_bucket() {
    let devices = vec![
        row("active", Staleness::Fresh),
        row("active", Staleness::Stale),
        row("active", Staleness::Dark),
        row("active", Staleness::Dark),
        row("active", Staleness::Unknown),
        row("ACTIVE", Staleness::Dark),
        row("", Staleness::Fresh),
    ];
    let s = summarize(&devices);
    assert_eq!(s, FleetSummary { total: 7, active: 5, inactive: 2, fresh: 1, stale: 1, dark: 2, never: 1 });
    assert_eq!(summarize(&[]), FleetSummary::default());
}

#[test]
fn snapshot_now_uses_the_clock() {
    let devices = vec![device("d", "active")];
    let latest = vec![uplink("d", &now_rfc3339(), "{}")];
    let fleet = snapshot_now(&devices, &latest);
    assert_eq!(fleet[0].staleness, Staleness::Fresh);
    let old = vec![uplink("d", "2000-01-01T00:00:00+00:00", "{}")];
    assert_eq!(snapshot_now(&devices, &old)[0].staleness, Staleness::Dark);
    assert!(parse_rfc3339_unix(&now_rfc3339()).is_some());
}

#[test]
fn staleness_only_worsens_as_time_passes() {
    let at = "2026-07-01T10:00:00+00:00";
    let t = parse_rfc3339_unix(at).unwrap();
    let mut previous = 0;
    for age in [0u64, 1, 899, 900, 901, 7199, 7200, 7201, 1_000_000] {
        let rank = match staleness_of(Some(at), t + age) {
            Staleness::Fresh => 0,
            Staleness::Stale => 1,
            Staleness::Dark => 2,
            Staleness::Unknown => panic!("a readable timestamp is never unknown"),
        };
        assert!(rank >= previous, "age {age} came out fresher");
        previous = rank;
    }
    assert_eq!(staleness_of(Some("garbage"), 0), Staleness::Unknown);
    assert_eq!(staleness_of(Some("garbage"), u64::MAX), Staleness::Unknown);
}

#[test]
fn just_received_uplink_is_fresh() {
    let secs = 1_783_000_000u64;
    let stamp = format_rfc3339(secs, 123_456_789);
    assert_eq!(staleness_of(Some(&stamp), secs), Staleness::Fresh);
    assert_eq!(staleness_of(Some(&stamp), secs + 899), Staleness::Fresh);
    assert_eq!(staleness_of(Some(&stamp), secs + 900), Staleness::Stale);
    let now = now_rfc3339();
    let now_secs = parse_rfc3339_unix(&now).unwrap();
    assert_eq!(staleness_of(Some(&now), now_secs), Staleness::Fresh);
}

#[test]
fn json_lookups_read_strings_and_integers() {
    let doc = r#"{"fw":"1.2.3","current":-7,"big":18446744073709551615,"f":1.5,"n":null}"#;
    assert_eq!(find_json_str(doc, "/fw").as_deref(), Some("1.2.3"));
    assert_eq!(find_json_str(doc, "/current"), None);
    assert_eq!(find_json_i64(doc, "/current"), Some(-7));
    assert_eq!(find_json_i64(doc, "/fw"), None);
    assert_eq!(find_json_i64(doc, "/big"), None);
    assert_eq!(find_json_i64(doc, "/f"), None);
    assert_eq!(find_json_i64(doc, "/n"), None);
    assert_eq!(find_json_str(doc, "/missing"), None);
    assert_eq!(find_json_str("not json", "/fw"), None);
    assert_eq!(find_json_str(r#"["fw"]"#, "/fw"), None);
}

#[test]
fn payload_cell_shows_compact_json() {
    assert_eq!(compact_json(r#"{ "current" : 30 }"#), r#"{"current":30}"#);
    assert_eq!(compact_json(r#"{"fw":"0.1.0","current":5}"#), r#"{"current":5,"fw":"0.1.0"}"#);
    assert_eq!(compact_json("not json"), "null");
    assert_eq!(compact_json(""), "null");
    assert_eq!(compact_json(" \"x\" "), "\"x\"");
}
