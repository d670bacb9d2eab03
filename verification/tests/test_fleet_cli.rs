use supervictor::cli::{fleet_url, render_table, FleetDevice};

fn dev(id: &str, status: &str, staleness: &str, fw: Option<&str>) -> FleetDevice {
    FleetDevice {
        device_id: id.into(),
        owner_id: "owner".into(),
        status: status.into(),
        last_uplink: (staleness != "unknown").then(|| "2026-07-11T00:00:00+00:00".into()),
        staleness: staleness.into(),
        fw: fw.map(Into::into),
    }
}

#[test]
fn table_renders_all_rows_and_summary() {
    let devices = vec![
        dev("factory-01", "active", "fresh", Some("0.1.0")),
        dev("factory-02", "active", "dark", None),
        dev("retired", "inactive", "dark", Some("0.0.9")),
    ];
    let table = render_table(&devices);
    assert!(table.contains("factory-01"));
    assert!(table.contains("0.1.0"));
    assert!(table.contains("never") || table.contains("2026-07-11"));
    // Summary counts only active devices as dark.
    assert!(table.contains("3 device(s), 2 active, 1 dark"));
}

/// The rows the endpoint's JSON shape yields (fw/last_uplink omitted when
/// None), built directly.
#[test]
fn table_parses_endpoint_json_shape() {
    let devices = vec![
        FleetDevice {
            device_id: "a".into(),
            owner_id: "o".into(),
            status: "active".into(),
            last_uplink: Some("2026-07-11T00:00:00+00:00".into()),
            staleness: "fresh".into(),
            fw: Some("1.2.3".into()),
        },
        FleetDevice {
            device_id: "b".into(),
            owner_id: "o".into(),
            status: "active".into(),
            last_uplink: None,
            staleness: "unknown".into(),
            fw: None,
        },
    ];
    let table = render_table(&devices);
    assert!(table.contains("1.2.3"));
    assert!(table.contains("never"));
}

#[test]
fn table_layout_is_exact() {
    let devices = vec![dev("d1", "active", "fresh", None)];
    let table = render_table(&devices);
    let expected = format!(
        "{:<24} {:<10} {:<12} {:<9} {:<12} {}\n{:<24} {:<10} {:<12} {:<9} {:<12} {}\n1 device(s), 1 active, 0 dark\n",
        "DEVICE", "STATUS", "OWNER", "FRESH", "FW", "LAST UPLINK",
        "d1", "active", "owner", "fresh", "-", "2026-07-11T00:00:00+00:00"
    );
    assert_eq!(table, expected);
}

#[test]
fn long_cells_are_not_truncated() {
    let long = "a-device-id-that-is-longer-than-the-column";
    let devices = vec![dev(long, "inactive", "stale", Some("9.9.9"))];
    let table = render_table(&devices);
    assert!(table.contains(&format!("{long} inactive")));
    assert!(table.ends_with("1 device(s), 0 active, 0 dark\n"));
}

#[test]
fn empty_fleet_renders_header_and_zero_summary() {
    let table = render_table(&[]);
    assert!(table.starts_with("DEVICE"));
    assert!(table.ends_with("0 device(s), 0 active, 0 dark\n"));
    assert_eq!(table.lines().count(), 2);
}

#[test]
fn fleet_url_names_host_and_port() {
    assert_eq!(fleet_url("staging.example", 8443), "https://staging.example:8443/fleet");
    assert_eq!(fleet_url("localhost", 0), "https://localhost:0/fleet");
}
