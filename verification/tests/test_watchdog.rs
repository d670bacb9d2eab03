use supervictor::fleet::{FleetDevice, Staleness};
use supervictor::watchdog::{dark_ids, watchdog_step};

fn row(id: &str, staleness: Staleness) -> FleetDevice {
    FleetDevice {
        device_id: id.into(),
        owner_id: "o".into(),
        status: "active".into(),
        last_uplink: None,
        staleness,
        fw: None,
    }
}

fn sorted(mut v: Vec<String>) -> Vec<String> {
    v.sort();
    v
}

#[test]
fn dark_devices_alert_once_and_recover() {
    let tick1 = vec![row("a", Staleness::Dark), row("b", Staleness::Fresh)];
    let known = dark_ids(&tick1);
    assert_eq!(known, vec!["a".to_string()]);

    let tick2 = vec![row("a", Staleness::Dark), row("b", Staleness::Dark), row("c", Staleness::Stale)];
    let step = watchdog_step(&known, &tick2);
    assert_eq!(sorted(step.went_dark), vec!["b".to_string()]);
    assert!(step.recovered.is_empty());

    // same fleet again: quiet
    let again = watchdog_step(&step.dark_now, &tick2);
    assert!(again.went_dark.is_empty());
    assert!(again.recovered.is_empty());

    let tick3 = vec![row("a", Staleness::Fresh), row("b", Staleness::Dark)];
    let step3 = watchdog_step(&again.dark_now, &tick3);
    assert!(step3.went_dark.is_empty());
    assert_eq!(step3.recovered, vec!["a".to_string()]);
    assert_eq!(step3.dark_now, vec!["b".to_string()]);
}

#[test]
fn duplicate_ids_are_reported_once() {
    let tick = vec![row("a", Staleness::Dark), row("a", Staleness::Dark)];
    assert_eq!(dark_ids(&tick), vec!["a".to_string()]);
    let known = vec!["z".to_string(), "z".to_string()];
    let step = watchdog_step(&known, &tick);
    assert_eq!(step.recovered, vec!["z".to_string()]);
    assert_eq!(step.went_dark, vec!["a".to_string()]);
}
