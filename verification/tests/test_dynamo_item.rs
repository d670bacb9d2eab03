use supervictor::models::{DeviceRecord, UplinkRecord};
use supervictor::store::dynamo::{
    device_to_item, item_to_device, item_to_uplink, uplink_to_item, AttributeValue, Item,
};

fn make_device(id: &str) -> DeviceRecord {
    DeviceRecord {
        device_id: id.into(),
        owner_id: "owner-1".into(),
        subject_dn: None,
        status: "active".into(),
        created_at: "2025-01-01T00:00:00Z".into(),
    }
}

#[test]
fn device_to_item_roundtrip() {
    let device = make_device("dev-1");
    let item = device_to_item(&device);
    let recovered = item_to_device(&item).unwrap();
    assert_eq!(recovered.device_id, "dev-1");
    assert_eq!(recovered.owner_id, "owner-1");
    assert_eq!(recovered.status, "active");
    assert_eq!(recovered.created_at, "2025-01-01T00:00:00Z");
    assert!(recovered.subject_dn.is_none());
}

#[test]
fn device_to_item_with_subject_dn() {
    let mut device = make_device("dev-2");
    device.subject_dn = Some("CN=device2,O=supervictor".into());
    let item = device_to_item(&device);
    let recovered = item_to_device(&item).unwrap();
    assert_eq!(
        recovered.subject_dn.as_deref(),
        Some("CN=device2,O=supervictor")
    );
}

#[test]
fn device_to_item_has_all_fields() {
    let device = make_device("dev-1");
    let item = device_to_item(&device);
    assert_eq!(item.len(), 4);
    assert!(item.contains_key("device_id"));
    assert!(item.contains_key("owner_id"));
    assert!(item.contains_key("status"));
    assert!(item.contains_key("created_at"));
}

#[test]
fn device_to_item_includes_subject_dn_when_present() {
    let mut device = make_device("dev-1");
    device.subject_dn = Some("CN=test".into());
    let item = device_to_item(&device);
    assert_eq!(item.len(), 5);
    assert!(item.contains_key("subject_dn"));
}

#[test]
fn item_to_device_missing_device_id() {
    let mut item = Item::new();
    item.insert("owner_id".into(), AttributeValue::S("o1".into()));
    item.insert("status".into(), AttributeValue::S("active".into()));
    item.insert(
        "created_at".into(),
        AttributeValue::S("2025-01-01T00:00:00Z".into()),
    );
    let err = item_to_device(&item).unwrap_err();
    assert!(err.message().contains("missing field"));
}

#[test]
fn item_to_device_missing_owner_id() {
    let mut item = Item::new();
    item.insert("device_id".into(), AttributeValue::S("dev-1".into()));
    item.insert("status".into(), AttributeValue::S("active".into()));
    item.insert(
        "created_at".into(),
        AttributeValue::S("2025-01-01T00:00:00Z".into()),
    );
    let err = item_to_device(&item).unwrap_err();
    assert!(err.message().contains("missing field"));
}

#[test]
fn item_to_device_missing_status() {
    let mut item = Item::new();
    item.insert("device_id".into(), AttributeValue::S("dev-1".into()));
    item.insert("owner_id".into(), AttributeValue::S("o1".into()));
    item.insert(
        "created_at".into(),
        AttributeValue::S("2025-01-01T00:00:00Z".into()),
    );
    let err = item_to_device(&item).unwrap_err();
    assert!(err.message().contains("missing field"));
}

#[test]
fn item_to_device_wrong_attribute_type() {
    let mut item = Item::new();
    item.insert("device_id".into(), AttributeValue::N("123".into()));
    item.insert("owner_id".into(), AttributeValue::S("o1".into()));
    item.insert("status".into(), AttributeValue::S("active".into()));
    item.insert(
        "created_at".into(),
        AttributeValue::S("2025-01-01T00:00:00Z".into()),
    );
    let err = item_to_device(&item).unwrap_err();
    assert!(err.message().contains("missing field"));
}

#[test]
fn item_to_device_empty_map() {
    let item = Item::new();
    let err = item_to_device(&item).unwrap_err();
    assert!(err.message().contains("missing field"));
}

#[test]
fn item_to_device_names_the_first_missing_field() {
    let mut item = Item::new();
    item.insert("device_id".into(), AttributeValue::S("dev-1".into()));
    item.insert("owner_id".into(), AttributeValue::S("o1".into()));
    let err = item_to_device(&item).unwrap_err();
    assert_eq!(err.message(), "store error: missing field: status");
}

#[test]
fn insert_replaces_an_existing_attribute() {
    let mut item = Item::new();
    item.insert("status".into(), AttributeValue::S("active".into()));
    item.insert("status".into(), AttributeValue::S("inactive".into()));
    assert_eq!(item.len(), 1);
    match item.get("status") {
        Some(AttributeValue::S(s)) => assert_eq!(s, "inactive"),
        other => panic!("unexpected {other:?}"),
    }
    assert!(item.get("owner_id").is_none());
}

#[test]
fn uplink_item_roundtrip_and_missing_fields() {
    let record = UplinkRecord {
        device_id: "dev-1".into(),
        received_at: "2026-07-01T10:00:00+00:00".into(),
        payload: r#"{"current":1}"#.into(),
    };
    let item = uplink_to_item(&record);
    assert_eq!(item.len(), 3);
    let back = item_to_uplink(&item).unwrap();
    assert_eq!(back.device_id, "dev-1");
    assert_eq!(back.received_at, "2026-07-01T10:00:00+00:00");
    assert_eq!(back.payload, r#"{"current":1}"#);

    let mut no_payload = Item::new();
    no_payload.insert("device_id".into(), AttributeValue::S("d".into()));
    no_payload.insert("received_at".into(), AttributeValue::S("t".into()));
    assert_eq!(item_to_uplink(&no_payload).unwrap().payload, "");

    let mut no_id = Item::new();
    no_id.insert("received_at".into(), AttributeValue::S("t".into()));
    assert_eq!(item_to_uplink(&no_id).unwrap_err().message(), "store error: missing device_id");

    let mut no_time = Item::new();
    no_time.insert("device_id".into(), AttributeValue::S("d".into()));
    assert_eq!(
        item_to_uplink(&no_time).unwrap_err().message(),
        "store error: missing received_at"
    );
}

#[test]
fn item_entries_list_each_attribute_once() {
    let mut item = Item::new();
    item.insert("a".to_string(), AttributeValue::S("1".to_string()));
    item.insert("b".to_string(), AttributeValue::N("2".to_string()));
    item.insert("a".to_string(), AttributeValue::S("3".to_string()));
    let mut entries = item.into_entries();
    entries.sort_by(|x, y| x.0.cmp(&y.0));
    assert_eq!(entries.len(), 2);
    assert_eq!(entries[0].0, "a");
    assert!(matches!(&entries[0].1, AttributeValue::S(s) if s == "3"));
    assert_eq!(entries[1].0, "b");
    assert!(matches!(&entries[1].1, AttributeValue::N(n) if n == "2"));
}
