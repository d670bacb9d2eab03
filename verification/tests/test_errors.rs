use supervictor::edge::UplinkMessage;
use supervictor::error::{AppError, ErrorDetail};
use supervictor::store::StoreError;

#[test]
fn app_error_messages_and_statuses() {
    let cases: Vec<(AppError, &str, u16, &str)> = vec![
        (AppError::MissingBody, "missing request body", 400, "Missing request body"),
        (
            AppError::DeviceAlreadyExists { device_id: "d".into() },
            "device already exists: d",
            409,
            "Device already exists",
        ),
        (AppError::DeviceNotFound { device_id: "g".into() }, "device not found: g", 404, "Device not found"),
        (
            AppError::DeviceNotRegistered,
            "device not registered or inactive",
            403,
            "Device not registered or inactive",
        ),
        (AppError::Store("boom".into()), "store error: boom", 500, "Internal server error"),
        (AppError::Config("x".into()), "config error: x", 500, "Configuration error"),
    ];
    for (err, message, status, title) in cases {
        assert_eq!(err.message(), message);
        let (code, body) = err.response_parts();
        assert_eq!(code, status);
        assert_eq!(body.error, title);
        assert!(body.detail.is_none());
    }
}

#[test]
fn invalid_payload_carries_its_detail() {
    let plain = AppError::InvalidPayload { detail: "bad".into(), structured: None };
    assert_eq!(plain.message(), "invalid payload: bad");
    let (code, body) = plain.response_parts();
    assert_eq!(code, 422);
    assert_eq!(body.error, "Invalid payload");
    assert!(matches!(body.detail, Some(ErrorDetail::Text(ref t)) if t == "bad"));
    let structured =
        AppError::InvalidPayload { detail: "bad".into(), structured: Some(r#"{"field":"id"}"#.into()) };
    assert!(matches!(structured.response_parts().1.detail, Some(ErrorDetail::Json(ref j)) if j == r#"{"field":"id"}"#));
}

#[test]
fn store_error_messages() {
    assert_eq!(StoreError::io("get_device query", "disk gone").message(), "get_device query: disk gone");
    assert_eq!(StoreError::serde("put_uplink", "eof").message(), "put_uplink (serde): eof");
    assert_eq!(StoreError::Poisoned.message(), "store lock poisoned");
    assert_eq!(
        StoreError::io("op", "d"),
        StoreError::Io { op: "op", detail: "d".into() }
    );
}

#[test]
fn uplink_is_stamped_with_the_firmware_version() {
    let m = UplinkMessage::new("dev-1".into(), 42, "0.1.0");
    assert_eq!(m.id, "dev-1");
    assert_eq!(m.current, 42);
    assert_eq!(m.fw, "0.1.0");
    let too_long = UplinkMessage::new("dev-1".into(), 1, "0.1.0-rc.1+build.77");
    assert_eq!(too_long.fw, "");
    let exactly_16 = UplinkMessage::new("d".into(), 1, "0123456789abcdef");
    assert_eq!(exactly_16.fw, "0123456789abcdef");
}
