use supervictor::error::AppError;
use supervictor::fleet::{FleetDevice, Staleness};
use supervictor::middleware::forbidden_message;
use supervictor::models::{DeviceRecord, UplinkRecord};
use supervictor::ui::views::{sparkline_values, status_toggle};
use supervictor::ui::{
    cookie_value, csrf_ok, csrf_set_cookie, csrf_token_text, ensure_csrf, fleet_rows, status_from_form,
    subject_of,
};

fn headers(values: &[&str]) -> Vec<String> {
    values.iter().map(|v| v.to_string()).collect()
}

#[test]
fn cookie_lookup() {
    let h = headers(&["a=1; sv_csrf=tok; b=2"]);
    assert_eq!(cookie_value(&h, "sv_csrf").as_deref(), Some("tok"));
    assert_eq!(cookie_value(&h, "a").as_deref(), Some("1"));
    assert_eq!(cookie_value(&h, "c"), None);
    let h = headers(&["x=y", "  sv_csrf=second=part ;"]);
    assert_eq!(cookie_value(&h, "sv_csrf").as_deref(), Some("second=part"));
    let h = headers(&["sv_csrf=first", "sv_csrf=second"]);
    assert_eq!(cookie_value(&h, "sv_csrf").as_deref(), Some("first"));
    assert_eq!(cookie_value(&headers(&["sv_csrf"]), "sv_csrf"), None);
    assert_eq!(cookie_value(&[], "sv_csrf"), None);
}

#[test]
fn register_without_csrf_cookie_is_403() {
    assert!(!csrf_ok(&[], "whatever"));
    assert_eq!(forbidden_message("invalid CSRF token"), "forbidden: invalid CSRF token");
}

#[test]
fn register_with_mismatched_csrf_is_403() {
    assert!(!csrf_ok(&headers(&["sv_csrf=token-a"]), "token-b"));
    assert!(!csrf_ok(&headers(&["sv_csrf=token-a"]), "token-aa"));
    assert!(!csrf_ok(&headers(&["sv_csrf="]), ""));
}

#[test]
fn register_with_valid_csrf_is_accepted() {
    assert!(csrf_ok(&headers(&["sv_csrf=token-a"]), "token-a"));
    assert!(csrf_ok(&headers(&["other=1; sv_csrf=tok"]), "tok"));
}

#[test]
fn csrf_cookie_attributes() {
    let cookie = csrf_set_cookie("abc");
    assert!(cookie.starts_with("sv_csrf="));
    assert!(cookie.contains("SameSite=Strict"));
    assert!(cookie.contains("HttpOnly"));
    assert_eq!(cookie, "sv_csrf=abc; Path=/ui; SameSite=Strict; HttpOnly");
}

#[test]
fn csrf_token_is_32_hex_digits() {
    assert_eq!(csrf_token_text(0, 0), "00000000000000000000000000000000");
    assert_eq!(
        csrf_token_text(0x0123_4567_89ab_cdef, u64::MAX),
        "0123456789abcdefffffffffffffffff"
    );
    assert_eq!(csrf_token_text(255, 1), format!("{:016x}{:016x}", 255u64, 1u64));
}

#[test]
fn status_rejects_values_outside_whitelist() {
    assert_eq!(status_from_form("active").unwrap(), "active");
    assert_eq!(status_from_form("inactive").unwrap(), "inactive");
    for bad in ["revoked", "ACTIVE; DROP TABLE devices", ""] {
        let err = status_from_form(bad).unwrap_err();
        assert_eq!(err.response_parts().0, 422, "status {bad:?} must be rejected");
        assert_eq!(err.message(), "invalid payload: status must be 'active' or 'inactive'");
    }
}

#[test]
fn status_toggle_revokes_and_reactivates() {
    assert_eq!(status_toggle("active"), ("inactive", "revoke"));
    assert_eq!(status_toggle("inactive"), ("active", "reactivate"));
    assert_eq!(status_toggle("weird"), ("active", "reactivate"));
}

#[test]
fn subject_defaults_to_unknown() {
    assert_eq!(subject_of(None, Some("CN=nick")), "CN=nick");
    assert_eq!(subject_of(None, None), "unknown");
}

fn device(id: &str, status: &str) -> DeviceRecord {
    DeviceRecord {
        device_id: id.into(),
        owner_id: "owner-1".into(),
        subject_dn: None,
        status: status.into(),
        created_at: "2026-07-01T00:00:00+00:00".into(),
    }
}

#[test]
fn fleet_page_lists_devices_with_status() {
    let devices = vec![device("factory-01", "active"), device("factory-02", "inactive")];
    let health = vec![FleetDevice {
        device_id: "factory-01".into(),
        owner_id: "owner-1".into(),
        status: "active".into(),
        last_uplink: Some("2026-07-01T10:00:00+00:00".into()),
        staleness: Staleness::Fresh,
        fw: None,
    }];
    let rows = fleet_rows(devices, &health);
    assert_eq!(rows.len(), 2);
    assert_eq!(rows[0].device.device_id, "factory-01");
    assert_eq!(rows[0].last_uplink.as_deref(), Some("2026-07-01T10:00:00+00:00"));
    assert_eq!(rows[0].staleness, Staleness::Fresh);
    assert_eq!(rows[1].device.device_id, "factory-02");
    assert_eq!(rows[1].device.status, "inactive");
    assert!(rows[1].last_uplink.is_none());
    assert_eq!(rows[1].staleness, Staleness::Unknown);
}

#[test]
fn device_detail_sparkline_reads_currents_oldest_first() {
    let uplinks: Vec<UplinkRecord> = [30, 15, 20, 10]
        .iter()
        .enumerate()
        .map(|(i, c)| UplinkRecord {
            device_id: "factory-01".into(),
            received_at: format!("2026-07-01T10:0{}:00+00:00", 3 - i),
            payload: format!("{{\"current\":{c}}}"),
        })
        .collect();
    assert_eq!(sparkline_values(&uplinks), vec![10, 20, 15, 30]);
    let odd = vec![
        UplinkRecord { device_id: "d".into(), received_at: "t".into(), payload: "{}".into() },
        UplinkRecord {
            device_id: "d".into(),
            received_at: "t".into(),
            payload: r#"{"current":4294967297}"#.into(),
        },
        UplinkRecord { device_id: "d".into(), received_at: "t".into(), payload: "bad".into() },
    ];
    // 2^32 + 1 is kept and truncated to i32, as `as i32` does
    assert_eq!(sparkline_values(&odd), vec![1]);
}

#[test]
fn page_keeps_existing_csrf_cookie() {
    let h = headers(&["sv_csrf=abc123"]);
    let (token, set_cookie) = ensure_csrf(&h, "fresh".to_string());
    assert_eq!(token, "abc123");
    assert_eq!(set_cookie, None);
}

#[test]
fn page_without_csrf_cookie_installs_fresh_token() {
    let h = headers(&["other=1"]);
    let (token, set_cookie) = ensure_csrf(&h, "0123abcd".to_string());
    assert_eq!(token, "0123abcd");
    assert_eq!(
        set_cookie.as_deref(),
        Some("sv_csrf=0123abcd; Path=/ui; SameSite=Strict; HttpOnly")
    );
}

#[test]
fn fleet_page_sets_csrf_cookie() {
    let (token, set_cookie) = ensure_csrf(&[], csrf_token_text(7, 9));
    let cookie = set_cookie.expect("csrf cookie must be set");
    assert!(cookie.starts_with("sv_csrf="));
    assert!(cookie.contains(&token));
    assert!(cookie.contains("SameSite=Strict"));
    assert!(cookie.contains("HttpOnly"));
}

#[test]
fn unknown_device_is_404() {
    let err = AppError::DeviceNotFound { device_id: "ghost".into() };
    assert_eq!(err.response_parts().0, 404);
}

#[test]
fn status_on_unknown_device_is_404() {
    assert_eq!(status_from_form("inactive").unwrap(), "inactive");
    let err = AppError::DeviceNotFound { device_id: "ghost".into() };
    let (code, body) = err.response_parts();
    assert_eq!(code, 404);
    assert_eq!(body.error, "Device not found");
}

#[test]
fn issued_token_is_accepted_when_echoed() {
    for (h1, h2) in [(0u64, 0u64), (0x0123_4567_89ab_cdef, u64::MAX), (42, 7)] {
        let (token, set_cookie) = ensure_csrf(&[], csrf_token_text(h1, h2));
        assert!(set_cookie.is_some());
        let echoed = headers(&[&format!("sv_csrf={token}")]);
        assert!(csrf_ok(&echoed, &token));
        // the next page keeps the same token
        let (again, none) = ensure_csrf(&echoed, csrf_token_text(h2, h1));
        assert_eq!(again, token);
        assert_eq!(none, None);
    }
}
