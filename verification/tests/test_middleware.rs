use supervictor::middleware::{
    admin_denial, extract_client_subject, forbidden_message, is_admin_subject, sanitize_for_log,
};

#[test]
fn admin_ou_must_be_a_dn_component_not_a_substring() {
    for spoof in [
        "CN=OU=admin,O=x",       // OU=admin inside CN value
        "CN=evil,OU=admins,O=x", // prefix-similar OU
        "OU=administrator,O=x",  // longer value
        "CN=admin,O=x",          // admin as CN, no OU
    ] {
        assert!(!is_admin_subject(spoof), "spoof DN should be rejected: {spoof}");
    }
}

#[test]
fn admin_ou_is_case_insensitive() {
    assert!(is_admin_subject("CN=nick, ou=ADMIN, O=supervictor"));
    assert!(is_admin_subject("CN=ops,OU=admin,O=supervictor"));
    assert!(is_admin_subject("OU=admin"));
    assert!(is_admin_subject("  OU  =  admin  "));
    assert!(is_admin_subject("O=x,,OU=Admin"));
}

#[test]
fn device_certificate_is_not_admin() {
    assert!(!is_admin_subject("CN=factory-01,OU=devices,O=supervictor"));
    assert!(!is_admin_subject(""));
    assert!(!is_admin_subject("OU="));
    assert!(!is_admin_subject("OU=admin=x"));
    assert!(!is_admin_subject("OUadmin"));
}

#[test]
fn gate_decisions() {
    assert_eq!(admin_denial(Some("CN=ops,OU=admin")), None);
    assert_eq!(admin_denial(Some("CN=dev,OU=devices")), Some("admin certificate required"));
    assert_eq!(admin_denial(None), Some("client certificate required"));
    assert_eq!(forbidden_message("admin certificate required"), "forbidden: admin certificate required");
}

#[test]
fn subject_comes_from_request_context_first() {
    let ctx = r#"{"identity":{"clientCert":{"subjectDN":"CN=from-gateway"}}}"#;
    assert_eq!(
        extract_client_subject(Some(ctx), Some("CN=from-proxy")).as_deref(),
        Some("CN=from-gateway")
    );
    // a context without the subject falls back to the proxy header
    assert_eq!(
        extract_client_subject(Some(r#"{"identity":{}}"#), Some("CN=from-proxy")).as_deref(),
        Some("CN=from-proxy")
    );
    assert_eq!(
        extract_client_subject(Some("not json"), Some("CN=from-proxy")).as_deref(),
        Some("CN=from-proxy")
    );
    assert_eq!(extract_client_subject(Some(ctx), None).as_deref(), Some("CN=from-gateway"));
    assert_eq!(extract_client_subject(None, None), None);
    assert_eq!(extract_client_subject(Some("{}"), None), None);
}

#[test]
fn sanitize_strips_control_characters() {
    assert_eq!(sanitize_for_log("dev\n-1\r\t\u{7f}\u{85}ok"), "dev-1ok");
    assert_eq!(sanitize_for_log("CN=nick, OU=admin"), "CN=nick, OU=admin");
    assert_eq!(sanitize_for_log("é\u{0}ü"), "éü");
    assert_eq!(sanitize_for_log(""), "");
}

#[test]
fn fleet_routes_require_admin_certificate() {
    // no certificate, then a device certificate
    assert_eq!(admin_denial(None), Some("client certificate required"));
    assert_eq!(
        admin_denial(Some("CN=factory-01,OU=devices,O=supervictor")),
        Some("admin certificate required")
    );
    assert_eq!(admin_denial(Some("CN=ops,OU=admin,O=supervictor")), None);
}

#[test]
fn every_ui_route_requires_a_certificate() {
    let reason = admin_denial(None).expect("no certificate must be denied");
    assert_eq!(forbidden_message(reason), "forbidden: client certificate required");
    assert_eq!(extract_client_subject(None, None), None);
}

#[test]
fn sanitizing_twice_is_sanitizing_once() {
    for s in ["dev\n-1\r\t\u{7f}\u{85}ok", "plain", "", "\u{0}\u{1f}\u{9f}", "é\u{0}ü"] {
        let once = sanitize_for_log(s);
        assert!(!once.chars().any(char::is_control));
        assert_eq!(sanitize_for_log(&once), once);
    }
}
