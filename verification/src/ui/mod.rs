//! Fleet dashboard logic behind admin mTLS: CSRF double-submit tokens,
//! the status whitelist, and the fleet table rows.

/// Server-Sent Events uplink stream.
pub mod sse;
/// Page contents.
pub mod views;

use vstd::prelude::*;

use crate::error::AppError;
use crate::fleet::{opt_text, FleetDevice, Staleness};
use crate::middleware::{client_subject, extract_client_subject};
use crate::models::{active_text, inactive_text, lemma_status_texts, DeviceRecord, ACTIVE, INACTIVE};
use crate::text::{
    find_char, first_index_of, is_ws, lemma_first_index_of, push_slice, same_text, trim, trim_bounds,
    trim_end, trim_start,
};
use views::FleetRow;

verus! {

/// Name of the CSRF double-submit cookie.
pub const CSRF_COOKIE: &'static str = "sv_csrf";

/// The value of cookie `name` in one `Cookie` header: the first
/// `;`-separated pair that, trimmed, reads `name=value`.
pub open spec fn cookie_in(h: Seq<char>, name: Seq<char>) -> Option<Seq<char>>
    decreases h.len(),
{
    let e = first_index_of(h, ';');
    let pair = trim(h.subrange(0, e));
    let q = first_index_of(pair, '=');
    if q < pair.len() && pair.subrange(0, q) == name {
        Some(pair.subrange(q + 1, pair.len() as int))
    } else if 0 <= e < h.len() {
        cookie_in(h.subrange(e + 1, h.len() as int), name)
    } else {
        None
    }
}

/// The value of cookie `name` in the first of the `Cookie` headers `hs`
/// that has it.
pub open spec fn cookie_in_headers(hs: Seq<String>, name: Seq<char>) -> Option<Seq<char>>
    decreases hs.len(),
{
    if hs.len() == 0 {
        None
    } else {
        match cookie_in(hs[0]@, name) {
            Some(v) => Some(v),
            None => cookie_in_headers(hs.drop_first(), name),
        }
    }
}

fn cookie_in_header(h: &str, name: &str) -> (r: Option<String>)
    ensures
        opt_text(r) == cookie_in(h@, name@),
{
    let n = h.unicode_len();
    let mut start: usize = 0;
    assert(h@.subrange(0, n as int) =~= h@);
    loop
        invariant
            n == h@.len(),
            start <= n,
            cookie_in(h@, name@) == cookie_in(h@.subrange(start as int, n as int), name@),
        decreases n - start,
    {
        let ghost rest = h@.subrange(start as int, n as int);
        let end = find_char(h, start, n, ';');
        proof {
            lemma_first_index_of(rest, ';');
            assert(rest.subrange(0, end - start) =~= h@.subrange(start as int, end as int));
        }
        let (a, b) = trim_bounds(h, start, end);
        let q = find_char(h, a, b, '=');
        let ghost pair = h@.subrange(a as int, b as int);
        proof {
            lemma_first_index_of(pair, '=');
        }
        if q < b {
            assert(pair.subrange(0, q - a) =~= h@.subrange(a as int, q as int));
            let key = h.substring_char(a, q);
            if same_text(key, name) {
                let mut v = String::new();
                push_slice(&mut v, h, q + 1, b);
                assert(pair.subrange(q - a + 1, pair.len() as int) =~= h@.subrange(q + 1, b as int));
                assert(v@ =~= h@.subrange(q + 1, b as int));
                return Some(v);
            }
        }
        if end == n {
            return None;
        }
        assert(rest.subrange(end - start + 1, rest.len() as int) =~= h@.subrange(end + 1, n as int));
        start = end + 1;
    }
}

/// The value of cookie `name` in the first `Cookie` header that has it
/// (headers that are not visible ASCII are left out by the caller).
pub fn cookie_value(headers: &[String], name: &str) -> (r: Option<String>)
    ensures
        opt_text(r) == cookie_in_headers(headers@, name@),
{
    let mut i: usize = 0;
    assert(headers@.subrange(0, headers@.len() as int) =~= headers@);
    while i < headers.len()
        invariant
            i <= headers@.len(),
            cookie_in_headers(headers@, name@) == cookie_in_headers(
                headers@.subrange(i as int, headers@.len() as int),
                name@,
            ),
        decreases headers@.len() - i,
    {
        let ghost rest = headers@.subrange(i as int, headers@.len() as int);
        assert(rest.drop_first() =~= headers@.subrange(i + 1, headers@.len() as int));
        assert(rest[0] == headers@[i as int]);
        if let Some(v) = cookie_in_header(headers[i].as_str(), name) {
            return Some(v);
        }
        i = i + 1;
    }
    None
}

/// The CSRF check: the form's token equals the non-empty `sv_csrf` cookie.
pub open spec fn csrf_ok_spec(headers: Seq<String>, submitted: Seq<char>) -> bool {
    match cookie_in_headers(headers, "sv_csrf"@) {
        Some(cookie) => cookie.len() > 0 && cookie == submitted,
        None => false,
    }
}

proof fn lemma_xor_acc(acc: u32, x: u32, y: u32)
    ensures
        (acc | (x ^ y)) == 0 <==> (acc == 0 && x == y),
{
    assert((acc | (x ^ y)) == 0 <==> (acc == 0 && x == y)) by (bit_vector);
}

/// Double-submit check: the submitted token matches the CSRF cookie. The
/// comparison looks at every character rather than stopping at the first
/// difference.
pub fn csrf_ok(headers: &[String], submitted: &str) -> (ok: bool)
    ensures
        ok == csrf_ok_spec(headers@, submitted@),
{
    proof {
        reveal_strlit("sv_csrf");
    }
    let cookie = match cookie_value(headers, CSRF_COOKIE) {
        Some(c) => c,
        None => return false,
    };
    let n = cookie.as_str().unicode_len();
    if n != submitted.unicode_len() || n == 0 {
        return false;
    }
    let mut diff: u32 = 0;
    let mut i: usize = 0;
    while i < n
        invariant
            n == cookie@.len() == submitted@.len(),
            i <= n,
            (diff == 0) == (forall|k: int| 0 <= k < i ==> cookie@[k] == submitted@[k]),
        decreases n - i,
    {
        let a = cookie.as_str().get_char(i) as u32;
        let b = submitted.get_char(i) as u32;
        proof {
            lemma_xor_acc(diff, a, b);
        }
        diff = diff | (a ^ b);
        i = i + 1;
    }
    proof {
        if diff == 0 {
            assert(cookie@ =~= submitted@);
        }
    }
    diff == 0
}

/// The `Set-Cookie` value that installs a fresh CSRF token. No `Secure`
/// attribute: TLS is terminated in front of the service, and local dev is
/// plain http. `SameSite=Strict` is the backstop.
pub fn csrf_set_cookie(token: &str) -> (c: String)
    ensures
        c@ == "sv_csrf="@ + token@ + "; Path=/ui; SameSite=Strict; HttpOnly"@,
{
    let mut c = "sv_csrf=".to_owned();
    c.append(token);
    c.append("; Path=/ui; SameSite=Strict; HttpOnly");
    c
}

/// A `Cookie` header that returns `sv_csrf=<t>` for a non-empty token
/// without `;` or white space yields `t` as the CSRF cookie.
proof fn lemma_echoed_cookie(t: Seq<char>, h: Seq<char>)
    requires
        t.len() > 0,
        forall|i: int| 0 <= i < t.len() ==> #[trigger] t[i] != ';' && !is_ws(t[i]),
        h == "sv_csrf="@ + t,
    ensures
        cookie_in(h, "sv_csrf"@) == Some(t),
{
    reveal_strlit("sv_csrf=");
    reveal_strlit("sv_csrf");
    let n = h.len();
    assert forall|i: int| 0 <= i < n implies #[trigger] h[i] != ';' by {
        if i >= 8 {
            assert(h[i] == t[i - 8]);
        }
    }
    lemma_first_index_of(h, ';');
    let e = first_index_of(h, ';');
    assert(e == n);
    assert(h.subrange(0, e) =~= h);
    assert(trim_start(h) == h);
    assert(h.last() == t[t.len() - 1]);
    assert(trim_end(h) == h);
    assert(trim(h) == h);
    lemma_first_index_of(h, '=');
    let q = first_index_of(h, '=');
    assert(h[7] == '=');
    assert(q == 7);
    assert(h.subrange(0, 7) =~= "sv_csrf"@);
    assert(h.subrange(8, n as int) =~= t);
}

/// A token the dashboard hands out passes the CSRF check when the form
/// echoes it and the browser sends back the `sv_csrf` cookie holding it.
pub proof fn lemma_issued_token_is_accepted(h1: u64, h2: u64, cookie_header: String)
    requires
        cookie_header@ == "sv_csrf="@ + hex16(h1 as nat) + hex16(h2 as nat),
    ensures
        csrf_ok_spec(seq![cookie_header], hex16(h1 as nat) + hex16(h2 as nat)),
{
    let t = hex16(h1 as nat) + hex16(h2 as nat);
    assert forall|i: int| 0 <= i < t.len() implies #[trigger] t[i] != ';' && !is_ws(t[i]) by {
        if i < 16 {
            assert(t[i] == hex16(h1 as nat)[i]);
        } else {
            assert(t[i] == hex16(h2 as nat)[i - 16]);
        }
    }
    assert("sv_csrf="@ + hex16(h1 as nat) + hex16(h2 as nat) == "sv_csrf="@ + t);
    lemma_echoed_cookie(t, cookie_header@);
    let hs = seq![cookie_header];
    assert(hs[0]@ == cookie_header@);
}

/// The CSRF token of a page response: the request's `sv_csrf` cookie when
/// it carries one; otherwise the freshly drawn `fresh`, together with the
/// `Set-Cookie` value that must accompany the response.
pub fn ensure_csrf(headers: &[String], fresh: String) -> (r: (String, Option<String>))
    ensures
        match cookie_in_headers(headers@, "sv_csrf"@) {
            Some(token) => r.0@ == token && r.1 is None,
            None => r.0@ == fresh@ && (r.1 matches Some(c) && c@ == "sv_csrf="@ + fresh@
                + "; Path=/ui; SameSite=Strict; HttpOnly"@),
        },
{
    proof {
        reveal_strlit("sv_csrf");
    }
    match cookie_value(headers, CSRF_COOKIE) {
        Some(token) => (token, None),
        None => {
            let cookie = csrf_set_cookie(fresh.as_str());
            (fresh, Some(cookie))
        },
    }
}

/// The lower-case hexadecimal digit for `d` (0..=15).
pub open spec fn hex_char(d: nat) -> char {
    if d < 10 {
        crate::text::digit_char(d)
    } else if d == 10 {
        'a'
    } else if d == 11 {
        'b'
    } else if d == 12 {
        'c'
    } else if d == 13 {
        'd'
    } else if d == 14 {
        'e'
    } else {
        'f'
    }
}

/// `16^k`.
pub open spec fn pow16(k: nat) -> nat
    decreases k,
{
    if k == 0 {
        1
    } else {
        16 * pow16((k - 1) as nat)
    }
}

/// `n` as 16 lower-case hexadecimal digits (`{:016x}`).
pub open spec fn hex16(n: nat) -> Seq<char> {
    Seq::new(16, |i: int| hex_char((n / pow16((15 - i) as nat)) % 16))
}

fn hex_str(d: u64) -> (s: &'static str)
    requires
        d < 16,
    ensures
        s@ == seq![hex_char(d as nat)],
{
    proof {
        reveal_strlit("0");
        reveal_strlit("1");
        reveal_strlit("2");
        reveal_strlit("3");
        reveal_strlit("4");
        reveal_strlit("5");
        reveal_strlit("6");
        reveal_strlit("7");
        reveal_strlit("8");
        reveal_strlit("9");
        reveal_strlit("a");
        reveal_strlit("b");
        reveal_strlit("c");
        reveal_strlit("d");
        reveal_strlit("e");
        reveal_strlit("f");
    }
    if d == 0 {
        "0"
    } else if d == 1 {
        "1"
    } else if d == 2 {
        "2"
    } else if d == 3 {
        "3"
    } else if d == 4 {
        "4"
    } else if d == 5 {
        "5"
    } else if d == 6 {
        "6"
    } else if d == 7 {
        "7"
    } else if d == 8 {
        "8"
    } else if d == 9 {
        "9"
    } else if d == 10 {
        "a"
    } else if d == 11 {
        "b"
    } else if d == 12 {
        "c"
    } else if d == 13 {
        "d"
    } else if d == 14 {
        "e"
    } else {
        "f"
    }
}

proof fn lemma_pow16_positive(k: nat)
    ensures
        pow16(k) >= 1,
    decreases k,
{
    if k > 0 {
        lemma_pow16_positive((k - 1) as nat);
    }
}

fn push_hex16(out: &mut String, n: u64)
    ensures
        final(out)@ == old(out)@ + hex16(n as nat),
{
    let mut d: u64 = 0x1000_0000_0000_0000;
    let mut i: usize = 0;
    assert(pow16(15) == 0x1000_0000_0000_0000) by {
        reveal_with_fuel(pow16, 16);
    }
    while i < 16
        invariant
            i <= 16,
            d as nat == pow16((15 - i) as nat) || (i == 16 && d == 0),
            out@ == old(out)@ + hex16(n as nat).subrange(0, i as int),
        decreases 16 - i,
    {
        proof {
            lemma_pow16_positive((15 - i) as nat);
        }
        let digit = (n / d) % 16;
        let ghost before = out@;
        out.append(hex_str(digit));
        assert(hex16(n as nat).subrange(0, i + 1) =~= hex16(n as nat).subrange(0, i as int).push(
            hex_char(digit as nat),
        ));
        proof {
            if i < 15 {
                assert(pow16((15 - i) as nat) == 16 * pow16((15 - (i + 1)) as nat));
            }
        }
        d = d / 16;
        i = i + 1;
    }
    assert(hex16(n as nat).subrange(0, 16) =~= hex16(n as nat));
}

/// A CSRF token from two 64-bit hashes: 32 lower-case hex digits
/// (`{:016x}{:016x}`).
pub fn csrf_token_text(h1: u64, h2: u64) -> (t: String)
    ensures
        t@ == hex16(h1 as nat) + hex16(h2 as nat),
{
    let mut t = String::new();
    push_hex16(&mut t, h1);
    push_hex16(&mut t, h2);
    t
}

/// The status a status form may set: `active` or `inactive`, exactly;
/// anything else is an invalid payload. Client input never reaches storage.
pub fn status_from_form(status: &str) -> (r: Result<&'static str, AppError>)
    ensures
        match r {
            Ok(s) => (status@ == active_text() || status@ == inactive_text()) && s@ == status@,
            Err(e) => status@ != active_text() && status@ != inactive_text() && (e matches AppError::InvalidPayload { detail, structured } && detail@
                == "status must be 'active' or 'inactive'"@ && structured is None),
        },
{
    proof {
        lemma_status_texts();
    }
    if same_text(status, ACTIVE) {
        Ok(ACTIVE)
    } else if same_text(status, INACTIVE) {
        Ok(INACTIVE)
    } else {
        Err(
            AppError::InvalidPayload {
                detail: "status must be 'active' or 'inactive'".to_owned(),
                structured: None,
            },
        )
    }
}

/// The admin subject shown in page headers and audit logs: the forwarded
/// client subject, or `unknown`.
pub fn subject_of(request_context: Option<&str>, ssl_subject: Option<&str>) -> (s: String)
    ensures
        s@ == match client_subject(
            match request_context {
                Some(t) => Some(t@),
                None => None,
            },
            match ssl_subject {
                Some(t) => Some(t@),
                None => None,
            },
        ) {
            Some(dn) => dn,
            None => "unknown"@,
        },
{
    match extract_client_subject(request_context, ssl_subject) {
        Some(dn) => dn,
        None => "unknown".to_owned(),
    }
}

/// The health row of `id` in `health`: when several are listed, the last.
pub open spec fn health_for(health: Seq<FleetDevice>, id: Seq<char>) -> Option<FleetDevice>
    decreases health.len(),
{
    if health.len() == 0 {
        None
    } else if health.last().device_id@ == id {
        Some(health.last())
    } else {
        health_for(health.drop_last(), id)
    }
}

/// The table row of `device` given its health row.
pub open spec fn fleet_row_spec(device: DeviceRecord, health: Option<FleetDevice>, row: FleetRow) -> bool {
    &&& row.device == device
    &&& match health {
        Some(h) => opt_text(row.last_uplink) == opt_text(h.last_uplink) && row.staleness
            == h.staleness,
        None => row.last_uplink is None && row.staleness == Staleness::Unknown,
    }
}

fn find_health(health: &[FleetDevice], id: &str) -> (r: Option<usize>)
    ensures
        match r {
            Some(i) => i < health@.len() && health_for(health@, id@) == Some(health@[i as int]),
            None => health_for(health@, id@) is None,
        },
{
    let mut i = health.len();
    assert(health@.subrange(0, i as int) =~= health@);
    while i > 0
        invariant
            i <= health@.len(),
            health_for(health@, id@) == health_for(health@.subrange(0, i as int), id@),
        decreases i,
    {
        assert(health@.subrange(0, i as int).drop_last() =~= health@.subrange(0, i - 1));
        if same_text(health[i - 1].device_id.as_str(), id) {
            return Some(i - 1);
        }
        i = i - 1;
    }
    None
}

fn copy_opt(o: &Option<String>) -> (r: Option<String>)
    ensures
        opt_text(r) == opt_text(*o),
{
    match o {
        Some(s) => Some(s.clone()),
        None => None,
    }
}

/// Assemble the fleet table: one row per device record, in order, with the
/// last uplink and staleness of its health row (none and unknown without
/// one).
pub fn fleet_rows(devices: Vec<DeviceRecord>, health: &[FleetDevice]) -> (rows: Vec<FleetRow>)
    ensures
        rows@.len() == devices@.len(),
        forall|i: int|
            0 <= i < devices@.len() ==> fleet_row_spec(
                #[trigger] devices@[i],
                health_for(health@, devices@[i].device_id@),
                rows@[i],
            ),
{
    let ghost given = devices@;
    let n = devices.len();
    let mut devices = devices;
    let mut backwards: Vec<FleetRow> = Vec::new();
    while devices.len() > 0
        invariant
            devices@.len() + backwards@.len() == n,
            n == given.len(),
            devices@ == given.subrange(0, devices@.len() as int),
            forall|k: int|
                0 <= k < backwards@.len() ==> fleet_row_spec(
                    given[n - 1 - k],
                    health_for(health@, given[n - 1 - k].device_id@),
                    #[trigger] backwards@[k],
                ),
        decreases devices@.len(),
    {
        let ghost len = devices@.len();
        let device = devices.pop().unwrap();
        assert(device == given[len - 1]);
        let row = match find_health(health, device.device_id.as_str()) {
            Some(j) => FleetRow {
                last_uplink: copy_opt(&health[j].last_uplink),
                staleness: health[j].staleness,
                device,
            },
            None => FleetRow { device, last_uplink: None, staleness: Staleness::Unknown },
        };
        backwards.push(row);
        assert(devices@ =~= given.subrange(0, devices@.len() as int));
    }
    let mut rows: Vec<FleetRow> = Vec::new();
    while backwards.len() > 0
        invariant
            backwards@.len() + rows@.len() == n,
            n == given.len(),
            forall|k: int|
                0 <= k < backwards@.len() ==> fleet_row_spec(
                    given[n - 1 - k],
                    health_for(health@, given[n - 1 - k].device_id@),
                    #[trigger] backwards@[k],
                ),
            forall|k: int|
                0 <= k < rows@.len() ==> fleet_row_spec(
                    given[k],
                    health_for(health@, given[k].device_id@),
                    #[trigger] rows@[k],
                ),
        decreases backwards@.len(),
    {
        let ghost len = backwards@.len();
        let row = backwards.pop().unwrap();
        assert(row == backwards@.push(row)[len - 1]);
        rows.push(row);
    }
    rows
}

} // verus!
