//! The `fleet` command of the operator CLI: fleet health as a terminal table.
use vstd::prelude::*;

use crate::fleet::opt_text;
use crate::models::{active_text, lemma_status_texts, ACTIVE};
use crate::text::{dec, pad_right, push_dec, same_text};

verus! {

/// Arguments for the `fleet` command.
#[derive(Debug)]
pub struct FleetArgs {
    /// Admin identity whose cert to present (`certs/admins/<name>/`).
    pub admin: String,
    /// Optional CA cert path (default: `certs/ca/ca.pem` if present, else WebPki).
    pub ca: Option<String>,
    /// Target hostname.
    pub host: String,
    /// Target HTTPS port.
    pub port: u16,
    /// Print commands without executing.
    pub dry_run: bool,
}

/// The URL of the fleet health endpoint: `https://<host>:<port>/fleet`.
pub fn fleet_url(host: &str, port: u16) -> (url: String)
    ensures
        url@ == "https://"@ + host@ + ":"@ + dec(port as nat) + "/fleet"@,
{
    let mut url = "https://".to_owned();
    url.append(host);
    url.append(":");
    push_dec(&mut url, port as u64);
    url.append("/fleet");
    url
}

/// One device row from `GET /fleet`, as the CLI reads it.
#[derive(Debug)]
pub struct FleetDevice {
    /// Unique device identifier.
    pub device_id: String,
    /// Owner of the device.
    pub owner_id: String,
    /// Lifecycle status.
    pub status: String,
    /// Most recent uplink timestamp, if any.
    pub last_uplink: Option<String>,
    /// Freshness classification.
    pub staleness: String,
    /// Firmware version last reported, if any.
    pub fw: Option<String>,
}

/// The six columns of a table line, padded to 24, 10, 12, 9, 12 characters
/// (the last one unpadded), separated by spaces and ended by a newline.
pub open spec fn table_line(
    c1: Seq<char>,
    c2: Seq<char>,
    c3: Seq<char>,
    c4: Seq<char>,
    c5: Seq<char>,
    c6: Seq<char>,
) -> Seq<char> {
    pad_right(c1, 24) + " "@ + pad_right(c2, 10) + " "@ + pad_right(c3, 12) + " "@ + pad_right(c4, 9)
        + " "@ + pad_right(c5, 12) + " "@ + c6 + "\n"@
}

/// The header line of the table.
pub open spec fn header_line() -> Seq<char> {
    table_line("DEVICE"@, "STATUS"@, "OWNER"@, "FRESH"@, "FW"@, "LAST UPLINK"@)
}

/// The table line of one device: `-` without a firmware version, `never`
/// without an uplink.
pub open spec fn device_line(d: FleetDevice) -> Seq<char> {
    table_line(
        d.device_id@,
        d.status@,
        d.owner_id@,
        d.staleness@,
        match opt_text(d.fw) {
            Some(fw) => fw,
            None => "-"@,
        },
        match opt_text(d.last_uplink) {
            Some(at) => at,
            None => "never"@,
        },
    )
}

/// The lines of all devices, in order.
pub open spec fn device_lines(devices: Seq<FleetDevice>) -> Seq<char>
    decreases devices.len(),
{
    if devices.len() == 0 {
        Seq::empty()
    } else {
        device_lines(devices.drop_last()) + device_line(devices.last())
    }
}

/// Active devices, and active devices whose staleness reads `dark`.
pub open spec fn count_active(devices: Seq<FleetDevice>, dark_only: bool) -> nat
    decreases devices.len(),
{
    if devices.len() == 0 {
        0
    } else {
        let d = devices.last();
        count_active(devices.drop_last(), dark_only) + if d.status@ == active_text() && (!dark_only
            || d.staleness@ == "dark"@) {
            1nat
        } else {
            0nat
        }
    }
}

/// The summary's counts grow device by device: a device adds one to the
/// active count exactly when its status is `active`, and one to the dark
/// count exactly when its status is `active` and its staleness is `dark`.
pub proof fn lemma_summary_counts_step(devices: Seq<FleetDevice>, d: FleetDevice)
    ensures
        count_active(devices.push(d), false) == count_active(devices, false) + if d.status@
            == "active"@ {
            1int
        } else {
            0int
        },
        count_active(devices.push(d), true) == count_active(devices, true) + if d.status@
            == "active"@ && d.staleness@ == "dark"@ {
            1int
        } else {
            0int
        },
{
    reveal_strlit("active");
    lemma_status_texts();
    assert(devices.push(d).drop_last() =~= devices);
}

/// Only active devices whose staleness reads `dark` count as dark: the dark
/// count never exceeds the active count, and a fleet without such a device
/// shows zero dark.
pub proof fn lemma_dark_count_bounds(devices: Seq<FleetDevice>)
    ensures
        count_active(devices, true) <= count_active(devices, false) <= devices.len(),
        (forall|i: int|
            0 <= i < devices.len() ==> !((#[trigger] devices[i]).status@ == "active"@
                && devices[i].staleness@ == "dark"@)) ==> count_active(devices, true) == 0,
    decreases devices.len(),
{
    reveal_strlit("active");
    lemma_status_texts();
    if devices.len() > 0 {
        let rest = devices.drop_last();
        lemma_dark_count_bounds(rest);
        if forall|i: int|
            0 <= i < devices.len() ==> !((#[trigger] devices[i]).status@ == "active"@
                && devices[i].staleness@ == "dark"@) {
            assert forall|i: int|
                0 <= i < rest.len() implies !((#[trigger] rest[i]).status@ == "active"@
                && rest[i].staleness@ == "dark"@) by {
                assert(rest[i] == devices[i]);
            }
            assert(devices.last() == devices[devices.len() - 1]);
        }
    }
}

/// The whole table: header, one line per device, and the summary line
/// `<n> device(s), <a> active, <d> dark`, where only active devices count as
/// dark.
pub open spec fn table_text(devices: Seq<FleetDevice>) -> Seq<char> {
    header_line() + device_lines(devices) + dec(devices.len()) + " device(s), "@ + dec(
        count_active(devices, false),
    ) + " active, "@ + dec(count_active(devices, true)) + " dark\n"@
}

/// Appends `s` right-padded with spaces to `width` characters.
fn push_padded(out: &mut String, s: &str, width: usize)
    ensures
        final(out)@ == old(out)@ + pad_right(s@, width as nat),
{
    out.append(s);
    let mut n = s.unicode_len();
    while n < width
        invariant
            s@.len() <= n,
            n <= width || n == s@.len(),
            out@ == old(out)@ + s@ + Seq::new((n - s@.len()) as nat, |i: int| ' '),
        decreases width - n,
    {
        proof {
            reveal_strlit(" ");
        }
        out.append(" ");
        assert(Seq::new((n - s@.len()) as nat, |i: int| ' ').push(' ') =~= Seq::new(
            (n + 1 - s@.len()) as nat,
            |i: int| ' ',
        ));
        n = n + 1;
    }
    proof {
        if s@.len() >= width {
            assert(Seq::new((n - s@.len()) as nat, |i: int| ' ') =~= Seq::<char>::empty());
        }
    }
    assert(out@ =~= old(out)@ + pad_right(s@, width as nat));
}

fn push_line(out: &mut String, c1: &str, c2: &str, c3: &str, c4: &str, c5: &str, c6: &str)
    ensures
        final(out)@ == old(out)@ + table_line(c1@, c2@, c3@, c4@, c5@, c6@),
{
    let ghost start = out@;
    push_padded(out, c1, 24);
    out.append(" ");
    push_padded(out, c2, 10);
    out.append(" ");
    push_padded(out, c3, 12);
    out.append(" ");
    push_padded(out, c4, 9);
    out.append(" ");
    push_padded(out, c5, 12);
    out.append(" ");
    out.append(c6);
    out.append("\n");
    assert(out@ =~= start + table_line(c1@, c2@, c3@, c4@, c5@, c6@));
}

/// Render fleet rows as an aligned terminal table with a summary line.
pub fn render_table(devices: &[FleetDevice]) -> (table: String)
    ensures
        table@ == table_text(devices@),
{
    proof {
        lemma_status_texts();
    }
    let mut out = String::new();
    push_line(&mut out, "DEVICE", "STATUS", "OWNER", "FRESH", "FW", "LAST UPLINK");
    let mut active: usize = 0;
    let mut dark: usize = 0;
    let mut i: usize = 0;
    while i < devices.len()
        invariant
            i <= devices@.len(),
            ACTIVE@ == active_text(),
            out@ == header_line() + device_lines(devices@.subrange(0, i as int)),
            active == count_active(devices@.subrange(0, i as int), false),
            dark == count_active(devices@.subrange(0, i as int), true),
            active <= i,
            dark <= i,
        decreases devices@.len() - i,
    {
        let ghost seen = devices@.subrange(0, i as int);
        let ghost next = devices@.subrange(0, i + 1);
        assert(next.drop_last() =~= seen);
        let d = &devices[i];
        let fw = match &d.fw {
            Some(v) => v.as_str(),
            None => "-",
        };
        let last = match &d.last_uplink {
            Some(v) => v.as_str(),
            None => "never",
        };
        let ghost before = out@;
        push_line(
            &mut out,
            d.device_id.as_str(),
            d.status.as_str(),
            d.owner_id.as_str(),
            d.staleness.as_str(),
            fw,
            last,
        );
        assert(out@ =~= header_line() + device_lines(next));
        if same_text(d.status.as_str(), ACTIVE) {
            active = active + 1;
            if same_text(d.staleness.as_str(), "dark") {
                dark = dark + 1;
            }
        }
        i = i + 1;
    }
    assert(devices@.subrange(0, i as int) =~= devices@);
    push_dec(&mut out, devices.len() as u64);
    out.append(" device(s), ");
    push_dec(&mut out, active as u64);
    out.append(" active, ");
    push_dec(&mut out, dark as u64);
    out.append(" dark\n");
    out
}

} // verus!
