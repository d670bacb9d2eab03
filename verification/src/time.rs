//! Minimal UTC RFC 3339 timestamps: formatting Unix time the way chrono's
//! `to_rfc3339()` does, and parsing such timestamps back to Unix seconds.
use vstd::prelude::*;

use crate::calendar::{
    civil_of, epoch_days, hinnant_civil, hinnant_days, is_leap, lemma_civil_of, lemma_date_in_year,
    lemma_days_before_year_monotone, lemma_epoch_days_injective, lemma_hinnant_days,
    lemma_leap_step, lemma_year_of_era, month_len, valid_date,
};
use crate::text::{
    all_digits, dec, digits_value, is_digit, lemma_dec_digits, lemma_zero_pad_dec, push_zero_padded,
    read_digits, zero_pad,
};

verus! {

/// A two-digit, zero-padded field (`{:02}`).
pub open spec fn two_digits(n: int) -> Seq<char> {
    zero_pad(dec(n as nat), 2)
}

/// The fractional-seconds part: nothing for whole seconds, otherwise 3, 6
/// or 9 digits, trimming trailing zeros in whole groups of three.
pub open spec fn fraction_text(nanos: nat) -> Seq<char> {
    if nanos == 0 {
        Seq::empty()
    } else if nanos % 1_000_000 == 0 {
        seq!['.'] + zero_pad(dec(nanos / 1_000_000), 3)
    } else if nanos % 1_000 == 0 {
        seq!['.'] + zero_pad(dec(nanos / 1_000), 6)
    } else {
        seq!['.'] + zero_pad(dec(nanos), 9)
    }
}

/// The UTC offset suffix.
pub open spec fn utc_suffix() -> Seq<char> {
    seq!['+', '0', '0', ':', '0', '0']
}

/// `YYYY-MM-DDThh:mm:ss` for the given calendar date and second of day.
pub open spec fn date_time_text(y: int, m: int, d: int, second_of_day: nat) -> Seq<char> {
    zero_pad(dec(y as nat), 4) + seq!['-'] + two_digits(m) + seq!['-'] + two_digits(d) + seq!['T']
        + two_digits((second_of_day / 3600) as int) + seq![':'] + two_digits((second_of_day % 3600 / 60) as int)
        + seq![':'] + two_digits((second_of_day % 60) as int)
}

/// RFC 3339 text of the instant `secs` seconds and `nanos` nanoseconds
/// after 1970-01-01T00:00:00Z.
pub open spec fn rfc3339_text(secs: nat, nanos: nat) -> Seq<char> {
    let date = civil_of((secs / 86400) as int);
    date_time_text(date.0, date.1, date.2, secs % 86400) + fraction_text(nanos) + utc_suffix()
}

/// Hinnant's `civil_from_days`: the calendar date `days` days after
/// 1970-01-01.
pub fn civil_from_days(days: u64) -> (ymd: (u64, u64, u64))
    requires
        days <= u64::MAX / 86_400,
    ensures
        civil_of(days as int) == (ymd.0 as int, ymd.1 as int, ymd.2 as int),
{
    // The epoch is shifted to 0000-03-01 so leap days end each cycle.
    let z = days + 719_468;
    let era = z / 146_097;
    let doe = z - era * 146_097;
    let yoe = (doe - doe / 1_460 + doe / 36_524 - doe / 146_096) / 365;
    proof {
        lemma_year_of_era(doe as int);
    }
    let doy = doe - (365 * yoe + yoe / 4 - yoe / 100);
    let mp = (5 * doy + 2) / 153;
    let day = doy - (153 * mp + 2) / 5 + 1;
    let month = if mp < 10 {
        mp + 3
    } else {
        mp - 9
    };
    let year = yoe + era * 400 + if month <= 2 {
        1
    } else {
        0
    };
    proof {
        lemma_civil_of(days as int);
        assert(hinnant_civil(days as int) == (year as int, month as int, day as int));
    }
    (year, month, day)
}

/// Format a Unix timestamp (seconds + nanoseconds since epoch) as RFC 3339 UTC.
pub fn format_rfc3339(unix_secs: u64, nanos: u32) -> (s: String)
    ensures
        s@ == rfc3339_text(unix_secs as nat, nanos as nat),
{
    let days = unix_secs / 86_400;
    let secs_of_day = unix_secs % 86_400;
    let hour = secs_of_day / 3_600;
    let min = (secs_of_day % 3_600) / 60;
    let sec = secs_of_day % 60;
    let (year, month, day) = civil_from_days(days);

    let mut out = String::new();
    push_zero_padded(&mut out, year, 4);
    proof {
        reveal_strlit("-");
        reveal_strlit("T");
        reveal_strlit(":");
    }
    out.append("-");
    push_zero_padded(&mut out, month, 2);
    out.append("-");
    push_zero_padded(&mut out, day, 2);
    out.append("T");
    push_zero_padded(&mut out, hour, 2);
    out.append(":");
    push_zero_padded(&mut out, min, 2);
    out.append(":");
    push_zero_padded(&mut out, sec, 2);
    assert(out@ =~= date_time_text(year as int, month as int, day as int, secs_of_day as nat));
    push_fraction(&mut out, nanos);
    proof {
        reveal_strlit("+00:00");
    }
    out.append("+00:00");
    out
}

/// Appends the fractional-seconds part for `nanos`.
fn push_fraction(out: &mut String, nanos: u32)
    ensures
        final(out)@ == old(out)@ + fraction_text(nanos as nat),
{
    if nanos != 0 {
        proof {
            reveal_strlit(".");
        }
        out.append(".");
        if nanos % 1_000_000 == 0 {
            push_zero_padded(out, (nanos / 1_000_000) as u64, 3);
        } else if nanos % 1_000 == 0 {
            push_zero_padded(out, (nanos / 1_000) as u64, 6);
        } else {
            push_zero_padded(out, nanos as u64, 9);
        }
    }
    assert(out@ =~= old(out)@ + fraction_text(nanos as nat));
}

/// A character that starts a UTC offset (`Z`, `+` or `-`).
pub open spec fn is_offset_start(c: char) -> bool {
    c == 'Z' || c == '+' || c == '-'
}

/// Index of the first offset-starting character of `t` (`t.len()` if none).
pub open spec fn offset_index(t: Seq<char>) -> int
    decreases t.len(),
{
    if t.len() == 0 {
        0
    } else if is_offset_start(t[0]) {
        0
    } else {
        1 + offset_index(t.drop_first())
    }
}

/// An empty fraction, or `.` followed by at least one digit.
pub open spec fn fraction_ok(f: Seq<char>) -> bool {
    f.len() == 0 || (f[0] == '.' && f.len() > 1 && all_digits(f.drop_first()))
}

/// No offset, `Z`, `+00:00` or `-00:00`.
pub open spec fn offset_ok(o: Seq<char>) -> bool {
    o.len() == 0 || o == seq!['Z'] || o == utc_suffix() || o == seq!['-', '0', '0', ':', '0', '0']
}

/// The fixed-width numeric fields of `YYYY-MM-DDThh:mm:ss` are ASCII
/// digits: four for the year, two for each other field.
pub open spec fn fields_are_digits(s: Seq<char>) -> bool {
    &&& all_digits(s.subrange(0, 4))
    &&& all_digits(s.subrange(5, 7))
    &&& all_digits(s.subrange(8, 10))
    &&& all_digits(s.subrange(11, 13))
    &&& all_digits(s.subrange(14, 16))
    &&& all_digits(s.subrange(17, 19))
}

/// What `parse_rfc3339_unix` returns for the characters `s`: the Unix
/// seconds of a well-formed UTC timestamp on a real calendar date from
/// 1970 on, else `None`.
#[verifier::opaque]
pub open spec fn parse_rfc3339(s: Seq<char>) -> Option<nat> {
    if s.len() < 19 || s[4] != '-' || s[7] != '-' || (s[10] != 'T' && s[10] != ' ') || s[13] != ':'
        || s[16] != ':' || !fields_are_digits(s) {
        None
    } else {
        let year = digits_value(s.subrange(0, 4)) as int;
        let month = digits_value(s.subrange(5, 7)) as int;
        let day = digits_value(s.subrange(8, 10)) as int;
        let hour = digits_value(s.subrange(11, 13)) as int;
        let min = digits_value(s.subrange(14, 16)) as int;
        let sec = digits_value(s.subrange(17, 19)) as int;
        let rest = s.subrange(19, s.len() as int);
        let i = offset_index(rest);
        if !valid_date(year, month, day) || hour > 23 || min > 59 || sec > 60 {
            None
        } else if !fraction_ok(rest.subrange(0, i)) || !offset_ok(
            rest.subrange(i, rest.len() as int),
        ) {
            None
        } else if epoch_days(year, month, day) < 0 {
            None
        } else {
            Some((epoch_days(year, month, day) * 86400 + hour * 3600 + min * 60 + sec) as nat)
        }
    }
}

/// Number of days in month `month` (1..=12) of year `year`.
fn days_in_month(year: u64, month: u64) -> (n: u64)
    requires
        1 <= month <= 12,
    ensures
        n == month_len(year as int, month as int),
{
    if month == 2 {
        if year % 4 == 0 && (year % 100 != 0 || year % 400 == 0) {
            29
        } else {
            28
        }
    } else if month == 4 || month == 6 || month == 9 || month == 11 {
        30
    } else {
        31
    }
}

/// Parse an RFC 3339 UTC timestamp back to Unix seconds (inverse of
/// [`format_rfc3339`], fractional seconds truncated). Accepts `Z` or
/// `+00:00` offsets and the `T`/space separator; returns `None` for
/// malformed input (a date or time field that is not exactly four, or two,
/// ASCII digits, a field out of range, or a day its month does not have),
/// non-UTC offsets, or pre-1970 dates.
///
/// Every string holding a non-ASCII character is malformed, so reading the
/// fixed positions by character or by byte gives the same answer.
pub fn parse_rfc3339_unix(s: &str) -> (r: Option<u64>)
    ensures
        r matches Some(v) ==> parse_rfc3339(s@) == Some(v as nat),
        r is None ==> parse_rfc3339(s@) is None,
{
    reveal(parse_rfc3339);
    let n = s.unicode_len();
    if n < 19 {
        return None;
    }
    if s.get_char(4) != '-' || s.get_char(7) != '-' || (s.get_char(10) != 'T' && s.get_char(10)
        != ' ') || s.get_char(13) != ':' || s.get_char(16) != ':' {
        return None;
    }
    let year = match read_digits(s, 0, 4) {
        Some(v) => v,
        None => return None,
    };
    let month = match read_digits(s, 5, 7) {
        Some(v) => v,
        None => return None,
    };
    let day = match read_digits(s, 8, 10) {
        Some(v) => v,
        None => return None,
    };
    let hour = match read_digits(s, 11, 13) {
        Some(v) => v,
        None => return None,
    };
    let min = match read_digits(s, 14, 16) {
        Some(v) => v,
        None => return None,
    };
    let sec = match read_digits(s, 17, 19) {
        Some(v) => v,
        None => return None,
    };
    if !(1 <= month && month <= 12) {
        return None;
    }
    if !(1 <= day && day <= days_in_month(year, month)) || hour > 23 || min > 59 || sec > 60 {
        return None;
    }
    if !suffix_ok(s, n) {
        return None;
    }
    let days = days_from_civil(year as i64, month as i64, day as i64);
    if days < 0 {
        return None;
    }
    Some(days as u64 * 86_400 + hour as u64 * 3_600 + min as u64 * 60 + sec as u64)
}

/// Hinnant's `days_from_civil`: days from 1970-01-01 to `year-month-day`.
pub fn days_from_civil(year: i64, month: i64, day: i64) -> (days: i64)
    requires
        -9999 <= year <= 9999,
        1 <= month <= 12,
        1 <= day <= 31,
    ensures
        days == epoch_days(year as int, month as int, day as int),
{
    let y = year - if month <= 2 {
        1
    } else {
        0
    };
    // Euclidean quotient by 400, computed on a non-negative operand.
    let era = (y + 12_000) / 400 - 30;
    assert(era as int == (y as int) / 400) by {
        lemma_shifted_quotient(y as int);
    }
    let yoe = y - era * 400;
    let mp = (month + 9) % 12;
    let doy = (153 * mp + 2) / 5 + day - 1;
    let doe = yoe * 365 + yoe / 4 - yoe / 100 + doy;
    proof {
        lemma_hinnant_days(year as int, month as int, day as int);
        assert(hinnant_days(year as int, month as int, day as int) == era * 146_097 + doe - 719_468);
    }
    era * 146_097 + doe - 719_468
}

proof fn lemma_shifted_quotient(y: int)
    requires
        -10000 <= y <= 10000,
    ensures
        (y + 12000) / 400 - 30 == y / 400,
{
}

/// The part after the seconds field: an optional fraction, then an
/// optional UTC offset.
fn suffix_ok(s: &str, n: usize) -> (ok: bool)
    requires
        n == s@.len(),
        n >= 19,
    ensures
        ok == ({
            let rest = s@.subrange(19, s@.len() as int);
            let i = offset_index(rest);
            fraction_ok(rest.subrange(0, i)) && offset_ok(rest.subrange(i, rest.len() as int))
        }),
{
    let ghost rest = s@.subrange(19, n as int);
    let mut i: usize = 19;
    while i < n && !(s.get_char(i) == 'Z' || s.get_char(i) == '+' || s.get_char(i) == '-')
        invariant
            19 <= i <= n,
            n == s@.len(),
            rest == s@.subrange(19, n as int),
            offset_index(rest) == (i - 19) + offset_index(s@.subrange(i as int, n as int)),
            forall|k: int| 19 <= k < i ==> !is_offset_start(#[trigger] s@[k]),
        decreases n - i,
    {
        assert(s@.subrange(i as int, n as int).drop_first() =~= s@.subrange(i + 1, n as int));
        i = i + 1;
    }
    proof {
        if i < n {
            assert(s@.subrange(i as int, n as int)[0] == s@[i as int]);
        }
        assert(offset_index(rest) == i - 19);
    }
    let ghost frac = rest.subrange(0, i - 19);
    let ghost off = rest.subrange(i - 19, rest.len() as int);
    assert(frac =~= s@.subrange(19, i as int));
    assert(off =~= s@.subrange(i as int, n as int));
    // fraction: empty, or '.' and at least one digit
    let mut frac_ok = true;
    if i > 19 {
        if s.get_char(19) != '.' || i - 19 < 2 {
            frac_ok = false;
        } else {
            let mut k: usize = 20;
            while k < i
                invariant
                    20 <= k <= i <= n,
                    n == s@.len(),
                    frac == s@.subrange(19, i as int),
                    frac_ok == all_digits(s@.subrange(20, k as int)),
                decreases i - k,
            {
                let cu = s.get_char(k) as u32;
                let digit = 48 <= cu && cu <= 57;
                proof {
                    let p = s@.subrange(20, k + 1);
                    assert(p.drop_last() =~= s@.subrange(20, k as int));
                    assert(p[p.len() - 1] == s@[k as int]);
                    if frac_ok && digit {
                        assert forall|j: int| 0 <= j < p.len() implies is_digit(#[trigger] p[j]) by {
                            if j < p.len() - 1 {
                                assert(p[j] == s@.subrange(20, k as int)[j]);
                            }
                        }
                    }
                    if !all_digits(s@.subrange(20, k as int)) {
                        let j = choose|j: int|
                            0 <= j < k - 20 && !is_digit(#[trigger] s@.subrange(20, k as int)[j]);
                        assert(p[j] == s@.subrange(20, k as int)[j]);
                    }
                }
                frac_ok = frac_ok && digit;
                k = k + 1;
            }
            assert(frac.drop_first() =~= s@.subrange(20, i as int));
        }
    }
    assert(frac_ok == fraction_ok(frac));
    // offset: empty, "Z", "+00:00" or "-00:00"
    let m = n - i;
    let off_ok = if m == 0 {
        true
    } else if m == 1 {
        s.get_char(i) == 'Z'
    } else if m == 6 {
        (s.get_char(i) == '+' || s.get_char(i) == '-') && s.get_char(i + 1) == '0' && s.get_char(
            i + 2,
        ) == '0' && s.get_char(i + 3) == ':' && s.get_char(i + 4) == '0' && s.get_char(i + 5)
            == '0'
    } else {
        false
    };
    proof {
        if m == 1 && off_ok {
            assert(off =~= seq!['Z']);
        }
        if m == 6 && off_ok {
            if s@[i as int] == '+' {
                assert(off =~= utc_suffix());
            } else {
                assert(off =~= seq!['-', '0', '0', ':', '0', '0']);
            }
        }
        if m == 1 && !off_ok {
            assert(off[0] != 'Z');
        }
        if m == 6 && !off_ok {
            assert(off[0] == s@[i as int]);
            assert(off[1] == s@[i + 1]);
            assert(off[2] == s@[i + 2]);
            assert(off[3] == s@[i + 3]);
            assert(off[4] == s@[i + 4]);
            assert(off[5] == s@[i + 5]);
        }
    }
    frac_ok && off_ok
}

/// The last second whose timestamp still has a four-digit year
/// (9999-12-31T23:59:59Z).
pub open spec fn last_four_digit_year_second() -> nat {
    253_402_300_799
}

proof fn lemma_offset_index_skips(a: Seq<char>, b: Seq<char>)
    requires
        forall|k: int| 0 <= k < a.len() ==> !is_offset_start(#[trigger] a[k]),
    ensures
        offset_index(a + b) == a.len() + offset_index(b),
    decreases a.len(),
{
    if a.len() == 0 {
        assert(a + b =~= b);
    } else {
        assert((a + b).drop_first() =~= a.drop_first() + b);
        assert((a + b)[0] == a[0]);
        assert forall|k: int| 0 <= k < a.drop_first().len() implies !is_offset_start(
            #[trigger] a.drop_first()[k],
        ) by {
            assert(a.drop_first()[k] == a[k + 1]);
        }
        lemma_offset_index_skips(a.drop_first(), b);
    }
}

proof fn lemma_fraction_text(nanos: nat)
    ensures
        fraction_ok(fraction_text(nanos)),
        forall|k: int|
            0 <= k < fraction_text(nanos).len() ==> !is_offset_start(
                #[trigger] fraction_text(nanos)[k],
            ),
{
    let f = fraction_text(nanos);
    if nanos != 0 {
        let digits = if nanos % 1_000_000 == 0 {
            zero_pad(dec(nanos / 1_000_000), 3)
        } else if nanos % 1_000 == 0 {
            zero_pad(dec(nanos / 1_000), 6)
        } else {
            zero_pad(dec(nanos), 9)
        };
        lemma_zero_pad_dec(nanos / 1_000_000, 3);
        lemma_zero_pad_dec(nanos / 1_000, 6);
        lemma_zero_pad_dec(nanos, 9);
        assert(f =~= seq!['.'] + digits);
        assert(f.drop_first() =~= digits);
        assert forall|k: int| 0 <= k < f.len() implies !is_offset_start(#[trigger] f[k]) by {
            if k > 0 {
                assert(f[k] == digits[k - 1]);
                assert(is_digit(digits[k - 1]));
            }
        }
    }
}

/// Years of the instants that have four-digit RFC 3339 years.
proof fn lemma_four_digit_year(days: int)
    requires
        0 <= days <= 2_932_896,
    ensures
        1970 <= civil_of(days).0 <= 9999,
{
    lemma_civil_of(days);
    let (y, m, d) = civil_of(days);
    lemma_date_in_year(y, m, d);
    if y < 1970 {
        lemma_days_before_year_monotone(y + 1, 1970);
    }
    if y > 9999 {
        lemma_days_before_year_monotone(10000, y);
    }
}

/// The fixed-width head `YYYY-MM-DDThh:mm:ss` reads back field by field.
proof fn lemma_date_time_text(y: int, m: int, d: int, sod: nat)
    requires
        1000 <= y <= 9999,
        1 <= m <= 12,
        1 <= d <= 31,
        sod < 86400,
    ensures
        ({
            let h = date_time_text(y, m, d, sod);
            &&& h.len() == 19
            &&& h[4] == '-' && h[7] == '-' && h[10] == 'T' && h[13] == ':' && h[16] == ':'
            &&& fields_are_digits(h)
            &&& digits_value(h.subrange(0, 4)) == y
            &&& digits_value(h.subrange(5, 7)) == m
            &&& digits_value(h.subrange(8, 10)) == d
            &&& digits_value(h.subrange(11, 13)) == sod / 3600
            &&& digits_value(h.subrange(14, 16)) == sod % 3600 / 60
            &&& digits_value(h.subrange(17, 19)) == sod % 60
        }),
{
    let yt = zero_pad(dec(y as nat), 4);
    let mt = two_digits(m);
    let dt = two_digits(d);
    let ht = two_digits((sod / 3600) as int);
    let nt = two_digits((sod % 3600 / 60) as int);
    let st = two_digits((sod % 60) as int);
    lemma_dec_digits(y as nat);
    lemma_zero_pad_dec(y as nat, 4);
    lemma_dec_digits(m as nat);
    lemma_zero_pad_dec(m as nat, 2);
    lemma_dec_digits(d as nat);
    lemma_zero_pad_dec(d as nat, 2);
    lemma_dec_digits(sod / 3600);
    lemma_zero_pad_dec(sod / 3600, 2);
    lemma_dec_digits(sod % 3600 / 60);
    lemma_zero_pad_dec(sod % 3600 / 60, 2);
    lemma_dec_digits(sod % 60);
    lemma_zero_pad_dec(sod % 60, 2);
    let h = date_time_text(y, m, d, sod);
    assert(h.subrange(0, 4) =~= yt);
    assert(h.subrange(5, 7) =~= mt);
    assert(h.subrange(8, 10) =~= dt);
    assert(h.subrange(11, 13) =~= ht);
    assert(h.subrange(14, 16) =~= nt);
    assert(h.subrange(17, 19) =~= st);
}

/// When every piece of a timestamp reads correctly, `parse_rfc3339` adds
/// them up.
#[verifier::spinoff_prover]
proof fn lemma_parse_accepts(
    t: Seq<char>,
    y: int,
    m: int,
    d: int,
    h: int,
    mi: int,
    sec: int,
    i: int,
)
    requires
        t.len() >= 19,
        t[4] == '-' && t[7] == '-' && t[10] == 'T' && t[13] == ':' && t[16] == ':',
        fields_are_digits(t),
        digits_value(t.subrange(0, 4)) == y,
        digits_value(t.subrange(5, 7)) == m,
        digits_value(t.subrange(8, 10)) == d,
        digits_value(t.subrange(11, 13)) == h,
        digits_value(t.subrange(14, 16)) == mi,
        digits_value(t.subrange(17, 19)) == sec,
        valid_date(y, m, d),
        0 <= h <= 23,
        0 <= mi <= 59,
        0 <= sec <= 60,
        offset_index(t.subrange(19, t.len() as int)) == i,
        fraction_ok(t.subrange(19, t.len() as int).subrange(0, i)),
        offset_ok(t.subrange(19, t.len() as int).subrange(i, t.len() - 19)),
        epoch_days(y, m, d) >= 0,
    ensures
        parse_rfc3339(t) == Some((epoch_days(y, m, d) * 86400 + h * 3600 + mi * 60 + sec) as nat),
{
    reveal(parse_rfc3339);
}

/// The characters of `head + tail` within `head` are those of `head`.
proof fn lemma_head_of_concat(head: Seq<char>, tail: Seq<char>)
    requires
        head.len() == 19,
    ensures
        ({
            let t = head + tail;
            &&& t.len() >= 19
            &&& t[4] == head[4] && t[7] == head[7] && t[10] == head[10] && t[13] == head[13]
                && t[16] == head[16]
            &&& t.subrange(0, 4) == head.subrange(0, 4)
            &&& t.subrange(5, 7) == head.subrange(5, 7)
            &&& t.subrange(8, 10) == head.subrange(8, 10)
            &&& t.subrange(11, 13) == head.subrange(11, 13)
            &&& t.subrange(14, 16) == head.subrange(14, 16)
            &&& t.subrange(17, 19) == head.subrange(17, 19)
            &&& t.subrange(19, t.len() as int) == tail
        }),
{
    let t = head + tail;
    assert(t.subrange(0, 4) =~= head.subrange(0, 4));
    assert(t.subrange(5, 7) =~= head.subrange(5, 7));
    assert(t.subrange(8, 10) =~= head.subrange(8, 10));
    assert(t.subrange(11, 13) =~= head.subrange(11, 13));
    assert(t.subrange(14, 16) =~= head.subrange(14, 16));
    assert(t.subrange(17, 19) =~= head.subrange(17, 19));
    assert(t.subrange(19, t.len() as int) =~= tail);
}

/// After the seconds: a fraction, then `+00:00`, both accepted.
proof fn lemma_fraction_and_offset(nanos: nat)
    ensures
        ({
            let f = fraction_text(nanos);
            let rest = f + utc_suffix();
            &&& offset_index(rest) == f.len()
            &&& fraction_ok(rest.subrange(0, f.len() as int))
            &&& offset_ok(rest.subrange(f.len() as int, rest.len() as int))
        }),
{
    let f = fraction_text(nanos);
    let rest = f + utc_suffix();
    lemma_fraction_text(nanos);
    lemma_offset_index_skips(f, utc_suffix());
    assert(offset_index(utc_suffix()) == 0);
    assert(rest.subrange(0, f.len() as int) =~= f);
    assert(rest.subrange(f.len() as int, rest.len() as int) =~= utc_suffix());
}

/// A head `YYYY-MM-DDThh:mm:ss` followed by a fraction and `+00:00` parses.
#[verifier::spinoff_prover]
proof fn lemma_parse_head_tail(y: int, m: int, d: int, sod: nat, nanos: nat)
    requires
        1970 <= y <= 9999,
        valid_date(y, m, d),
        sod < 86400,
    ensures
        parse_rfc3339(date_time_text(y, m, d, sod) + (fraction_text(nanos) + utc_suffix()))
            == Some((epoch_days(y, m, d) * 86400 + sod) as nat) || epoch_days(y, m, d) < 0,
{
    let head = date_time_text(y, m, d, sod);
    lemma_date_time_text(y, m, d, sod);
    let f = fraction_text(nanos);
    let tail = f + utc_suffix();
    lemma_head_of_concat(head, tail);
    lemma_fraction_and_offset(nanos);
    let t = head + tail;
    if epoch_days(y, m, d) >= 0 {
        lemma_parse_accepts(
            t,
            y,
            m,
            d,
            (sod / 3600) as int,
            (sod % 3600 / 60) as int,
            (sod % 60) as int,
            f.len() as int,
        );
        assert((sod / 3600) * 3600 + (sod % 3600 / 60) * 60 + sod % 60 == sod);
    }
}

/// Parsing undoes formatting: for every instant up to the end of year 9999
/// and every nanosecond field, `parse_rfc3339_unix(format_rfc3339(s, n))`
/// is `Some(s)`.
#[verifier::spinoff_prover]
pub proof fn lemma_parse_inverts_format(secs: nat, nanos: nat)
    requires
        secs <= last_four_digit_year_second(),
    ensures
        parse_rfc3339(rfc3339_text(secs, nanos)) == Some(secs),
{
    let days = (secs / 86400) as int;
    let sod = secs % 86400;
    lemma_civil_of(days);
    lemma_four_digit_year(days);
    let (y, m, d) = civil_of(days);
    lemma_parse_head_tail(y, m, d, sod, nanos);
    assert(rfc3339_text(secs, nanos) =~= date_time_text(y, m, d, sod) + (fraction_text(nanos)
        + utc_suffix()));
}

/// Past the year 9999 the year takes five or more digits, and the text no
/// longer parses.
pub proof fn lemma_parse_rejects_five_digit_years(secs: nat, nanos: nat)
    requires
        secs > last_four_digit_year_second(),
    ensures
        parse_rfc3339(rfc3339_text(secs, nanos)) is None,
{
    let days = (secs / 86400) as int;
    lemma_civil_of(days);
    let (y, m, d) = civil_of(days);
    lemma_date_in_year(y, m, d);
    if y <= 9999 {
        lemma_days_before_year_monotone(y + 1, 10000);
    }
    assert(y >= 10000);
    lemma_dec_digits(y as nat);
    let yt = zero_pad(dec(y as nat), 4);
    assert(yt == dec(y as nat));
    let t = rfc3339_text(secs, nanos);
    assert(t[4] == yt[4]);
    assert(is_digit(yt[4]));
    reveal(parse_rfc3339);
}

/// The calendar day after `y-m-d`.
pub open spec fn next_date(y: int, m: int, d: int) -> (int, int, int) {
    if d < month_len(y, m) {
        (y, m, d + 1)
    } else if m < 12 {
        (y, m + 1, 1)
    } else {
        (y + 1, 1, 1)
    }
}

proof fn lemma_next_date(y: int, m: int, d: int)
    requires
        valid_date(y, m, d),
    ensures
        valid_date(next_date(y, m, d).0, next_date(y, m, d).1, next_date(y, m, d).2),
        epoch_days(next_date(y, m, d).0, next_date(y, m, d).1, next_date(y, m, d).2)
            == epoch_days(y, m, d) + 1,
{
    lemma_leap_step(y);
}

/// Consecutive day counts give consecutive calendar dates: the date of day
/// `days + 1` is the calendar day after the date of day `days`.
pub proof fn lemma_dates_advance_by_one_day(days: int)
    requires
        days >= 0,
    ensures
        civil_of(days + 1) == next_date(civil_of(days).0, civil_of(days).1, civil_of(days).2),
{
    lemma_civil_of(days);
    lemma_civil_of(days + 1);
    let (y, m, d) = civil_of(days);
    lemma_next_date(y, m, d);
    let n = next_date(y, m, d);
    let c = civil_of(days + 1);
    lemma_epoch_days_injective(c.0, c.1, c.2, n.0, n.1, n.2);
}

/// February 29 only ever falls in a leap year.
pub proof fn lemma_leap_day_only_in_leap_years(days: int)
    requires
        days >= 0,
        civil_of(days).1 == 2,
        civil_of(days).2 == 29,
    ensures
        is_leap(civil_of(days).0),
{
    lemma_civil_of(days);
}

/// `a` sorts before `b` as text: at the first position where the two
/// differ, `a` has the smaller character.
pub open spec fn text_before(a: Seq<char>, b: Seq<char>) -> bool {
    exists|i: int|
        #![trigger a[i], b[i]]
        0 <= i < a.len() && i < b.len() && (forall|k: int|
            0 <= k < i ==> (a[k] as u32) == (b[k] as u32)) && (a[i] as u32) < (b[i] as u32)
}

/// The two texts hold the same character codes.
pub open spec fn same_codes(a: Seq<char>, b: Seq<char>) -> bool {
    a.len() == b.len() && forall|k: int| 0 <= k < a.len() ==> (a[k] as u32) == (b[k] as u32)
}

/// `YYYY-MM-DD` for a calendar date.
pub open spec fn date_text(y: int, m: int, d: int) -> Seq<char> {
    zero_pad(dec(y as nat), 4) + seq!['-'] + two_digits(m) + seq!['-'] + two_digits(d)
}

proof fn lemma_digits_injective(x: Seq<char>, y: Seq<char>)
    requires
        x.len() == y.len(),
        all_digits(x),
        all_digits(y),
        digits_value(x) == digits_value(y),
    ensures
        same_codes(x, y),
    decreases x.len(),
{
    if x.len() > 0 {
        let xs = x.drop_last();
        let ys = y.drop_last();
        assert(is_digit(x[x.len() - 1]) && is_digit(y[y.len() - 1]));
        assert forall|i: int| 0 <= i < xs.len() implies is_digit(#[trigger] xs[i]) by {
            assert(xs[i] == x[i]);
        }
        assert forall|i: int| 0 <= i < ys.len() implies is_digit(#[trigger] ys[i]) by {
            assert(ys[i] == y[i]);
        }
        lemma_digits_injective(xs, ys);
        assert forall|k: int| 0 <= k < x.len() implies (x[k] as u32) == (y[k] as u32) by {
            if k < x.len() - 1 {
                assert(xs[k] == x[k] && ys[k] == y[k]);
            }
        }
    }
}

/// Among digit strings of one length, the smaller number sorts first.
proof fn lemma_digits_order(x: Seq<char>, y: Seq<char>)
    requires
        x.len() == y.len(),
        all_digits(x),
        all_digits(y),
        digits_value(x) < digits_value(y),
    ensures
        text_before(x, y),
    decreases x.len(),
{
    let n = x.len() as int;
    let xs = x.drop_last();
    let ys = y.drop_last();
    assert(n > 0);
    assert(is_digit(x[n - 1]) && is_digit(y[n - 1]));
    assert forall|i: int| 0 <= i < xs.len() implies is_digit(#[trigger] xs[i]) by {
        assert(xs[i] == x[i]);
    }
    assert forall|i: int| 0 <= i < ys.len() implies is_digit(#[trigger] ys[i]) by {
        assert(ys[i] == y[i]);
    }
    if digits_value(xs) < digits_value(ys) {
        lemma_digits_order(xs, ys);
        let i = choose|i: int|
            #![trigger xs[i], ys[i]]
            0 <= i < xs.len() && i < ys.len() && (forall|k: int|
                0 <= k < i ==> (xs[k] as u32) == (ys[k] as u32)) && (xs[i] as u32) < (ys[i] as u32);
        assert(x[i] == xs[i] && y[i] == ys[i]);
        assert forall|k: int| 0 <= k < i implies (x[k] as u32) == (y[k] as u32) by {
            assert(x[k] == xs[k] && y[k] == ys[k]);
        }
    } else if digits_value(xs) == digits_value(ys) {
        lemma_digits_injective(xs, ys);
        assert forall|k: int| 0 <= k < n - 1 implies (x[k] as u32) == (y[k] as u32) by {
            assert(x[k] == xs[k] && y[k] == ys[k]);
        }
        assert(x[n - 1] == x.last() && y[n - 1] == y.last());
    } else {
        assert(false);
    }
}

/// Texts of equal length sort as their first differing position says,
/// whatever follows; texts with the same codes leave the order to what
/// follows.
proof fn lemma_text_before_concat(a: Seq<char>, b: Seq<char>, c: Seq<char>, e: Seq<char>)
    requires
        a.len() == b.len(),
        text_before(a, b) || (same_codes(a, b) && text_before(c, e)),
    ensures
        text_before(a + c, b + e),
{
    if text_before(a, b) {
        let i = choose|i: int|
            #![trigger a[i], b[i]]
            0 <= i < a.len() && i < b.len() && (forall|k: int|
                0 <= k < i ==> (a[k] as u32) == (b[k] as u32)) && (a[i] as u32) < (b[i] as u32);
        assert((a + c)[i] == a[i] && (b + e)[i] == b[i]);
        assert forall|k: int| 0 <= k < i implies ((a + c)[k] as u32) == ((b + e)[k] as u32) by {
            assert((a + c)[k] == a[k] && (b + e)[k] == b[k]);
        }
    } else {
        let i = choose|i: int|
            #![trigger c[i], e[i]]
            0 <= i < c.len() && i < e.len() && (forall|k: int|
                0 <= k < i ==> (c[k] as u32) == (e[k] as u32)) && (c[i] as u32) < (e[i] as u32);
        let j = a.len() + i;
        assert((a + c)[j] == c[i] && (b + e)[j] == e[i]);
        assert forall|k: int| 0 <= k < j implies ((a + c)[k] as u32) == ((b + e)[k] as u32) by {
            if k < a.len() {
                assert((a + c)[k] == a[k] && (b + e)[k] == b[k]);
            } else {
                assert((a + c)[k] == c[k - a.len()] && (b + e)[k] == e[k - a.len()]);
            }
        }
    }
}

/// A date text has the year, month and day as fixed-width digit fields.
proof fn lemma_date_text(y: int, m: int, d: int)
    requires
        1000 <= y <= 9999,
        1 <= m <= 12,
        1 <= d <= 31,
    ensures
        ({
            let t = date_text(y, m, d);
            &&& t.len() == 10
            &&& t.subrange(0, 4) == zero_pad(dec(y as nat), 4)
            &&& t.subrange(4, 10) == seq!['-'] + two_digits(m) + seq!['-'] + two_digits(d)
            &&& t.subrange(5, 7) == two_digits(m)
            &&& t.subrange(8, 10) == two_digits(d)
            &&& all_digits(t.subrange(0, 4)) && digits_value(t.subrange(0, 4)) == y
            &&& all_digits(t.subrange(5, 7)) && digits_value(t.subrange(5, 7)) == m
            &&& all_digits(t.subrange(8, 10)) && digits_value(t.subrange(8, 10)) == d
            &&& two_digits(m).len() == 2 && two_digits(d).len() == 2
        }),
{
    lemma_dec_digits(y as nat);
    lemma_zero_pad_dec(y as nat, 4);
    lemma_dec_digits(m as nat);
    lemma_zero_pad_dec(m as nat, 2);
    lemma_dec_digits(d as nat);
    lemma_zero_pad_dec(d as nat, 2);
    let t = date_text(y, m, d);
    assert(t.subrange(0, 4) =~= zero_pad(dec(y as nat), 4));
    assert(t.subrange(4, 10) =~= seq!['-'] + two_digits(m) + seq!['-'] + two_digits(d));
    assert(t.subrange(5, 7) =~= two_digits(m));
    assert(t.subrange(8, 10) =~= two_digits(d));
}

/// The next calendar date's text sorts after the date's own.
proof fn lemma_next_date_text_later(y: int, m: int, d: int)
    requires
        1000 <= y,
        next_date(y, m, d).0 <= 9999,
        valid_date(y, m, d),
    ensures
        text_before(
            date_text(y, m, d),
            date_text(next_date(y, m, d).0, next_date(y, m, d).1, next_date(y, m, d).2),
        ),
{
    lemma_next_date(y, m, d);
    let (y2, m2, d2) = next_date(y, m, d);
    lemma_date_text(y, m, d);
    lemma_date_text(y2, m2, d2);
    let a = date_text(y, m, d);
    let b = date_text(y2, m2, d2);
    assert(a =~= a.subrange(0, 4) + a.subrange(4, 10));
    assert(b =~= b.subrange(0, 4) + b.subrange(4, 10));
    if y2 > y {
        lemma_digits_order(a.subrange(0, 4), b.subrange(0, 4));
        lemma_text_before_concat(a.subrange(0, 4), b.subrange(0, 4), a.subrange(4, 10), b.subrange(4, 10));
    } else {
        let am = a.subrange(4, 10);
        let bm = b.subrange(4, 10);
        assert(am =~= seq!['-'] + two_digits(m) + (seq!['-'] + two_digits(d)));
        assert(bm =~= seq!['-'] + two_digits(m2) + (seq!['-'] + two_digits(d2)));
        assert(seq!['-'] + two_digits(m) =~= (seq!['-'] + two_digits(m)).subrange(0, 3));
        if m2 > m {
            lemma_digits_order(two_digits(m), two_digits(m2));
            lemma_text_before_concat(seq!['-'], seq!['-'], two_digits(m), two_digits(m2));
            lemma_text_before_concat(
                seq!['-'] + two_digits(m),
                seq!['-'] + two_digits(m2),
                seq!['-'] + two_digits(d),
                seq!['-'] + two_digits(d2),
            );
        } else {
            lemma_digits_order(two_digits(d), two_digits(d2));
            lemma_text_before_concat(seq!['-'], seq!['-'], two_digits(d), two_digits(d2));
            lemma_text_before_concat(
                seq!['-'] + two_digits(m),
                seq!['-'] + two_digits(m2),
                seq!['-'] + two_digits(d),
                seq!['-'] + two_digits(d2),
            );
        }
        lemma_text_before_concat(a.subrange(0, 4), b.subrange(0, 4), am, bm);
    }
}

/// The timestamp of a midnight: the date text, then `T00:00:00+00:00`.
proof fn lemma_midnight_text(days: nat)
    requires
        days <= 2_932_896,
    ensures
        ({
            let (y, m, d) = civil_of(days as int);
            let t = rfc3339_text(days * 86400, 0);
            &&& 1970 <= y <= 9999
            &&& valid_date(y, m, d)
            &&& t == date_text(y, m, d) + "T00:00:00+00:00"@
            &&& t.subrange(0, 10) == date_text(y, m, d)
            &&& t.subrange(10, t.len() as int) == "T00:00:00+00:00"@
        }),
{
    reveal_strlit("T00:00:00+00:00");
    lemma_civil_of(days as int);
    lemma_four_digit_year(days as int);
    let (y, m, d) = civil_of(days as int);
    lemma_date_text(y, m, d);
    assert((days * 86400) / 86400 == days) by (nonlinear_arith);
    assert((days * 86400) % 86400 == 0) by (nonlinear_arith);
    lemma_dec_digits(0);
    assert(dec(0) =~= seq!['0']);
    assert(two_digits(0) =~= seq!['0', '0']);
    let t = rfc3339_text(days * 86400, 0);
    assert(fraction_text(0) =~= Seq::<char>::empty());
    assert(t =~= date_text(y, m, d) + "T00:00:00+00:00"@);
    assert(t.subrange(0, 10) =~= date_text(y, m, d));
    assert(t.subrange(10, t.len() as int) =~= "T00:00:00+00:00"@);
}

/// Midnight timestamps roll over day by day: the one of day `days` reads
/// `YYYY-MM-DDT00:00:00+00:00` with a real month and day, and the next
/// midnight carries the next calendar date, whose text sorts after it.
#[verifier::spinoff_prover]
#[verifier::rlimit(100)]
pub proof fn lemma_midnights_roll_over(days: nat)
    requires
        (days + 1) * 86400 <= last_four_digit_year_second(),
    ensures
        ({
            let t = rfc3339_text(days * 86400, 0);
            let u = rfc3339_text((days + 1) * 86400, 0);
            let y = digits_value(t.subrange(0, 4)) as int;
            let m = digits_value(t.subrange(5, 7)) as int;
            let d = digits_value(t.subrange(8, 10)) as int;
            &&& t.subrange(10, t.len() as int) == "T00:00:00+00:00"@
            &&& all_digits(t.subrange(0, 4)) && all_digits(t.subrange(5, 7)) && all_digits(
                t.subrange(8, 10),
            )
            &&& valid_date(y, m, d)
            &&& (digits_value(u.subrange(0, 4)) as int, digits_value(u.subrange(5, 7)) as int,
            digits_value(u.subrange(8, 10)) as int) == next_date(y, m, d)
            &&& text_before(t.subrange(0, 10), u.subrange(0, 10))
        }),
{
    assert(days + 1 <= 2_932_896) by (nonlinear_arith)
        requires
            (days + 1) * 86400 <= 253_402_300_799,
    ;
    lemma_midnight_text(days);
    lemma_midnight_text(days + 1);
    lemma_dates_advance_by_one_day(days as int);
    let (y, m, d) = civil_of(days as int);
    let (y2, m2, d2) = civil_of(days + 1int);
    lemma_date_text(y, m, d);
    lemma_date_text(y2, m2, d2);
    lemma_next_date_text_later(y, m, d);
    let t = rfc3339_text(days * 86400, 0);
    let u = rfc3339_text((days + 1) * 86400, 0);
    let a = date_text(y, m, d);
    let b = date_text(y2, m2, d2);
    assert(t.subrange(0, 10) == a);
    assert(u.subrange(0, 10) == b);
    assert(t.subrange(0, 4) =~= a.subrange(0, 4));
    assert(t.subrange(5, 7) =~= a.subrange(5, 7));
    assert(t.subrange(8, 10) =~= a.subrange(8, 10));
    assert(u.subrange(0, 4) =~= b.subrange(0, 4));
    assert(u.subrange(5, 7) =~= b.subrange(5, 7));
    assert(u.subrange(8, 10) =~= b.subrange(8, 10));
    assert((y2, m2, d2) == next_date(y, m, d));
}

/// A formatted timestamp dated February 29 has a leap year in its year
/// field.
#[verifier::spinoff_prover]
#[verifier::rlimit(100)]
pub proof fn lemma_formatted_leap_day_in_leap_year(secs: nat, nanos: nat)
    requires
        secs <= last_four_digit_year_second(),
    ensures
        rfc3339_text(secs, nanos).subrange(5, 10) == "02-29"@ ==> is_leap(
            digits_value(rfc3339_text(secs, nanos).subrange(0, 4)) as int,
        ),
{
    reveal_strlit("02-29");
    let days = (secs / 86400) as int;
    lemma_civil_of(days);
    lemma_four_digit_year(days);
    let (y, m, d) = civil_of(days);
    lemma_date_time_text(y, m, d, secs % 86400);
    let t = rfc3339_text(secs, nanos);
    let h = date_time_text(y, m, d, secs % 86400);
    assert(t.subrange(0, 19) =~= h);
    assert(t.subrange(0, 4) =~= h.subrange(0, 4));
    assert(t.subrange(5, 7) =~= h.subrange(5, 7));
    assert(t.subrange(8, 10) =~= h.subrange(8, 10));
    if t.subrange(5, 10) == "02-29"@ {
        assert(t.subrange(5, 7) =~= t.subrange(5, 10).subrange(0, 2));
        assert(t.subrange(8, 10) =~= t.subrange(5, 10).subrange(3, 5));
        reveal_with_fuel(dec, 3);
        lemma_zero_pad_dec(2, 2);
        lemma_zero_pad_dec(29, 2);
        assert(two_digits(2) =~= seq!['0', '2']);
        assert(two_digits(29) =~= seq!['2', '9']);
        assert(t.subrange(5, 7) =~= two_digits(2));
        assert(t.subrange(8, 10) =~= two_digits(29));
        lemma_leap_day_only_in_leap_years(days);
    }
}

/// February 29 occurs in the formatted calendar: midnight of day 11016 is
/// 2000-02-29 and midnight of day 19782 is 2024-02-29.
pub proof fn lemma_leap_days_of_2000_and_2024()
    ensures
        rfc3339_text(11016 * 86400, 0).subrange(0, 10) == "2000-02-29"@,
        rfc3339_text(19782 * 86400, 0).subrange(0, 10) == "2024-02-29"@,
{
    reveal_strlit("2000-02-29");
    reveal_strlit("2024-02-29");
    lemma_midnight_text(11016);
    lemma_midnight_text(19782);
    lemma_civil_of(11016);
    lemma_civil_of(19782);
    lemma_epoch_days_injective(civil_of(11016).0, civil_of(11016).1, civil_of(11016).2, 2000, 2, 29);
    lemma_epoch_days_injective(civil_of(19782).0, civil_of(19782).1, civil_of(19782).2, 2024, 2, 29);
    reveal_with_fuel(dec, 5);
    assert(zero_pad(dec(2000), 4) =~= seq!['2', '0', '0', '0']);
    assert(zero_pad(dec(2024), 4) =~= seq!['2', '0', '2', '4']);
    assert(two_digits(2) =~= seq!['0', '2']);
    assert(two_digits(29) =~= seq!['2', '9']);
    assert(date_text(2000, 2, 29) =~= "2000-02-29"@);
    assert(date_text(2024, 2, 29) =~= "2024-02-29"@);
}

/// `std::time::SystemTime`, the wall-clock reading; opaque here.
#[verifier::external_type_specification]
#[verifier::external_body]
pub struct ExSystemTime(std::time::SystemTime);

/// Calls `SystemTime::now()`. The reading depends on the moment of the
/// call, so nothing is stated of it.
#[verifier::external_body]
fn system_now() -> (t: std::time::SystemTime) {
    std::time::SystemTime::now()
}

/// Calls `SystemTime::duration_since(UNIX_EPOCH)` on `t`: the time elapsed
/// since the Unix epoch, `None` (the error, dropped) for a reading before
/// it. Nothing is stated of the duration, which is opaque here.
#[verifier::external_body]
fn since_unix_epoch(t: &std::time::SystemTime) -> (d: Option<std::time::Duration>) {
    t.duration_since(std::time::UNIX_EPOCH).ok()
}

/// Calls `Duration::as_secs`: the whole seconds of `d`. Nothing is stated,
/// as the duration is opaque here.
#[verifier::external_body]
fn whole_secs(d: &std::time::Duration) -> (secs: u64) {
    d.as_secs()
}

/// Calls `Duration::subsec_nanos`: the fractional part of `d` in
/// nanoseconds, which std documents to be less than one billion.
#[verifier::external_body]
fn fraction_nanos(d: &std::time::Duration) -> (nanos: u32)
    ensures
        nanos < 1_000_000_000,
{
    d.subsec_nanos()
}

/// The clock's reading: whole seconds and nanoseconds since the Unix
/// epoch, or `None` for a clock set before the epoch. The reading depends
/// on the moment of the call, so only the nanosecond bound is stated.
pub(crate) fn clock_reading() -> (r: Option<(u64, u32)>)
    ensures
        r matches Some(t) ==> t.1 < 1_000_000_000,
{
    let now = system_now();
    match since_unix_epoch(&now) {
        Some(d) => Some((whole_secs(&d), fraction_nanos(&d))),
        None => None,
    }
}

/// The RFC 3339 text of a clock reading; a clock before the epoch reads as
/// the epoch itself.
pub open spec fn reading_text(elapsed: Option<(u64, u32)>) -> Seq<char> {
    match elapsed {
        Some(t) => rfc3339_text(t.0 as nat, t.1 as nat),
        None => rfc3339_text(0, 0),
    }
}

/// The Unix second that a clock reading's RFC 3339 text parses back to:
/// the reading's seconds while its year has four digits, and 0 for a clock
/// before the epoch or past the year 9999.
pub open spec fn reading_second(elapsed: Option<(u64, u32)>) -> nat {
    match elapsed {
        Some(t) => if t.0 <= last_four_digit_year_second() {
            t.0 as nat
        } else {
            0
        },
        None => 0,
    }
}

/// Stamping a clock reading and parsing the stamp back (falling back to 0
/// where it does not parse) gives the reading's second: the seconds
/// themselves through the year 9999, the epoch for a clock before it.
pub proof fn lemma_reading_text_parses_to_its_second(elapsed: Option<(u64, u32)>)
    ensures
        match parse_rfc3339(reading_text(elapsed)) {
            Some(v) => v == reading_second(elapsed),
            None => reading_second(elapsed) == 0,
        },
{
    match elapsed {
        Some(t) => {
            if t.0 <= last_four_digit_year_second() {
                lemma_parse_inverts_format(t.0 as nat, t.1 as nat);
            } else {
                lemma_parse_rejects_five_digit_years(t.0 as nat, t.1 as nat);
            }
        },
        None => {
            lemma_parse_inverts_format(0, 0);
        },
    }
}

/// The text of the epoch: `1970-01-01T00:00:00+00:00`.
pub proof fn lemma_epoch_text()
    ensures
        rfc3339_text(0, 0) == "1970-01-01T00:00:00+00:00"@,
{
    reveal_strlit("1970-01-01T00:00:00+00:00");
    lemma_civil_of(0);
    lemma_epoch_days_injective(civil_of(0).0, civil_of(0).1, civil_of(0).2, 1970, 1, 1);
    assert(civil_of(0) == (1970int, 1int, 1int));
    reveal_with_fuel(dec, 5);
    assert(dec(1970) =~= seq!['1', '9', '7', '0']);
    assert(zero_pad(dec(1970), 4) =~= seq!['1', '9', '7', '0']);
    assert(dec(1) =~= seq!['1']);
    assert(two_digits(1) =~= seq!['0', '1']);
    assert(dec(0) =~= seq!['0']);
    assert(two_digits(0) =~= seq!['0', '0']);
    assert(rfc3339_text(0, 0) =~= "1970-01-01T00:00:00+00:00"@);
}

/// RFC 3339 text of a clock reading: `elapsed` is the time since the Unix
/// epoch as whole seconds and nanoseconds, or `None` for a clock set before
/// the epoch, which reads as the epoch, `1970-01-01T00:00:00+00:00`.
pub fn rfc3339_of_reading(elapsed: Option<(u64, u32)>) -> (s: String)
    ensures
        s@ == reading_text(elapsed),
{
    match elapsed {
        Some((secs, nanos)) => format_rfc3339(secs, nanos),
        None => format_rfc3339(0, 0),
    }
}

/// Current UTC time as an RFC 3339 string, e.g. `2026-07-10T18:22:03.123456+00:00`;
/// a clock set before the epoch gives `1970-01-01T00:00:00+00:00`.
pub fn now_rfc3339() -> (s: String)
    ensures
        exists|r: Option<(u64, u32)>|
            (r matches Some(t) ==> t.1 < 1_000_000_000) && s@ == #[trigger] reading_text(r),
        exists|secs: nat, nanos: nat| nanos < 1_000_000_000 && s@ == rfc3339_text(secs, nanos),
{
    let reading = clock_reading();
    let s = rfc3339_of_reading(reading);
    proof {
        match reading {
            Some(t) => assert(s@ == rfc3339_text(t.0 as nat, t.1 as nat)),
            None => assert(s@ == rfc3339_text(0, 0)),
        }
    }
    s
}

} // verus!
