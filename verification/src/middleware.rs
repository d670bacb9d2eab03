//! mTLS client identity: where the forwarded certificate subject comes
//! from, and the admin gate that `/ui` and `/fleet` sit behind.
use vstd::prelude::*;

use crate::json::{find_json_str, json_str_at};
use crate::text::{
    eq_ignore_case, eq_ignore_case_at, find_char, first_index_of, lemma_first_index_of,
    push_slice, trim, trim_bounds,
};

verus! {

/// The JSON pointer of the client certificate's subject DN inside the API
/// Gateway request context.
pub open spec fn subject_pointer() -> Seq<char> {
    seq![
        '/', 'i', 'd', 'e', 'n', 't', 'i', 't', 'y', '/', 'c', 'l', 'i', 'e', 'n', 't', 'C',
        'e', 'r', 't', '/', 's', 'u', 'b', 'j', 'e', 'c', 't', 'D', 'N'
    ]
}

/// The subject DN a request carries, given the text of its
/// `x-amzn-request-context` header and of its `x-ssl-client-subject-dn`
/// header (each `None` when absent or not visible ASCII).
pub open spec fn client_subject(
    request_context: Option<Seq<char>>,
    ssl_subject: Option<Seq<char>>,
) -> Option<Seq<char>> {
    match request_context {
        Some(ctx) if json_str_at(ctx, subject_pointer()) is Some => json_str_at(
            ctx,
            subject_pointer(),
        ),
        _ => ssl_subject,
    }
}

/// Extract the mTLS client certificate subject DN from the request headers.
///
/// Checks, in order:
/// 1. the `x-amzn-request-context` header (Lambda Web Adapter / API Gateway),
///    at `identity.clientCert.subjectDN`;
/// 2. the `x-ssl-client-subject-dn` header (nginx/Caddy reverse proxy);
/// 3. none (local dev, no mTLS).
pub fn extract_client_subject(request_context: Option<&str>, ssl_subject: Option<&str>) -> (r:
    Option<String>)
    ensures
        match r {
            Some(s) => client_subject(
                match request_context {
                    Some(t) => Some(t@),
                    None => None,
                },
                match ssl_subject {
                    Some(t) => Some(t@),
                    None => None,
                },
            ) == Some(s@),
            None => client_subject(
                match request_context {
                    Some(t) => Some(t@),
                    None => None,
                },
                match ssl_subject {
                    Some(t) => Some(t@),
                    None => None,
                },
            ) is None,
        },
{
    if let Some(ctx) = request_context {
        let pointer = "/identity/clientCert/subjectDN";
        proof {
            reveal_strlit("/identity/clientCert/subjectDN");
        }
        assert(pointer@ =~= subject_pointer());
        if let Some(subject) = find_json_str(ctx, pointer) {
            return Some(subject);
        }
    }
    match ssl_subject {
        Some(s) => Some(s.to_owned()),
        None => None,
    }
}

/// `s[a..b]` is one of the pieces that splitting `s` at `sep` yields.
pub open spec fn is_piece(s: Seq<char>, sep: char, a: int, b: int) -> bool {
    &&& 0 <= a <= b <= s.len()
    &&& (a == 0 || s[a - 1] == sep)
    &&& (b == s.len() || s[b] == sep)
    &&& forall|k: int| a <= k < b ==> s[k] != sep
}

/// A DN component that reads `OU=admin`, ignoring ASCII case and the white
/// space around the component, the key and the value.
pub open spec fn is_admin_component(c: Seq<char>) -> bool {
    let t = trim(c);
    let e = first_index_of(t, '=');
    let key = trim(t.subrange(0, e));
    let value = if e < t.len() {
        trim(t.subrange(e + 1, t.len() as int))
    } else {
        Seq::empty()
    };
    eq_ignore_case(key, seq!['O', 'U']) && eq_ignore_case(value, seq!['a', 'd', 'm', 'i', 'n'])
}

/// The DN has an `OU=admin` component.
pub open spec fn admin_dn(dn: Seq<char>) -> bool {
    exists|a: int, b: int| is_piece(dn, ',', a, b) && #[trigger] is_admin_component(dn.subrange(a, b))
}

fn admin_component_at(s: &str, a: usize, b: usize) -> (r: bool)
    requires
        a <= b <= s@.len(),
    ensures
        r == is_admin_component(s@.subrange(a as int, b as int)),
{
    let ghost c = s@.subrange(a as int, b as int);
    let (ta, tb) = trim_bounds(s, a, b);
    let ghost t = trim(c);
    assert(t == s@.subrange(ta as int, tb as int));
    let e = find_char(s, ta, tb, '=');
    let ghost ei = first_index_of(t, '=');
    assert(ei == e - ta);
    let (ka, kb) = trim_bounds(s, ta, e);
    assert(t.subrange(0, ei) =~= s@.subrange(ta as int, e as int));
    proof {
        reveal_strlit("OU");
        reveal_strlit("admin");
    }
    let key_ok = eq_ignore_case_at(s, ka, kb, "OU");
    assert(key_ok == eq_ignore_case(trim(t.subrange(0, ei)), seq!['O', 'U']));
    if !key_ok {
        return false;
    }
    if e < tb {
        let (va, vb) = trim_bounds(s, e + 1, tb);
        assert(t.subrange(ei + 1, t.len() as int) =~= s@.subrange(e + 1, tb as int));
        let value_ok = eq_ignore_case_at(s, va, vb, "admin");
        value_ok
    } else {
        assert(!eq_ignore_case(Seq::<char>::empty(), seq!['a', 'd', 'm', 'i', 'n']));
        false
    }
}

/// True when the DN has an `OU=admin` component. Component-wise parse, not a
/// substring test: `CN=OU=admin` or `CN=evil,OU=admins` must not pass.
pub fn is_admin_subject(dn: &str) -> (r: bool)
    ensures
        r == admin_dn(dn@),
{
    let n = dn.unicode_len();
    let mut start: usize = 0;
    loop
        invariant
            n == dn@.len(),
            start <= n,
            start == 0 || dn@[start - 1] == ',',
            forall|a: int, b: int|
                #![trigger is_piece(dn@, ',', a, b)]
                is_piece(dn@, ',', a, b) && a < start ==> !is_admin_component(dn@.subrange(a, b)),
        decreases n - start,
    {
        let end = find_char(dn, start, n, ',');
        proof {
            lemma_first_index_of(dn@.subrange(start as int, n as int), ',');
            assert forall|k: int| start <= k < end implies dn@[k] != ',' by {
                assert(dn@[k] == dn@.subrange(start as int, n as int)[k - start]);
            }
            if end < n {
                assert(dn@[end as int] == dn@.subrange(start as int, n as int)[end - start]);
            }
            assert(is_piece(dn@, ',', start as int, end as int));
        }
        if admin_component_at(dn, start, end) {
            return true;
        }
        proof {
            assert forall|a: int, b: int|
                #![trigger is_piece(dn@, ',', a, b)]
                is_piece(dn@, ',', a, b) && a < end + 1 implies !is_admin_component(
                dn@.subrange(a, b),
            ) by {
                if a >= start {
                    if a > start {
                        assert(dn@[a - 1] != ',');
                    }
                    assert(a == start);
                    if b < end {
                        assert(dn@[b] != ',');
                    }
                    if b > end {
                        assert(dn@[end as int] == ',');
                    }
                    assert(b == end);
                }
            }
        }
        if end == n {
            assert forall|a: int, b: int|
                #![trigger is_piece(dn@, ',', a, b)]
                is_piece(dn@, ',', a, b) implies !is_admin_component(dn@.subrange(a, b)) by {
                assert(a < end + 1);
            }
            return false;
        }
        start = end + 1;
    }
}

/// A control character (`char::is_control`: general category Cc).
pub open spec fn is_control(c: char) -> bool {
    (c as u32) <= 0x1F || (0x7F <= (c as u32) <= 0x9F)
}

/// Strip control characters (log-injection guard) before logging
/// user-influenced strings such as cert subjects and device ids.
pub fn sanitize_for_log(s: &str) -> (r: String)
    ensures
        r@ == log_text(s@),
{
    let n = s.unicode_len();
    let mut out = String::new();
    let mut i: usize = 0;
    while i < n
        invariant
            n == s@.len(),
            i <= n,
            out@ == s@.subrange(0, i as int).filter(|c: char| !is_control(c)),
        decreases n - i,
    {
        let c = s.get_char(i);
        let u = c as u32;
        proof {
            reveal(Seq::filter);
            assert(s@.subrange(0, i + 1).drop_last() =~= s@.subrange(0, i as int));
        }
        if !(u <= 0x1F || (0x7F <= u && u <= 0x9F)) {
            push_slice(&mut out, s, i, i + 1);
            assert(s@.subrange(i as int, i + 1) =~= seq![c]);
        }
        i = i + 1;
    }
    assert(s@.subrange(0, n as int) =~= s@);
    out
}

/// What `sanitize_for_log` keeps of `s`: its characters other than
/// control characters, in order.
pub open spec fn log_text(s: Seq<char>) -> Seq<char> {
    s.filter(|c: char| !is_control(c))
}

proof fn lemma_clean_text_is_kept(s: Seq<char>)
    requires
        forall|i: int| 0 <= i < s.len() ==> !is_control(#[trigger] s[i]),
    ensures
        log_text(s) == s,
    decreases s.len(),
{
    reveal(Seq::filter);
    if s.len() > 0 {
        lemma_clean_text_is_kept(s.drop_last());
        assert(s.drop_last().push(s.last()) =~= s);
    }
}

/// Sanitized text holds no control character, and sanitizing it again
/// changes nothing.
pub proof fn lemma_sanitize_is_idempotent(s: Seq<char>)
    ensures
        forall|i: int| 0 <= i < log_text(s).len() ==> !is_control(#[trigger] log_text(s)[i]),
        log_text(log_text(s)) == log_text(s),
{
    broadcast use vstd::seq_lib::group_filter_ensures;

    assert forall|i: int| 0 <= i < log_text(s).len() implies !is_control(
        #[trigger] log_text(s)[i],
    ) by {
        let p = |c: char| !is_control(c);
        assert(p(s.filter(p)[i]));
    }
    lemma_clean_text_is_kept(log_text(s));
}

/// Axum extractor for the mTLS client subject DN (`None` without one).
#[derive(Debug)]
pub struct ClientSubject(pub Option<String>);

/// Why the admin gate turns a request away, if it does: `None` lets the
/// request through.
pub open spec fn admin_denial_spec(subject: Option<Seq<char>>) -> Option<Seq<char>> {
    match subject {
        Some(dn) => if admin_dn(dn) {
            None
        } else {
            Some(
                seq![
                    'a', 'd', 'm', 'i', 'n', ' ', 'c', 'e', 'r', 't', 'i', 'f', 'i', 'c', 'a',
                    't', 'e', ' ', 'r', 'e', 'q', 'u', 'i', 'r', 'e', 'd'
                ],
            )
        },
        None => Some(
            seq![
                'c', 'l', 'i', 'e', 'n', 't', ' ', 'c', 'e', 'r', 't', 'i', 'f', 'i', 'c', 'a',
                't', 'e', ' ', 'r', 'e', 'q', 'u', 'i', 'r', 'e', 'd'
            ],
        ),
    }
}

/// Route-layer gate shared by the dashboard (`/ui/*`) and the fleet JSON
/// API (`/fleet*`): the reason for a 403 unless the forwarded mTLS subject
/// is an admin.
pub fn admin_denial(subject: Option<&str>) -> (r: Option<&'static str>)
    ensures
        match r {
            Some(reason) => admin_denial_spec(
                match subject {
                    Some(t) => Some(t@),
                    None => None,
                },
            ) == Some(reason@),
            None => admin_denial_spec(
                match subject {
                    Some(t) => Some(t@),
                    None => None,
                },
            ) is None,
        },
{
    proof {
        reveal_strlit("admin certificate required");
        reveal_strlit("client certificate required");
    }
    match subject {
        Some(dn) => if is_admin_subject(dn) {
            None
        } else {
            Some("admin certificate required")
        },
        None => Some("client certificate required"),
    }
}

/// Body of the plain-text 403 response: `forbidden: <reason>`.
pub fn forbidden_message(reason: &str) -> (m: String)
    ensures
        m@ == seq!['f', 'o', 'r', 'b', 'i', 'd', 'd', 'e', 'n', ':', ' '] + reason@,
{
    let mut m = String::new();
    proof {
        reveal_strlit("forbidden: ");
    }
    m.append("forbidden: ");
    m.append(reason);
    m
}

} // verus!
