//! Properties that hold across the library's functions.

use vstd::prelude::*;
use crate::addr::IpAddress;
use crate::config::{expected_items, trim_all, answered, all_answered};
use crate::lookup::{
    all_failed_text, transport_of, socket_plan, TransportView, text_less, strictly_sorted,
    lemma_text_less_trans, lemma_text_less_irreflexive,
};
use crate::check::{check_outcome, CheckStatus, batch_outcomes, ServerLookup, lookup_view};
use crate::server::{ParsedServer, server_views};
use crate::config::{bootstrap_ip_result, collect_ips};
use crate::text::{all_digits, digits_value};
use crate::check::count_success;
use crate::check::CheckView;
use crate::server::{
    server_line_result, ServerView, servers_upto, servers_result, text_lines, is_skipped,
};
use crate::text::{words, trim_class, trim_start_class, trim_end_class};
use crate::addr::{ip_from_text, socket_from_text, ip_text};
use crate::text::non_empty;
use crate::text::{eq_ignore_ascii_case, ascii_fold};
use crate::server::last_colon;
use crate::text::{
    join_texts, join_offset, lemma_join_contains, lemma_trim_class_ends, lemma_split_pieces_clean,
    lemma_non_empty_elements, split_class, trim, is_unicode_space, in_class_spec, CharClass,
};
use crate::server::{
    starts_with, endpoint_result, plain_endpoint, https_endpoint, host_port_result, first_slash,
    default_https_path,
};

verus! {

proof fn lemma_starts_with_concat(p: Seq<char>, rest: Seq<char>)
    ensures
        starts_with(p + rest, p),
        (p + rest).skip(p.len() as int) == rest,
{
    assert((p + rest).take(p.len() as int) =~= p);
    assert((p + rest).skip(p.len() as int) =~= rest);
}

proof fn lemma_not_prefix(s: Seq<char>, p: Seq<char>, i: int)
    requires
        0 <= i < p.len(),
        i < s.len(),
        s[i] != p[i],
    ensures
        !starts_with(s, p),
{
    if starts_with(s, p) {
        assert(s.take(p.len() as int)[i] == p[i]);
    }
}

/// `udp://host[:port]` is DNS over UDP, on port 53 unless the endpoint names one.
pub proof fn law_udp_scheme(rest: Seq<char>)
    ensures
        endpoint_result("udp://"@ + rest) == plain_endpoint("udp"@, rest, 53),
{
    reveal_strlit("udp://");
    lemma_starts_with_concat("udp://"@, rest);
}

/// `tcp://host[:port]` is DNS over TCP, on port 53 unless the endpoint names one.
pub proof fn law_tcp_scheme(rest: Seq<char>)
    ensures
        endpoint_result("tcp://"@ + rest) == plain_endpoint("tcp"@, rest, 53),
{
    reveal_strlit("udp://");
    reveal_strlit("tcp://");
    let e = "tcp://"@ + rest;
    lemma_starts_with_concat("tcp://"@, rest);
    lemma_not_prefix(e, "udp://"@, 0);
}

/// `dot://host[:port]` is DNS over TLS, on port 853 unless the endpoint names one.
pub proof fn law_dot_scheme(rest: Seq<char>)
    ensures
        endpoint_result("dot://"@ + rest) == plain_endpoint("tls"@, rest, 853),
{
    reveal_strlit("udp://");
    reveal_strlit("tcp://");
    reveal_strlit("dot://");
    let e = "dot://"@ + rest;
    lemma_starts_with_concat("dot://"@, rest);
    lemma_not_prefix(e, "udp://"@, 0);
    lemma_not_prefix(e, "tcp://"@, 0);
}

/// `tls://host[:port]` is DNS over TLS, on port 853 unless the endpoint names one.
pub proof fn law_tls_scheme(rest: Seq<char>)
    ensures
        endpoint_result("tls://"@ + rest) == plain_endpoint("tls"@, rest, 853),
{
    reveal_strlit("udp://");
    reveal_strlit("tcp://");
    reveal_strlit("dot://");
    reveal_strlit("tls://");
    let e = "tls://"@ + rest;
    lemma_starts_with_concat("tls://"@, rest);
    lemma_not_prefix(e, "udp://"@, 0);
    lemma_not_prefix(e, "tcp://"@, 1);
    lemma_not_prefix(e, "dot://"@, 0);
}

/// `https://host/path` is DNS over HTTPS.
pub proof fn law_https_scheme(rest: Seq<char>)
    ensures
        endpoint_result("https://"@ + rest) == https_endpoint("https"@, rest),
{
    reveal_strlit("udp://");
    reveal_strlit("tcp://");
    reveal_strlit("dot://");
    reveal_strlit("tls://");
    reveal_strlit("https://");
    let e = "https://"@ + rest;
    lemma_starts_with_concat("https://"@, rest);
    lemma_not_prefix(e, "udp://"@, 0);
    lemma_not_prefix(e, "tcp://"@, 1);
    lemma_not_prefix(e, "dot://"@, 0);
    lemma_not_prefix(e, "tls://"@, 0);
}

/// `doh://host/path` is DNS over HTTPS.
pub proof fn law_doh_scheme(rest: Seq<char>)
    ensures
        endpoint_result("doh://"@ + rest) == https_endpoint("https"@, rest),
{
    reveal_strlit("udp://");
    reveal_strlit("tcp://");
    reveal_strlit("dot://");
    reveal_strlit("tls://");
    reveal_strlit("https://");
    reveal_strlit("doh://");
    let e = "doh://"@ + rest;
    lemma_starts_with_concat("doh://"@, rest);
    lemma_not_prefix(e, "udp://"@, 0);
    lemma_not_prefix(e, "tcp://"@, 0);
    lemma_not_prefix(e, "dot://"@, 2);
    lemma_not_prefix(e, "tls://"@, 0);
    lemma_not_prefix(e, "https://"@, 0);
}

/// A bare IP or host, one without `:/` and so without a `scheme://` prefix, is DNS
/// over UDP, on port 53 unless it names one.
pub proof fn law_bare_endpoint(e: Seq<char>)
    requires
        forall|i: int| 0 <= i < e.len() - 1 ==> !(#[trigger] e[i] == ':' && e[i + 1] == '/'),
    ensures
        endpoint_result(e) == plain_endpoint("udp"@, e, 53),
{
    reveal_strlit("udp://");
    reveal_strlit("tcp://");
    reveal_strlit("dot://");
    reveal_strlit("tls://");
    reveal_strlit("https://");
    reveal_strlit("doh://");
    if starts_with(e, "udp://"@) {
        assert(e[3] == "udp://"@[3]);
        assert(e[4] == "udp://"@[4]);
        assert(e[5] == "udp://"@[5]);
    }
    if starts_with(e, "tcp://"@) {
        assert(e[3] == "tcp://"@[3]);
        assert(e[4] == "tcp://"@[4]);
        assert(e[5] == "tcp://"@[5]);
    }
    if starts_with(e, "dot://"@) {
        assert(e[3] == "dot://"@[3]);
        assert(e[4] == "dot://"@[4]);
        assert(e[5] == "dot://"@[5]);
    }
    if starts_with(e, "tls://"@) {
        assert(e[3] == "tls://"@[3]);
        assert(e[4] == "tls://"@[4]);
        assert(e[5] == "tls://"@[5]);
    }
    if starts_with(e, "https://"@) {
        assert(e[5] == "https://"@[5]);
        assert(e[6] == "https://"@[6]);
        assert(e[7] == "https://"@[7]);
    }
    if starts_with(e, "doh://"@) {
        assert(e[3] == "doh://"@[3]);
        assert(e[4] == "doh://"@[4]);
        assert(e[5] == "doh://"@[5]);
    }
}

/// When every upstream address fails, the error names each address's failure in
/// full: failure `i` stands in the error text at a known offset.
pub proof fn law_failure_lists_every_address(host: Seq<char>, errors: Seq<Seq<char>>, i: int)
    requires
        0 <= i < errors.len(),
    ensures
        ({
            let text = all_failed_text(host, errors);
            let o = ("all upstream addresses failed for "@ + host + ": "@).len() + join_offset(
                errors,
                "; "@,
                i,
            );
            &&& o + errors[i].len() <= text.len()
            &&& text.subrange(o, o + errors[i].len()) == errors[i]
        }),
{
    lemma_join_contains(errors, "; "@, i);
    let pre = "all upstream addresses failed for "@ + host + ": "@;
    let j = join_texts(errors, "; "@);
    let o = join_offset(errors, "; "@, i);
    assert(all_failed_text(host, errors) == pre + j);
    assert((pre + j).subrange(pre.len() + o, pre.len() + o + errors[i].len()) =~= j.subrange(
        o,
        o + errors[i].len(),
    ));
}

/// Every expected answer parsed from a list is non-empty, holds no comma, and
/// neither starts nor ends with white space.
pub proof fn law_expected_items_clean(s: Seq<char>, i: int)
    requires
        0 <= i < expected_items(s).len(),
    ensures
        expected_items(s)[i].len() > 0,
        !is_unicode_space(expected_items(s)[i][0]),
        !is_unicode_space(expected_items(s)[i].last()),
        forall|j: int| 0 <= j < expected_items(s)[i].len() ==> #[trigger] expected_items(s)[i][j] != ',',
{
    let pieces = split_class(s, CharClass::Comma);
    let trimmed = trim_all(pieces);
    lemma_non_empty_elements(trimmed);
    let item = expected_items(s)[i];
    let k = choose|k: int| 0 <= k < trimmed.len() && trimmed[k] == item;
    assert(item == trim(pieces[k]));
    lemma_trim_class_ends(pieces[k], CharClass::Space);
    lemma_split_pieces_clean(s, CharClass::Comma);
    assert forall|j: int| 0 <= j < item.len() implies #[trigger] item[j] != ',' by {
        let m = choose|m: int| 0 <= m < pieces[k].len() && pieces[k][m] == item[j];
        assert(!in_class_spec(CharClass::Comma, pieces[k][m]));
    }
}

/// With nothing expected, any answers match.
pub proof fn law_nothing_expected_matches(answers: Seq<Seq<char>>)
    ensures
        all_answered(answers, Seq::<Seq<char>>::empty()),
{
}

/// More answers never turn a match into a mismatch.
pub proof fn law_more_answers_still_match(a: Seq<Seq<char>>, b: Seq<Seq<char>>, expected: Seq<Seq<char>>)
    requires
        all_answered(a, expected),
    ensures
        all_answered(a + b, expected),
{
    assert forall|i: int| 0 <= i < expected.len() implies answered(a + b, #[trigger] expected[i]) by {
        assert(answered(a, expected[i]));
        let j = choose|j: int|
            0 <= j < a.len() && crate::text::eq_ignore_ascii_case(#[trigger] a[j], expected[i]);
        assert((a + b)[j] == a[j]);
    }
}

proof fn lemma_protocol_names_differ()
    ensures
        "udp"@ != "tcp"@,
        "udp"@ != "tls"@,
        "udp"@ != "https"@,
        "tcp"@ != "tls"@,
        "tcp"@ != "https"@,
        "tls"@ != "https"@,
{
    reveal_strlit("udp");
    reveal_strlit("tcp");
    reveal_strlit("tls");
    reveal_strlit("https");
    assert("udp"@[0] != "tcp"@[0]);
    assert("udp"@[0] != "tls"@[0]);
    assert("udp"@[0] != "https"@[0]);
    assert("tcp"@[1] != "tls"@[1]);
    assert("tcp"@[0] != "https"@[0]);
    assert("tls"@[0] != "https"@[0]);
}

/// A server that parses selects exactly one supported transport: the one its scheme
/// names; TLS and HTTPS verify the certificate for the server's own host name.
pub proof fn law_parsed_server_has_transport(line: u32, input: Seq<char>, global: Seq<IpAddress>)
    requires
        server_line_result(line, input, global) is Ok,
    ensures
        ({
            let sv = server_line_result(line, input, global)->Ok_0;
            &&& sv.protocol == "udp"@ || sv.protocol == "tcp"@ || sv.protocol == "tls"@
                || sv.protocol == "https"@
            &&& transport_of(sv) is Ok
            &&& sv.protocol == "udp"@ ==> transport_of(sv) == Ok::<TransportView, Seq<char>>(
                TransportView::Udp,
            )
            &&& sv.protocol == "tcp"@ ==> transport_of(sv) == Ok::<TransportView, Seq<char>>(
                TransportView::Tcp,
            )
            &&& sv.protocol == "tls"@ ==> transport_of(sv) == Ok::<TransportView, Seq<char>>(
                TransportView::Tls(sv.host),
            )
            &&& sv.protocol == "https"@ ==> (transport_of(sv) matches Ok(TransportView::Https(h, _))
                && h == sv.host)
        }),
{
    lemma_protocol_names_differ();
}

/// The bootstrap column changes where a server connects, never what it is: two
/// definitions with the same endpoint select the same transport, host, port and
/// path; the addresses are those of the column, or the global ones without it.
pub proof fn law_bootstrap_keeps_endpoint(
    line: u32,
    a: Seq<char>,
    b: Seq<char>,
    global: Seq<IpAddress>,
)
    requires
        server_line_result(line, a, global) is Ok,
        server_line_result(line, b, global) is Ok,
        words(a)[0] == words(b)[0],
    ensures
        ({
            let x = server_line_result(line, a, global)->Ok_0;
            let y = server_line_result(line, b, global)->Ok_0;
            &&& x.protocol == y.protocol
            &&& x.host == y.host
            &&& x.port == y.port
            &&& x.path == y.path
            &&& (words(a).len() == 1 ==> x.bootstrap == global)
        }),
{
    let wa = words(a);
    if wa.len() == 1 {
        assert(wa.skip(1) =~= Seq::<Seq<char>>::empty());
    }
}

/// A host name with bootstrap addresses connects to exactly those addresses, on the
/// server's port, while TLS still verifies the host name.
pub proof fn law_bootstrap_pins_addresses(sv: ServerView)
    requires
        ip_from_text(sv.host) is None,
        sv.bootstrap.len() > 0,
    ensures
        socket_plan(sv) == Some(sv.bootstrap.map_values(|ip: IpAddress| (ip, sv.port))),
        sv.protocol == "tls"@ ==> transport_of(sv) == Ok::<TransportView, Seq<char>>(
            TransportView::Tls(sv.host),
        ),
{
    lemma_protocol_names_differ();
}

/// A check passes exactly when it reports no error; a passing check had answers
/// that matched.
pub proof fn law_status_agrees_with_error(
    server: ServerView,
    domain: Seq<char>,
    query_type: Seq<char>,
    expected: Seq<Seq<char>>,
    lookup: Result<Seq<Seq<char>>, Seq<char>>,
    elapsed_nanos: u64,
)
    ensures
        ({
            let c = check_outcome(server, domain, query_type, expected, lookup, elapsed_nanos);
            &&& (c.status == CheckStatus::Success) == (c.error is None)
            &&& c.status == CheckStatus::Success ==> lookup is Ok && c.matched == Some(true)
            &&& lookup is Err ==> c.answers.len() == 0
            &&& c.line == server.line
        }),
{
}

/// Brackets around a bootstrap address change nothing: `[::1]` names the address
/// that `::1` names.
pub proof fn law_brackets_ignored(x: Seq<char>)
    requires
        x.len() > 0,
        !is_unicode_space(x[0]),
        !is_unicode_space(x.last()),
        x[0] != '[' && x[0] != ']',
        x.last() != '[' && x.last() != ']',
    ensures
        ({
            let y = seq!['['] + x + seq![']'];
            &&& bootstrap_ip_result(y) is Ok <==> bootstrap_ip_result(x) is Ok
            &&& bootstrap_ip_result(x) is Ok ==> bootstrap_ip_result(y) == bootstrap_ip_result(x)
        }),
{
    let y = seq!['['] + x + seq![']'];
    let xe = x + seq![']'];
    assert(y.drop_first() =~= xe);
    assert(xe.drop_last() =~= x);
    assert(y.last() == ']');
    assert(xe.last() == ']');
    assert(trim_start_class(y, CharClass::Space) == y);
    assert(trim_end_class(y, CharClass::Space) == y);
    assert(trim(y) == y);
    assert(trim_start_class(xe, CharClass::Bracket) == xe);
    assert(trim_start_class(y, CharClass::Bracket) == xe);
    assert(trim_end_class(x, CharClass::Bracket) == x);
    assert(trim_end_class(xe, CharClass::Bracket) == x);
    assert(trim_class(y, CharClass::Bracket) == x);
    assert(trim_start_class(x, CharClass::Space) == x);
    assert(trim_end_class(x, CharClass::Space) == x);
    assert(trim_start_class(x, CharClass::Bracket) == x);
    assert(trim_class(trim(x), CharClass::Bracket) == x);
}

/// The servers of a list come in the order of their lines, each with the number of
/// the line that defines it, counted from 1, and the text of that line trimmed,
/// which is neither empty nor a comment.
pub proof fn law_server_lines(s: Seq<char>, global: Seq<IpAddress>)
    requires
        servers_result(s, global) is Ok,
        text_lines(s).len() <= u32::MAX,
    ensures
        ({
            let list = servers_result(s, global)->Ok_0;
            let lines = text_lines(s);
            &&& forall|i: int, j: int| 0 <= i < j < list.len() ==> list[i].line < list[j].line
            &&& forall|i: int|
                #![trigger list[i]]
                0 <= i < list.len() ==> 1 <= list[i].line <= lines.len() && list[i].raw == trim(
                    lines[list[i].line - 1],
                ) && !is_skipped(list[i].raw)
        }),
{
    lemma_servers_upto_lines(text_lines(s), text_lines(s).len(), global);
}

proof fn lemma_servers_upto_lines(lines: Seq<Seq<char>>, k: nat, global: Seq<IpAddress>)
    requires
        k <= lines.len() <= u32::MAX,
    ensures
        servers_upto(lines, k, global) matches Ok(list) ==> {
            &&& forall|i: int, j: int| 0 <= i < j < list.len() ==> list[i].line < list[j].line
            &&& forall|i: int|
                #![trigger list[i]]
                0 <= i < list.len() ==> 1 <= list[i].line <= k && list[i].raw == trim(
                    lines[list[i].line - 1],
                ) && !is_skipped(list[i].raw) && server_line_result(list[i].line, list[i].raw, global)
                    == Ok::<ServerView, Seq<char>>(list[i])
        },
    decreases k,
{
    if k > 0 {
        lemma_servers_upto_lines(lines, (k - 1) as nat, global);
        if let Ok(prev) = servers_upto(lines, (k - 1) as nat, global) {
            let t = trim(lines[k - 1]);
            if !is_skipped(t) {
                if let Ok(sv) = server_line_result(k as u32, t, global) {
                    let list = prev.push(sv);
                    assert(sv.line == k);
                    assert(sv.raw == t);
                    assert forall|i: int| #![trigger list[i]] 0 <= i < list.len() implies 1 <= list[i].line <= k
                        && list[i].raw == trim(lines[list[i].line - 1]) && !is_skipped(list[i].raw)
                        && server_line_result(list[i].line, list[i].raw, global)
                        == Ok::<ServerView, Seq<char>>(list[i]) by {
                        if i < prev.len() {
                            assert(list[i] == prev[i]);
                        }
                    }
                    assert forall|i: int, j: int| 0 <= i < j < list.len() implies list[i].line < list[j].line by {
                        assert(list[i] == prev[i]);
                        if j < prev.len() {
                            assert(list[j] == prev[j]);
                        }
                    }
                }
            }
        }
    }
}

/// Normalized answers depend on which answers came, not on their order or
/// repetition: two strictly sorted lists with the same members are equal.
pub proof fn law_sorted_answers_unique(a: Seq<Seq<char>>, b: Seq<Seq<char>>)
    requires
        strictly_sorted(a),
        strictly_sorted(b),
        forall|x: Seq<char>| a.contains(x) <==> b.contains(x),
    ensures
        a == b,
    decreases a.len(),
{
    if a.len() == 0 {
        if b.len() > 0 {
            assert(b.contains(b[0]));
        }
        assert(a =~= b);
    } else {
        assert(a.contains(a[0]));
        assert(b.len() > 0);
        assert(b.contains(b[0]));
        let k = choose|k: int| 0 <= k < b.len() && b[k] == a[0];
        let m = choose|m: int| 0 <= m < a.len() && a[m] == b[0];
        if k > 0 {
            if m > 0 {
                lemma_text_less_trans(a[0], a[m], a[0]);
            }
            lemma_text_less_irreflexive(a[0]);
        }
        assert(a[0] == b[0]);
        let at = a.drop_first();
        let bt = b.drop_first();
        assert forall|x: Seq<char>| at.contains(x) <==> bt.contains(x) by {
            if at.contains(x) {
                let i = choose|i: int| 0 <= i < at.len() && at[i] == x;
                assert(a[i + 1] == x);
                assert(a.contains(x));
                let j = choose|j: int| 0 <= j < b.len() && b[j] == x;
                if j == 0 {
                    lemma_text_less_irreflexive(a[0]);
                    assert(text_less(a[0], a[i + 1]));
                }
                assert(bt[j - 1] == x);
            }
            if bt.contains(x) {
                let i = choose|i: int| 0 <= i < bt.len() && bt[i] == x;
                assert(b[i + 1] == x);
                assert(b.contains(x));
                let j = choose|j: int| 0 <= j < a.len() && a[j] == x;
                if j == 0 {
                    lemma_text_less_irreflexive(b[0]);
                    assert(text_less(b[0], b[i + 1]));
                }
                assert(at[j - 1] == x);
            }
        }
        law_sorted_answers_unique(at, bt);
        assert(a =~= seq![a[0]] + at);
        assert(b =~= seq![b[0]] + bt);
    }
}

proof fn lemma_no_slash(s: Seq<char>)
    requires
        forall|i: int| 0 <= i < s.len() ==> s[i] != '/',
    ensures
        first_slash(s) == s.len(),
    decreases s.len(),
{
    if s.len() > 0 {
        lemma_no_slash(s.drop_last());
    }
}

proof fn lemma_no_colon(s: Seq<char>)
    requires
        forall|i: int| 0 <= i < s.len() ==> s[i] != ':',
    ensures
        last_colon(s) is None,
    decreases s.len(),
{
    if s.len() > 0 {
        lemma_no_colon(s.drop_last());
    }
}

/// An HTTPS endpoint without a path asks `/dns-query`, on port 443 unless the
/// authority names a port.
pub proof fn law_https_default_path(protocol: Seq<char>, rest: Seq<char>)
    requires
        forall|i: int| 0 <= i < rest.len() ==> rest[i] != '/',
    ensures
        https_endpoint(protocol, rest) == (match host_port_result(rest, 443) {
            Ok((h, p)) => Ok((protocol, h, p, Some(default_https_path()))),
            Err(e) => Err(e),
        }),
{
    lemma_no_slash(rest);
    assert(rest.take(rest.len() as int) =~= rest);
}

/// An HTTPS endpoint keeps its path, from the first `/` on; the authority is what
/// stands before it.
pub proof fn law_https_keeps_path(protocol: Seq<char>, authority: Seq<char>, path: Seq<char>)
    requires
        forall|i: int| 0 <= i < authority.len() ==> authority[i] != '/',
    ensures
        https_endpoint(protocol, authority + seq!['/'] + path) == (match host_port_result(authority, 443) {
            Ok((h, p)) => Ok((protocol, h, p, Some(seq!['/'] + path))),
            Err(e) => Err(e),
        }),
{
    let v = authority + seq!['/'] + path;
    let n = authority.len() as int;
    lemma_no_slash(authority);
    assert(v.take(n) =~= authority);
    assert(v.take(n + 1).drop_last() =~= authority);
    crate::server::lemma_first_slash_stable(v, n + 1);
    assert(v.skip(n) =~= seq!['/'] + path);
}

/// An authority with no colon that is no socket address gets the default port.
pub proof fn law_default_port(value: Seq<char>, default_port: u16)
    requires
        value.len() > 0,
        socket_from_text(value) is None,
        forall|i: int| 0 <= i < value.len() ==> value[i] != ':',
    ensures
        host_port_result(value, default_port) matches Ok((_, p)) && p == default_port,
{
    let b = trim_class(value, CharClass::Bracket);
    lemma_trim_class_ends(value, CharClass::Bracket);
    assert forall|i: int| 0 <= i < b.len() implies b[i] != ':' by {
        let j = choose|j: int| 0 <= j < value.len() && value[j] == #[trigger] b[i];
    }
    lemma_no_colon(b);
}

/// Whether `s` holds no comma.
pub open spec fn comma_free(s: Seq<char>) -> bool {
    forall|j: int| 0 <= j < s.len() ==> s[j] != ','
}

proof fn lemma_split_comma_free(b: Seq<char>)
    requires
        comma_free(b),
    ensures
        split_class(b, CharClass::Comma) == seq![b],
    decreases b.len(),
{
    if b.len() > 0 {
        lemma_split_comma_free(b.drop_last());
        assert(b.drop_last().push(b.last()) =~= b);
        assert(seq![b.drop_last()].update(0, b.drop_last().push(b.last())) =~= seq![b]);
    } else {
        assert(b =~= Seq::<char>::empty());
    }
}

proof fn lemma_split_after_comma(a: Seq<char>, b: Seq<char>)
    requires
        comma_free(b),
    ensures
        split_class(a + seq![','] + b, CharClass::Comma) == split_class(a, CharClass::Comma).push(b),
    decreases b.len(),
{
    let s = a + seq![','] + b;
    if b.len() == 0 {
        assert(s.drop_last() =~= a);
        assert(s =~= a + seq![',']);
        assert(b =~= Seq::<char>::empty());
    } else {
        lemma_split_after_comma(a, b.drop_last());
        assert(s.drop_last() =~= a + seq![','] + b.drop_last());
        let r = split_class(a, CharClass::Comma).push(b.drop_last());
        assert(b.drop_last().push(b.last()) =~= b);
        assert(s.last() == b.last());
        assert(r.update(r.len() - 1, r.last().push(b.last())) =~= split_class(a, CharClass::Comma).push(b));
    }
}

proof fn lemma_split_join(items: Seq<Seq<char>>)
    requires
        items.len() > 0,
        forall|i: int| 0 <= i < items.len() ==> comma_free(#[trigger] items[i]),
    ensures
        split_class(join_texts(items, seq![',']), CharClass::Comma) == items,
    decreases items.len(),
{
    if items.len() == 1 {
        lemma_split_comma_free(items[0]);
        assert(seq![items[0]] =~= items);
    } else {
        lemma_split_join(items.drop_last());
        lemma_split_after_comma(join_texts(items.drop_last(), seq![',']), items.last());
        assert(items.drop_last().push(items.last()) =~= items);
    }
}

proof fn lemma_trim_clean(x: Seq<char>)
    requires
        x.len() > 0,
        !is_unicode_space(x[0]),
        !is_unicode_space(x.last()),
    ensures
        trim(x) == x,
{
}

proof fn lemma_clean_items_fixed(items: Seq<Seq<char>>)
    requires
        forall|i: int|
            0 <= i < items.len() ==> (#[trigger] items[i]).len() > 0 && !is_unicode_space(items[i][0])
                && !is_unicode_space(items[i].last()),
    ensures
        non_empty(trim_all(items)) == items,
    decreases items.len(),
{
    if items.len() > 0 {
        lemma_clean_items_fixed(items.drop_last());
        assert(trim_all(items).drop_last() =~= trim_all(items.drop_last()));
        lemma_trim_clean(items.last());
        assert(trim_all(items).last() == items.last());
        assert(non_empty(trim_all(items.drop_last())).push(items.last()) =~= items);
    } else {
        assert(trim_all(items) =~= items);
    }
}

/// Parsing the expected answers joined by commas gives them back.
pub proof fn law_expected_join_roundtrip(s: Seq<char>)
    ensures
        expected_items(join_texts(expected_items(s), ","@)) == expected_items(s),
{
    reveal_strlit(",");
    assert(","@ =~= seq![',']);
    let items = expected_items(s);
    assert forall|i: int| 0 <= i < items.len() implies (#[trigger] items[i]).len() > 0
        && !is_unicode_space(items[i][0]) && !is_unicode_space(items[i].last()) && comma_free(items[i]) by {
        law_expected_items_clean(s, i);
    }
    if items.len() == 0 {
        let e = Seq::<char>::empty();
        assert(join_texts(items, ","@) == e);
        assert(split_class(e, CharClass::Comma) == seq![e]);
        assert(trim_all(seq![e]) =~= seq![trim(e)]);
        assert(trim(e) == e);
        let t = trim_all(seq![e]);
        assert(t =~= seq![e]);
        assert(t.drop_last() =~= Seq::<Seq<char>>::empty());
        assert(t.last().len() == 0);
        assert(non_empty(Seq::<Seq<char>>::empty()) =~= Seq::<Seq<char>>::empty());
        assert(non_empty(t) == non_empty(t.drop_last()));
        assert(non_empty(t) =~= items);
    } else {
        lemma_split_join(items);
        lemma_clean_items_fixed(items);
    }
}

/// Whether every element of `a` is one of `b`.
pub open spec fn within(a: Seq<Seq<char>>, b: Seq<Seq<char>>) -> bool {
    forall|x: Seq<char>| a.contains(x) ==> b.contains(x)
}

/// A match of all expected values is a match of any of them.
pub proof fn law_matching_sub_list(answers: Seq<Seq<char>>, expected: Seq<Seq<char>>, sub: Seq<Seq<char>>)
    requires
        all_answered(answers, expected),
        within(sub, expected),
    ensures
        all_answered(answers, sub),
{
    assert forall|i: int| 0 <= i < sub.len() implies answered(answers, #[trigger] sub[i]) by {
        assert(sub.contains(sub[i]));
        let k = choose|k: int| 0 <= k < expected.len() && expected[k] == sub[i];
        assert(answered(answers, expected[k]));
    }
}

/// Matching depends only on which answers and which expected values there are, not
/// on their order or repetition.
pub proof fn law_matching_ignores_order_and_repetition(
    a: Seq<Seq<char>>,
    a2: Seq<Seq<char>>,
    e: Seq<Seq<char>>,
    e2: Seq<Seq<char>>,
)
    requires
        within(a, a2),
        within(a2, a),
        within(e, e2),
        within(e2, e),
    ensures
        all_answered(a, e) == all_answered(a2, e2),
{
    assert forall|x: Seq<char>| answered(a, x) <==> answered(a2, x) by {
        if answered(a, x) {
            let j = choose|j: int| 0 <= j < a.len() && crate::text::eq_ignore_ascii_case(#[trigger] a[j], x);
            assert(a.contains(a[j]));
            let k = choose|k: int| 0 <= k < a2.len() && a2[k] == a[j];
            assert(crate::text::eq_ignore_ascii_case(a2[k], x));
        }
        if answered(a2, x) {
            let j = choose|j: int| 0 <= j < a2.len() && crate::text::eq_ignore_ascii_case(#[trigger] a2[j], x);
            assert(a2.contains(a2[j]));
            let k = choose|k: int| 0 <= k < a.len() && a[k] == a2[j];
            assert(crate::text::eq_ignore_ascii_case(a[k], x));
        }
    }
    if all_answered(a, e) {
        assert forall|i: int| 0 <= i < e2.len() implies answered(a2, #[trigger] e2[i]) by {
            assert(e2.contains(e2[i]));
            let k = choose|k: int| 0 <= k < e.len() && e[k] == e2[i];
            assert(answered(a, e[k]));
        }
    }
    if all_answered(a2, e2) {
        assert forall|i: int| 0 <= i < e.len() implies answered(a, #[trigger] e[i]) by {
            assert(e.contains(e[i]));
            let k = choose|k: int| 0 <= k < e2.len() && e2[k] == e[i];
            assert(answered(a2, e2[k]));
        }
    }
}

/// A bracketed IP address without a port, which the standard parsers reject as
/// written, is that address on the default port.
pub proof fn law_bracketed_ip_default_port(x: Seq<char>, default_port: u16)
    requires
        x.len() > 0,
        x[0] != '[' && x[0] != ']',
        x.last() != '[' && x.last() != ']',
        ip_from_text(x) is Some,
        socket_from_text(seq!['['] + x + seq![']']) is None,
        ip_from_text(seq!['['] + x + seq![']']) is None,
    ensures
        host_port_result(seq!['['] + x + seq![']'], default_port) == Ok::<(Seq<char>, u16), Seq<char>>(
            (ip_text(ip_from_text(x)->0), default_port),
        ),
{
    let y = seq!['['] + x + seq![']'];
    let xe = x + seq![']'];
    assert(y.drop_first() =~= xe);
    assert(xe.drop_last() =~= x);
    assert(y.last() == ']');
    assert(xe.last() == ']');
    assert(trim_start_class(xe, CharClass::Bracket) == xe);
    assert(trim_start_class(y, CharClass::Bracket) == xe);
    assert(trim_end_class(x, CharClass::Bracket) == x);
    assert(trim_end_class(xe, CharClass::Bracket) == x);
    assert(trim_class(y, CharClass::Bracket) == x);
}

/// Each outcome of a batch is the single check of its server's line: the server is
/// what `parse_server_line` makes of that line's trimmed text, with the same global
/// bootstrap addresses, and the outcome is built from it as for a single check.
pub proof fn law_batch_outcome_is_single_check(
    s: Seq<char>,
    global: Seq<IpAddress>,
    servers: Seq<ParsedServer>,
    domain: Seq<char>,
    query_type: Seq<char>,
    expected: Seq<Seq<char>>,
    lookups: Seq<ServerLookup>,
    k: int,
)
    requires
        servers_result(s, global) == Ok::<Seq<ServerView>, Seq<char>>(server_views(servers)),
        text_lines(s).len() <= u32::MAX,
        0 <= k < lookups.len(),
        lookups[k].index < servers.len(),
    ensures
        ({
            let sv = servers[lookups[k].index as int]@;
            let single = server_line_result(sv.line, trim(text_lines(s)[sv.line - 1]), global);
            &&& single == Ok::<ServerView, Seq<char>>(sv)
            &&& batch_outcomes(servers, domain, query_type, expected, lookups)[k] == check_outcome(
                single->Ok_0,
                domain,
                query_type,
                expected,
                lookup_view(lookups[k].lookup),
                lookups[k].elapsed_nanos,
            )
        }),
{
    let lines = text_lines(s);
    lemma_servers_upto_lines(lines, lines.len(), global);
    let list = server_views(servers);
    let j = lookups[k].index as int;
    assert(list[j] == servers[j]@);
}

/// A server whose host is an IP address connects to that address alone, on the
/// server's port, whatever bootstrap addresses it carries.
pub proof fn law_ip_host_connects_directly(sv: ServerView, ip: IpAddress)
    requires
        ip_from_text(sv.host) == Some(ip),
    ensures
        socket_plan(sv) == Some(seq![(ip, sv.port)]),
{
}

/// An HTTPS server asks its own path where it has one.
pub proof fn law_https_transport_keeps_path(sv: ServerView, p: Seq<char>)
    requires
        sv.protocol == "https"@,
        sv.path == Some(p),
    ensures
        transport_of(sv) == Ok::<TransportView, Seq<char>>(TransportView::Https(sv.host, p)),
{
    lemma_protocol_names_differ();
}

/// A server line `https://authority/path` connects over HTTPS and asks exactly the
/// path that the line names, from its first `/` on.
pub proof fn law_https_line_asks_its_path(
    line: u32,
    input: Seq<char>,
    global: Seq<IpAddress>,
    authority: Seq<char>,
    path: Seq<char>,
)
    requires
        server_line_result(line, input, global) is Ok,
        words(input).len() > 0,
        words(input)[0] == "https://"@ + (authority + seq!['/'] + path),
        forall|i: int| 0 <= i < authority.len() ==> authority[i] != '/',
    ensures
        ({
            let sv = server_line_result(line, input, global)->Ok_0;
            &&& sv.path == Some(seq!['/'] + path)
            &&& transport_of(sv) == Ok::<TransportView, Seq<char>>(
                TransportView::Https(sv.host, seq!['/'] + path),
            )
        }),
{
    law_https_scheme(authority + seq!['/'] + path);
    law_https_keeps_path("https"@, authority, path);
    lemma_protocol_names_differ();
}

/// A check whose lookup answered passes only if each expected value equals some
/// answer up to ASCII letter case; a passing check reports matched and no error.
pub proof fn law_passing_check_answered_each_expected(
    server: ServerView,
    domain: Seq<char>,
    query_type: Seq<char>,
    expected: Seq<Seq<char>>,
    answers: Seq<Seq<char>>,
    elapsed_nanos: u64,
    i: int,
)
    requires
        check_outcome(
            server,
            domain,
            query_type,
            expected,
            Ok::<Seq<Seq<char>>, Seq<char>>(answers),
            elapsed_nanos,
        ).status == CheckStatus::Success,
        0 <= i < expected.len(),
    ensures
        exists|j: int| 0 <= j < answers.len() && eq_ignore_ascii_case(#[trigger] answers[j], expected[i]),
        ({
            let c = check_outcome(
                server,
                domain,
                query_type,
                expected,
                Ok::<Seq<Seq<char>>, Seq<char>>(answers),
                elapsed_nanos,
            );
            &&& c.matched == Some(true)
            &&& c.error is None
            &&& c.answers == answers
        }),
{
    assert(answered(answers, expected[i]));
}

/// A check whose lookup answered passes, matched and with no error, when each
/// expected value equals some answer up to ASCII letter case.
pub proof fn law_check_passes_when_each_expected_answered(
    server: ServerView,
    domain: Seq<char>,
    query_type: Seq<char>,
    expected: Seq<Seq<char>>,
    answers: Seq<Seq<char>>,
    elapsed_nanos: u64,
)
    requires
        forall|i: int|
            0 <= i < expected.len() ==> exists|j: int|
                0 <= j < answers.len() && eq_ignore_ascii_case(#[trigger] answers[j], #[trigger] expected[i]),
    ensures
        ({
            let c = check_outcome(
                server,
                domain,
                query_type,
                expected,
                Ok::<Seq<Seq<char>>, Seq<char>>(answers),
                elapsed_nanos,
            );
            &&& c.status == CheckStatus::Success
            &&& c.matched == Some(true)
            &&& c.error is None
        }),
{
    assert forall|i: int| 0 <= i < expected.len() implies answered(answers, #[trigger] expected[i]) by {
        let j = choose|j: int| 0 <= j < answers.len() && eq_ignore_ascii_case(#[trigger] answers[j], expected[i]);
        assert(eq_ignore_ascii_case(answers[j], expected[i]));
    }
}

/// Two characters that are the same up to ASCII letter case: equal, or an ASCII
/// upper-case letter and its lower-case form.
pub open spec fn same_letter_or_char(c: char, d: char) -> bool {
    ||| c == d
    ||| ('A' <= c && c <= 'Z' && d as u32 == c as u32 + 32)
    ||| ('A' <= d && d <= 'Z' && c as u32 == d as u32 + 32)
}

proof fn lemma_fold_eq(c: char, d: char)
    ensures
        (ascii_fold(c) == ascii_fold(d)) == same_letter_or_char(c, d),
{
    if ascii_fold(c) == ascii_fold(d) && !('A' <= c && c <= 'Z') && !('A' <= d && d <= 'Z') {
        assert(c as u32 == d as u32);
        assert(c == d);
    }
}

/// Texts are equal up to ASCII letter case exactly when they have the same length
/// and each character is the same or the other case of the same ASCII letter.
pub proof fn law_eq_ignore_case_by_chars(a: Seq<char>, b: Seq<char>)
    ensures
        eq_ignore_ascii_case(a, b) == (a.len() == b.len() && forall|i: int|
            0 <= i < a.len() ==> same_letter_or_char(#[trigger] a[i], b[i])),
{
    assert forall|i: int| 0 <= i < a.len() && i < b.len() implies (ascii_fold(#[trigger] a[i]) == ascii_fold(b[i]))
        == same_letter_or_char(a[i], b[i]) by {
        lemma_fold_eq(a[i], b[i]);
    }
}

/// Whether `c` is an ASCII letter, by its code: `A`..`Z` or `a`..`z`.
pub open spec fn is_ascii_letter(c: char) -> bool {
    (65 <= c as u32 && c as u32 <= 90) || (97 <= c as u32 && c as u32 <= 122)
}

/// Every text equals itself up to case, and a text with no ASCII letter equals
/// only itself up to case.
pub proof fn law_eq_ignore_case_letter_free(a: Seq<char>, b: Seq<char>)
    ensures
        eq_ignore_ascii_case(a, a),
        eq_ignore_ascii_case(a, b) && (forall|i: int|
            0 <= i < a.len() ==> !is_ascii_letter(#[trigger] a[i])) ==> a == b,
{
    law_eq_ignore_case_by_chars(a, a);
    law_eq_ignore_case_by_chars(a, b);
    if eq_ignore_ascii_case(a, b) && (forall|i: int| 0 <= i < a.len() ==> !is_ascii_letter(#[trigger] a[i])) {
        assert forall|i: int| 0 <= i < a.len() implies a[i] == b[i] by {
            assert(same_letter_or_char(a[i], b[i]));
            assert('A' as u32 == 65 && 'Z' as u32 == 90);
            if 'A' <= a[i] && a[i] <= 'Z' {
                assert(is_ascii_letter(a[i]));
            }
        }
        assert(a =~= b);
    }
}

proof fn lemma_servers_upto_complete(lines: Seq<Seq<char>>, k: nat, global: Seq<IpAddress>, i: int)
    requires
        k <= lines.len() <= u32::MAX,
        servers_upto(lines, k, global) is Ok,
        0 <= i < k,
        trim(lines[i]).len() > 0,
        trim(lines[i])[0] != '#',
    ensures
        exists|j: int|
            0 <= j < servers_upto(lines, k, global)->Ok_0.len() && (#[trigger] servers_upto(
                lines,
                k,
                global,
            )->Ok_0[j]).line == i + 1,
    decreases k,
{
    let prev_r = servers_upto(lines, (k - 1) as nat, global);
    let t = trim(lines[k - 1]);
    assert(prev_r is Ok);
    let prev = prev_r->Ok_0;
    let list = servers_upto(lines, k, global)->Ok_0;
    if i == k - 1 {
        assert(!is_skipped(t));
        let sv = server_line_result(k as u32, t, global)->Ok_0;
        assert(list == prev.push(sv));
        assert(sv.line == k);
        assert(list[prev.len() as int].line == i + 1);
    } else {
        lemma_servers_upto_complete(lines, (k - 1) as nat, global, i);
        let j = choose|j: int| 0 <= j < prev.len() && (#[trigger] prev[j]).line == i + 1;
        if is_skipped(t) {
            assert(list == prev);
        } else {
            let sv = server_line_result(k as u32, t, global)->Ok_0;
            assert(list == prev.push(sv));
        }
        assert(list[j] == prev[j]);
    }
}

/// No definition is lost: every line of a list that parses, once trimmed neither
/// empty nor starting with `#`, yields a server numbered by that line.
pub proof fn law_every_definition_line_yields_server(s: Seq<char>, global: Seq<IpAddress>, i: int)
    requires
        servers_result(s, global) is Ok,
        text_lines(s).len() <= u32::MAX,
        0 <= i < text_lines(s).len(),
        trim(text_lines(s)[i]).len() > 0,
        trim(text_lines(s)[i])[0] != '#',
    ensures
        exists|j: int|
            0 <= j < servers_result(s, global)->Ok_0.len() && (#[trigger] servers_result(
                s,
                global,
            )->Ok_0[j]).line == i + 1,
{
    lemma_servers_upto_complete(text_lines(s), text_lines(s).len(), global, i);
}

/// Bootstrap addresses parse exactly when every item names an address; they are
/// then those addresses, one per item, in the order of the items.
pub proof fn law_bootstrap_addresses_in_order(items: Seq<Seq<char>>)
    ensures
        collect_ips(items) is Ok <==> forall|i: int| 0 <= i < items.len() ==> bootstrap_ip_result(#[trigger] items[i]) is Ok,
        collect_ips(items) matches Ok(ips) ==> ips.len() == items.len() && forall|i: int|
            0 <= i < items.len() ==> bootstrap_ip_result(#[trigger] items[i]) == Ok::<IpAddress, Seq<char>>(ips[i]),
    decreases items.len(),
{
    if items.len() > 0 {
        let init = items.drop_last();
        let n = items.len() - 1;
        law_bootstrap_addresses_in_order(init);
        assert forall|i: int| 0 <= i < init.len() implies #[trigger] init[i] == items[i] by {}
        assert(items[n] == items.last());
        if forall|i: int| 0 <= i < items.len() ==> bootstrap_ip_result(#[trigger] items[i]) is Ok {
            assert forall|i: int| 0 <= i < init.len() implies bootstrap_ip_result(#[trigger] init[i]) is Ok by {
                assert(bootstrap_ip_result(items[i]) is Ok);
            }
            assert(bootstrap_ip_result(items[n]) is Ok);
            assert(collect_ips(items) is Ok);
        }
        if collect_ips(items) is Ok {
            let prev = collect_ips(init)->Ok_0;
            let ip = bootstrap_ip_result(items.last())->Ok_0;
            let ips = collect_ips(items)->Ok_0;
            assert(ips == prev.push(ip));
            assert forall|i: int| 0 <= i < items.len() implies bootstrap_ip_result(#[trigger] items[i])
                == Ok::<IpAddress, Seq<char>>(ips[i]) by {
                if i < n {
                    assert(init[i] == items[i]);
                    assert(ips[i] == prev[i]);
                }
            }
        }
    }
}

/// A server line with a bootstrap column connects through the column's addresses,
/// one per item after the endpoint, in their order, never the global ones.
pub proof fn law_bootstrap_column_used(line: u32, input: Seq<char>, global: Seq<IpAddress>)
    requires
        server_line_result(line, input, global) is Ok,
        words(input).len() > 1,
    ensures
        ({
            let sv = server_line_result(line, input, global)->Ok_0;
            let ws = words(input);
            &&& sv.bootstrap.len() == ws.len() - 1
            &&& forall|i: int|
                1 <= i < ws.len() ==> bootstrap_ip_result(#[trigger] ws[i]) == Ok::<IpAddress, Seq<char>>(
                    sv.bootstrap[i - 1],
                )
        }),
{
    let ws = words(input);
    let items = ws.skip(1);
    law_bootstrap_addresses_in_order(items);
    assert forall|i: int| 1 <= i < ws.len() implies bootstrap_ip_result(#[trigger] ws[i]) == Ok::<IpAddress, Seq<char>>(
        server_line_result(line, input, global)->Ok_0.bootstrap[i - 1],
    ) by {
        assert(items[i - 1] == ws[i]);
    }
}

proof fn lemma_last_colon_before_digits(h: Seq<char>, d: Seq<char>)
    requires
        all_digits(d),
    ensures
        last_colon(h + seq![':'] + d) == Some(h.len() as int),
    decreases d.len(),
{
    let v = h + seq![':'] + d;
    if d.len() == 0 {
        assert(v.last() == ':');
    } else {
        assert(v.last() == d.last());
        assert(crate::text::is_digit(d[d.len() - 1]));
        assert(v.drop_last() =~= h + seq![':'] + d.drop_last());
        lemma_last_colon_before_digits(h, d.drop_last());
    }
}

/// A host name followed by `:port` connects on that port, not the default one.
pub proof fn law_host_names_its_port(h: Seq<char>, d: Seq<char>, default_port: u16)
    requires
        d.len() > 0,
        all_digits(d),
        digits_value(d) <= 65535,
        h.len() > 0,
        h[0] != '[' && h[0] != ']',
        d.last() != ']',
        socket_from_text(h + seq![':'] + d) is None,
        ip_from_text(h + seq![':'] + d) is None,
    ensures
        host_port_result(h + seq![':'] + d, default_port) == Ok::<(Seq<char>, u16), Seq<char>>(
            (h, digits_value(d) as u16),
        ),
{
    let v = h + seq![':'] + d;
    assert(v[0] == h[0]);
    assert(v.last() == d.last());
    assert(!in_class_spec(CharClass::Bracket, v[0]));
    assert(trim_start_class(v, CharClass::Bracket) == v);
    assert(trim_end_class(v, CharClass::Bracket) == v);
    assert(trim_class(v, CharClass::Bracket) == v);
    lemma_last_colon_before_digits(h, d);
    let k = h.len() as int;
    assert(v.subrange(k + 1, v.len() as int) =~= d);
    assert(v.take(k) =~= h);
    assert(d[0] != '+') by {
        assert(crate::text::is_digit(d[0]));
    }
}

/// A check whose lookup failed fails with the lookup's error, no answers, and a
/// matched flag only where something was expected, then false.
pub proof fn law_failed_lookup_reports_its_error(
    server: ServerView,
    domain: Seq<char>,
    query_type: Seq<char>,
    expected: Seq<Seq<char>>,
    e: Seq<char>,
    elapsed_nanos: u64,
)
    ensures
        ({
            let c = check_outcome(
                server,
                domain,
                query_type,
                expected,
                Err::<Seq<Seq<char>>, Seq<char>>(e),
                elapsed_nanos,
            );
            &&& c.status == CheckStatus::Failure
            &&& c.error == Some(e)
            &&& c.answers.len() == 0
            &&& c.matched == (if expected.len() == 0 {
                None
            } else {
                Some(false)
            })
            &&& c.expected == expected
            &&& c.line == server.line
        }),
{
}

/// The success count of outcomes adds up over their parts, and a single outcome
/// counts one exactly when it succeeded.
pub proof fn law_success_count_adds_up(a: Seq<CheckView>, b: Seq<CheckView>, x: CheckView)
    ensures
        count_success(a + b) == count_success(a) + count_success(b),
        count_success(seq![x]) == (if x.status == CheckStatus::Success {
            1nat
        } else {
            0nat
        }),
        count_success(Seq::<CheckView>::empty()) == 0,
    decreases b.len(),
{
    if b.len() > 0 {
        law_success_count_adds_up(a, b.drop_last(), x);
        assert((a + b).drop_last() =~= a + b.drop_last());
    } else {
        assert(a + b =~= a);
    }
    let e = Seq::<CheckView>::empty();
    assert(count_success(e) == 0);
    assert(seq![x].drop_last() =~= e);
    assert(seq![x].last() == x);
    assert(count_success(seq![x]) == count_success(e) + if x.status == CheckStatus::Success {
        1nat
    } else {
        0nat
    });
}

/// Answers are ordered as `String`s are: `a` comes before `b` exactly when it is a
/// proper prefix of `b`, or at the first position where they differ its character
/// is the smaller one.
pub proof fn law_answer_order_is_lexicographic(a: Seq<char>, b: Seq<char>)
    ensures
        text_less(a, b) <==> (a.len() < b.len() && b.take(a.len() as int) == a) || exists|k: int|
            0 <= k < a.len() && k < b.len() && a.take(k) == b.take(k) && (#[trigger] a[k]) < b[k],
    decreases a.len(),
{
    if a.len() > 0 && b.len() > 0 {
        let at = a.drop_first();
        let bt = b.drop_first();
        law_answer_order_is_lexicographic(at, bt);
        if a[0] != b[0] {
            if a[0] < b[0] {
                assert(a.take(0) =~= b.take(0));
            }
            if exists|k: int| 0 <= k < a.len() && k < b.len() && a.take(k) == b.take(k) && (#[trigger] a[k]) < b[k] {
                let k = choose|k: int| 0 <= k < a.len() && k < b.len() && a.take(k) == b.take(k) && (#[trigger] a[k]) < b[k];
                if k > 0 {
                    assert(a.take(k)[0] == b.take(k)[0]);
                }
            }
            if a.len() < b.len() && b.take(a.len() as int) == a {
                assert(b.take(a.len() as int)[0] == a[0]);
            }
        } else {
            if at.len() < bt.len() && bt.take(at.len() as int) == at {
                assert(b.take(a.len() as int) =~= seq![b[0]] + bt.take(at.len() as int));
                assert(a =~= seq![a[0]] + at);
            }
            if a.len() < b.len() && b.take(a.len() as int) == a {
                assert(bt.take(at.len() as int) =~= b.take(a.len() as int).drop_first());
                assert(at =~= a.drop_first());
            }
            if exists|k: int| 0 <= k < at.len() && k < bt.len() && at.take(k) == bt.take(k) && (#[trigger] at[k]) < bt[k] {
                let k = choose|k: int| 0 <= k < at.len() && k < bt.len() && at.take(k) == bt.take(k) && (#[trigger] at[k]) < bt[k];
                assert(a.take(k + 1) =~= seq![a[0]] + at.take(k));
                assert(b.take(k + 1) =~= seq![b[0]] + bt.take(k));
                assert(a[k + 1] == at[k]);
                assert(b[k + 1] == bt[k]);
            }
            if exists|k: int| 0 <= k < a.len() && k < b.len() && a.take(k) == b.take(k) && (#[trigger] a[k]) < b[k] {
                let k = choose|k: int| 0 <= k < a.len() && k < b.len() && a.take(k) == b.take(k) && (#[trigger] a[k]) < b[k];
                assert(k > 0);
                assert(at.take(k - 1) =~= a.take(k).drop_first());
                assert(bt.take(k - 1) =~= b.take(k).drop_first());
                assert(at[k - 1] == a[k]);
                assert(bt[k - 1] == b[k]);
            }
        }
    } else if a.len() == 0 && b.len() > 0 {
        assert(b.take(0) =~= a);
    }
}

} // verus!
