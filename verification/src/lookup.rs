//! What the library decides around a lookup: which addresses to try, how to
//! configure the connection, how to write answers, and how to report failures.

use vstd::prelude::*;
use vstd::string::StringExecFns;
use crate::addr::{IpAddress, ip_from_text, ip_text, parse_ip_text, ip_to_string};
use crate::config::{Timeout, humantime_text, humantime_format};
use crate::server::{ParsedServer, ServerView, default_https_path};
use crate::text::{chars_of, join_texts, push_joined, texts};

verus! {

// ---------------------------------------------------------------- answer order

/// Whether `a` comes before `b` in the order of `String`: code point by code point,
/// a proper prefix first.
pub open spec fn text_less(a: Seq<char>, b: Seq<char>) -> bool
    decreases a.len(),
{
    if a.len() == 0 {
        b.len() > 0
    } else if b.len() == 0 {
        false
    } else if a[0] != b[0] {
        a[0] < b[0]
    } else {
        text_less(a.drop_first(), b.drop_first())
    }
}

/// The order is transitive.
pub proof fn lemma_text_less_trans(a: Seq<char>, b: Seq<char>, c: Seq<char>)
    requires
        text_less(a, b),
        text_less(b, c),
    ensures
        text_less(a, c),
    decreases a.len(),
{
    if a.len() > 0 && b.len() > 0 && c.len() > 0 && a[0] == b[0] && b[0] == c[0] {
        lemma_text_less_trans(a.drop_first(), b.drop_first(), c.drop_first());
    }
}

/// Of two different texts one comes first.
pub proof fn lemma_text_less_total(a: Seq<char>, b: Seq<char>)
    requires
        a != b,
    ensures
        text_less(a, b) || text_less(b, a),
    decreases a.len(),
{
    if a.len() > 0 && b.len() > 0 && a[0] == b[0] {
        if a.drop_first() == b.drop_first() {
            assert(a =~= seq![a[0]] + a.drop_first());
            assert(b =~= seq![b[0]] + b.drop_first());
        }
        lemma_text_less_total(a.drop_first(), b.drop_first());
    } else if a.len() == 0 && b.len() == 0 {
        assert(a =~= b);
    }

}

/// No text comes before itself.
pub proof fn lemma_text_less_irreflexive(a: Seq<char>)
    ensures
        !text_less(a, a),
    decreases a.len(),
{
    if a.len() > 0 {
        lemma_text_less_irreflexive(a.drop_first());
    }
}

/// Whether `a` comes before `b`.
pub fn text_precedes(a: &str, b: &str) -> (r: bool)
    ensures
        r == text_less(a@, b@),
{
    let va = chars_of(a);
    let vb = chars_of(b);
    let mut i: usize = 0;
    assert(a@.skip(0) =~= a@);
    assert(b@.skip(0) =~= b@);
    while i < va.len() && i < vb.len() && va[i] == vb[i]
        invariant
            va@ == a@,
            vb@ == b@,
            i <= va@.len(),
            i <= vb@.len(),
            text_less(a@, b@) == text_less(a@.skip(i as int), b@.skip(i as int)),
        decreases va.len() - i,
    {
        assert(a@.skip(i as int).drop_first() =~= a@.skip(i + 1));
        assert(b@.skip(i as int).drop_first() =~= b@.skip(i + 1));
        i = i + 1;
    }
    if i == va.len() {
        i < vb.len()
    } else if i == vb.len() {
        false
    } else {
        va[i] < vb[i]
    }
}

/// Whether the texts are in strictly increasing order.
pub open spec fn strictly_sorted(s: Seq<Seq<char>>) -> bool {
    forall|i: int, j: int| 0 <= i < j < s.len() ==> text_less(s[i], s[j])
}

/// Sorts the answers and drops repeated ones.
pub fn normalize_answers(answers: Vec<String>) -> (r: Vec<String>)
    ensures
        strictly_sorted(texts(r@)),
        forall|x: Seq<char>| texts(r@).contains(x) <==> texts(answers@).contains(x),
{
    let ghost input = texts(answers@);
    let mut rest = answers;
    let mut out: Vec<String> = Vec::new();
    assert(texts(rest@) =~= input.take(input.len() as int));
    while rest.len() > 0
        invariant
            texts(rest@) == input.take(rest@.len() as int),
            rest@.len() <= input.len(),
            strictly_sorted(texts(out@)),
            forall|x: Seq<char>|
                texts(out@).contains(x) <==> input.skip(rest@.len() as int).contains(x),
        decreases rest.len(),
    {
        let m = rest.len();
        let ghost old_rest = rest@;
        assert(texts(old_rest)[m - 1] == old_rest[m - 1]@);
        assert(input.take(m as int)[m - 1] == input[m - 1]);
        let item = rest.pop().unwrap();
        assert(texts(rest@) =~= input.take(m - 1));
        let ghost x = item@;
        let ghost before = texts(out@);
        let mut p: usize = 0;
        loop
            invariant
                p <= out@.len(),
                x == item@,
                before == texts(out@),
                forall|j: int| 0 <= j < p ==> text_less(before[j], x),
            ensures
                p <= out@.len(),
                forall|j: int| 0 <= j < p ==> text_less(before[j], x),
                p < out@.len() ==> !text_less(before[p as int], x),
            decreases out.len() - p,
        {
            if p >= out.len() {
                break;
            }
            assert(before[p as int] == out@[p as int]@);
            if !text_precedes(out[p].as_str(), item.as_str()) {
                break;
            }
            p = p + 1;
        }
        let ghost s1 = input.skip(m - 1);
        let ghost s0 = input.skip(m as int);
        assert(s1 =~= seq![x] + s0);
        assert forall|y: Seq<char>| s1.contains(y) <==> (y == x || s0.contains(y)) by {
            if s1.contains(y) {
                let k = choose|k: int| 0 <= k < s1.len() && s1[k] == y;
                if k > 0 {
                    assert(s0[k - 1] == y);
                }
            }
            if s0.contains(y) {
                let k = choose|k: int| 0 <= k < s0.len() && s0[k] == y;
                assert(s1[k + 1] == y);
            }
            if y == x {
                assert(s1[0] == y);
            }
        }
        if p < out.len() && out[p] == item {
            assert(before[p as int] == x);
        } else {
            proof {
                if p < before.len() {
                    lemma_text_less_total(before[p as int], x);
                    assert(text_less(x, before[p as int]));
                }
                assert forall|j: int| p <= j < before.len() implies text_less(x, before[j]) by {
                    if j > p {
                        lemma_text_less_trans(x, before[p as int], before[j]);
                    }
                }
            }
            out.insert(p, item);
            let ghost after = texts(out@);
            assert(after =~= before.insert(p as int, x));
            assert forall|y: Seq<char>| after.contains(y) <==> (y == x || before.contains(y)) by {
                if after.contains(y) {
                    let k = choose|k: int| 0 <= k < after.len() && after[k] == y;
                    if k < p {
                        assert(before[k] == y);
                    } else if k > p {
                        assert(before[k - 1] == y);
                    }
                }
                if before.contains(y) {
                    let k = choose|k: int| 0 <= k < before.len() && before[k] == y;
                    if k < p {
                        assert(after[k] == y);
                    } else {
                        assert(after[k + 1] == y);
                    }
                }
                if y == x {
                    assert(after[p as int] == y);
                }
            }
        }
    }
    assert(input.skip(0) =~= input);
    out
}

// ---------------------------------------------------------------- answers

/// The data of one answer record, as the lookup hands it over.
pub enum AnswerData {
    /// An `A` or `AAAA` record.
    Address(IpAddress),
    /// A `CNAME`, `NS` or `MX` record: the name it points to, as text.
    Name(String),
    /// A `TXT` record: its character strings as bytes.
    Text(Vec<Vec<u8>>),
    /// Any other record, already written out.
    Other(String),
}

/// What `String::from_utf8_lossy` gives for some bytes.
pub uninterp spec fn lossy_text(bytes: Seq<u8>) -> Seq<char>;

/// Calls `String::from_utf8_lossy`; the text is `lossy_text` of the bytes and, as
/// the function documents, their decoding where they are valid UTF-8.
#[verifier::external_body]
fn utf8_lossy(bytes: &Vec<u8>) -> (r: String)
    ensures
        r@ == lossy_text(bytes@),
        vstd::utf8::valid_utf8(bytes@) ==> r@ == vstd::utf8::decode_utf8(bytes@),
{
    String::from_utf8_lossy(bytes.as_slice()).to_string()
}

/// The texts of the character strings of a `TXT` record.
pub open spec fn lossy_texts(parts: Seq<Vec<u8>>) -> Seq<Seq<char>> {
    parts.map_values(|b: Vec<u8>| lossy_text(b@))
}

/// How an answer is written.
pub open spec fn answer_text(data: AnswerData) -> Seq<char> {
    match data {
        AnswerData::Address(ip) => ip_text(ip),
        AnswerData::Name(n) => n@,
        AnswerData::Text(parts) => join_texts(lossy_texts(parts@), " "@),
        AnswerData::Other(t) => t@,
    }
}

/// Writes an answer: an address in canonical form, a name as text, the strings
/// of a `TXT` record joined by spaces.
pub fn format_rdata(data: AnswerData) -> (r: String)
    ensures
        r@ == answer_text(data),
{
    match data {
        AnswerData::Address(ip) => ip_to_string(ip),
        AnswerData::Name(n) => n,
        AnswerData::Text(parts) => {
            let mut texts_out: Vec<String> = Vec::new();
            let mut i: usize = 0;
            while i < parts.len()
                invariant
                    i <= parts@.len(),
                    texts(texts_out@) == lossy_texts(parts@).take(i as int),
                decreases parts.len() - i,
            {
                let t = utf8_lossy(&parts[i]);
                assert(t@ == lossy_text(parts@[i as int]@));
                assert(lossy_texts(parts@)[i as int] == lossy_text(parts@[i as int]@));
                let ghost prev = texts_out@;
                let ghost tv = t@;
                texts_out.push(t);
                assert(texts(texts_out@) =~= texts(prev).push(tv));
                assert(lossy_texts(parts@).take(i + 1) =~= lossy_texts(parts@).take(i as int).push(tv));
                assert(texts(texts_out@) =~= lossy_texts(parts@).take(i + 1));
                i = i + 1;
            }
            assert(lossy_texts(parts@).take(parts@.len() as int) =~= lossy_texts(parts@));
            let mut r = String::new();
            push_joined(&mut r, &texts_out, " ");
            r
        },
        AnswerData::Other(t) => t,
    }
}

// ---------------------------------------------------------------- failures

/// The error noted for one upstream address: `address: error`.
pub open spec fn upstream_error_text(addr: Seq<char>, error: Seq<char>) -> Seq<char> {
    addr + ": "@ + error
}

/// Notes the failure of one upstream address.
pub fn upstream_error(addr: &str, error: &str) -> (r: String)
    ensures
        r@ == upstream_error_text(addr@, error@),
{
    let mut msg = String::from_str(addr);
    msg.append(": ");
    msg.append(error);
    msg
}

/// The error once every upstream address of `host` has failed; it lists each
/// address with its failure.
pub open spec fn all_failed_text(host: Seq<char>, errors: Seq<Seq<char>>) -> Seq<char> {
    "all upstream addresses failed for "@ + host + ": "@ + join_texts(errors, "; "@)
}

/// Reports that every upstream address of `host` failed.
pub fn all_upstreams_failed(host: &str, errors: &Vec<String>) -> (r: String)
    ensures
        r@ == all_failed_text(host@, texts(errors@)),
{
    let mut msg = String::from_str("all upstream addresses failed for ");
    msg.append(host);
    msg.append(": ");
    push_joined(&mut msg, errors, "; ");
    msg
}

/// The failures noted so far: address `i` with the error its query gave.
pub open spec fn failure_entries(addrs: Seq<Seq<char>>, errors: Seq<Seq<char>>) -> Seq<Seq<char>> {
    Seq::new(errors.len(), |i: int| upstream_error_text(addrs[i], errors[i]))
}

/// What to do next while querying a server's addresses one after the other.
#[derive(Debug)]
pub enum UpstreamStep {
    /// Query the address at this index, over the server's own transport.
    Query(usize),
    /// Stop with these answers, or with this error.
    Finish(Result<Vec<String>, String>),
}

/// Decides the next step of the failover over a server's addresses. `errors`
/// holds the errors of the addresses queried so far, in order; `last` is what the
/// most recent query gave, if one was made since. The first answer ends the
/// failover; a failure moves on to the next address; once every address has
/// failed, the error lists each address with its error.
pub fn upstream_step(
    host: &str,
    addrs: &Vec<String>,
    errors: &mut Vec<String>,
    last: Option<Result<Vec<String>, String>>,
) -> (r: UpstreamStep)
    requires
        old(errors)@.len() <= addrs@.len(),
        last is Some ==> old(errors)@.len() < addrs@.len(),
    ensures
        final(errors)@ == (match last {
            Some(Err(e)) => old(errors)@.push(e),
            _ => old(errors)@,
        }),
        final(errors)@.len() <= addrs@.len(),
        last matches Some(Ok(a)) ==> r == UpstreamStep::Finish(Ok(a)),
        !(last matches Some(Ok(_))) && final(errors)@.len() < addrs@.len() ==> (r matches UpstreamStep::Query(
            i,
        ) && i == final(errors)@.len()),
        !(last matches Some(Ok(_))) && final(errors)@.len() == addrs@.len() ==> (r matches UpstreamStep::Finish(
            Err(m),
        ) && m@ == all_failed_text(host@, failure_entries(texts(addrs@), texts(final(errors)@)))),
{
    match last {
        Some(Ok(answers)) => {
            return UpstreamStep::Finish(Ok(answers));
        },
        Some(Err(e)) => {
            errors.push(e);
        },
        None => {},
    }
    if errors.len() < addrs.len() {
        return UpstreamStep::Query(errors.len());
    }
    let ghost want = failure_entries(texts(addrs@), texts(errors@));
    let mut entries: Vec<String> = Vec::new();
    let mut i: usize = 0;
    while i < errors.len()
        invariant
            errors@.len() == addrs@.len(),
            i <= errors@.len(),
            want == failure_entries(texts(addrs@), texts(errors@)),
            texts(entries@) == want.take(i as int),
        decreases errors.len() - i,
    {
        let entry = upstream_error(addrs[i].as_str(), errors[i].as_str());
        let ghost ev = entry@;
        let ghost prev = entries@;
        entries.push(entry);
        assert(texts(entries@) =~= texts(prev).push(ev));
        assert(want.take(i + 1) =~= want.take(i as int).push(ev));
        i = i + 1;
    }
    assert(want.take(errors@.len() as int) =~= want);
    UpstreamStep::Finish(Err(all_upstreams_failed(host, &entries)))
}

/// The resolved addresses of `host`, or an error where there are none.
pub fn require_addresses<T>(host: &str, addrs: Vec<T>) -> (r: Result<Vec<T>, String>)
    ensures
        addrs@.len() == 0 ==> (r matches Err(e) && e@ == "no address resolved for "@ + host@),
        addrs@.len() > 0 ==> (r matches Ok(v) && v@ == addrs@),
{
    if addrs.len() == 0 {
        Err(no_address_error(host))
    } else {
        Ok(addrs)
    }
}

/// Reports that resolving `host` gave no address.
pub fn no_address_error(host: &str) -> (r: String)
    ensures
        r@ == "no address resolved for "@ + host@,
{
    let mut msg = String::from_str("no address resolved for ");
    msg.append(host);
    msg
}

/// Reports that resolving `host` failed with `error`.
pub fn resolve_error(host: &str, error: &str) -> (r: String)
    ensures
        r@ == "failed to resolve "@ + host@ + ": "@ + error@,
{
    let mut msg = String::from_str("failed to resolve ");
    msg.append(host);
    msg.append(": ");
    msg.append(error);
    msg
}

/// Reports that a lookup did not finish within `timeout`.
pub fn timeout_error(timeout: Timeout) -> (r: String)
    requires
        timeout.nanos < 1_000_000_000,
    ensures
        r@ == "lookup timed out after "@ + humantime_text(timeout.secs, timeout.nanos),
{
    let mut msg = String::from_str("lookup timed out after ");
    let text = humantime_format(timeout);
    msg.append(text.as_str());
    msg
}

// ---------------------------------------------------------------- where to connect

/// The addresses to try for a server, each with the server's port: the host itself
/// where it is an IP address, else the bootstrap addresses; `None` where neither
/// applies and the host name has to be resolved.
pub open spec fn socket_plan(server: ServerView) -> Option<Seq<(IpAddress, u16)>> {
    match ip_from_text(server.host) {
        Some(ip) => Some(seq![(ip, server.port)]),
        None => if server.bootstrap.len() > 0 {
            Some(server.bootstrap.map_values(|ip: IpAddress| (ip, server.port)))
        } else {
            None
        },
    }
}

/// Chooses the addresses to try for `server`; `None` asks for the host to be resolved.
pub fn plan_socket_addrs(server: &ParsedServer) -> (r: Option<Vec<(IpAddress, u16)>>)
    ensures
        match r {
            Some(v) => socket_plan(server@) == Some(v@),
            None => socket_plan(server@) is None,
        },
{
    match parse_ip_text(server.host.as_str()) {
        Some(ip) => {
            let mut v: Vec<(IpAddress, u16)> = Vec::new();
            v.push((ip, server.port));
            assert(v@ =~= seq![(ip, server.port)]);
            Some(v)
        },
        None => {
            if server.bootstrap.len() == 0 {
                return None;
            }
            let mut v: Vec<(IpAddress, u16)> = Vec::new();
            let mut i: usize = 0;
            while i < server.bootstrap.len()
                invariant
                    i <= server.bootstrap@.len(),
                    v@ == server.bootstrap@.take(i as int).map_values(
                        |ip: IpAddress| (ip, server.port),
                    ),
                decreases server.bootstrap.len() - i,
            {
                v.push((server.bootstrap[i], server.port));
                assert(v@ =~= server.bootstrap@.take(i + 1).map_values(
                    |ip: IpAddress| (ip, server.port),
                ));
                i = i + 1;
            }
            assert(server.bootstrap@.take(i as int) =~= server.bootstrap@);
            Some(v)
        },
    }
}

// ---------------------------------------------------------------- connection settings

/// How to talk to a server.
#[derive(Debug)]
pub enum TransportConfig {
    Udp,
    Tcp,
    /// DNS over TLS, verifying the certificate for `server_name`.
    Tls { server_name: String },
    /// DNS over HTTPS, verifying the certificate for `server_name`.
    Https { server_name: String, path: String },
}

/// A transport as plain values.
pub enum TransportView {
    Udp,
    Tcp,
    Tls(Seq<char>),
    Https(Seq<char>, Seq<char>),
}

/// A transport by its view.
pub open spec fn transport_view(t: TransportConfig) -> TransportView {
    match t {
        TransportConfig::Udp => TransportView::Udp,
        TransportConfig::Tcp => TransportView::Tcp,
        TransportConfig::Tls { server_name } => TransportView::Tls(server_name@),
        TransportConfig::Https { server_name, path } => TransportView::Https(server_name@, path@),
    }
}

/// The transport a server selects: exactly the one its protocol names, never
/// another; TLS and HTTPS verify the certificate for the host the server names,
/// whatever address it connects to.
pub open spec fn transport_of(server: ServerView) -> Result<TransportView, Seq<char>> {
    if server.protocol == "udp"@ {
        Ok(TransportView::Udp)
    } else if server.protocol == "tcp"@ {
        Ok(TransportView::Tcp)
    } else if server.protocol == "tls"@ {
        Ok(TransportView::Tls(server.host))
    } else if server.protocol == "https"@ {
        Ok(
            TransportView::Https(
                server.host,
                match server.path {
                    Some(p) => p,
                    None => default_https_path(),
                },
            ),
        )
    } else {
        Err("unsupported protocol: "@ + server.protocol)
    }
}

/// A transport result by its view.
pub open spec fn transport_result_view(r: Result<TransportConfig, String>) -> Result<TransportView, Seq<char>> {
    match r {
        Ok(t) => Ok(transport_view(t)),
        Err(e) => Err(e@),
    }
}

/// The transport for `server`.
pub fn protocol_config(server: &ParsedServer) -> (r: Result<TransportConfig, String>)
    ensures
        transport_result_view(r) == transport_of(server@),
{
    proof {
        reveal_strlit("/dns-query");
    }
    let udp = String::from_str("udp");
    let tcp = String::from_str("tcp");
    let tls = String::from_str("tls");
    let https = String::from_str("https");
    if server.protocol == udp {
        Ok(TransportConfig::Udp)
    } else if server.protocol == tcp {
        Ok(TransportConfig::Tcp)
    } else if server.protocol == tls {
        Ok(TransportConfig::Tls { server_name: server.host.clone() })
    } else if server.protocol == https {
        let path = match &server.path {
            Some(p) => p.clone(),
            None => String::from_str("/dns-query"),
        };
        Ok(TransportConfig::Https { server_name: server.host.clone(), path })
    } else {
        let mut msg = String::from_str("unsupported protocol: ");
        msg.append(server.protocol.as_str());
        Err(msg)
    }
}

/// One connection to a server: transport and port.
#[derive(Debug)]
pub struct ConnectionPlan {
    pub transport: TransportConfig,
    pub port: u16,
}

/// The connection to `server` on `port`.
pub fn connection_config(server: &ParsedServer, port: u16) -> (r: Result<ConnectionPlan, String>)
    ensures
        match r {
            Ok(c) => transport_of(server@) == Ok::<TransportView, Seq<char>>(
                transport_view(c.transport),
            ) && c.port == port,
            Err(e) => transport_of(server@) == Err::<TransportView, Seq<char>>(e@),
        },
{
    let transport = protocol_config(server)?;
    Ok(ConnectionPlan { transport, port })
}

/// One name server: its address, whether an empty negative answer is final, and
/// its connections.
#[derive(Debug)]
pub struct NameServerPlan {
    pub ip: IpAddress,
    pub trust_negative_responses: bool,
    pub connections: Vec<ConnectionPlan>,
}

/// The name server at `ip`: a single connection to `server`'s transport on `port`,
/// and negative answers are not taken as final.
pub fn name_server_config(server: &ParsedServer, port: u16, ip: IpAddress) -> (r: Result<NameServerPlan, String>)
    ensures
        match r {
            Ok(n) => n.ip == ip && !n.trust_negative_responses && n.connections@.len() == 1
                && transport_of(server@) == Ok::<TransportView, Seq<char>>(
                transport_view(n.connections@[0].transport),
            ) && n.connections@[0].port == port,
            Err(e) => transport_of(server@) == Err::<TransportView, Seq<char>>(e@),
        },
{
    let connection = connection_config(server, port)?;
    let mut connections: Vec<ConnectionPlan> = Vec::new();
    connections.push(connection);
    Ok(NameServerPlan { ip, trust_negative_responses: false, connections })
}

/// Resolver settings: the timeout, a single attempt, one request at a time.
#[derive(Debug, Clone, Copy)]
pub struct ResolverSettings {
    pub timeout: Timeout,
    pub attempts: usize,
    pub num_concurrent_reqs: usize,
}

/// The resolver settings for one lookup: no retries and no parallel requests, so
/// that each upstream is tried exactly once within `timeout`.
pub fn resolver_opts(timeout: Timeout) -> (r: ResolverSettings)
    ensures
        r.timeout == timeout,
        r.attempts == 1,
        r.num_concurrent_reqs == 1,
{
    ResolverSettings { timeout, attempts: 1, num_concurrent_reqs: 1 }
}

} // verus!
