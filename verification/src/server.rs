//! Server definitions: one per line, an endpoint with an optional scheme and an
//! optional list of bootstrap addresses.

use vstd::prelude::*;
use vstd::string::{StringExecFns, StrSliceExecFns};
use crate::addr::{IpAddress, ip_from_text, socket_from_text, ip_text, parse_ip_text, parse_socket_text, ip_to_string};
use crate::config::{collect_ips, parse_ip_addr};
use crate::text::{
    chars_of, split_ranges, trim_range, string_of_range, parse_unsigned_range, has_prefix_at,
    split_class, trim, trim_class, parse_unsigned, CharClass, word_ranges, words,
    push_decimal, decimal_text,
};

verus! {

/// Whether `s` starts with `p`.
pub open spec fn starts_with(s: Seq<char>, p: Seq<char>) -> bool {
    p.len() <= s.len() && s.take(p.len() as int) == p
}

/// The index of the last `:` of `s`, if any.
pub open spec fn last_colon(s: Seq<char>) -> Option<int>
    decreases s.len(),
{
    if s.len() == 0 {
        None
    } else if s.last() == ':' {
        Some(s.len() - 1)
    } else {
        last_colon(s.drop_last())
    }
}

/// The host and port of `host:port`, split at the last colon, where the part after
/// it is a valid port number (`str::rsplit_once` then `str::parse::<u16>`).
pub open spec fn host_port_split(s: Seq<char>) -> Option<(Seq<char>, u16)> {
    match last_colon(s) {
        None => None,
        Some(k) => match parse_unsigned(s.subrange(k + 1, s.len() as int), 65535) {
            Some(p) => Some((s.take(k), p as u16)),
            None => None,
        },
    }
}

/// The host and port an endpoint's authority names, or the error reported for it:
/// a socket address or an IP address is written out in canonical form; otherwise
/// brackets are trimmed, and what remains is an IP address on the default port
/// (`[::1]`) or a host with an optional trailing `:port`; the default port stands
/// where none is given.
pub open spec fn host_port_result(value: Seq<char>, default_port: u16) -> Result<(Seq<char>, u16), Seq<char>> {
    if value.len() == 0 {
        Err("missing host"@)
    } else {
        match socket_from_text(value) {
            Some((ip, port)) => Ok((ip_text(ip), port)),
            None => match ip_from_text(value) {
                Some(ip) => Ok((ip_text(ip), default_port)),
                None => {
                    let b = trim_class(value, CharClass::Bracket);
                    match ip_from_text(b) {
                        Some(ip) => Ok((ip_text(ip), default_port)),
                        None => match host_port_split(b) {
                            Some((h, p)) => Ok((h, p)),
                            None => Ok((b, default_port)),
                        },
                    }
                },
            },
        }
    }
}

/// A parsed endpoint by its view: protocol, host, port and, for HTTPS, the path.
pub type EndpointView = (Seq<char>, Seq<char>, u16, Option<Seq<char>>);

/// An endpoint under a transport that has no path.
pub open spec fn plain_endpoint(protocol: Seq<char>, value: Seq<char>, default_port: u16) -> Result<EndpointView, Seq<char>> {
    match host_port_result(value, default_port) {
        Ok((h, p)) => Ok((protocol, h, p, None)),
        Err(e) => Err(e),
    }
}

/// The path used for DNS over HTTPS when the endpoint gives none.
pub open spec fn default_https_path() -> Seq<char> {
    "/dns-query"@
}

/// The index of the first `/` of `s`, or its length where there is none.
pub open spec fn first_slash(s: Seq<char>) -> int
    decreases s.len(),
{
    if s.len() == 0 {
        0
    } else {
        let r = first_slash(s.drop_last());
        if r < s.len() - 1 {
            r
        } else if s.last() == '/' {
            s.len() - 1
        } else {
            s.len() as int
        }
    }
}

/// An HTTPS endpoint: the authority before the first `/`, on port 443 unless it
/// names one, and the path from that `/` on, or the default path.
pub open spec fn https_endpoint(protocol: Seq<char>, value: Seq<char>) -> Result<EndpointView, Seq<char>> {
    let k = first_slash(value);
    let path = if k < value.len() {
        value.skip(k)
    } else {
        default_https_path()
    };
    match host_port_result(value.take(k), 443) {
        Ok((h, p)) => Ok((protocol, h, p, Some(path))),
        Err(e) => Err(e),
    }
}

/// What an endpoint selects: its scheme decides the transport and the default port.
pub open spec fn endpoint_result(e: Seq<char>) -> Result<EndpointView, Seq<char>> {
    if starts_with(e, "udp://"@) {
        plain_endpoint("udp"@, e.skip(6), 53)
    } else if starts_with(e, "tcp://"@) {
        plain_endpoint("tcp"@, e.skip(6), 53)
    } else if starts_with(e, "dot://"@) {
        plain_endpoint("tls"@, e.skip(6), 853)
    } else if starts_with(e, "tls://"@) {
        plain_endpoint("tls"@, e.skip(6), 853)
    } else if starts_with(e, "https://"@) {
        https_endpoint("https"@, e.skip(8))
    } else if starts_with(e, "doh://"@) {
        https_endpoint("https"@, e.skip(6))
    } else {
        plain_endpoint("udp"@, e, 53)
    }
}

/// A view of an optional string.
pub open spec fn opt_view(o: Option<String>) -> Option<Seq<char>> {
    match o {
        Some(s) => Some(s@),
        None => None,
    }
}

/// A parsed endpoint by its view.
pub open spec fn endpoint_view(r: Result<(&'static str, String, u16, Option<String>), String>) -> Result<EndpointView, Seq<char>> {
    match r {
        Ok((p, h, port, path)) => Ok((p@, h@, port, opt_view(path))),
        Err(e) => Err(e@),
    }
}

/// Splits `host:port` at the last colon where the rest is a port number.
pub fn split_host_port(value: &str) -> (r: Option<(&str, u16)>)
    ensures
        match r {
            Some((h, p)) => host_port_split(value@) == Some((h@, p)),
            None => host_port_split(value@) is None,
        },
{
    let v = chars_of(value);
    let mut i = v.len();
    assert(v@.take(i as int) =~= v@);
    while i > 0 && v[i - 1] != ':'
        invariant
            i <= v@.len(),
            v@ == value@,
            last_colon(v@) == last_colon(v@.take(i as int)),
        decreases i,
    {
        assert(v@.take(i as int).drop_last() =~= v@.take(i - 1));
        i = i - 1;
    }
    if i == 0 {
        assert(v@.take(0) =~= Seq::<char>::empty());
        return None;
    }
    assert(v@.take(i as int).last() == ':');
    let k = i - 1;
    match parse_unsigned_range(&v, k + 1, v.len(), 65535) {
        Some(p) => {
            let host = value.substring_char(0, k);
            assert(v@.take(k as int) =~= v@.subrange(0, k as int));
            Some((host, p as u16))
        },
        None => None,
    }
}

/// Reads an endpoint's authority: a socket address, an IP address, or a host name
/// with an optional `:port`.
pub fn parse_host_port(protocol: &'static str, value: &str, default_port: u16) -> (r: Result<(&'static str, String, u16, Option<String>), String>)
    ensures
        endpoint_view(r) == plain_endpoint(protocol@, value@, default_port),
{
    proof {
        reveal_strlit("missing host");
    }
    if value.unicode_len() == 0 {
        return Err(String::from_str("missing host"));
    }
    match parse_socket_text(value) {
        Some((ip, port)) => {
            return Ok((protocol, ip_to_string(ip), port, None));
        },
        None => {},
    }
    match parse_ip_text(value) {
        Some(ip) => {
            return Ok((protocol, ip_to_string(ip), default_port, None));
        },
        None => {},
    }
    let v = chars_of(value);
    assert(v@.subrange(0, v@.len() as int) =~= value@);
    let (a, b) = trim_range(&v, 0, v.len(), CharClass::Bracket);
    let bracketless = value.substring_char(a, b);
    match parse_ip_text(bracketless) {
        Some(ip) => {
            return Ok((protocol, ip_to_string(ip), default_port, None));
        },
        None => {},
    }
    match split_host_port(bracketless) {
        Some((host, port)) => Ok((protocol, String::from_str(host), port, None)),
        None => Ok((protocol, String::from_str(bracketless), default_port, None)),
    }
}

/// Once a prefix holds a `/`, longer prefixes have their first `/` at the same place.
pub proof fn lemma_first_slash_stable(s: Seq<char>, n: int)
    requires
        0 <= n <= s.len(),
        first_slash(s.take(n)) < n,
    ensures
        first_slash(s) == first_slash(s.take(n)),
    decreases s.len() - n,
{
    if n == s.len() {
        assert(s.take(n) =~= s);
    } else {
        assert(s.drop_last().take(n) =~= s.take(n));
        lemma_first_slash_stable(s.drop_last(), n);
    }
}

/// The index of the first `/` of `v`, or its length.
fn find_slash(v: &Vec<char>) -> (k: usize)
    ensures
        k == first_slash(v@),
        k <= v@.len(),
{
    let mut i: usize = 0;
    while i < v.len() && v[i] != '/'
        invariant
            i <= v@.len(),
            first_slash(v@.take(i as int)) == i,
        decreases v.len() - i,
    {
        assert(v@.take(i + 1).drop_last() =~= v@.take(i as int));
        i = i + 1;
    }
    if i < v.len() {
        assert(v@.take(i + 1).drop_last() =~= v@.take(i as int));
        proof {
            lemma_first_slash_stable(v@, (i + 1) as int);
        }
    } else {
        assert(v@.take(i as int) =~= v@);
    }
    i
}

/// Reads a DNS-over-HTTPS endpoint: `host[:port][/path]`.
pub fn parse_https_endpoint(protocol: &'static str, value: &str) -> (r: Result<(&'static str, String, u16, Option<String>), String>)
    ensures
        endpoint_view(r) == https_endpoint(protocol@, value@),
{
    proof {
        reveal_strlit("/dns-query");
    }
    let v = chars_of(value);
    let k = find_slash(&v);
    let authority = value.substring_char(0, k);
    let path = if k < v.len() {
        String::from_str(value.substring_char(k, v.len()))
    } else {
        String::from_str("/dns-query")
    };
    assert(value@.subrange(0, k as int) =~= value@.take(k as int));
    assert(value@.subrange(k as int, value@.len() as int) =~= value@.skip(k as int));
    match parse_host_port(protocol, authority, 443) {
        Ok((_, host, port, _)) => Ok((protocol, host, port, Some(path))),
        Err(e) => Err(e),
    }
}

/// Whether `s` starts with `prefix`.
fn text_starts_with(v: &Vec<char>, prefix: &str) -> (r: bool)
    ensures
        r == starts_with(v@, prefix@),
{
    let b = has_prefix_at(v, 0, v.len(), prefix);
    assert(v@.subrange(0, prefix@.len() as int) =~= v@.take(prefix@.len() as int));
    b
}

/// Reads an endpoint; its scheme selects the transport.
pub fn parse_endpoint(endpoint: &str) -> (r: Result<(&'static str, String, u16, Option<String>), String>)
    ensures
        endpoint_view(r) == endpoint_result(endpoint@),
{
    proof {
        reveal_strlit("udp://");
        reveal_strlit("tcp://");
        reveal_strlit("dot://");
        reveal_strlit("tls://");
        reveal_strlit("https://");
        reveal_strlit("doh://");
    }
    let v = chars_of(endpoint);
    let n = v.len();
    assert(endpoint@.subrange(6, n as int) =~= endpoint@.skip(6));
    assert(endpoint@.subrange(8, n as int) =~= endpoint@.skip(8));
    if text_starts_with(&v, "udp://") {
        parse_host_port("udp", endpoint.substring_char(6, n), 53)
    } else if text_starts_with(&v, "tcp://") {
        parse_host_port("tcp", endpoint.substring_char(6, n), 53)
    } else if text_starts_with(&v, "dot://") {
        parse_host_port("tls", endpoint.substring_char(6, n), 853)
    } else if text_starts_with(&v, "tls://") {
        parse_host_port("tls", endpoint.substring_char(6, n), 853)
    } else if text_starts_with(&v, "https://") {
        parse_https_endpoint("https", endpoint.substring_char(8, n))
    } else if text_starts_with(&v, "doh://") {
        parse_https_endpoint("https", endpoint.substring_char(6, n))
    } else {
        parse_host_port("udp", endpoint, 53)
    }
}

/// One server definition: where it stands, what it says, and what it selects.
#[derive(Debug)]
pub struct ParsedServer {
    /// The line number of the definition, counted from 1.
    pub line: u32,
    /// The definition as written, trimmed.
    pub raw: String,
    /// The transport: `udp`, `tcp`, `tls` or `https`.
    pub protocol: String,
    /// The host, a name or an address written out in canonical form.
    pub host: String,
    pub port: u16,
    /// The request path, for DNS over HTTPS only.
    pub path: Option<String>,
    /// The addresses to connect to in place of resolving the host.
    pub bootstrap: Vec<IpAddress>,
}

/// A server definition as plain values.
pub struct ServerView {
    pub line: u32,
    pub raw: Seq<char>,
    pub protocol: Seq<char>,
    pub host: Seq<char>,
    pub port: u16,
    pub path: Option<Seq<char>>,
    pub bootstrap: Seq<IpAddress>,
}

impl View for ParsedServer {
    type V = ServerView;

    open spec fn view(&self) -> ServerView {
        ServerView {
            line: self.line,
            raw: self.raw@,
            protocol: self.protocol@,
            host: self.host@,
            port: self.port,
            path: opt_view(self.path),
            bootstrap: self.bootstrap@,
        }
    }
}

/// The prefix `line N: ` of errors that concern a whole line.
pub open spec fn line_prefix(line: u32) -> Seq<char> {
    "line "@ + decimal_text(line as nat) + ": "@
}

/// What a server definition on line `line` gives: the first word is the endpoint,
/// the others are bootstrap addresses, which replace the global ones where there
/// are any.
pub open spec fn server_line_result(line: u32, input: Seq<char>, global: Seq<IpAddress>) -> Result<ServerView, Seq<char>> {
    let ws = words(input);
    if ws.len() == 0 {
        Err(line_prefix(line) + "empty server definition"@)
    } else {
        match collect_ips(ws.skip(1)) {
            Err(e) => Err(line_prefix(line) + e),
            Ok(inline) => {
                let bootstrap = if inline.len() == 0 {
                    global
                } else {
                    inline
                };
                match endpoint_result(ws[0]) {
                    Err(e) => Err(e),
                    Ok((protocol, host, port, path)) => Ok(
                        ServerView { line, raw: input, protocol, host, port, path, bootstrap },
                    ),
                }
            },
        }
    }
}

/// A parsed server by its view.
pub open spec fn server_view(r: Result<ParsedServer, String>) -> Result<ServerView, Seq<char>> {
    match r {
        Ok(s) => Ok(s@),
        Err(e) => Err(e@),
    }
}

/// The error `line N: <rest>`.
fn line_error(line: u32, rest: &str) -> (r: String)
    ensures
        r@ == line_prefix(line) + rest@,
{
    let mut msg = String::from_str("line ");
    push_decimal(&mut msg, line as u64);
    msg.append(": ");
    msg.append(rest);
    msg
}

/// Reads one server definition.
pub fn parse_server_line(line: u32, input: &str, global_bootstrap: &[IpAddress]) -> (r: Result<ParsedServer, String>)
    ensures
        server_view(r) == server_line_result(line, input@, global_bootstrap@),
{
    proof {
        reveal_strlit("empty server definition");
    }
    let v = chars_of(input);
    assert(v@.subrange(0, v@.len() as int) =~= input@);
    let ws = word_ranges(&v, 0, v.len());
    let ghost wv = words(input@);
    if ws.len() == 0 {
        return Err(line_error(line, "empty server definition"));
    }
    let mut inline: Vec<IpAddress> = Vec::new();
    let mut j: usize = 1;
    while j < ws.len()
        invariant
            v@ == input@,
            wv == words(input@),
            ws@.len() == wv.len(),
            forall|i: int|
                0 <= i < ws@.len() ==> 0 <= (#[trigger] ws@[i]).0 <= ws@[i].1 <= v@.len()
                    && v@.subrange(ws@[i].0 as int, ws@[i].1 as int) == wv[i],
            1 <= j <= ws@.len(),
            collect_ips(wv.skip(1).take(j - 1)) == Ok::<Seq<IpAddress>, Seq<char>>(inline@),
        decreases ws.len() - j,
    {
        let (a, b) = ws[j];
        let item = string_of_range(&v, a, b);
        let ghost rest = wv.skip(1);
        assert(rest.take(j as int).drop_last() =~= rest.take(j - 1));
        assert(rest.take(j as int).last() == wv[j as int]);
        match parse_ip_addr(item.as_str()) {
            Ok(ip) => {
                inline.push(ip);
            },
            Err(e) => {
                proof {
                    assert(rest =~= rest.take(j as int) + rest.skip(j as int));
                    crate::config::lemma_collect_ips_err_stays(rest.take(j as int), rest.skip(j as int));
                }
                return Err(line_error(line, e.as_str()));
            },
        }
        j = j + 1;
    }
    assert(wv.skip(1).take(j - 1) =~= wv.skip(1));
    let bootstrap = if inline.len() == 0 {
        vstd::slice::slice_to_vec(global_bootstrap)
    } else {
        inline
    };
    let (a, b) = ws[0];
    let endpoint = string_of_range(&v, a, b);
    match parse_endpoint(endpoint.as_str()) {
        Ok((protocol, host, port, path)) => Ok(
            ParsedServer {
                line,
                raw: String::from_str(input),
                protocol: String::from_str(protocol),
                host,
                port,
                path,
                bootstrap,
            },
        ),
        Err(e) => Err(e),
    }
}

/// A line terminated by a line feed loses a carriage return before it.
pub open spec fn strip_cr(p: Seq<char>) -> Seq<char> {
    if p.len() > 0 && p.last() == '\r' {
        p.drop_last()
    } else {
        p
    }
}

/// The lines of `s` as `str::lines` gives them: split at line feeds, without the
/// terminators `\n` and `\r\n`, and without an empty piece after a final line feed.
pub open spec fn text_lines(s: Seq<char>) -> Seq<Seq<char>> {
    let ps = split_class(s, CharClass::LineFeed);
    let n = ps.len();
    Seq::new(
        if ps[n - 1].len() == 0 {
            (n - 1) as nat
        } else {
            n
        },
        |i: int|
            if i < n - 1 {
                strip_cr(ps[i])
            } else {
                ps[i]
            },
    )
}

/// Whether a trimmed line holds no definition: it is empty or a `#` comment.
pub open spec fn is_skipped(t: Seq<char>) -> bool {
    t.len() == 0 || t[0] == '#'
}

/// The servers that the first `k` lines define, or the first error among them.
pub open spec fn servers_upto(lines: Seq<Seq<char>>, k: nat, global: Seq<IpAddress>) -> Result<Seq<ServerView>, Seq<char>>
    decreases k,
{
    if k == 0 {
        Ok(Seq::<ServerView>::empty())
    } else {
        match servers_upto(lines, (k - 1) as nat, global) {
            Err(e) => Err(e),
            Ok(servers) => {
                let t = trim(lines[k - 1]);
                if is_skipped(t) {
                    Ok(servers)
                } else {
                    match server_line_result(k as u32, t, global) {
                        Ok(sv) => Ok(servers.push(sv)),
                        Err(e) => Err(e),
                    }
                }
            },
        }
    }
}

/// The servers that a server list defines, or the first error in it.
pub open spec fn servers_result(s: Seq<char>, global: Seq<IpAddress>) -> Result<Seq<ServerView>, Seq<char>> {
    servers_upto(text_lines(s), text_lines(s).len(), global)
}

/// The views of parsed servers.
pub open spec fn server_views(v: Seq<ParsedServer>) -> Seq<ServerView> {
    v.map_values(|s: ParsedServer| s@)
}

/// A list of parsed servers by its view.
pub open spec fn servers_view(r: Result<Vec<ParsedServer>, String>) -> Result<Seq<ServerView>, Seq<char>> {
    match r {
        Ok(v) => Ok(server_views(v@)),
        Err(e) => Err(e@),
    }
}

/// Once a line fails, later lines do not change the outcome.
pub proof fn lemma_servers_err_stays(lines: Seq<Seq<char>>, k: nat, m: nat, global: Seq<IpAddress>)
    requires
        k <= m,
        servers_upto(lines, k, global) is Err,
    ensures
        servers_upto(lines, m, global) == servers_upto(lines, k, global),
    decreases m - k,
{
    if m > k {
        lemma_servers_err_stays(lines, k, (m - 1) as nat, global);
    }
}

/// Reads a server list, one definition per line; blank lines and lines starting
/// with `#` are skipped.
#[verifier::rlimit(40)]
#[verifier::spinoff_prover]
pub fn parse_servers(input: &str, global_bootstrap: &[IpAddress]) -> (r: Result<Vec<ParsedServer>, String>)
    ensures
        servers_view(r) == servers_result(input@, global_bootstrap@),
{
    let v = chars_of(input);
    assert(v@.subrange(0, v@.len() as int) =~= input@);
    let ranges = split_ranges(&v, 0, v.len(), CharClass::LineFeed);
    let ghost pieces = split_class(input@, CharClass::LineFeed);
    let ghost lines = text_lines(input@);
    proof {
        crate::text::lemma_split_class_nonempty(input@, CharClass::LineFeed);
    }
    let n = ranges.len();
    let (last_lo, last_hi) = ranges[n - 1];
    let count = if last_lo == last_hi {
        n - 1
    } else {
        n
    };
    assert(count == lines.len());
    let mut out: Vec<ParsedServer> = Vec::new();
    assert(server_views(out@) =~= Seq::<ServerView>::empty());
    let mut j: usize = 0;
    while j < count
        invariant
            v@ == input@,
            pieces == split_class(input@, CharClass::LineFeed),
            lines == text_lines(input@),
            n == ranges@.len() == pieces.len(),
            n >= 1,
            count == lines.len(),
            count <= n,
            forall|i: int|
                0 <= i < ranges@.len() ==> 0 <= (#[trigger] ranges@[i]).0 <= ranges@[i].1 <= v@.len()
                    && v@.subrange(ranges@[i].0 as int, ranges@[i].1 as int) == pieces[i],
            j <= count,
            servers_upto(lines, j as nat, global_bootstrap@) == Ok::<Seq<ServerView>, Seq<char>>(
                server_views(out@),
            ),
        decreases count - j,
    {
        let (lo, hi0) = ranges[j];
        let mut hi = hi0;
        if j + 1 < n && lo < hi && v[hi - 1] == '\r' {
            hi = hi - 1;
            assert(v@.subrange(lo as int, hi0 as int).drop_last() =~= v@.subrange(
                lo as int,
                hi as int,
            ));
        }
        assert(v@.subrange(lo as int, hi as int) == lines[j as int]);
        let (a, b) = trim_range(&v, lo, hi, CharClass::Space);
        let ghost t = trim(lines[j as int]);
        assert(t == v@.subrange(a as int, b as int));
        let ghost prev = server_views(out@);
        if a < b && v[a] != '#' {
            assert(t[0] == v@[a as int]);
            let text = string_of_range(&v, a, b);
            let ghost old_out = out@;
            let line = #[verifier::truncate] ((j + 1) as u32);
            match parse_server_line(line, text.as_str(), global_bootstrap) {
                Ok(server) => {
                    let ghost sv = server@;
                    out.push(server);
                    assert(out@.drop_last() =~= old_out);
                    assert(server_views(out@) =~= prev.push(sv));
                },
                Err(e) => {
                    proof {
                        lemma_servers_err_stays(lines, (j + 1) as nat, lines.len(), global_bootstrap@);
                    }
                    return Err(e);
                },
            }
        } else {
            if a < b {
                assert(t[0] == v@[a as int]);
            }
        }
        j = j + 1;
    }
    Ok(out)
}

/// A copy of a server definition.
pub fn clone_server(s: &ParsedServer) -> (r: ParsedServer)
    ensures
        r@ == s@,
{
    let path = match &s.path {
        Some(p) => Some(p.clone()),
        None => None,
    };
    ParsedServer {
        line: s.line,
        raw: s.raw.clone(),
        protocol: s.protocol.clone(),
        host: s.host.clone(),
        port: s.port,
        path,
        bootstrap: vstd::slice::slice_to_vec(s.bootstrap.as_slice()),
    }
}

} // verus!
