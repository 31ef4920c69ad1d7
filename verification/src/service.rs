//! The requests of the interface: what is parsed, in which order, before any
//! server is queried.

use vstd::prelude::*;
use crate::addr::IpAddress;
use crate::config::{
    Timeout, timeout_result, concurrency_of, collect_ips, bootstrap_items, expected_items,
    record_type_result, parse_timeout, parse_concurrency, parse_bootstrap_list, parse_expected,
    parse_record_type, err_view,
};
use crate::server::{
    ParsedServer, ServerView, servers_result, server_views, server_line_result, parse_servers,
    parse_server_line,
};
use crate::text::{texts, trim, chars_of, trim_range, string_of_range, CharClass};

verus! {

/// The answer to a request to expand a server list.
#[derive(Debug)]
pub struct ExpandServersResponse {
    pub servers: String,
    pub changed: bool,
    pub error: Option<String>,
}

/// Expands a server list; every list is already in its final form, so it comes
/// back unchanged.
pub fn expand_servers(
    servers: String,
    bootstrap: String,
    timeout: String,
    domain: String,
    query_type: String,
    expected: String,
    concurrency: String,
) -> (r: ExpandServersResponse)
    ensures
        r.servers@ == servers@,
        !r.changed,
        r.error is None,
{
    ExpandServersResponse { servers, changed: false, error: None }
}

/// Everything a batch of checks needs, parsed.
#[derive(Debug)]
pub struct BatchPlan {
    pub timeout: Timeout,
    pub concurrency: usize,
    pub expected: Vec<String>,
    pub record_type: u16,
    pub servers: Vec<ParsedServer>,
    /// The number of servers, as the interface counts them.
    pub total: u32,
}

/// The first error among a batch's settings, taken in the order timeout,
/// bootstrap addresses, record type, servers; `None` where there is none.
pub open spec fn batch_error(
    servers: Seq<char>,
    query_type: Seq<char>,
    bootstrap: Seq<char>,
    timeout: Seq<char>,
) -> Option<Seq<char>> {
    match timeout_result(timeout) {
        Err(e) => Some(e),
        Ok(_) => match collect_ips(bootstrap_items(bootstrap)) {
            Err(e) => Some(e),
            Ok(global) => match record_type_result(query_type) {
                Err(e) => Some(e),
                Ok(_) => match servers_result(servers, global) {
                    Err(e) => Some(e),
                    Ok(_) => None,
                },
            },
        },
    }
}

/// Parses the settings of a batch of checks.
pub fn prepare_batch(
    servers: &str,
    query_type: &str,
    expected: &str,
    bootstrap: &str,
    timeout: &str,
    concurrency: &str,
) -> (r: Result<BatchPlan, String>)
    ensures
        r is Err <==> batch_error(servers@, query_type@, bootstrap@, timeout@) is Some,
        r matches Err(e) ==> batch_error(servers@, query_type@, bootstrap@, timeout@) == Some(e@),
        r matches Ok(p) ==> {
            &&& err_view(Ok::<Timeout, String>(p.timeout)) == timeout_result(timeout@)
            &&& p.timeout.nanos < 1_000_000_000
            &&& p.concurrency == concurrency_of(concurrency@)
            &&& texts(p.expected@) == expected_items(expected@)
            &&& err_view(Ok::<u16, String>(p.record_type)) == record_type_result(query_type@)
            &&& exists|global: Seq<IpAddress>|
                collect_ips(bootstrap_items(bootstrap@)) == Ok::<Seq<IpAddress>, Seq<char>>(global)
                    && servers_result(servers@, global) == Ok::<Seq<ServerView>, Seq<char>>(
                    server_views(p.servers@),
                )
            &&& p.total == p.servers@.len() as u32
        },
{
    let timeout = parse_timeout(timeout)?;
    let concurrency = parse_concurrency(concurrency);
    let global = parse_bootstrap_list(bootstrap)?;
    let expected_values = parse_expected(expected);
    let record_type = parse_record_type(query_type)?;
    let parsed = parse_servers(servers, global.as_slice())?;
    let total = #[verifier::truncate] (parsed.len() as u32);
    Ok(
        BatchPlan {
            timeout,
            concurrency,
            expected: expected_values,
            record_type,
            servers: parsed,
            total,
        },
    )
}

/// A request to check one server.
#[derive(Debug)]
pub struct SingleCheckRequest {
    pub line: u32,
    pub server: String,
    pub domain: String,
    pub query_type: String,
    pub expected: String,
    pub bootstrap: String,
    pub timeout: String,
}

/// Everything a single check needs, parsed.
#[derive(Debug)]
pub struct SinglePlan {
    pub timeout: Timeout,
    pub expected: Vec<String>,
    pub record_type: u16,
    pub server: ParsedServer,
}

/// The first error among a single check's settings, taken in the order timeout,
/// bootstrap addresses, record type, server definition.
pub open spec fn single_error(
    line: u32,
    server: Seq<char>,
    query_type: Seq<char>,
    bootstrap: Seq<char>,
    timeout: Seq<char>,
) -> Option<Seq<char>> {
    match timeout_result(timeout) {
        Err(e) => Some(e),
        Ok(_) => match collect_ips(bootstrap_items(bootstrap)) {
            Err(e) => Some(e),
            Ok(global) => match record_type_result(query_type) {
                Err(e) => Some(e),
                Ok(_) => match server_line_result(line, trim(server), global) {
                    Err(e) => Some(e),
                    Ok(_) => None,
                },
            },
        },
    }
}

/// Parses the settings of a single check; the server definition is trimmed first.
pub fn prepare_single(request: &SingleCheckRequest) -> (r: Result<SinglePlan, String>)
    ensures
        r is Err <==> single_error(
            request.line,
            request.server@,
            request.query_type@,
            request.bootstrap@,
            request.timeout@,
        ) is Some,
        r matches Err(e) ==> single_error(
            request.line,
            request.server@,
            request.query_type@,
            request.bootstrap@,
            request.timeout@,
        ) == Some(e@),
        r matches Ok(p) ==> {
            &&& err_view(Ok::<Timeout, String>(p.timeout)) == timeout_result(request.timeout@)
            &&& p.timeout.nanos < 1_000_000_000
            &&& texts(p.expected@) == expected_items(request.expected@)
            &&& err_view(Ok::<u16, String>(p.record_type)) == record_type_result(request.query_type@)
            &&& exists|global: Seq<IpAddress>|
                collect_ips(bootstrap_items(request.bootstrap@)) == Ok::<Seq<IpAddress>, Seq<char>>(
                    global,
                ) && server_line_result(request.line, trim(request.server@), global) == Ok::<
                    ServerView,
                    Seq<char>,
                >(p.server@)
        },
{
    let timeout = parse_timeout(request.timeout.as_str())?;
    let global = parse_bootstrap_list(request.bootstrap.as_str())?;
    let expected_values = parse_expected(request.expected.as_str());
    let record_type = parse_record_type(request.query_type.as_str())?;
    let v = chars_of(request.server.as_str());
    assert(v@.subrange(0, v@.len() as int) =~= request.server@);
    let (a, b) = trim_range(&v, 0, v.len(), CharClass::Space);
    let definition = string_of_range(&v, a, b);
    let server = parse_server_line(request.line, definition.as_str(), global.as_slice())?;
    Ok(SinglePlan { timeout, expected: expected_values, record_type, server })
}

} // verus!
