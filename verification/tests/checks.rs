use dnschecker::addr::IpAddress;
use dnschecker::check::{
    assemble_batch, build_check_result, status_text, summarize_batch, CheckResult, CheckStatus,
    ServerLookup,
};
use dnschecker::addr::socket_to_string;
use dnschecker::config::Timeout;
use dnschecker::lookup::{
    require_addresses, upstream_step, UpstreamStep, all_upstreams_failed, connection_config, format_rdata, name_server_config, no_address_error,
    normalize_answers, plan_socket_addrs, protocol_config, resolve_error, resolver_opts,
    text_precedes, timeout_error, upstream_error, AnswerData, TransportConfig,
};
use dnschecker::server::{parse_server_line, ParsedServer};
use dnschecker::service::{expand_servers, prepare_batch, prepare_single, SingleCheckRequest};

fn strings(items: &[&str]) -> Vec<String> {
    items.iter().map(|s| s.to_string()).collect()
}

fn server(line: u32, text: &str) -> ParsedServer {
    parse_server_line(line, text, &[]).unwrap()
}

fn outcome(line: u32, status: CheckStatus) -> CheckResult {
    let expected = if status == CheckStatus::Success { vec![] } else { strings(&["x"]) };
    build_check_result(
        server(line, "223.5.5.5"),
        "example.com".to_string(),
        "A".to_string(),
        expected,
        Ok(strings(&["1.2.3.4"])),
        7,
    )
}

#[test]
fn matching_lookup_is_ok() {
    let r = build_check_result(
        server(1, "udp://223.5.5.5"),
        "example.com".to_string(),
        "A".to_string(),
        strings(&["1.2.3.4"]),
        Ok(strings(&["1.2.3.4", "5.6.7.8"])),
        1_500_000,
    );
    assert_eq!(r.elapsed_nanos, 1_500_000);
    assert_eq!(r.status, CheckStatus::Success);
    assert_eq!(status_text(r.status), "ok");
    assert_eq!(r.matched, Some(true));
    assert_eq!(r.error, None);
    assert_eq!(r.line, 1);
    assert_eq!(r.server, "udp://223.5.5.5");
    assert_eq!(r.protocol.as_deref(), Some("udp"));
    assert_eq!(r.response_code, None);
}

#[test]
fn mismatch_reports_both_lists() {
    let r = build_check_result(
        server(2, "223.5.5.5"),
        "example.com".to_string(),
        "A".to_string(),
        strings(&["9.9.9.9", "8.8.8.8"]),
        Ok(strings(&["1.2.3.4"])),
        0,
    );
    assert_eq!(r.status, CheckStatus::Failure);
    assert_eq!(status_text(r.status), "error");
    assert_eq!(r.matched, Some(false));
    assert_eq!(r.error.as_deref(), Some("expected [9.9.9.9, 8.8.8.8], got [1.2.3.4]"));
}

#[test]
fn failed_lookup_reports_its_error() {
    let r = build_check_result(
        server(2, "223.5.5.5"),
        "example.com".to_string(),
        "A".to_string(),
        vec![],
        Err("boom".to_string()),
        0,
    );
    assert_eq!(r.status, CheckStatus::Failure);
    assert_eq!(r.matched, None);
    assert!(r.answers.is_empty());
    assert_eq!(r.error.as_deref(), Some("boom"));
    let r = build_check_result(
        server(2, "223.5.5.5"),
        "example.com".to_string(),
        "A".to_string(),
        strings(&["1.2.3.4"]),
        Err("boom".to_string()),
        0,
    );
    assert_eq!(r.matched, Some(false));
}

#[test]
fn batch_is_sorted_and_counted() {
    let results = vec![
        outcome(5, CheckStatus::Success),
        outcome(2, CheckStatus::Failure),
        outcome(9, CheckStatus::Success),
        outcome(1, CheckStatus::Success),
    ];
    let summary = summarize_batch(results, 4);
    let lines: Vec<u32> = summary.results.iter().map(|r| r.line).collect();
    assert_eq!(lines, vec![1, 2, 5, 9]);
    assert_eq!(summary.total, 4);
    assert_eq!(summary.ok, 3);
    assert_eq!(summary.failed, 1);
    assert_eq!(summary.ok + summary.failed, summary.total);
}

#[test]
fn batch_keeps_order_within_a_line_and_saturates() {
    let mut a = outcome(3, CheckStatus::Success);
    a.domain = "first".to_string();
    let mut b = outcome(3, CheckStatus::Success);
    b.domain = "second".to_string();
    let summary = summarize_batch(vec![a, outcome(1, CheckStatus::Failure), b], 1);
    let domains: Vec<&str> = summary.results.iter().map(|r| r.domain.as_str()).collect();
    assert_eq!(domains, vec!["example.com", "first", "second"]);
    assert_eq!(summary.ok, 2);
    assert_eq!(summary.failed, 0);
}

#[test]
fn answers_are_sorted_and_deduplicated() {
    assert_eq!(normalize_answers(strings(&["b", "a", "b", "ab"])), strings(&["a", "ab", "b"]));
    assert_eq!(normalize_answers(vec![]), Vec::<String>::new());
    assert!(text_precedes("a", "b"));
    assert!(text_precedes("a", "ab"));
    assert!(!text_precedes("b", "ab"));
    assert!(!text_precedes("a", "a"));
}

#[test]
fn answers_are_written_out() {
    assert_eq!(format_rdata(AnswerData::Address(IpAddress::V4(0x0102_0304))), "1.2.3.4");
    assert_eq!(format_rdata(AnswerData::Address(IpAddress::V6(1))), "::1");
    assert_eq!(format_rdata(AnswerData::Name("dns.pub.".to_string())), "dns.pub.");
    assert_eq!(
        format_rdata(AnswerData::Text(vec![b"v=spf1".to_vec(), b"-all".to_vec()])),
        "v=spf1 -all"
    );
    assert_eq!(format_rdata(AnswerData::Text(vec![vec![0x66, 0xff]])), "f\u{fffd}");
    assert_eq!(format_rdata(AnswerData::Other("10 x.".to_string())), "10 x.");
}

#[test]
fn failure_messages() {
    assert_eq!(upstream_error("1.12.12.12:853", "timeout"), "1.12.12.12:853: timeout");
    assert_eq!(
        all_upstreams_failed("dot.pub", &strings(&["a: x", "b: y"])),
        "all upstream addresses failed for dot.pub: a: x; b: y"
    );
    assert_eq!(no_address_error("dot.pub"), "no address resolved for dot.pub");
    assert_eq!(resolve_error("dot.pub", "nxdomain"), "failed to resolve dot.pub: nxdomain");
    assert_eq!(timeout_error(Timeout { secs: 5, nanos: 0 }), "lookup timed out after 5s");
    assert_eq!(
        timeout_error(Timeout { secs: 1, nanos: 500_000_000 }),
        "lookup timed out after 1s 500ms"
    );
}

#[test]
fn addresses_to_try() {
    let s = server(1, "223.5.5.5");
    assert_eq!(plan_socket_addrs(&s), Some(vec![(IpAddress::V4(0xdf05_0505), 53)]));
    let s = server(1, "dot://dot.pub 1.12.12.12 120.53.53.53");
    assert_eq!(
        plan_socket_addrs(&s),
        Some(vec![(IpAddress::V4(0x010c_0c0c), 853), (IpAddress::V4(0x7835_3535), 853)])
    );
    let s = server(1, "dot://dot.pub");
    assert_eq!(plan_socket_addrs(&s), None);
}

#[test]
fn transports() {
    match protocol_config(&server(1, "dot://dot.pub 1.12.12.12")).unwrap() {
        TransportConfig::Tls { server_name } => assert_eq!(server_name, "dot.pub"),
        other => panic!("{other:?}"),
    }
    match protocol_config(&server(1, "doh://doh.pub")).unwrap() {
        TransportConfig::Https { server_name, path } => {
            assert_eq!(server_name, "doh.pub");
            assert_eq!(path, "/dns-query");
        }
        other => panic!("{other:?}"),
    }
    assert!(matches!(protocol_config(&server(1, "udp://1.1.1.1")), Ok(TransportConfig::Udp)));
    assert!(matches!(protocol_config(&server(1, "tcp://1.1.1.1")), Ok(TransportConfig::Tcp)));
    let mut s = server(1, "1.1.1.1");
    s.protocol = "quic".to_string();
    assert_eq!(protocol_config(&s).unwrap_err(), "unsupported protocol: quic");
    let c = connection_config(&server(1, "tcp://1.1.1.1"), 5353).unwrap();
    assert_eq!(c.port, 5353);
    let n = name_server_config(&server(1, "tcp://1.1.1.1"), 53, IpAddress::V4(1)).unwrap();
    assert_eq!(n.ip, IpAddress::V4(1));
    assert!(!n.trust_negative_responses);
    assert_eq!(n.connections.len(), 1);
    let o = resolver_opts(Timeout { secs: 3, nanos: 0 });
    assert_eq!((o.attempts, o.num_concurrent_reqs), (1, 1));
}

#[test]
fn expand_returns_list_unchanged() {
    let s = "udp://1.1.1.1\n# x".to_string();
    let r = expand_servers(
        s.clone(),
        String::new(),
        "5s".to_string(),
        "example.com".to_string(),
        "A".to_string(),
        String::new(),
        "4".to_string(),
    );
    assert_eq!(r.servers, s);
    assert!(!r.changed);
    assert_eq!(r.error, None);
}

#[test]
fn batch_settings_and_their_errors() {
    let p = prepare_batch("223.5.5.5\n\ndot://dot.pub", "A", "1.2.3.4", "1.1.1.1", "5s", "8").unwrap();
    assert_eq!(p.timeout, Timeout { secs: 5, nanos: 0 });
    assert_eq!(p.concurrency, 8);
    assert_eq!(p.record_type, 1);
    assert_eq!(p.expected, strings(&["1.2.3.4"]));
    assert_eq!(p.total, 2);
    assert_eq!(p.servers[1].line, 3);
    assert_eq!(p.servers[1].bootstrap, vec![IpAddress::V4(0x0101_0101)]);
    assert_eq!(
        prepare_batch("bad line x", "NOPE", "", "bad", "", "").unwrap_err(),
        "invalid timeout '': value was empty"
    );
    assert_eq!(
        prepare_batch("bad line x", "NOPE", "", "bad", "1s", "").unwrap_err(),
        "invalid bootstrap IP: bad"
    );
    assert_eq!(
        prepare_batch("bad line x", "NOPE", "", "", "1s", "").unwrap_err(),
        "unsupported record type: NOPE"
    );
    assert_eq!(
        prepare_batch("1.1.1.1 x", "A", "", "", "1s", "").unwrap_err(),
        "line 1: invalid bootstrap IP: x"
    );
}

#[test]
fn single_check_settings() {
    let request = SingleCheckRequest {
        line: 4,
        server: "  dot://dot.pub  ".to_string(),
        domain: "example.com".to_string(),
        query_type: "AAAA".to_string(),
        expected: "".to_string(),
        bootstrap: "1.12.12.12".to_string(),
        timeout: "2s".to_string(),
    };
    let p = prepare_single(&request).unwrap();
    assert_eq!(p.server.line, 4);
    assert_eq!(p.server.raw, "dot://dot.pub");
    assert_eq!(p.server.bootstrap, vec![IpAddress::V4(0x010c_0c0c)]);
    assert_eq!(p.record_type, 28);
    assert!(p.expected.is_empty());
    let bad = SingleCheckRequest { server: "   ".to_string(), ..request };
    assert_eq!(prepare_single(&bad).unwrap_err(), "line 4: empty server definition");
}

#[test]
fn failover_queries_each_address_in_order() {
    let addrs = strings(&["1.12.12.12:853", "120.53.53.53:853"]);
    let mut errors = Vec::new();
    assert!(matches!(upstream_step("dot.pub", &addrs, &mut errors, None), UpstreamStep::Query(0)));
    let step = upstream_step("dot.pub", &addrs, &mut errors, Some(Err("timeout".to_string())));
    assert!(matches!(step, UpstreamStep::Query(1)));
    assert_eq!(errors, strings(&["timeout"]));
    match upstream_step("dot.pub", &addrs, &mut errors, Some(Err("refused".to_string()))) {
        UpstreamStep::Finish(Err(e)) => assert_eq!(
            e,
            "all upstream addresses failed for dot.pub: 1.12.12.12:853: timeout; 120.53.53.53:853: refused"
        ),
        other => panic!("{other:?}"),
    }
}

#[test]
fn failover_stops_at_first_answer() {
    let addrs = strings(&["a", "b", "c"]);
    let mut errors = strings(&["x"]);
    match upstream_step("h", &addrs, &mut errors, Some(Ok(strings(&["1.2.3.4"])))) {
        UpstreamStep::Finish(Ok(answers)) => assert_eq!(answers, strings(&["1.2.3.4"])),
        other => panic!("{other:?}"),
    }
    let mut none = Vec::new();
    match upstream_step("h", &vec![], &mut none, None) {
        UpstreamStep::Finish(Err(e)) => assert_eq!(e, "all upstream addresses failed for h: "),
        other => panic!("{other:?}"),
    }
}

#[test]
fn resolved_addresses_must_not_be_empty() {
    assert_eq!(require_addresses("h", vec![1, 2]), Ok(vec![1, 2]));
    assert_eq!(require_addresses::<u8>("h", vec![]), Err("no address resolved for h".to_string()));
}

#[test]
fn batch_is_assembled_from_lookups() {
    let servers = vec![server(4, "udp://1.1.1.1"), server(2, "dot://dot.pub 1.12.12.12")];
    let lookups = vec![
        ServerLookup { index: 0, lookup: Ok(strings(&["1.2.3.4"])), elapsed_nanos: 5 },
        ServerLookup { index: 1, lookup: Err("timeout".to_string()), elapsed_nanos: 9 },
    ];
    let r = assemble_batch(&servers, "example.com", "A", &strings(&["1.2.3.4"]), lookups, 2);
    assert_eq!(r.results.len(), 2);
    assert_eq!((r.results[0].line, r.results[0].status), (2, CheckStatus::Failure));
    assert_eq!(r.results[0].error.as_deref(), Some("timeout"));
    assert_eq!(r.results[0].protocol.as_deref(), Some("tls"));
    assert_eq!((r.results[1].line, r.results[1].status), (4, CheckStatus::Success));
    assert_eq!(r.results[1].elapsed_nanos, 5);
    assert_eq!((r.total, r.ok, r.failed), (2, 1, 1));
    // The same outcome as a single check of that server.
    let single = build_check_result(
        server(4, "udp://1.1.1.1"),
        "example.com".to_string(),
        "A".to_string(),
        strings(&["1.2.3.4"]),
        Ok(strings(&["1.2.3.4"])),
        5,
    );
    assert_eq!(single.status, r.results[1].status);
    assert_eq!(single.server, r.results[1].server);
    assert_eq!(single.matched, r.results[1].matched);
}

#[test]
fn socket_addresses_are_written_out() {
    assert_eq!(socket_to_string(IpAddress::V4(0x010c_0c0c), 853, 0), "1.12.12.12:853");
    assert_eq!(socket_to_string(IpAddress::V6(1), 53, 0), "[::1]:53");
    assert_eq!(socket_to_string(IpAddress::V6(1), 53, 3), "[::1%3]:53");
    let v6 = core::net::SocketAddr::V6(core::net::SocketAddrV6::new(core::net::Ipv6Addr::LOCALHOST, 53, 0, 3));
    assert_eq!(socket_to_string(IpAddress::V6(1), 53, 3), v6.to_string());
    let v4: core::net::SocketAddr = "1.12.12.12:853".parse().unwrap();
    assert_eq!(socket_to_string(IpAddress::V4(0x010c_0c0c), 853, 0), v4.to_string());
}
