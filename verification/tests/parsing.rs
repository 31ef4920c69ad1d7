use dnschecker::addr::IpAddress;
use dnschecker::config::{
    matches_expected, parse_bootstrap_list, parse_concurrency, parse_expected, parse_ip_addr,
    parse_record_type, parse_timeout, Timeout,
};
use dnschecker::server::{
    parse_endpoint, parse_host_port, parse_https_endpoint, parse_server_line, parse_servers,
    split_host_port,
};

fn strings(items: &[&str]) -> Vec<String> {
    items.iter().map(|s| s.to_string()).collect()
}

#[test]
fn expected_items_are_trimmed_and_non_empty() {
    assert_eq!(parse_expected(" a, ,B ,"), strings(&["a", "B"]));
    assert_eq!(parse_expected(""), Vec::<String>::new());
    assert_eq!(parse_expected("1.2.3.4,\t5.6.7.8 "), strings(&["1.2.3.4", "5.6.7.8"]));
}

#[test]
fn matching_ignores_ascii_case() {
    let answers = strings(&["Dns.Example.", "1.2.3.4"]);
    assert!(matches_expected(&answers, &strings(&["dns.example."])));
    assert!(matches_expected(&answers, &strings(&["1.2.3.4", "DNS.EXAMPLE."])));
    assert!(!matches_expected(&answers, &strings(&["5.6.7.8"])));
    assert!(matches_expected(&[], &[]));
    assert!(!matches_expected(&[], &strings(&["a"])));
}

#[test]
fn more_answers_keep_a_match() {
    let expected = strings(&["a"]);
    assert!(matches_expected(&strings(&["A"]), &expected));
    assert!(matches_expected(&strings(&["A", "b", "c"]), &expected));
}

#[test]
fn concurrency_defaults_and_bounds() {
    assert_eq!(parse_concurrency(""), 32);
    assert_eq!(parse_concurrency("abc"), 32);
    assert_eq!(parse_concurrency("0"), 32);
    assert_eq!(parse_concurrency("-4"), 32);
    assert_eq!(parse_concurrency(" 5 "), 5);
    assert_eq!(parse_concurrency("+7"), 7);
    assert_eq!(parse_concurrency("256"), 256);
    assert_eq!(parse_concurrency("300"), 256);
    assert_eq!(parse_concurrency("99999999999999999999999999"), 32);
}

#[test]
fn timeouts_parse_with_units() {
    assert_eq!(parse_timeout("5s"), Ok(Timeout { secs: 5, nanos: 0 }));
    assert_eq!(parse_timeout(" 1500ms "), Ok(Timeout { secs: 1, nanos: 500_000_000 }));
    assert_eq!(parse_timeout("0"), Ok(Timeout { secs: 0, nanos: 0 }));
    assert_eq!(parse_timeout("  "), Err("invalid timeout '  ': value was empty".to_string()));
    assert_eq!(parse_timeout("100000000000ns"), Ok(Timeout { secs: 100, nanos: 0 }));
    assert_eq!(parse_timeout("1h 30min"), Ok(Timeout { secs: 5400, nanos: 0 }));
    assert_eq!(parse_timeout("1.5s"), Ok(Timeout { secs: 1, nanos: 500_000_000 }));
    assert_eq!(
        parse_timeout("18446744073709551615s"),
        Ok(Timeout { secs: u64::MAX, nanos: 0 })
    );
    assert_eq!(
        parse_timeout("18446744073709551615s 1000000000ns"),
        Err("invalid timeout '18446744073709551615s 1000000000ns': duration too large".to_string())
    );
    assert_eq!(
        parse_timeout("600000000000y"),
        Err("invalid timeout '600000000000y': duration too large".to_string())
    );
    let err = parse_timeout("abc").unwrap_err();
    assert!(err.starts_with("invalid timeout 'abc': "), "{err}");
}

#[test]
fn record_types_by_mnemonic() {
    assert_eq!(parse_record_type("A"), Ok(1));
    assert_eq!(parse_record_type(" AAAA "), Ok(28));
    assert_eq!(parse_record_type("TXT"), Ok(16));
    assert_eq!(parse_record_type("BOGUS"), Err("unsupported record type: BOGUS".to_string()));
}

#[test]
fn bootstrap_addresses() {
    assert_eq!(parse_ip_addr("[::1]"), Ok(IpAddress::V6(1)));
    assert_eq!(parse_ip_addr("::1"), Ok(IpAddress::V6(1)));
    assert_eq!(parse_ip_addr(" 1.2.3.4 "), Ok(IpAddress::V4(0x0102_0304)));
    assert_eq!(parse_ip_addr("x"), Err("invalid bootstrap IP: x".to_string()));
    assert_eq!(
        parse_bootstrap_list("1.1.1.1, 8.8.8.8\t9.9.9.9"),
        Ok(vec![IpAddress::V4(0x0101_0101), IpAddress::V4(0x0808_0808), IpAddress::V4(0x0909_0909)])
    );
    assert_eq!(parse_bootstrap_list(""), Ok(vec![]));
    assert_eq!(
        parse_bootstrap_list("1.1.1.1,bad,worse"),
        Err("invalid bootstrap IP: bad".to_string())
    );
}

#[test]
fn host_and_port_split_at_last_colon() {
    assert_eq!(split_host_port("dot.pub:853"), Some(("dot.pub", 853)));
    assert_eq!(split_host_port("a:b:53"), Some(("a:b", 53)));
    assert_eq!(split_host_port("h:+53"), Some(("h", 53)));
    assert_eq!(split_host_port("host"), None);
    assert_eq!(split_host_port("h:99999"), None);
    assert_eq!(split_host_port("h:"), None);
}

#[test]
fn authorities() {
    let ok = |p: &'static str, h: &str, port: u16| -> Result<(&'static str, String, u16, Option<String>), String> {
        Ok((p, h.to_string(), port, None))
    };
    assert_eq!(parse_host_port("udp", "1.2.3.4:5353", 53), ok("udp", "1.2.3.4", 5353));
    assert_eq!(parse_host_port("udp", "2400:3200:baba::1", 53), ok("udp", "2400:3200:baba::1", 53));
    assert_eq!(parse_host_port("udp", "2400:3200:0:0:0:0:0:1", 53), ok("udp", "2400:3200::1", 53));
    assert_eq!(parse_host_port("tls", "[2400:3200::1]:853", 853), ok("tls", "2400:3200::1", 853));
    assert_eq!(parse_host_port("udp", "dns.alidns.com", 53), ok("udp", "dns.alidns.com", 53));
    assert_eq!(parse_host_port("tls", "dot.pub:8853", 853), ok("tls", "dot.pub", 8853));
    assert_eq!(parse_host_port("udp", "", 53), Err("missing host".to_string()));
    assert_eq!(parse_host_port("udp", "[2400:3200::1]", 53), ok("udp", "2400:3200::1", 53));
    assert_eq!(parse_host_port("udp", "[2400:3200:baba::1]", 53), ok("udp", "2400:3200:baba::1", 53));
    assert_eq!(parse_endpoint("tls://[2400:3200::1]").unwrap().2, 853);
}

#[test]
fn https_endpoints() {
    assert_eq!(
        parse_https_endpoint("https", "dns.alidns.com/dns-query"),
        Ok(("https", "dns.alidns.com".to_string(), 443, Some("/dns-query".to_string())))
    );
    assert_eq!(
        parse_https_endpoint("https", "doh.pub:8443/q/x"),
        Ok(("https", "doh.pub".to_string(), 8443, Some("/q/x".to_string())))
    );
    assert_eq!(
        parse_https_endpoint("https", "dns.alidns.com"),
        Ok(("https", "dns.alidns.com".to_string(), 443, Some("/dns-query".to_string())))
    );
    assert_eq!(parse_https_endpoint("https", "/path"), Err("missing host".to_string()));
}

#[test]
fn schemes_select_transport_and_default_port() {
    let get = |e: &str| {
        let (p, h, port, path) = parse_endpoint(e).unwrap();
        (p, h, port, path)
    };
    assert_eq!(get("udp://223.5.5.5"), ("udp", "223.5.5.5".to_string(), 53, None));
    assert_eq!(get("tcp://119.29.29.29"), ("tcp", "119.29.29.29".to_string(), 53, None));
    assert_eq!(get("dot://dot.pub"), ("tls", "dot.pub".to_string(), 853, None));
    assert_eq!(get("tls://dns.alidns.com"), ("tls", "dns.alidns.com".to_string(), 853, None));
    assert_eq!(
        get("https://dns.alidns.com"),
        ("https", "dns.alidns.com".to_string(), 443, Some("/dns-query".to_string()))
    );
    assert_eq!(
        get("doh://doh.pub/dns-query"),
        ("https", "doh.pub".to_string(), 443, Some("/dns-query".to_string()))
    );
    assert_eq!(get("223.5.5.5"), ("udp", "223.5.5.5".to_string(), 53, None));
    assert_eq!(get("dns.alidns.com:5353"), ("udp", "dns.alidns.com".to_string(), 5353, None));
}

#[test]
fn server_line_with_bootstrap() {
    let s = parse_server_line(3, "dot://dot.pub:853 1.12.12.12", &[]).unwrap();
    assert_eq!(s.line, 3);
    assert_eq!(s.raw, "dot://dot.pub:853 1.12.12.12");
    assert_eq!(s.protocol, "tls");
    assert_eq!(s.host, "dot.pub");
    assert_eq!(s.port, 853);
    assert_eq!(s.path, None);
    assert_eq!(s.bootstrap, vec![IpAddress::V4(0x010c_0c0c)]);
}

#[test]
fn server_line_uses_global_bootstrap_without_column() {
    let global = [IpAddress::V4(0x0101_0101)];
    let s = parse_server_line(1, "dot://dot.pub", &global).unwrap();
    assert_eq!(s.bootstrap, global.to_vec());
    let t = parse_server_line(1, "dot://dot.pub 8.8.8.8", &global).unwrap();
    assert_eq!(t.bootstrap, vec![IpAddress::V4(0x0808_0808)]);
    assert_eq!((s.host, s.port, s.protocol), (t.host, t.port, t.protocol));
}

#[test]
fn server_line_errors() {
    assert_eq!(
        parse_server_line(7, "   ", &[]).unwrap_err(),
        "line 7: empty server definition"
    );
    assert_eq!(
        parse_server_line(12, "udp://1.1.1.1 nope", &[]).unwrap_err(),
        "line 12: invalid bootstrap IP: nope"
    );
    assert_eq!(parse_server_line(2, "udp://", &[]).unwrap_err(), "missing host");
    assert_eq!(
        parse_server_line(2, "udp:// nope", &[]).unwrap_err(),
        "line 2: invalid bootstrap IP: nope"
    );
}

#[test]
fn server_list_skips_blank_and_comment_lines() {
    let list = parse_servers("# AliDNS\n\n  223.5.5.5\r\ntcp://119.29.29.29\n", &[]).unwrap();
    assert_eq!(list.len(), 2);
    assert_eq!((list[0].line, list[0].raw.as_str()), (3, "223.5.5.5"));
    assert_eq!((list[1].line, list[1].protocol.as_str()), (4, "tcp"));
    assert!(parse_servers("", &[]).unwrap().is_empty());
}

#[test]
fn server_list_reports_first_error() {
    assert_eq!(
        parse_servers("1.1.1.1\n2.2.2.2 bad\n3.3.3.3 worse", &[]).unwrap_err(),
        "line 2: invalid bootstrap IP: bad"
    );
}
