use tul::address::Address;
use tul::router::{
    build_doh_url, build_mirror_url, cookie_value, mirror_decide, mirror_set_cookie,
    needs_resolve, parse_cookies, route_for, MirrorOutcome, ProxyRequestKind,
};

#[test]
fn routes_by_path_prefix() {
    assert_eq!(route_for("/dns-query", "/tj"), ProxyRequestKind::DnsQuery);
    assert_eq!(route_for("/tj/stream", "/tj"), ProxyRequestKind::Tunnel);
    assert_eq!(route_for("/tj", "/tj"), ProxyRequestKind::Tunnel);
    assert_eq!(route_for("/v2/library/alpine/manifests/latest", "/tj"), ProxyRequestKind::Registry);
    assert_eq!(route_for("/example.com", "/tj"), ProxyRequestKind::Mirror);
    assert_eq!(route_for("/", "/tj"), ProxyRequestKind::Mirror);
}

#[test]
fn cookies_parsed_and_looked_up() {
    let pairs = parse_cookies("a=1; tul_host=example.com; b=x=y;   c ; d=");
    assert_eq!(pairs[0], ("a".to_string(), "1".to_string()));
    assert_eq!(pairs[1], ("tul_host".to_string(), "example.com".to_string()));
    assert_eq!(pairs[2], ("b".to_string(), "x=y".to_string()));
    assert_eq!(pairs[3], ("d".to_string(), "".to_string()));
    assert_eq!(pairs.len(), 4);
    assert_eq!(cookie_value(&pairs, "tul_host"), Some("example.com".to_string()));
    assert_eq!(cookie_value(&pairs, "missing"), None);
    // a repeated name yields its last value
    let pairs = parse_cookies("k=1; k=2");
    assert_eq!(cookie_value(&pairs, "k"), Some("2".to_string()));
}

#[test]
fn resolve_only_dotted_domains() {
    assert!(needs_resolve(&Some("example.com".to_string())));
    assert!(!needs_resolve(&Some("favicon".to_string())));
    assert!(!needs_resolve(&None));
}

#[test]
fn mirror_sticky_cookie_flow() {
    // first request: GET /example.com resolves; a bare domain earns the
    // sticky cookie on its HTML response
    let r = mirror_decide(
        Some("example.com".to_string()),
        None,
        None,
        true,
        None,
        "/example.com",
    );
    let (domain, port, path, onlydomain) = match r {
        MirrorOutcome::Forward { domain, port, path, onlydomain } => (domain, port, path, onlydomain),
        _ => panic!("expected a forward"),
    };
    assert_eq!(domain, "example.com");
    assert!(port.is_none() && path.is_none());
    assert!(onlydomain);
    let url = build_mirror_url(&domain, &port, &path, None);
    assert_eq!(url, "https://example.com");
    let resp_headers = vec![("content-type".to_string(), "text/html".to_string())];
    let cookie = mirror_set_cookie(&resp_headers, onlydomain, &domain).unwrap();
    assert_eq!(cookie, "tul_host=example.com; Path=/; Max-Age=3600");

    // second request: /favicon.ico does not resolve, the cookie re-targets it
    let cookies = parse_cookies(&format!("tul_host={}", "example.com"));
    let sticky = cookie_value(&cookies, "tul_host");
    let r = mirror_decide(
        Some("favicon.ico".to_string()),
        None,
        None,
        false,
        sticky,
        "/favicon.ico",
    );
    match r {
        MirrorOutcome::Forward { domain, port, path, onlydomain } => {
            assert_eq!(domain, "example.com");
            assert!(port.is_none());
            assert_eq!(path.as_deref(), Some("/favicon.ico"));
            assert!(!onlydomain);
            let url = build_mirror_url(&domain, &port, &path, None);
            assert_eq!(url, "https://example.com/favicon.ico");
        }
        _ => panic!("cookie fallback must forward"),
    }

    // no JSON response earns a cookie
    let json_headers = vec![("content-type".to_string(), "application/json".to_string())];
    assert!(mirror_set_cookie(&json_headers, true, "example.com").is_none());
    assert!(mirror_set_cookie(&resp_headers, false, "example.com").is_none());
}

#[test]
fn mirror_without_domain_or_cookie_is_not_found() {
    let r = mirror_decide(None, None, None, false, None, "/x");
    assert!(matches!(r, MirrorOutcome::NotFound));
}

#[test]
fn mirror_url_built_with_port_path_query() {
    let q = vec![
        ("a".to_string(), "1".to_string()),
        ("b".to_string(), "2".to_string()),
    ];
    let url = build_mirror_url(
        "example.com",
        &Some("8080".to_string()),
        &Some("/p/q".to_string()),
        Some(&q),
    );
    assert_eq!(url, "https://example.com:8080/p/q?a=1&b=2");
    let url = build_mirror_url("example.com", &None, &None, Some(&Vec::new()));
    assert_eq!(url, "https://example.com?");
}

#[test]
fn doh_url_built() {
    assert_eq!(
        build_doh_url("1.1.1.1", "/dns-query", Some(&"name=example.com&type=A".to_string())),
        "https://1.1.1.1/dns-query?name=example.com&type=A"
    );
    assert_eq!(build_doh_url("1.1.1.1", "/dns-query", None), "https://1.1.1.1/dns-query");
}

#[test]
fn address_display_strings() {
    assert_eq!(Address::Ipv4([93, 184, 216, 34]).host_string(), "93.184.216.34");
    assert_eq!(Address::Ipv4([0, 0, 0, 0]).host_string(), "0.0.0.0");
    assert_eq!(Address::Domain(b"example.com".to_vec()).host_string(), "example.com");
    let v6 = Address::Ipv6([
        0x20, 0x01, 0x0d, 0xb8, 0x00, 0x00, 0x00, 0x00, 0x00, 0x00, 0x00, 0x00, 0x00, 0x00,
        0x00, 0x01,
    ]);
    assert_eq!(v6.host_string(), "2001:db8:0:0:0:0:0:1");
}
