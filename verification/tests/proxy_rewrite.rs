use tul::api::{
    build_forward_headers, build_upstream_headers, registry_upstream, replace_host,
    response_is_html, rewrite_location, rewrite_response_headers,
};

fn hget<'a>(h: &'a [(String, String)], name: &str) -> Option<&'a str> {
    h.iter().find(|(n, _)| n == name).map(|(_, v)| v.as_str())
}

fn hdrs(pairs: &[(&str, &str)]) -> Vec<(String, String)> {
    pairs
        .iter()
        .map(|(n, v)| (n.to_string(), v.to_string()))
        .collect()
}

#[test]
fn upstream_request_strips_hop_headers() {
    let h = hdrs(&[
        ("accept", "*/*"),
        ("Connection", "keep-alive"),
        ("Keep-Alive", "timeout=5"),
        ("proxy-authorization", "Basic xyz"),
        ("TE", "trailers"),
        ("trailers", "x"),
        ("Transfer-Encoding", "chunked"),
        ("Upgrade", "h2c"),
        ("proxy-authenticate", "Basic"),
        ("host", "mirror.test"),
        ("referer", "https://mirror.test/"),
        ("x-custom", "kept"),
    ]);
    let r = build_upstream_headers(&h, "registry-1.docker.io");
    let hop = [
        "connection",
        "keep-alive",
        "proxy-authenticate",
        "proxy-authorization",
        "te",
        "trailers",
        "transfer-encoding",
        "upgrade",
    ];
    for (name, _) in &r {
        assert!(!hop.contains(&name.to_ascii_lowercase().as_str()), "{name} leaked upstream");
    }
    assert_eq!(hget(&r, "host"), Some("registry-1.docker.io"));
    assert_eq!(hget(&r, "referer"), Some(""));
    assert_eq!(hget(&r, "accept"), Some("*/*"));
    assert_eq!(hget(&r, "x-custom"), Some("kept"));
}

#[test]
fn forward_headers_keep_referer() {
    let h = hdrs(&[("referer", "kept"), ("connection", "close"), ("host", "old")]);
    let r = build_forward_headers(&h, "1.1.1.1");
    assert_eq!(hget(&r, "referer"), Some("kept"));
    assert_eq!(hget(&r, "connection"), None);
    assert_eq!(hget(&r, "host"), Some("1.1.1.1"));
}

#[test]
fn registry_redirect_rewritten_to_path() {
    // an upstream 302 with a path location gains the upstream host
    let h = hdrs(&[("location", "/v2/library/alpine/blobs/sha256:abc")]);
    let r = rewrite_response_headers(&h, 302, "registry-1.docker.io", "mirror.test", false);
    assert_eq!(
        hget(&r, "location"),
        Some("/registry-1.docker.io/v2/library/alpine/blobs/sha256:abc")
    );
}

#[test]
fn storage_redirect_passes_through() {
    let loc = "https://xyz.r2.cloudflarestorage.com/some/blob?sig=1";
    let h = hdrs(&[("location", loc)]);
    let r = rewrite_response_headers(&h, 307, "registry-1.docker.io", "mirror.test", false);
    assert_eq!(hget(&r, "location"), Some(loc));
}

#[test]
fn absolute_redirect_rerooted_under_mirror() {
    let h = hdrs(&[("location", "https://registry-1.docker.io/v2/")]);
    let r = rewrite_response_headers(&h, 301, "registry-1.docker.io", "mirror.test", false);
    assert_eq!(
        hget(&r, "location"),
        Some("https://mirror.test/registry-1.docker.io/v2/")
    );
    // outside the redirect range the location passes through
    let r = rewrite_response_headers(&h, 200, "registry-1.docker.io", "mirror.test", false);
    assert_eq!(hget(&r, "location"), Some("https://registry-1.docker.io/v2/"));
}

#[test]
fn registry_401_challenge_rewritten() {
    let h = hdrs(&[(
        "www-authenticate",
        "Bearer realm=\"https://auth.docker.io/token\",service=\"registry.docker.io\"",
    )]);
    let r = rewrite_response_headers(&h, 401, "registry-1.docker.io", "mirror.test", false);
    assert_eq!(
        hget(&r, "www-authenticate"),
        Some("Bearer realm=\"https://mirror.test/auth.docker.io/token\",service=\"registry.docker.io\"")
    );
}

#[test]
fn set_cookie_host_replaced() {
    let h = hdrs(&[("set-cookie", "sid=1; Domain=example.com; Path=/")]);
    let r = rewrite_response_headers(&h, 200, "example.com", "mirror.test", false);
    assert_eq!(hget(&r, "set-cookie"), Some("sid=1; Domain=mirror.test; Path=/"));
}

#[test]
fn security_headers_forced() {
    let h = hdrs(&[
        ("content-security-policy", "default-src 'self'"),
        ("content-encoding", "gzip"),
        ("content-type", "text/html; charset=utf-8"),
        ("connection", "close"),
    ]);
    let r = rewrite_response_headers(&h, 200, "example.com", "mirror.test", true);
    assert_eq!(hget(&r, "content-security-policy"), None);
    assert_eq!(hget(&r, "content-encoding"), None);
    assert_eq!(hget(&r, "connection"), None);
    assert_eq!(hget(&r, "access-control-allow-origin"), Some("*"));
    assert_eq!(hget(&r, "content-type"), Some("text/html; charset=utf-8"));
    // a non-HTML response keeps its encoding
    let r = rewrite_response_headers(&h, 200, "example.com", "mirror.test", false);
    assert_eq!(hget(&r, "content-encoding"), Some("gzip"));
}

#[test]
fn html_detected_from_content_type() {
    assert!(response_is_html(&hdrs(&[("Content-Type", "text/html; charset=utf-8")])));
    assert!(!response_is_html(&hdrs(&[("content-type", "application/json")])));
    assert!(!response_is_html(&hdrs(&[("x-other", "text/html")])));
}

#[test]
fn location_rewrite_directly() {
    assert_eq!(rewrite_location("/v2/x", "up.test", "my.test"), "/up.test/v2/x");
    assert_eq!(
        rewrite_location("https://other.test/a", "up.test", "my.test"),
        "https://my.test/other.test/a"
    );
    assert_eq!(rewrite_location("ftp://odd", "up.test", "my.test"), "ftp://odd");
}

#[test]
fn html_body_attributes_rerooted() {
    let body = "<a href=\"https://cdn.test/app.js\"><img src='//static.test/x.png'>";
    let out = replace_host(body, "example.com", "mirror.test");
    assert_eq!(
        out,
        "<a href=\"https://mirror.test/cdn.test/app.js\"><img src='https://mirror.test/static.test/x.png'>"
    );
}

#[test]
fn html_body_upstream_host_rerooted() {
    let body = "see //example.com/page and https://example.com/x";
    let out = replace_host(body, "example.com", "mirror.test");
    assert_eq!(
        out,
        "see //mirror.test/example.com/page and https://mirror.test/example.com/x"
    );
}

#[test]
fn replace_host_twice_equals_once() {
    // a body whose rewrite leaves no further attribute match and no bare
    // upstream host: the second pass changes nothing
    let body = "see //example.com/page and <p>plain text</p>";
    let once = replace_host(body, "example.com", "mirror.test");
    let twice = replace_host(&once, "example.com", "mirror.test");
    assert_eq!(twice, once);
}

#[test]
fn registry_upstream_table() {
    for ns in ["gcr.io", "quay.io", "ghcr.io", "registry.k8s.io"] {
        assert_eq!(registry_upstream(Some(&ns.to_string())), ns);
    }
    assert_eq!(
        registry_upstream(Some(&"docker.io".to_string())),
        "registry-1.docker.io"
    );
    assert_eq!(registry_upstream(None), "registry-1.docker.io");
}
