use tul::config::{get_bufsize, get_doh_host, get_expected_hash, get_prefix_trojan};

#[test]
fn expected_hash_is_56_lowercase_hex() {
    for pw in [&b"password"[..], b"", b"abc", b"a much longer passphrase \xff\x00"] {
        let h = get_expected_hash(pw);
        assert_eq!(h.len(), 56);
        assert!(h
            .iter()
            .all(|b| (b'0'..=b'9').contains(b) || (b'a'..=b'f').contains(b)));
    }
}

#[test]
fn expected_hash_known_vectors() {
    // SHA-224("abc") and SHA-224(""), per FIPS 180 examples
    assert_eq!(
        get_expected_hash(b"abc"),
        b"23097d223405d8228642a477bda255b32aadbce4bda0b3f7e36c9da7".to_vec()
    );
    assert_eq!(
        get_expected_hash(b""),
        b"d14a028c2a3a2bc9476102bb288234c415a2b01f828ea62ac5b3e42f".to_vec()
    );
}

#[test]
fn doh_host_default() {
    assert_eq!(get_doh_host(None), "1.1.1.1");
    assert_eq!(get_doh_host(Some("9.9.9.9".to_string())), "9.9.9.9");
}

#[test]
fn tj_prefix_default_and_slash() {
    assert_eq!(get_prefix_trojan(None), "/tj");
    assert_eq!(get_prefix_trojan(Some("/ws".to_string())), "/ws");
    assert_eq!(get_prefix_trojan(Some("ws".to_string())), "/ws");
    assert_eq!(get_prefix_trojan(Some(String::new())), "/");
}

#[test]
fn bufsize_parse_and_default() {
    assert_eq!(get_bufsize(None), 2048);
    assert_eq!(get_bufsize(Some("4096".to_string())), 4096);
    assert_eq!(get_bufsize(Some("0".to_string())), 0);
    assert_eq!(get_bufsize(Some("".to_string())), 2048);
    assert_eq!(get_bufsize(Some("12ab".to_string())), 2048);
    assert_eq!(get_bufsize(Some("99999999999999999999999999".to_string())), 2048);
}
