use tul::address::Address;
use tul::cidr::get_cf_cidr_prefix;
use tul::dns::{build_dns_query, is_cf_address, parse_first_a, skip_name, ResolverError};

const CF_NETWORKS: [[u8; 4]; 14] = [
    [103, 22, 200, 0],
    [103, 31, 4, 0],
    [104, 16, 0, 0],
    [104, 24, 0, 0],
    [108, 162, 192, 0],
    [131, 0, 72, 0],
    [141, 101, 64, 0],
    [162, 158, 0, 0],
    [172, 64, 0, 0],
    [173, 245, 48, 0],
    [188, 114, 96, 0],
    [190, 93, 240, 0],
    [197, 234, 240, 0],
    [198, 41, 128, 0],
];

#[test]
fn every_listed_network_is_self_provider() {
    let trie = get_cf_cidr_prefix();
    for net in CF_NETWORKS {
        assert!(trie.contains_v4(net), "{net:?} should be covered");
        assert_eq!(
            is_cf_address(&trie, &Address::Ipv4(net), None).unwrap(),
            (true, net)
        );
    }
}

#[test]
fn public_resolver_is_not_self_provider() {
    let trie = get_cf_cidr_prefix();
    assert!(!trie.contains_v4([8, 8, 8, 8]));
    assert_eq!(
        is_cf_address(&trie, &Address::Ipv4([8, 8, 8, 8]), None).unwrap(),
        (false, [8, 8, 8, 8])
    );
}

#[test]
fn address_inside_a_listed_range_is_self_provider() {
    let trie = get_cf_cidr_prefix();
    // 104.16.0.1 sits inside 104.16.0.0/13
    assert!(trie.contains_v4([104, 16, 0, 1]));
    // 104.15.255.255 sits just below it
    assert!(!trie.contains_v4([104, 15, 255, 255]));
}

#[test]
fn ipv6_is_never_self_provider() {
    let trie = get_cf_cidr_prefix();
    let v6 = Address::Ipv6([0x20, 0x01, 0x0d, 0xb8, 0, 0, 0, 0, 0, 0, 0, 0, 0, 0, 0, 1]);
    assert_eq!(is_cf_address(&trie, &v6, None).unwrap(), (false, [0, 0, 0, 0]));
}

#[test]
fn dns_query_wire_format() {
    let q = build_dns_query(b"example.com").unwrap();
    let mut want: Vec<u8> = vec![0, 0, 1, 0, 0, 1, 0, 0, 0, 0, 0, 0];
    want.push(7);
    want.extend_from_slice(b"example");
    want.push(3);
    want.extend_from_slice(b"com");
    want.push(0);
    want.extend_from_slice(&[0, 1, 0, 1]);
    assert_eq!(q, want);
}

#[test]
fn dns_query_rejects_bad_labels() {
    assert_eq!(build_dns_query(b"a..b").unwrap_err(), ResolverError::BadLabel);
    assert_eq!(build_dns_query(b".a").unwrap_err(), ResolverError::BadLabel);
    let long = [b'x'; 64];
    let mut name = long.to_vec();
    name.extend_from_slice(b".com");
    assert_eq!(build_dns_query(&name).unwrap_err(), ResolverError::BadLabel);
}

#[test]
fn skip_name_over_labels_and_pointer() {
    // "abc.de" encoded at offset 0, followed by other bytes
    let msg = [3, b'a', b'b', b'c', 2, b'd', b'e', 0, 9, 9];
    assert_eq!(skip_name(&msg, 0).unwrap(), 8);
    // a compression pointer is two bytes
    let msg2 = [0xC0, 0x0C, 7, 7];
    assert_eq!(skip_name(&msg2, 0).unwrap(), 2);
    // a label then a pointer
    let msg3 = [1, b'x', 0xC0, 0x0C, 5];
    assert_eq!(skip_name(&msg3, 0).unwrap(), 4);
    // truncated: length byte runs past the end
    let msg4 = [5, b'a', b'b'];
    assert!(skip_name(&msg4, 0).is_err());
    // reserved tag
    let msg5 = [0x40, 0, 0];
    assert!(skip_name(&msg5, 0).is_err());
}

fn sample_response(answer_type: u8, rcode: u8, ip: [u8; 4]) -> Vec<u8> {
    let mut m: Vec<u8> = Vec::new();
    // header: id 0, QR+RD+RA flags with the given rcode, 1 question, 1 answer
    m.extend_from_slice(&[0, 0, 0x81, 0x80 | rcode, 0, 1, 0, 1, 0, 0, 0, 0]);
    // question: example.com A IN
    m.push(7);
    m.extend_from_slice(b"example");
    m.push(3);
    m.extend_from_slice(b"com");
    m.push(0);
    m.extend_from_slice(&[0, 1, 0, 1]);
    // answer: pointer to offset 12, the given type, class IN, ttl, rdlen 4
    m.extend_from_slice(&[0xC0, 0x0C, 0, answer_type, 0, 1, 0, 0, 0, 60, 0, 4]);
    m.extend_from_slice(&ip);
    m
}

#[test]
fn parse_first_a_finds_the_answer() {
    let msg = sample_response(1, 0, [93, 184, 216, 34]);
    assert_eq!(parse_first_a(&msg).unwrap(), [93, 184, 216, 34]);
}

#[test]
fn parse_first_a_errors() {
    assert_eq!(parse_first_a(&[0, 0, 0]).unwrap_err(), ResolverError::Truncated);
    let nx = sample_response(1, 3, [0, 0, 0, 0]);
    assert_eq!(parse_first_a(&nx).unwrap_err(), ResolverError::NonZeroRcode);
    // a lone AAAA-style record is no A answer
    let other = sample_response(28, 0, [1, 2, 3, 4]);
    assert_eq!(parse_first_a(&other).unwrap_err(), ResolverError::NoARecord);
    // cut the rdata short
    let mut cut = sample_response(1, 0, [1, 2, 3, 4]);
    cut.truncate(cut.len() - 2);
    assert_eq!(parse_first_a(&cut).unwrap_err(), ResolverError::Truncated);
}

#[test]
fn domain_classified_through_doh_response() {
    let trie = get_cf_cidr_prefix();
    let inside = sample_response(1, 0, [104, 16, 0, 1]);
    let r = is_cf_address(&trie, &Address::Domain(b"example.com".to_vec()), Some(&inside));
    assert_eq!(r.unwrap(), (true, [104, 16, 0, 1]));
    let outside = sample_response(1, 0, [93, 184, 216, 34]);
    let r = is_cf_address(&trie, &Address::Domain(b"example.com".to_vec()), Some(&outside));
    assert_eq!(r.unwrap(), (false, [93, 184, 216, 34]));
    let nx = sample_response(1, 3, [0, 0, 0, 0]);
    let r = is_cf_address(&trie, &Address::Domain(b"example.com".to_vec()), Some(&nx));
    assert_eq!(r.unwrap_err(), ResolverError::NonZeroRcode);
}
