use tul::address::Address;
use tul::cidr::get_cf_cidr_prefix;
use tul::dns::{is_cf_address, ResolverError};
use tul::tj::{parse, plan_tunnel, TjError, TunnelAction};
use tul::websocket::{ws_close_code, ws_event_step, WsBuffer, WsEvent, WsStep};

fn fake_hash() -> Vec<u8> {
    vec![b'a'; 56]
}

fn preamble_v4(hash: &[u8], ip: [u8; 4], port: u16, payload: &[u8]) -> Vec<u8> {
    let mut d = hash.to_vec();
    d.extend_from_slice(b"\r\n");
    d.push(0x01); // CONNECT
    d.push(0x01); // IPv4
    d.extend_from_slice(&ip);
    d.extend_from_slice(&port.to_be_bytes());
    d.extend_from_slice(b"\r\n");
    d.extend_from_slice(payload);
    d
}

#[test]
fn tunnel_preamble_happy_path() {
    let hash = fake_hash();
    let data = preamble_v4(&hash, [1, 2, 3, 4], 443, b"hello");
    let h = parse(&hash, &data).unwrap();
    match h.addr {
        Address::Ipv4(ip) => assert_eq!(ip, [1, 2, 3, 4]),
        _ => panic!("wrong address kind"),
    }
    assert_eq!(h.port, 443);
    assert_eq!(h.consumed, data.len() - 5);
    assert_eq!(&data[h.consumed..], b"hello");
}

#[test]
fn tunnel_preamble_one_byte_truncation_is_protocol_error() {
    let hash = fake_hash();
    let exact = preamble_v4(&hash, [1, 2, 3, 4], 443, b"");
    for cut in 1..=exact.len() {
        let r = parse(&hash, &exact[..exact.len() - cut]);
        match r {
            Err(TjError::Protocol) => {}
            other => panic!("truncated by {cut}: expected a protocol error, got {other:?}"),
        }
    }
}

#[test]
fn tunnel_preamble_bad_hash() {
    let hash = fake_hash();
    let mut data = preamble_v4(&hash, [1, 2, 3, 4], 443, b"");
    data[10] = b'b';
    assert_eq!(parse(&hash, &data).unwrap_err(), TjError::Auth);
}

#[test]
fn tunnel_preamble_bad_framing() {
    let hash = fake_hash();
    // UDP ASSOCIATE command is refused
    let mut d = preamble_v4(&hash, [1, 2, 3, 4], 443, b"");
    d[58] = 0x03;
    assert_eq!(parse(&hash, &d).unwrap_err(), TjError::Protocol);
    // unknown address type
    let mut d = preamble_v4(&hash, [1, 2, 3, 4], 443, b"");
    d[59] = 0x05;
    assert_eq!(parse(&hash, &d).unwrap_err(), TjError::Protocol);
    // broken first CRLF
    let mut d = preamble_v4(&hash, [1, 2, 3, 4], 443, b"");
    d[56] = b'x';
    assert_eq!(parse(&hash, &d).unwrap_err(), TjError::Protocol);
}

#[test]
fn tunnel_preamble_domain_and_v6() {
    let hash = fake_hash();
    let mut d = hash.clone();
    d.extend_from_slice(b"\r\n\x01\x03\x0bexample.org");
    d.extend_from_slice(&80u16.to_be_bytes());
    d.extend_from_slice(b"\r\n");
    let h = parse(&hash, &d).unwrap();
    match h.addr {
        Address::Domain(name) => assert_eq!(name, b"example.org".to_vec()),
        _ => panic!("wrong address kind"),
    }
    assert_eq!(h.port, 80);
    assert_eq!(h.consumed, d.len());

    let mut d = hash.clone();
    d.extend_from_slice(b"\r\n\x01\x04");
    d.extend_from_slice(&[0u8; 16]);
    d.extend_from_slice(&8443u16.to_be_bytes());
    d.extend_from_slice(b"\r\n");
    let h = parse(&hash, &d).unwrap();
    assert!(matches!(h.addr, Address::Ipv6(_)));
    assert_eq!(h.port, 8443);
    // an empty domain is refused
    let mut d = hash.clone();
    d.extend_from_slice(b"\r\n\x01\x03\x00");
    d.extend_from_slice(&80u16.to_be_bytes());
    d.extend_from_slice(b"\r\n");
    assert_eq!(parse(&hash, &d).unwrap_err(), TjError::Protocol);
}

#[test]
fn tunnel_refuses_self_provider_target() {
    // the classifier answers "self-provider" for 104.16.0.1: close 1000,
    // no connection
    let trie = get_cf_cidr_prefix();
    let addr = Address::Domain(b"assets.example".to_vec());
    let classify = Ok((true, [104, 16, 0, 1]));
    match plan_tunnel(&addr, 443, &classify) {
        TunnelAction::CloseNormal => {}
        _ => panic!("self-provider target must close normally"),
    }
    assert_eq!(ws_close_code(true), 1000);
    // and a direct literal in the range classifies as self-provider
    assert_eq!(
        is_cf_address(&trie, &Address::Ipv4([104, 16, 0, 1]), None).unwrap(),
        (true, [104, 16, 0, 1])
    );
}

#[test]
fn tunnel_connects_to_resolved_address() {
    let addr = Address::Domain(b"example.org".to_vec());
    let classify = Ok((false, [93, 184, 216, 34]));
    match plan_tunnel(&addr, 443, &classify) {
        TunnelAction::Connect(host, port) => {
            assert_eq!(host, "93.184.216.34");
            assert_eq!(port, 443);
        }
        _ => panic!("expected a connect"),
    }
    let classify: Result<(bool, [u8; 4]), ResolverError> = Err(ResolverError::NoARecord);
    match plan_tunnel(&addr, 443, &classify) {
        TunnelAction::CloseError => {}
        _ => panic!("resolver failure must fail the tunnel"),
    }
    assert_eq!(ws_close_code(false), 1011);
}

#[test]
fn ws_buffer_is_fifo_with_unread() {
    let mut b = WsBuffer::new(8);
    assert_eq!(b.bufsize(), 8);
    assert_eq!(b.available(), 0);
    b.unread(b"lead");
    b.push_frame(b"frame1");
    b.push_frame(b"frame2");
    assert_eq!(b.available(), 16);
    assert_eq!(b.read_into(4), b"lead".to_vec());
    assert_eq!(b.read_into(7), b"frame1f".to_vec());
    assert_eq!(b.read_into(100), b"rame2".to_vec());
    assert_eq!(b.read_into(4), Vec::<u8>::new());
}

#[test]
fn ws_events_classified() {
    match ws_event_step(WsEvent::Binary(vec![1, 2])) {
        WsStep::Append(d) => assert_eq!(d, vec![1, 2]),
        _ => panic!("binary frames append"),
    }
    assert!(matches!(ws_event_step(WsEvent::Text), WsStep::ProtocolError));
    assert!(matches!(ws_event_step(WsEvent::Close), WsStep::Eof));
    assert!(matches!(ws_event_step(WsEvent::Error), WsStep::IoError));
}
