//! The Trojan request preamble: a 56-byte hex credential, a CRLF, a
//! CONNECT command, a typed target address with port, and a closing CRLF.
//! The parser reads the preamble out of the byte stream a WebSocket
//! delivered; every byte after the preamble is the first upstream payload
//! and stays with the caller.

use vstd::prelude::*;
use crate::address::Address;
use crate::address::address_chars;
use crate::address::ipv4_chars;
use crate::address::ipv4_string;
use crate::dns::ResolverError;

verus! {

/// Why a Trojan handshake was refused.
#[derive(Clone, Copy, Debug, PartialEq, Eq, Structural)]
pub enum TjError {
    /// The 56-byte credential does not match the expected hash.
    Auth,
    /// The preamble is malformed or cut short.
    Protocol,
}

/// The parsed preamble: the target, and how many bytes of the stream the
/// preamble occupied.
#[derive(Debug)]
pub struct Handshake {
    pub addr: Address,
    pub port: u16,
    pub consumed: usize,
}

/// Length of the address field: 4 for IPv4, 16 for IPv6, one length byte
/// plus that many bytes for a domain.
pub open spec fn preamble_addr_len(data: Seq<u8>) -> int {
    if data[59] == 1 {
        4
    } else if data[59] == 4 {
        16
    } else if data[59] == 3 {
        1 + (data[60] as int)
    } else {
        -1
    }
}

/// Total length of the preamble: credential, CRLF, command, address
/// type, address, port, CRLF.
pub open spec fn preamble_len(data: Seq<u8>) -> int {
    60 + preamble_addr_len(data) + 4
}

/// The stream opens with a complete, well-formed preamble carrying the
/// expected credential.
pub open spec fn valid_preamble(data: Seq<u8>, hash: Seq<u8>) -> bool {
    &&& data.len() >= 60
    &&& data.subrange(0, 56) == hash
    &&& data[56] == 13 && data[57] == 10
    &&& data[58] == 1
    &&& (data[59] == 1 || data[59] == 4 || (data[59] == 3 && data.len() >= 61 && data[60] >= 1))
    &&& data.len() >= preamble_len(data)
    &&& data[preamble_len(data) - 2] == 13
    &&& data[preamble_len(data) - 1] == 10
}

/// The credential bytes are present but differ from the expected hash.
pub open spec fn auth_fail(data: Seq<u8>, hash: Seq<u8>) -> bool {
    data.len() >= 56 && data.subrange(0, 56) != hash
}

/// The big-endian port embedded in the preamble.
pub open spec fn preamble_port(data: Seq<u8>) -> int {
    (data[preamble_len(data) - 4] as int) * 256 + (data[preamble_len(data) - 3] as int)
}

/// `a` is the address embedded in the preamble.
pub open spec fn addr_matches(a: Address, data: Seq<u8>) -> bool {
    match a {
        Address::Ipv4(ip) => data[59] == 1 && ip@ == data.subrange(60, 64),
        Address::Ipv6(ip) => data[59] == 4 && ip@ == data.subrange(60, 76),
        Address::Domain(d) => data[59] == 3 && d@ == data.subrange(61, 61 + (data[60] as int)),
    }
}

/// Parses the Trojan preamble from the opening bytes of the stream.
/// On success the embedded target and the preamble length come back, so
/// the caller can forward every byte from `consumed` on as payload. A
/// wrong credential is an authentication failure; everything else —
/// truncation, a missing CRLF, a command other than CONNECT, an unknown
/// address type, an empty domain — is a protocol failure.
pub fn parse(expected_hash: &[u8], data: &[u8]) -> (r: Result<Handshake, TjError>)
    requires
        expected_hash@.len() == 56,
    ensures
        match r {
            Ok(h) => {
                &&& valid_preamble(data@, expected_hash@)
                &&& h.consumed == preamble_len(data@)
                &&& h.port == preamble_port(data@)
                &&& addr_matches(h.addr, data@)
            },
            Err(TjError::Auth) => auth_fail(data@, expected_hash@),
            Err(TjError::Protocol) => !auth_fail(data@, expected_hash@) && !valid_preamble(
                data@,
                expected_hash@,
            ),
        },
        r is Ok <==> valid_preamble(data@, expected_hash@),
{
    let n = data.len();
    if n < 56 {
        assert(!valid_preamble(data@, expected_hash@));
        return Err(TjError::Protocol);
    }
    // credential
    let mut i: usize = 0;
    while i < 56
        invariant
            i <= 56,
            n == data@.len(),
            n >= 56,
            expected_hash@.len() == 56,
            forall|j: int| 0 <= j < i ==> data@[j] == expected_hash@[j],
        decreases 56 - i,
    {
        if data[i] != expected_hash[i] {
            proof {
                assert(data@.subrange(0, 56)[i as int] != expected_hash@[i as int]);
                assert(data@.subrange(0, 56) != expected_hash@);
            }
            return Err(TjError::Auth);
        }
        i = i + 1;
    }
    proof {
        assert(data@.subrange(0, 56) =~= expected_hash@);
    }
    if n < 60 {
        return Err(TjError::Protocol);
    }
    if data[56] != 13 || data[57] != 10 {
        return Err(TjError::Protocol);
    }
    if data[58] != 1 {
        return Err(TjError::Protocol);
    }
    let atyp = data[59];
    let (addr, alen): (Address, usize) = if atyp == 1 {
        if n - 60 < 4 {
            return Err(TjError::Protocol);
        }
        let ip: [u8; 4] = [data[60], data[61], data[62], data[63]];
        proof {
            assert(ip@ =~= data@.subrange(60, 64));
        }
        (Address::Ipv4(ip), 4)
    } else if atyp == 4 {
        if n - 60 < 16 {
            return Err(TjError::Protocol);
        }
        let ip: [u8; 16] = [
            data[60],
            data[61],
            data[62],
            data[63],
            data[64],
            data[65],
            data[66],
            data[67],
            data[68],
            data[69],
            data[70],
            data[71],
            data[72],
            data[73],
            data[74],
            data[75],
        ];
        proof {
            assert(ip@ =~= data@.subrange(60, 76));
        }
        (Address::Ipv6(ip), 16)
    } else if atyp == 3 {
        if n - 60 < 1 {
            return Err(TjError::Protocol);
        }
        let l = data[60] as usize;
        if l == 0 {
            return Err(TjError::Protocol);
        }
        if n - 61 < l {
            assert(preamble_len(data@) > n);
            return Err(TjError::Protocol);
        }
        let mut d: Vec<u8> = Vec::new();
        let mut k: usize = 0;
        while k < l
            invariant
                k <= l,
                n == data@.len(),
                61 + l <= n,
                d@ == data@.subrange(61, 61 + k),
            decreases l - k,
        {
            d.push(data[61 + k]);
            assert(d@ =~= data@.subrange(61, 61 + k + 1));
            k = k + 1;
        }
        (Address::Domain(d), 1 + l)
    } else {
        return Err(TjError::Protocol);
    };
    // port and closing CRLF
    if n - 60 - alen < 4 {
        assert(preamble_len(data@) > n);
        return Err(TjError::Protocol);
    }
    let p = 60 + alen;
    let port: u16 = (data[p] as u16) * 256 + (data[p + 1] as u16);
    if data[p + 2] != 13 || data[p + 3] != 10 {
        return Err(TjError::Protocol);
    }
    proof {
        assert(preamble_len(data@) == p + 4);
        assert(valid_preamble(data@, expected_hash@));
    }
    Ok(Handshake { addr, port, consumed: p + 4 })
}

/// Whatever payload follows an exact preamble, the stream still opens
/// with that preamble, the parser consumes exactly its bytes, and the
/// payload is recovered unchanged behind `consumed`.
pub proof fn lemma_preamble_payload_recoverable(
    preamble: Seq<u8>,
    payload: Seq<u8>,
    hash: Seq<u8>,
)
    requires
        hash.len() == 56,
        valid_preamble(preamble, hash),
        preamble.len() == preamble_len(preamble),
    ensures
        valid_preamble(preamble + payload, hash),
        preamble_len(preamble + payload) == preamble.len(),
        (preamble + payload).skip(preamble.len() as int) == payload,
{
    let d = preamble + payload;
    assert(d.subrange(0, 56) =~= preamble.subrange(0, 56));
    assert(d[59] == preamble[59]);
    if preamble[59] == 3 {
        assert(d[60] == preamble[60]);
    }
    assert(preamble_addr_len(d) == preamble_addr_len(preamble));
    assert(preamble_len(d) == preamble_len(preamble));
    assert(d[preamble_len(d) - 2] == preamble[preamble_len(preamble) - 2]);
    assert(d[preamble_len(d) - 1] == preamble[preamble_len(preamble) - 1]);
    assert(d.skip(preamble.len() as int) =~= payload);
}

/// A one-byte truncation of an exact preamble cuts its closing CRLF, so
/// the parser refuses it as a protocol error rather than accepting it.
pub proof fn lemma_truncated_preamble_rejected(data: Seq<u8>, hash: Seq<u8>)
    requires
        hash.len() == 56,
        valid_preamble(data, hash),
        data.len() == preamble_len(data),
    ensures
        !valid_preamble(data.take(data.len() - 1), hash),
        !auth_fail(data.take(data.len() - 1), hash),
{
    let t = data.take(data.len() - 1);
    assert(t.subrange(0, 56) =~= data.subrange(0, 56));
    assert(t[59] == data[59]);
    if data[59] == 3 {
        assert(t[60] == data[60]);
    }
    assert(preamble_addr_len(t) == preamble_addr_len(data));
    assert(preamble_len(t) == preamble_len(data));
    assert(t.len() < preamble_len(t));
}

/// What the tunnel does after classifying the target.
pub enum TunnelAction {
    /// Close the WebSocket with 1000: the target sits on the hosting
    /// provider and must not be looped through it.
    CloseNormal,
    /// Close the WebSocket with 1011: the target could not be resolved.
    CloseError,
    /// Open a TCP connection to the host string and port, then copy both
    /// directions.
    Connect(String, u16),
}

/// Decides the tunnel's next step from the classifier's answer: refuse
/// self-provider targets with a normal close, fail the tunnel on
/// resolver errors, and otherwise connect to the resolved address (the
/// address itself for IPv6, which the classifier never resolves).
pub fn plan_tunnel(addr: &Address, port: u16, classify: &Result<(bool, [u8; 4]), ResolverError>)
    -> (r: TunnelAction)
    ensures
        match *classify {
            Ok((true, _)) => r is CloseNormal,
            Ok((false, ip)) => {
                &&& r is Connect
                &&& r->Connect_1 == port
                &&& r->Connect_0@ == if *addr is Ipv6 {
                    address_chars(*addr)
                } else {
                    ipv4_chars(ip)
                }
            },
            Err(_) => r is CloseError,
        },
{
    match classify {
        Ok((true, _)) => TunnelAction::CloseNormal,
        Ok((false, ip)) => {
            match addr {
                Address::Ipv6(_) => TunnelAction::Connect(addr.host_string(), port),
                _ => TunnelAction::Connect(ipv4_string(*ip), port),
            }
        },
        Err(_) => TunnelAction::CloseError,
    }
}

} // verus!
