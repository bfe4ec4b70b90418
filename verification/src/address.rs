//! The tunnel target address: an IPv4 or IPv6 address as plain octets, or
//! an ASCII hostname without port.

use vstd::prelude::*;
use crate::config::hex_digit;
use crate::text;

verus! {

/// A tunnel target parsed from the Trojan preamble.
#[derive(Clone, Debug)]
pub enum Address {
    Ipv4([u8; 4]),
    Ipv6([u8; 16]),
    Domain(Vec<u8>),
}

/// The ASCII digit for `n < 10`.
pub open spec fn dec_digit(n: u8) -> char {
    (48 + n) as char
}

/// Decimal representation of one byte, without leading zeros.
pub open spec fn u8_dec_chars(n: u8) -> Seq<char> {
    if n < 10 {
        seq![dec_digit(n)]
    } else if n < 100 {
        seq![dec_digit(n / 10), dec_digit(n % 10)]
    } else {
        seq![dec_digit(n / 100), dec_digit((n / 10) % 10), dec_digit(n % 10)]
    }
}

/// Dotted-decimal representation of an IPv4 address.
pub open spec fn ipv4_chars(ip: [u8; 4]) -> Seq<char> {
    u8_dec_chars(ip[0]) + seq!['.'] + u8_dec_chars(ip[1]) + seq!['.'] + u8_dec_chars(ip[2])
        + seq!['.'] + u8_dec_chars(ip[3])
}

/// One 16-bit group of an IPv6 address, lowercase hex without leading
/// zeros.
pub open spec fn u16_hex_chars(n: u16) -> Seq<char> {
    if n < 0x10 {
        seq![hex_digit(n as u8) as char]
    } else if n < 0x100 {
        seq![hex_digit((n / 0x10) as u8) as char, hex_digit((n % 0x10) as u8) as char]
    } else if n < 0x1000 {
        seq![
            hex_digit((n / 0x100) as u8) as char,
            hex_digit(((n / 0x10) % 0x10) as u8) as char,
            hex_digit((n % 0x10) as u8) as char,
        ]
    } else {
        seq![
            hex_digit((n / 0x1000) as u8) as char,
            hex_digit(((n / 0x100) % 0x10) as u8) as char,
            hex_digit(((n / 0x10) % 0x10) as u8) as char,
            hex_digit((n % 0x10) as u8) as char,
        ]
    }
}

/// The group at position `i` of an IPv6 address, from its byte pair.
pub open spec fn ipv6_group(ip: [u8; 16], i: int) -> u16 {
    ((ip[2 * i] as u16) * 0x100 + (ip[2 * i + 1] as u16)) as u16
}

/// Eight colon-separated hex groups; this library writes IPv6 addresses
/// without zero-run compression.
pub open spec fn ipv6_chars(ip: [u8; 16]) -> Seq<char> {
    u16_hex_chars(ipv6_group(ip, 0)) + seq![':'] + u16_hex_chars(ipv6_group(ip, 1)) + seq![':']
        + u16_hex_chars(ipv6_group(ip, 2)) + seq![':'] + u16_hex_chars(ipv6_group(ip, 3))
        + seq![':'] + u16_hex_chars(ipv6_group(ip, 4)) + seq![':'] + u16_hex_chars(
        ipv6_group(ip, 5),
    ) + seq![':'] + u16_hex_chars(ipv6_group(ip, 6)) + seq![':'] + u16_hex_chars(
        ipv6_group(ip, 7),
    )
}

/// A byte sequence read as characters, one character per byte.
pub open spec fn byte_chars(s: Seq<u8>) -> Seq<char> {
    s.map_values(|b: u8| b as char)
}

/// The display string of an address: dotted decimal, hex groups, or the
/// domain itself.
pub open spec fn address_chars(a: Address) -> Seq<char> {
    match a {
        Address::Ipv4(ip) => ipv4_chars(ip),
        Address::Ipv6(ip) => ipv6_chars(ip),
        Address::Domain(d) => byte_chars(d@),
    }
}

/// Decimal of one byte, appended to `out`.
fn push_u8_dec(out: &mut Vec<char>, n: u8)
    ensures
        final(out)@ == old(out)@ + u8_dec_chars(n),
{
    if n >= 100 {
        out.push((48 + n / 100) as char);
    }
    if n >= 10 {
        out.push((48 + (n / 10) % 10) as char);
    }
    out.push((48 + n % 10) as char);
    proof {
        if n < 10 {
            assert(out@ =~= old(out)@ + u8_dec_chars(n));
        } else if n < 100 {
            assert(n / 10 < 10);
            assert((n / 10) % 10 == n / 10);
            assert(out@ =~= old(out)@ + u8_dec_chars(n));
        } else {
            assert(out@ =~= old(out)@ + u8_dec_chars(n));
        }
    }
}

/// Dotted-decimal string of an IPv4 address.
pub fn ipv4_string(ip: [u8; 4]) -> (r: String)
    ensures
        r@ == ipv4_chars(ip),
{
    let mut out: Vec<char> = Vec::new();
    push_u8_dec(&mut out, ip[0]);
    out.push('.');
    push_u8_dec(&mut out, ip[1]);
    out.push('.');
    push_u8_dec(&mut out, ip[2]);
    out.push('.');
    push_u8_dec(&mut out, ip[3]);
    proof {
        assert(out@ =~= ipv4_chars(ip));
    }
    text::chars_string(out.as_slice())
}

/// One hex group, appended to `out`.
fn push_u16_hex(out: &mut Vec<char>, n: u16)
    ensures
        final(out)@ == old(out)@ + u16_hex_chars(n),
{
    let d0 = (n / 0x1000) as u8;
    let d1 = ((n / 0x100) % 0x10) as u8;
    let d2 = ((n / 0x10) % 0x10) as u8;
    let d3 = (n % 0x10) as u8;
    if n >= 0x1000 {
        out.push(hex_digit_exec(d0));
    }
    if n >= 0x100 {
        out.push(hex_digit_exec(d1));
    }
    if n >= 0x10 {
        out.push(hex_digit_exec(d2));
    }
    out.push(hex_digit_exec(d3));
    proof {
        if n < 0x10 {
            assert(out@ =~= old(out)@ + u16_hex_chars(n));
        } else if n < 0x100 {
            assert((n / 0x10) % 0x10 == n / 0x10);
            assert(out@ =~= old(out)@ + u16_hex_chars(n));
        } else if n < 0x1000 {
            assert((n / 0x100) % 0x10 == n / 0x100);
            assert(out@ =~= old(out)@ + u16_hex_chars(n));
        } else {
            assert(out@ =~= old(out)@ + u16_hex_chars(n));
        }
    }
}

/// The lowercase hex digit character for `n < 16`.
fn hex_digit_exec(n: u8) -> (r: char)
    requires
        n < 16,
    ensures
        r == hex_digit(n) as char,
{
    if n < 10 {
        (48 + n) as char
    } else {
        (87 + n) as char
    }
}

impl Address {
    /// The display string of this address; IPv6 is written as eight
    /// uncompressed hex groups.
    pub fn host_string(&self) -> (r: String)
        ensures
            r@ == address_chars(*self),
    {
        match self {
            Address::Ipv4(ip) => ipv4_string(*ip),
            Address::Ipv6(ip) => {
                let mut out: Vec<char> = Vec::new();
                let mut i: usize = 0;
                while i < 8
                    invariant
                        i <= 8,
                        out@ == ipv6_prefix_chars(*ip, i as int),
                    decreases 8 - i,
                {
                    if i > 0 {
                        out.push(':');
                    }
                    let g: u16 = (ip[2 * i] as u16) * 0x100 + (ip[2 * i + 1] as u16);
                    push_u16_hex(&mut out, g);
                    proof {
                        assert(g == ipv6_group(*ip, i as int));
                        assert(out@ =~= ipv6_prefix_chars(*ip, i + 1));
                    }
                    i = i + 1;
                }
                proof {
                    reveal_with_fuel(ipv6_prefix_chars, 9);
                    assert(ipv6_prefix_chars(*ip, 8) =~= ipv6_chars(*ip));
                }
                text::chars_string(out.as_slice())
            },
            Address::Domain(d) => {
                let mut out: Vec<char> = Vec::new();
                let mut i: usize = 0;
                while i < d.len()
                    invariant
                        i <= d@.len(),
                        out@ == byte_chars(d@.take(i as int)),
                    decreases d@.len() - i,
                {
                    out.push(d[i] as char);
                    proof {
                        assert(out@ =~= byte_chars(d@.take(i + 1)));
                    }
                    i = i + 1;
                }
                proof {
                    assert(d@.take(d@.len() as int) =~= d@);
                }
                text::chars_string(out.as_slice())
            },
        }
    }
}

/// The first `i` colon-separated groups of an IPv6 address.
pub open spec fn ipv6_prefix_chars(ip: [u8; 16], i: int) -> Seq<char>
    decreases i,
{
    if i <= 0 {
        Seq::empty()
    } else if i == 1 {
        u16_hex_chars(ipv6_group(ip, 0))
    } else {
        ipv6_prefix_chars(ip, i - 1) + seq![':'] + u16_hex_chars(ipv6_group(ip, i - 1))
    }
}

} // verus!
