//! DoH wire-format codec and the self-provider classifier: building the
//! minimal A-record query packet, walking a DNS response for the first A
//! answer (name-compression aware), and classifying addresses against the
//! provider prefix set. The HTTPS transport that carries the packets stays
//! with the caller.

use vstd::prelude::*;
use crate::address::Address;
use crate::cidr::CidrTrie;
use crate::cidr::covered_by;
use crate::cidr::ip_of;

verus! {

/// Why a resolution failed.
#[derive(Clone, Copy, Debug, PartialEq, Eq, Structural)]
pub enum ResolverError {
    /// The response is shorter than its structure announces.
    Truncated,
    /// The response carries a non-zero RCODE.
    NonZeroRcode,
    /// A name in the response is malformed, or runs past the end.
    BadName,
    /// No A answer of class IN with a 4-byte address is present.
    NoARecord,
    /// A queried name holds an empty or over-long label.
    BadLabel,
}

/// The JSON DoH response shape; serialization stays with the caller.
#[derive(Debug)]
pub struct DnsJsonResponse {
    pub status: u16,
    pub tc: bool,
    pub rd: bool,
    pub ra: bool,
    pub ad: bool,
    pub cd: bool,
    pub question: Option<Vec<DnsQuestion>>,
    pub answer: Option<Vec<DnsAnswer>>,
    pub authority: Option<Vec<DnsAnswer>>,
    pub additional: Option<Vec<DnsAnswer>>,
    pub comment: Option<String>,
}

/// One question of a JSON DoH response.
#[derive(Debug)]
pub struct DnsQuestion {
    pub name: String,
    pub qtype: u16,
}

/// One answer record of a JSON DoH response.
#[derive(Debug)]
pub struct DnsAnswer {
    pub name: String,
    pub rtype: u16,
    pub ttl: u32,
    pub data: String,
}

/// Length of the first label of `name`: the distance to the first dot,
/// or to the end.
pub open spec fn label_end(name: Seq<u8>) -> int
    decreases name.len(),
{
    if name.len() == 0 {
        0
    } else if name[0] == 46 {
        0
    } else {
        1 + label_end(name.skip(1))
    }
}

/// The first label ends at the first dot or at the end, and no dot comes
/// before it.
pub proof fn lemma_label_end(name: Seq<u8>)
    ensures
        0 <= label_end(name) <= name.len(),
        forall|i: int| 0 <= i < label_end(name) ==> name[i] != 46,
        label_end(name) < name.len() ==> name[label_end(name)] == 46,
    decreases name.len(),
{
    if name.len() > 0 && name[0] != 46 {
        lemma_label_end(name.skip(1));
        assert forall|i: int| 0 <= i < label_end(name) implies name[i] != 46 by {
            if i > 0 {
                assert(name.skip(1)[i - 1] == name[i]);
            }
        }
        if label_end(name) < name.len() {
            assert(name.skip(1)[label_end(name) - 1] == name[label_end(name)]);
        }
    }
}

/// The name is a dot-separated run of labels, each of 1 to 63 bytes.
pub open spec fn valid_qname(name: Seq<u8>) -> bool
    decreases name.len(),
{
    let e = label_end(name);
    1 <= e <= 63 && (e == name.len() || (e < name.len() && valid_qname(name.skip(e + 1))))
}

/// The QNAME encoding of `name`: length-prefixed labels closed by the
/// root label.
pub open spec fn encode_qname(name: Seq<u8>) -> Seq<u8>
    decreases name.len(),
{
    let e = label_end(name);
    if 1 <= e <= name.len() {
        if e == name.len() {
            seq![e as u8] + name + seq![0u8]
        } else {
            seq![e as u8] + name.take(e) + encode_qname(name.skip(e + 1))
        }
    } else {
        seq![0u8]
    }
}

/// The fixed 12-byte query header: ID 0, RD set, one question.
pub open spec fn dns_query_header() -> Seq<u8> {
    seq![0u8, 0u8, 1u8, 0u8, 0u8, 1u8, 0u8, 0u8, 0u8, 0u8, 0u8, 0u8]
}

/// The whole query packet for an A/IN question on `name`.
pub open spec fn spec_dns_query(name: Seq<u8>) -> Seq<u8> {
    dns_query_header() + encode_qname(name) + seq![0u8, 1u8, 0u8, 1u8]
}

/// Builds the binary DoH query packet asking for the A records of
/// `name`; a name with an empty or over-63-byte label is rejected.
pub fn build_dns_query(name: &[u8]) -> (r: Result<Vec<u8>, ResolverError>)
    ensures
        match r {
            Ok(q) => valid_qname(name@) && q@ == spec_dns_query(name@),
            Err(e) => !valid_qname(name@) && e == ResolverError::BadLabel,
        },
{
    let mut out: Vec<u8> = Vec::new();
    out.push(0);
    out.push(0);
    out.push(1);
    out.push(0);
    out.push(0);
    out.push(1);
    out.push(0);
    out.push(0);
    out.push(0);
    out.push(0);
    out.push(0);
    out.push(0);
    proof {
        assert(out@ =~= dns_query_header());
    }
    let n = name.len();
    let mut p: usize = 0;
    proof {
        assert(name@.skip(0) =~= name@);
    }
    loop
        invariant_except_break
            p <= n,
            n == name@.len(),
            valid_qname(name@) <==> valid_qname(name@.skip(p as int)),
            out@ + encode_qname(name@.skip(p as int)) == dns_query_header() + encode_qname(
                name@,
            ),
        ensures
            valid_qname(name@),
            out@ == dns_query_header() + encode_qname(name@),
        decreases n - p,
    {
        let ghost rest = name@.skip(p as int);
        // find the end of the label starting at p
        let mut e: usize = p;
        while e < n && name[e] != 46
            invariant
                p <= e <= n,
                n == name@.len(),
                forall|i: int| p <= i < e ==> #[trigger] name@[i] != 46,
            decreases n - e,
        {
            e = e + 1;
        }
        proof {
            lemma_label_end(rest);
            assert forall|i: int| p <= i < e implies #[trigger] rest[i - p] != 46 by {
                assert(rest[i - p] == name@[i]);
            }
            if e < n {
                assert(rest[e - p] == name@[e as int]);
            }
            // both e - p and label_end(rest) are the first dot-or-end
            if label_end(rest) < e - p {
                assert(name@[p + label_end(rest)] != 46);
                assert(rest[label_end(rest)] == name@[p + label_end(rest)]);
            }
            if e - p < label_end(rest) {
                assert(rest[e - p] != 46);
            }
            assert(label_end(rest) == e - p);
        }
        let l = e - p;
        if l == 0 || l > 63 {
            assert(!valid_qname(rest));
            return Err(ResolverError::BadLabel);
        }
        let ghost out_before = out@;
        out.push(l as u8);
        let mut i: usize = p;
        while i < e
            invariant
                p <= i <= e <= n,
                n == name@.len(),
                out@ == out_before + seq![l as u8] + name@.subrange(p as int, i as int),
            decreases e - i,
        {
            out.push(name[i]);
            assert(out@ =~= out_before + seq![l as u8] + name@.subrange(p as int, i + 1));
            i = i + 1;
        }
        if e == n {
            out.push(0);
            proof {
                assert(name@.subrange(p as int, n as int) =~= rest);
                assert(encode_qname(rest) =~= seq![l as u8] + rest + seq![0u8]);
                assert(out@ =~= out_before + encode_qname(rest));
                assert(out@ =~= dns_query_header() + encode_qname(name@));
            }
            break ;
        }
        proof {
            assert(name@.subrange(p as int, e as int) =~= rest.take(l as int));
            assert(rest.skip(l + 1) =~= name@.skip(e + 1));
            assert(encode_qname(rest) =~= seq![l as u8] + rest.take(l as int) + encode_qname(
                name@.skip(e + 1),
            ));
            assert(out@ + encode_qname(name@.skip(e + 1)) =~= out_before + encode_qname(rest));
            assert(valid_qname(rest) <==> valid_qname(name@.skip(e + 1)));
        }
        p = e + 1;
    }
    out.push(0);
    out.push(1);
    out.push(0);
    out.push(1);
    proof {
        assert(out@ =~= spec_dns_query(name@));
    }
    Ok(out)
}

/// The position just past the name starting at `off`: labels are
/// length-prefixed, a two-byte compression pointer or the root label ends
/// the name, and anything else (reserved tags, running past the end) is
/// `None`.
pub open spec fn spec_skip_name(msg: Seq<u8>, off: int) -> Option<int>
    decreases msg.len() - off,
{
    if off < 0 || off >= msg.len() {
        None
    } else {
        let b = msg[off];
        if b == 0 {
            Some(off + 1)
        } else if b >= 0xC0 {
            if off + 2 <= msg.len() {
                Some(off + 2)
            } else {
                None
            }
        } else if b < 64 {
            if off + 1 + (b as int) <= msg.len() {
                spec_skip_name(msg, off + 1 + (b as int))
            } else {
                None
            }
        } else {
            None
        }
    }
}

/// Advances past the name starting at `off`, aware of 0xC0 compression
/// pointers.
pub fn skip_name(msg: &[u8], off: usize) -> (r: Result<usize, ResolverError>)
    ensures
        match r {
            Ok(e) => spec_skip_name(msg@, off as int) == Some(e as int) && off < e <= msg@.len(),
            Err(err) => spec_skip_name(msg@, off as int) is None && err == ResolverError::BadName,
        },
{
    let n = msg.len();
    let mut cur = off;
    loop
        invariant
            n == msg@.len(),
            off <= cur,
            spec_skip_name(msg@, off as int) == spec_skip_name(msg@, cur as int),
        decreases n - cur,
    {
        if cur >= n {
            return Err(ResolverError::BadName);
        }
        let b = msg[cur];
        if b == 0 {
            return Ok(cur + 1);
        }
        if b >= 0xC0 {
            if n - cur >= 2 {
                return Ok(cur + 2);
            } else {
                return Err(ResolverError::BadName);
            }
        }
        if b >= 64 {
            return Err(ResolverError::BadName);
        }
        if n - cur - 1 < b as usize {
            return Err(ResolverError::BadName);
        }
        cur = cur + 1 + b as usize;
    }
}

/// The position after skipping `n` questions from `off`, each a name
/// followed by four bytes of type and class.
pub open spec fn spec_skip_questions(msg: Seq<u8>, off: int, n: int) -> Result<int, ResolverError>
    decreases n,
{
    if n <= 0 {
        Ok(off)
    } else {
        match spec_skip_name(msg, off) {
            None => Err(ResolverError::BadName),
            Some(e) => if e + 4 <= msg.len() {
                spec_skip_questions(msg, e + 4, n - 1)
            } else {
                Err(ResolverError::Truncated)
            },
        }
    }
}

/// The offset of the 4 rdata bytes of the first A/IN answer among the
/// `n` records starting at `off`.
pub open spec fn spec_find_a(msg: Seq<u8>, off: int, n: int) -> Result<int, ResolverError>
    decreases n,
{
    if n <= 0 {
        Err(ResolverError::NoARecord)
    } else {
        match spec_skip_name(msg, off) {
            None => Err(ResolverError::BadName),
            Some(e) => if e + 10 > msg.len() {
                Err(ResolverError::Truncated)
            } else {
                let rtype = (msg[e] as int) * 256 + (msg[e + 1] as int);
                let rclass = (msg[e + 2] as int) * 256 + (msg[e + 3] as int);
                let rdlen = (msg[e + 8] as int) * 256 + (msg[e + 9] as int);
                if e + 10 + rdlen > msg.len() {
                    Err(ResolverError::Truncated)
                } else if rtype == 1 && rclass == 1 && rdlen == 4 {
                    Ok(e + 10)
                } else {
                    spec_find_a(msg, e + 10 + rdlen, n - 1)
                }
            },
        }
    }
}

/// Where the first A answer's address bytes stand in a DNS response, or
/// why there are none: short header, non-zero RCODE, malformed name,
/// truncation, or no matching answer.
pub open spec fn spec_first_a(msg: Seq<u8>) -> Result<int, ResolverError> {
    if msg.len() < 12 {
        Err(ResolverError::Truncated)
    } else if msg[3] % 16 != 0 {
        Err(ResolverError::NonZeroRcode)
    } else {
        let qd = (msg[4] as int) * 256 + (msg[5] as int);
        let an = (msg[6] as int) * 256 + (msg[7] as int);
        match spec_skip_questions(msg, 12, qd) {
            Err(e) => Err(e),
            Ok(off) => spec_find_a(msg, off, an),
        }
    }
}

/// A found answer's address bytes lie inside the message.
proof fn lemma_find_a_in_bounds(msg: Seq<u8>, off: int, n: int)
    requires
        spec_find_a(msg, off, n) is Ok,
    ensures
        0 <= spec_find_a(msg, off, n)->Ok_0,
        spec_find_a(msg, off, n)->Ok_0 + 4 <= msg.len(),
    decreases n,
{
    if n > 0 {
        match spec_skip_name(msg, off) {
            None => {},
            Some(e) => {
                lemma_skip_name_in_bounds(msg, off);
                if e + 10 <= msg.len() {
                    let rtype = (msg[e] as int) * 256 + (msg[e + 1] as int);
                    let rclass = (msg[e + 2] as int) * 256 + (msg[e + 3] as int);
                    let rdlen = (msg[e + 8] as int) * 256 + (msg[e + 9] as int);
                    if e + 10 + rdlen <= msg.len() && !(rtype == 1 && rclass == 1 && rdlen
                        == 4) {
                        lemma_find_a_in_bounds(msg, e + 10 + rdlen, n - 1);
                    }
                }
            },
        }
    }
}

/// The first A answer's address bytes lie inside the response.
proof fn lemma_first_a_in_bounds(msg: Seq<u8>)
    requires
        spec_first_a(msg) is Ok,
    ensures
        0 <= spec_first_a(msg)->Ok_0,
        spec_first_a(msg)->Ok_0 + 4 <= msg.len(),
{
    let qd = (msg[4] as int) * 256 + (msg[5] as int);
    let an = (msg[6] as int) * 256 + (msg[7] as int);
    match spec_skip_questions(msg, 12, qd) {
        Err(_) => {},
        Ok(off) => {
            lemma_find_a_in_bounds(msg, off, an);
        },
    }
}

/// Skipping a name lands inside the message.
proof fn lemma_skip_name_in_bounds(msg: Seq<u8>, off: int)
    requires
        spec_skip_name(msg, off) is Some,
    ensures
        off < spec_skip_name(msg, off)->0 <= msg.len(),
    decreases msg.len() - off,
{
    if 0 <= off < msg.len() {
        let b = msg[off];
        if b != 0 && b < 64 && off + 1 + (b as int) <= msg.len() {
            lemma_skip_name_in_bounds(msg, off + 1 + (b as int));
        }
    }
}

/// Walks a binary DNS response and returns the IPv4 of its first A/IN
/// answer.
pub fn parse_first_a(msg: &[u8]) -> (r: Result<[u8; 4], ResolverError>)
    ensures
        match spec_first_a(msg@) {
            Ok(o) => r is Ok && r->Ok_0@ == msg@.subrange(o, o + 4),
            Err(e) => r == Err::<[u8; 4], ResolverError>(e),
        },
{
    let n = msg.len();
    if n < 12 {
        return Err(ResolverError::Truncated);
    }
    if msg[3] % 16 != 0 {
        return Err(ResolverError::NonZeroRcode);
    }
    let qd: usize = (msg[4] as usize) * 256 + (msg[5] as usize);
    let an: usize = (msg[6] as usize) * 256 + (msg[7] as usize);
    let mut off: usize = 12;
    let mut i: usize = 0;
    while i < qd
        invariant
            n == msg@.len(),
            n >= 12,
            msg@[3] % 16 == 0,
            qd == (msg@[4] as int) * 256 + (msg@[5] as int),
            an == (msg@[6] as int) * 256 + (msg@[7] as int),
            i <= qd,
            off <= n,
            spec_skip_questions(msg@, 12, qd as int) == spec_skip_questions(
                msg@,
                off as int,
                qd - i,
            ),
        decreases qd - i,
    {
        match skip_name(msg, off) {
            Err(e) => {
                return Err(e);
            },
            Ok(e) => {
                if n - e < 4 {
                    return Err(ResolverError::Truncated);
                }
                off = e + 4;
            },
        }
        i = i + 1;
    }
    assert(spec_skip_questions(msg@, 12, qd as int) == Ok::<int, ResolverError>(off as int));
    let ghost answers_start = off as int;
    let mut j: usize = 0;
    while j < an
        invariant
            n == msg@.len(),
            n >= 12,
            msg@[3] % 16 == 0,
            qd == (msg@[4] as int) * 256 + (msg@[5] as int),
            an == (msg@[6] as int) * 256 + (msg@[7] as int),
            spec_skip_questions(msg@, 12, qd as int) == Ok::<int, ResolverError>(answers_start),
            j <= an,
            off <= n,
            spec_find_a(msg@, answers_start, an as int) == spec_find_a(
                msg@,
                off as int,
                an - j,
            ),
        decreases an - j,
    {
        match skip_name(msg, off) {
            Err(e) => {
                return Err(e);
            },
            Ok(e) => {
                if n - e < 10 {
                    return Err(ResolverError::Truncated);
                }
                let rtype: usize = (msg[e] as usize) * 256 + (msg[e + 1] as usize);
                let rclass: usize = (msg[e + 2] as usize) * 256 + (msg[e + 3] as usize);
                let rdlen: usize = (msg[e + 8] as usize) * 256 + (msg[e + 9] as usize);
                if n - (e + 10) < rdlen {
                    return Err(ResolverError::Truncated);
                }
                if rtype == 1 && rclass == 1 && rdlen == 4 {
                    let r: [u8; 4] = [msg[e + 10], msg[e + 11], msg[e + 12], msg[e + 13]];
                    proof {
                        assert(spec_find_a(msg@, off as int, an - j) == Ok::<
                            int,
                            ResolverError,
                        >(e + 10));
                        assert(r@ =~= msg@.subrange(e + 10, e + 14));
                    }
                    return Ok(r);
                }
                off = e + 10 + rdlen;
            },
        }
        j = j + 1;
    }
    Err(ResolverError::NoARecord)
}

/// Classifies a tunnel target against the provider prefixes. A literal
/// IPv4 is looked up directly; IPv6 is never self-provider and yields the
/// zero sentinel; a domain is classified by the first A answer of the DoH
/// response that the caller fetched for it.
pub fn is_cf_address(trie: &CidrTrie, addr: &Address, doh_response: Option<&Vec<u8>>) -> (r:
    Result<(bool, [u8; 4]), ResolverError>)
    requires
        addr is Domain ==> doh_response is Some,
    ensures
        match *addr {
            Address::Ipv4(ip) => r is Ok && r->Ok_0.0 == covered_by(
                trie.prefixes(),
                ip_of(ip[0], ip[1], ip[2], ip[3]),
            ) && r->Ok_0.1 == ip,
            Address::Ipv6(_) => r is Ok && !r->Ok_0.0 && r->Ok_0.1@ == seq![0u8, 0u8, 0u8, 0u8],
            Address::Domain(_) => {
                let resp = doh_response->Some_0@;
                match spec_first_a(resp) {
                    Ok(o) => r is Ok && r->Ok_0.0 == covered_by(
                        trie.prefixes(),
                        ip_of(resp[o], resp[o + 1], resp[o + 2], resp[o + 3]),
                    ) && r->Ok_0.1@ == resp.subrange(o, o + 4),
                    Err(e) => r == Err::<(bool, [u8; 4]), ResolverError>(e),
                }
            },
        },
{
    match addr {
        Address::Ipv4(ip) => Ok((trie.contains_v4(*ip), *ip)),
        Address::Ipv6(_) => {
            let zero: [u8; 4] = [0, 0, 0, 0];
            proof {
                assert(zero@ =~= seq![0u8, 0u8, 0u8, 0u8]);
            }
            Ok((false, zero))
        },
        Address::Domain(_) => {
            let resp = doh_response.unwrap();
            match parse_first_a(resp.as_slice()) {
                Ok(ip) => {
                    proof {
                        let o = spec_first_a(resp@)->Ok_0;
                        lemma_first_a_in_bounds(resp@);
                        assert(ip@ == resp@.subrange(o, o + 4));
                        assert(ip[0] == resp@.subrange(o, o + 4)[0]);
                        assert(ip[1] == resp@.subrange(o, o + 4)[1]);
                        assert(ip[2] == resp@.subrange(o, o + 4)[2]);
                        assert(ip[3] == resp@.subrange(o, o + 4)[3]);
                    }
                    Ok((trie.contains_v4(ip), ip))
                },
                Err(e) => Err(e),
            }
        },
    }
}

/// A DNS name encoding: length-prefixed labels closed by the root label
/// or by a two-byte compression pointer.
pub open spec fn encode_dns_name(labels: Seq<Seq<u8>>, ptr: Option<u16>) -> Seq<u8>
    decreases labels.len(),
{
    if labels.len() == 0 {
        match ptr {
            None => seq![0u8],
            Some(p) => seq![(0xC0 + p / 0x100) as u8, (p % 0x100) as u8],
        }
    } else {
        seq![labels[0].len() as u8] + labels[0] + encode_dns_name(labels.drop_first(), ptr)
    }
}

/// Labels of 1 to 63 bytes each; a pointer offset fits in 14 bits.
pub open spec fn wf_dns_name(labels: Seq<Seq<u8>>, ptr: Option<u16>) -> bool {
    (forall|i: int| 0 <= i < labels.len() ==> 1 <= #[trigger] labels[i].len() <= 63) && (ptr
        is Some ==> ptr->0 < 0x4000)
}

/// An encoded name is never empty.
proof fn lemma_encode_dns_name_nonempty(labels: Seq<Seq<u8>>, ptr: Option<u16>)
    ensures
        encode_dns_name(labels, ptr).len() >= 1,
    decreases labels.len(),
{
    if labels.len() > 0 {
        lemma_encode_dns_name_nonempty(labels.drop_first(), ptr);
    }
}

/// Round trip: skipping a well-formed name that was encoded at the end of
/// `prefix` advances exactly past its encoding, whatever follows it.
pub proof fn lemma_skip_name_round_trip(
    labels: Seq<Seq<u8>>,
    ptr: Option<u16>,
    prefix: Seq<u8>,
    rest: Seq<u8>,
)
    requires
        wf_dns_name(labels, ptr),
    ensures
        spec_skip_name(prefix + encode_dns_name(labels, ptr) + rest, prefix.len() as int)
            == Some((prefix.len() + encode_dns_name(labels, ptr).len()) as int),
    decreases labels.len(),
{
    let enc = encode_dns_name(labels, ptr);
    let msg = prefix + enc + rest;
    lemma_encode_dns_name_nonempty(labels, ptr);
    assert(msg[prefix.len() as int] == enc[0]);
    if labels.len() == 0 {
        match ptr {
            None => {
                assert(enc == seq![0u8]);
            },
            Some(p) => {
                assert(enc[0] == (0xC0 + p / 0x100) as u8);
                assert(p / 0x100 < 0x40);
                assert(enc[0] >= 0xC0);
                assert(prefix.len() + 2 <= msg.len());
            },
        }
    } else {
        let l = labels[0].len() as int;
        assert(1 <= labels[0].len() <= 63);
        assert(enc =~= seq![labels[0].len() as u8] + labels[0] + encode_dns_name(
            labels.drop_first(),
            ptr,
        ));
        assert(enc[0] == labels[0].len() as u8);
        let prefix2 = prefix + seq![labels[0].len() as u8] + labels[0];
        let enc2 = encode_dns_name(labels.drop_first(), ptr);
        assert(wf_dns_name(labels.drop_first(), ptr)) by {
            assert forall|i: int| 0 <= i < labels.drop_first().len() implies 1
                <= #[trigger] labels.drop_first()[i].len() <= 63 by {
                assert(labels.drop_first()[i] == labels[i + 1]);
            }
        }
        lemma_skip_name_round_trip(labels.drop_first(), ptr, prefix2, rest);
        lemma_encode_dns_name_nonempty(labels.drop_first(), ptr);
        assert(prefix2 + enc2 + rest =~= msg);
        assert(spec_skip_name(msg, prefix2.len() as int) == Some(
            (prefix2.len() + enc2.len()) as int,
        ));
        assert(prefix2.len() == prefix.len() + 1 + l);
        assert(prefix.len() + 1 + l + enc2.len() <= msg.len());
        assert(0 < enc[0] < 64);
        assert(spec_skip_name(msg, prefix.len() as int) == spec_skip_name(
            msg,
            prefix.len() + 1 + l,
        ));
    }
}

} // verus!
