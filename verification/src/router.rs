//! The path router and the mirror dispatcher: which of the four roles a
//! request falls to, the `/<host>[:<port>][/<rest>]` path grammar, the
//! cookie parser behind the sticky-host protocol, and the upstream URL
//! builders.

use vstd::prelude::*;
use crate::api::hview;
use crate::api::spec_is_html;
use crate::api::response_is_html;
use crate::text;
use crate::text::is_prefix;

verus! {

/// The four routes the entry point serves, chosen from the path alone.
#[derive(Clone, Copy, Debug, PartialEq, Eq, Structural)]
pub enum ProxyRequestKind {
    /// `/dns-query`, forwarded verbatim to the DoH host.
    DnsQuery,
    /// The configured tunnel prefix: a Trojan WebSocket upgrade.
    Tunnel,
    /// `/v2/...`: the container-registry proxy.
    Registry,
    /// Everything else: the HTTPS mirror.
    Mirror,
}

/// The route a path falls to, in the order the router tests them.
pub open spec fn spec_route(path: Seq<char>, tj_prefix: Seq<char>) -> ProxyRequestKind {
    if path == "/dns-query"@ {
        ProxyRequestKind::DnsQuery
    } else if is_prefix(path, tj_prefix) {
        ProxyRequestKind::Tunnel
    } else if is_prefix(path, "/v2"@) {
        ProxyRequestKind::Registry
    } else {
        ProxyRequestKind::Mirror
    }
}

/// Routes one request path.
pub fn route_for(path: &str, tj_prefix: &str) -> (r: ProxyRequestKind)
    ensures
        r == spec_route(path@, tj_prefix@),
{
    let p = text::str_chars(path);
    if text::chars_eq(p.as_slice(), text::str_chars("/dns-query").as_slice()) {
        ProxyRequestKind::DnsQuery
    } else if text::starts_with(p.as_slice(), text::str_chars(tj_prefix).as_slice()) {
        ProxyRequestKind::Tunnel
    } else if text::starts_with(p.as_slice(), text::str_chars("/v2").as_slice()) {
        ProxyRequestKind::Registry
    } else {
        ProxyRequestKind::Mirror
    }
}

/// First `:` or `/` at or after `i` in the domain section, or the end.
pub open spec fn pp_delim(s: Seq<char>, i: int) -> int
    decreases s.len() - i,
{
    if i >= s.len() {
        s.len() as int
    } else if s[i] == ':' || s[i] == '/' {
        i
    } else {
        pp_delim(s, i + 1)
    }
}

/// First `/` at or after `i`, or the end.
pub open spec fn pp_slash(s: Seq<char>, i: int) -> int
    decreases s.len() - i,
{
    if i >= s.len() {
        s.len() as int
    } else if s[i] == '/' {
        i
    } else {
        pp_slash(s, i + 1)
    }
}

/// The mirror path grammar `/<domain>[:<port>][/<rest>]`: the domain runs
/// to the first `:` or `/`; a `:` opens the port, which runs to the next
/// `/`; the rest keeps its leading slash. Anything without a leading
/// slash, or with an empty domain, parses to nothing.
pub open spec fn spec_parse_path(url: Seq<char>) -> (
    Option<Seq<char>>,
    Option<Seq<char>>,
    Option<Seq<char>>,
) {
    if url.len() <= 1 || url[0] != '/' {
        (None, None, None)
    } else {
        let rest = url.skip(1);
        let de = pp_delim(rest, 0);
        if de == 0 {
            (None, None, None)
        } else {
            let domain = rest.take(de);
            if de == rest.len() {
                (Some(domain), None, None)
            } else if rest[de] == ':' {
                let after = rest.skip(de + 1);
                let fs = pp_slash(after, 0);
                if fs == after.len() {
                    (Some(domain), Some(after), None)
                } else {
                    (Some(domain), Some(after.take(fs)), Some(after.skip(fs)))
                }
            } else {
                (Some(domain), None, Some(rest.skip(de)))
            }
        }
    }
}

/// The string holds the characters, or both sides hold nothing.
pub open spec fn opt_matches(o: Option<String>, s: Option<Seq<char>>) -> bool {
    match (o, s) {
        (Some(a), Some(b)) => a@ == b,
        (None, None) => true,
        _ => false,
    }
}

/// Splits a mirror path into domain, port and rest.
pub fn parse_path(url: &str) -> (r: (Option<String>, Option<String>, Option<String>))
    ensures
        opt_matches(r.0, spec_parse_path(url@).0),
        opt_matches(r.1, spec_parse_path(url@).1),
        opt_matches(r.2, spec_parse_path(url@).2),
{
    let v = text::str_chars(url);
    let n = v.len();
    if n <= 1 || v[0] != '/' {
        return (None, None, None);
    }
    let ghost rest = url@.skip(1);
    // the end of the domain: the first ':' or '/' after the leading slash
    let mut de: usize = 1;
    while de < n && v[de] != ':' && v[de] != '/'
        invariant
            1 <= de <= n,
            n == v@.len(),
            v@ == url@,
            rest == url@.skip(1),
            pp_delim(rest, 0) == pp_delim(rest, de - 1),
        decreases n - de,
    {
        proof {
            assert(rest[de - 1] == v@[de as int]);
        }
        de = de + 1;
    }
    proof {
        if de < n {
            assert(rest[de - 1] == v@[de as int]);
        }
        assert(pp_delim(rest, 0) == de - 1);
    }
    if de == 1 {
        return (None, None, None);
    }
    let domain = text::chars_sub(v.as_slice(), 1, de);
    proof {
        assert(domain@ =~= rest.take(de - 1));
    }
    if de == n {
        return (Some(domain), None, None);
    }
    if v[de] == ':' {
        let ghost after = rest.skip(de as int);
        proof {
            assert(after =~= url@.skip(de + 1));
        }
        // the port runs to the next '/'
        let mut fs: usize = de + 1;
        while fs < n && v[fs] != '/'
            invariant
                de + 1 <= fs <= n,
                n == v@.len(),
                v@ == url@,
                after == url@.skip(de + 1),
                pp_slash(after, 0) == pp_slash(after, fs - de - 1),
            decreases n - fs,
        {
            proof {
                assert(after[fs - de - 1] == v@[fs as int]);
            }
            fs = fs + 1;
        }
        proof {
            if fs < n {
                assert(after[fs - de - 1] == v@[fs as int]);
            }
            assert(pp_slash(after, 0) == fs - de - 1);
        }
        if fs == n {
            let port = text::chars_sub(v.as_slice(), de + 1, n);
            proof {
                assert(port@ =~= after);
            }
            return (Some(domain), Some(port), None);
        }
        let port = text::chars_sub(v.as_slice(), de + 1, fs);
        let path = text::chars_sub(v.as_slice(), fs, n);
        proof {
            assert(port@ =~= after.take(fs - de - 1));
            assert(path@ =~= after.skip(fs - de - 1));
        }
        return (Some(domain), Some(port), Some(path));
    }
    let path = text::chars_sub(v.as_slice(), de, n);
    proof {
        assert(path@ =~= rest.skip(de - 1));
    }
    (Some(domain), None, Some(path))
}

/// The domain names a dot somewhere.
pub open spec fn has_dot(s: Seq<char>) -> bool {
    exists|i: int| 0 <= i < s.len() && s[i] == '.'
}

/// A mirror path is worth resolving only when it parsed to a domain with
/// a dot in it.
pub fn needs_resolve(domain: &Option<String>) -> (r: bool)
    ensures
        r == match domain {
            Some(d) => has_dot(d@),
            None => false,
        },
{
    match domain {
        Some(d) => {
            let v = text::str_chars(d.as_str());
            let mut i: usize = 0;
            while i < v.len()
                invariant
                    i <= v@.len(),
                    v@ == d@,
                    domain is Some && domain->0 == *d,
                    forall|j: int| 0 <= j < i ==> v@[j] != '.',
                decreases v@.len() - i,
            {
                if v[i] == '.' {
                    return true;
                }
                i = i + 1;
            }
            false
        },
        None => false,
    }
}

/// Where a mirror request goes.
pub enum MirrorOutcome {
    /// No resolvable domain and no sticky-host cookie: 404.
    NotFound,
    /// Forward to `domain`, with the parsed port and path; `onlydomain`
    /// marks a bare-domain request whose HTML response earns the sticky
    /// cookie.
    Forward { domain: String, port: Option<String>, path: Option<String>, onlydomain: bool },
}

/// Decides the mirror forward. A resolved domain is used as parsed, and
/// a bare one (no path, or a path of one character) is marked
/// `onlydomain`. An unresolved path falls back to the sticky-host
/// cookie, re-targeting the whole original path there; without a cookie
/// it is not found.
pub fn mirror_decide(
    domain: Option<String>,
    port: Option<String>,
    path: Option<String>,
    resolved: bool,
    cookie_host: Option<String>,
    origin_path: &str,
) -> (r: MirrorOutcome)
    requires
        resolved ==> domain is Some,
    ensures
        resolved ==> {
            &&& r is Forward
            &&& r->Forward_domain@ == domain->0@
            &&& opt_matches(
                r->Forward_port,
                match port {
                    Some(p) => Some(p@),
                    None => None,
                },
            )
            &&& opt_matches(
                r->Forward_path,
                match path {
                    Some(p) => Some(p@),
                    None => None,
                },
            )
            &&& r->Forward_onlydomain == (path is None || path->0@.len() < 2)
        },
        !resolved ==> match cookie_host {
            Some(h) => {
                &&& r is Forward
                &&& r->Forward_domain@ == h@
                &&& opt_matches(
                    r->Forward_port,
                    match port {
                        Some(p) => Some(p@),
                        None => None,
                    },
                )
                &&& r->Forward_path is Some && r->Forward_path->0@ == origin_path@
                &&& !r->Forward_onlydomain
            },
            None => r is NotFound,
        },
{
    if resolved {
        let onlydomain = match &path {
            Some(p) => p.as_str().unicode_len() < 2,
            None => true,
        };
        let d = domain.unwrap();
        MirrorOutcome::Forward { domain: d, port, path, onlydomain }
    } else {
        match cookie_host {
            Some(h) => MirrorOutcome::Forward {
                domain: h,
                port,
                path: Some(origin_path.to_owned()),
                onlydomain: false,
            },
            None => MirrorOutcome::NotFound,
        }
    }
}

/// ASCII whitespace around cookie pairs.
pub open spec fn is_ws(c: char) -> bool {
    c == ' ' || c == '\t' || c == '\r' || c == '\n'
}

/// First `;` at or after `i`, or the end.
pub open spec fn pp_semi(s: Seq<char>, i: int) -> int
    decreases s.len() - i,
{
    if i >= s.len() {
        s.len() as int
    } else if s[i] == ';' {
        i
    } else {
        pp_semi(s, i + 1)
    }
}

/// First `=` at or after `i`, or the end.
pub open spec fn pp_eq(s: Seq<char>, i: int) -> int
    decreases s.len() - i,
{
    if i >= s.len() {
        s.len() as int
    } else if s[i] == '=' {
        i
    } else {
        pp_eq(s, i + 1)
    }
}

/// First non-whitespace at or after `i`, or the end.
pub open spec fn pp_lead(s: Seq<char>, i: int) -> int
    decreases s.len() - i,
{
    if i >= s.len() {
        s.len() as int
    } else if !is_ws(s[i]) {
        i
    } else {
        pp_lead(s, i + 1)
    }
}

/// The length of `s` with trailing whitespace dropped.
pub open spec fn pp_trail(s: Seq<char>) -> int
    decreases s.len(),
{
    if s.len() == 0 {
        0
    } else if is_ws(s.last()) {
        pp_trail(s.drop_last())
    } else {
        s.len() as int
    }
}

/// `s` without leading and trailing whitespace.
pub open spec fn trim_ws(s: Seq<char>) -> Seq<char> {
    let t = s.take(pp_trail(s));
    t.skip(pp_lead(t, 0))
}

/// The name/value pair a cookie piece yields: trimmed and split at its
/// first `=`; a piece without `=` yields nothing.
pub open spec fn cookie_pair(piece: Seq<char>) -> Option<(Seq<char>, Seq<char>)> {
    let t = trim_ws(piece);
    let e = pp_eq(t, 0);
    if e == t.len() {
        None
    } else {
        Some((t.take(e), t.skip(e + 1)))
    }
}

/// The cookie pairs of a header value: `;`-separated pieces, each
/// trimmed and split at its first `=`, in order.
pub open spec fn spec_parse_cookies(s: Seq<char>) -> Seq<(Seq<char>, Seq<char>)>
    decreases s.len(),
{
    let e = pp_semi(s, 0);
    let head = match cookie_pair(s.take(e)) {
        Some(p) => seq![p],
        None => Seq::empty(),
    };
    if 0 <= e < s.len() {
        head + spec_parse_cookies(s.skip(e + 1))
    } else {
        head
    }
}

/// Splits one piece into its trimmed name/value pair.
fn parse_cookie_piece(v: &[char], from: usize, to: usize) -> (r: Option<(String, String)>)
    requires
        from <= to <= v@.len(),
    ensures
        match (r, cookie_pair(v@.subrange(from as int, to as int))) {
            (Some(p), Some(sp)) => p.0@ == sp.0 && p.1@ == sp.1,
            (None, None) => true,
            _ => false,
        },
{
    let ghost piece = v@.subrange(from as int, to as int);
    proof {
        assert(piece.take((to - from) as int) =~= piece);
    }
    // drop trailing whitespace
    let mut b: usize = to;
    while b > from && (v[b - 1] == ' ' || v[b - 1] == '\t' || v[b - 1] == '\r' || v[b - 1]
        == '\n')
        invariant
            from <= b <= to <= v@.len(),
            piece == v@.subrange(from as int, to as int),
            pp_trail(piece) == pp_trail(piece.take(b - from)),
        decreases b,
    {
        proof {
            let t = piece.take(b - from);
            assert(t.last() == v@[b - 1]);
            assert(t.drop_last() =~= piece.take(b - 1 - from));
        }
        b = b - 1;
    }
    proof {
        let t = piece.take(b - from);
        if b > from {
            assert(t.last() == v@[b - 1]);
        }
        assert(pp_trail(piece) == b - from);
    }
    // drop leading whitespace
    let mut a: usize = from;
    let ghost t1 = piece.take(pp_trail(piece));
    proof {
        assert(t1 =~= v@.subrange(from as int, b as int));
    }
    while a < b && (v[a] == ' ' || v[a] == '\t' || v[a] == '\r' || v[a] == '\n')
        invariant
            from <= a <= b <= v@.len(),
            t1 == v@.subrange(from as int, b as int),
            pp_lead(t1, 0) == pp_lead(t1, a - from),
        decreases b - a,
    {
        proof {
            assert(t1[a - from] == v@[a as int]);
        }
        a = a + 1;
    }
    proof {
        if a < b {
            assert(t1[a - from] == v@[a as int]);
        }
        assert(pp_lead(t1, 0) == a - from);
    }
    let ghost t = trim_ws(piece);
    proof {
        assert(t =~= v@.subrange(a as int, b as int));
    }
    // split at the first '='
    let mut e: usize = a;
    while e < b && v[e] != '='
        invariant
            a <= e <= b <= v@.len(),
            t == v@.subrange(a as int, b as int),
            pp_eq(t, 0) == pp_eq(t, e - a),
        decreases b - e,
    {
        proof {
            assert(t[e - a] == v@[e as int]);
        }
        e = e + 1;
    }
    proof {
        if e < b {
            assert(t[e - a] == v@[e as int]);
        }
        assert(pp_eq(t, 0) == e - a);
    }
    if e == b {
        return None;
    }
    let name = text::chars_sub(v, a, e);
    let value = text::chars_sub(v, e + 1, b);
    proof {
        assert(name@ =~= t.take(e - a));
        assert(value@ =~= t.skip(e - a + 1));
    }
    Some((name, value))
}

/// Parses a `Cookie` header value into its name/value pairs, in order.
pub fn parse_cookies(cookie_str: &str) -> (r: Vec<(String, String)>)
    ensures
        hview(r@) == spec_parse_cookies(cookie_str@),
{
    let v = text::str_chars(cookie_str);
    let n = v.len();
    let mut r: Vec<(String, String)> = Vec::new();
    let mut p: usize = 0;
    proof {
        assert(cookie_str@.skip(0) =~= cookie_str@);
    }
    loop
        invariant_except_break
            p <= n,
            n == v@.len(),
            v@ == cookie_str@,
            hview(r@) + spec_parse_cookies(v@.skip(p as int)) == spec_parse_cookies(v@),
        ensures
            hview(r@) == spec_parse_cookies(cookie_str@),
        decreases n - p,
    {
        let ghost rest = v@.skip(p as int);
        let ghost prev = hview(r@);
        // this piece runs to the next ';' or the end
        let mut e: usize = p;
        while e < n && v[e] != ';'
            invariant
                p <= e <= n,
                n == v@.len(),
                rest == v@.skip(p as int),
                pp_semi(rest, 0) == pp_semi(rest, e - p),
            decreases n - e,
        {
            proof {
                assert(rest[e - p] == v@[e as int]);
            }
            e = e + 1;
        }
        proof {
            if e < n {
                assert(rest[e - p] == v@[e as int]);
            }
            assert(pp_semi(rest, 0) == e - p);
            assert(rest.take(e - p) =~= v@.subrange(p as int, e as int));
        }
        match parse_cookie_piece(v.as_slice(), p, e) {
            Some(pair) => {
                r.push(pair);
                proof {
                    assert(hview(r@) =~= prev + seq![(r@.last().0@, r@.last().1@)]);
                }
            },
            None => {
                proof {
                    assert(hview(r@) + Seq::<(Seq<char>, Seq<char>)>::empty() =~= hview(r@));
                }
            },
        }
        if e == n {
            proof {
                assert(hview(r@) =~= spec_parse_cookies(v@));
            }
            break ;
        }
        proof {
            assert(rest.skip(e - p + 1) =~= v@.skip(e + 1));
        }
        p = e + 1;
    }
    r
}

/// The value of the last pair carrying `name`, scanned from the end.
pub open spec fn spec_cookie_lookup(pairs: Seq<(Seq<char>, Seq<char>)>, name: Seq<char>) -> Option<
    Seq<char>,
>
    decreases pairs.len(),
{
    if pairs.len() == 0 {
        None
    } else if pairs.last().0 == name {
        Some(pairs.last().1)
    } else {
        spec_cookie_lookup(pairs.drop_last(), name)
    }
}

/// Looks a cookie up by name; a repeated name yields its last value.
pub fn cookie_value(pairs: &Vec<(String, String)>, name: &str) -> (r: Option<String>)
    ensures
        match (r, spec_cookie_lookup(hview(pairs@), name@)) {
            (Some(a), Some(b)) => a@ == b,
            (None, None) => true,
            _ => false,
        },
{
    let want = text::str_chars(name);
    let mut i: usize = pairs.len();
    proof {
        assert(hview(pairs@).take(i as int) =~= hview(pairs@));
    }
    while i > 0
        invariant
            i <= pairs@.len(),
            want@ == name@,
            spec_cookie_lookup(hview(pairs@).take(i as int), name@) == spec_cookie_lookup(
                hview(pairs@),
                name@,
            ),
        decreases i,
    {
        i = i - 1;
        let k = text::str_chars(pairs[i].0.as_str());
        proof {
            assert(hview(pairs@).take(i + 1).last() == (pairs@[i as int].0@, pairs@[i as int].1@));
            assert(hview(pairs@).take(i + 1).drop_last() =~= hview(pairs@).take(i as int));
        }
        if text::chars_eq(k.as_slice(), want.as_slice()) {
            return Some(pairs[i].1.clone());
        }
    }
    proof {
        assert(hview(pairs@).take(0) =~= Seq::<(Seq<char>, Seq<char>)>::empty());
    }
    None
}

/// The re-encoded query string `k1=v1&k2=v2…`, in the order given.
pub open spec fn spec_query_string(q: Seq<(Seq<char>, Seq<char>)>) -> Seq<char>
    decreases q.len(),
{
    if q.len() == 0 {
        Seq::empty()
    } else if q.len() == 1 {
        q[0].0 + seq!['='] + q[0].1
    } else {
        spec_query_string(q.drop_last()) + seq!['&'] + q.last().0 + seq!['='] + q.last().1
    }
}

/// Re-encodes query pairs as `k1=v1&k2=v2…`.
pub fn query_string(q: &Vec<(String, String)>) -> (r: Vec<char>)
    ensures
        r@ == spec_query_string(hview(q@)),
{
    let mut out: Vec<char> = Vec::new();
    let mut i: usize = 0;
    proof {
        assert(hview(q@).take(0) =~= Seq::<(Seq<char>, Seq<char>)>::empty());
        assert(out@ =~= spec_query_string(hview(q@).take(0)));
    }
    while i < q.len()
        invariant
            i <= q@.len(),
            out@ == spec_query_string(hview(q@).take(i as int)),
        decreases q@.len() - i,
    {
        let ghost prev = out@;
        if i > 0 {
            out.push('&');
        }
        text::append_chars(&mut out, text::str_chars(q[i].0.as_str()).as_slice());
        out.push('=');
        text::append_chars(&mut out, text::str_chars(q[i].1.as_str()).as_slice());
        proof {
            assert(hview(q@).take(i + 1).drop_last() =~= hview(q@).take(i as int));
            assert(hview(q@).take(i + 1).last() == (q@[i as int].0@, q@[i as int].1@));
            if i == 0 {
                assert(hview(q@).take(1)[0] == (q@[0].0@, q@[0].1@));
                assert(out@ =~= spec_query_string(hview(q@).take(1)));
            } else {
                assert(out@ =~= spec_query_string(hview(q@).take(i + 1)));
            }
        }
        i = i + 1;
    }
    proof {
        assert(hview(q@).take(q@.len() as int) =~= hview(q@));
    }
    out
}

/// The upstream mirror URL: scheme, domain, optional port, optional
/// path, and the re-encoded query when the request carried one.
pub open spec fn spec_mirror_url(
    domain: Seq<char>,
    port: Option<Seq<char>>,
    path: Option<Seq<char>>,
    query: Option<Seq<(Seq<char>, Seq<char>)>>,
) -> Seq<char> {
    "https://"@ + domain + (match port {
        Some(p) => seq![':'] + p,
        None => Seq::empty(),
    }) + (match path {
        Some(p) => p,
        None => Seq::empty(),
    }) + (match query {
        Some(q) => seq!['?'] + spec_query_string(q),
        None => Seq::empty(),
    })
}

/// Builds the upstream mirror URL.
pub fn build_mirror_url(
    domain: &str,
    port: &Option<String>,
    path: &Option<String>,
    query: Option<&Vec<(String, String)>>,
) -> (r: String)
    ensures
        r@ == spec_mirror_url(
            domain@,
            match port {
                Some(p) => Some(p@),
                None => None,
            },
            match path {
                Some(p) => Some(p@),
                None => None,
            },
            match query {
                Some(q) => Some(hview(q@)),
                None => None,
            },
        ),
{
    let mut out: Vec<char> = Vec::new();
    proof {
        reveal_strlit("https://");
    }
    text::append_chars(&mut out, text::str_chars("https://").as_slice());
    text::append_chars(&mut out, text::str_chars(domain).as_slice());
    match port {
        Some(p) => {
            out.push(':');
            text::append_chars(&mut out, text::str_chars(p.as_str()).as_slice());
        },
        None => {},
    }
    match path {
        Some(p) => {
            text::append_chars(&mut out, text::str_chars(p.as_str()).as_slice());
        },
        None => {},
    }
    match query {
        Some(q) => {
            out.push('?');
            let qs = query_string(q);
            text::append_chars(&mut out, qs.as_slice());
        },
        None => {},
    }
    proof {
        assert(out@ =~= spec_mirror_url(
            domain@,
            match port {
                Some(p) => Some(p@),
                None => None,
            },
            match path {
                Some(p) => Some(p@),
                None => None,
            },
            match query {
                Some(q) => Some(hview(q@)),
                None => None,
            },
        ));
    }
    text::chars_string(out.as_slice())
}

/// The DoH forward URL: scheme, DoH host, the request's own path, and
/// the query when one came along.
pub open spec fn spec_doh_url(host: Seq<char>, path: Seq<char>, query: Option<Seq<char>>) -> Seq<
    char,
> {
    "https://"@ + host + path + (match query {
        Some(q) => seq!['?'] + q,
        None => Seq::empty(),
    })
}

/// Builds the URL the DNS forward goes to.
pub fn build_doh_url(host: &str, path: &str, query: Option<&String>) -> (r: String)
    ensures
        r@ == spec_doh_url(
            host@,
            path@,
            match query {
                Some(q) => Some(q@),
                None => None,
            },
        ),
{
    let mut out: Vec<char> = Vec::new();
    proof {
        reveal_strlit("https://");
    }
    text::append_chars(&mut out, text::str_chars("https://").as_slice());
    text::append_chars(&mut out, text::str_chars(host).as_slice());
    text::append_chars(&mut out, text::str_chars(path).as_slice());
    match query {
        Some(q) => {
            out.push('?');
            text::append_chars(&mut out, text::str_chars(q.as_str()).as_slice());
        },
        None => {},
    }
    proof {
        assert(out@ =~= spec_doh_url(
            host@,
            path@,
            match query {
                Some(q) => Some(q@),
                None => None,
            },
        ));
    }
    text::chars_string(out.as_slice())
}

/// The sticky-host cookie the mirror sets on a bare-domain HTML
/// response.
pub open spec fn spec_sticky_cookie(domain: Seq<char>) -> Seq<char> {
    "tul_host="@ + domain + "; Path=/; Max-Age=3600"@
}

/// The `Set-Cookie` value a mirrored response carries if it is an HTML
/// answer to a bare-domain request, and nothing otherwise.
pub fn mirror_set_cookie(
    headers: &Vec<(String, String)>,
    onlydomain: bool,
    domain: &str,
) -> (r: Option<String>)
    ensures
        r is Some <==> (onlydomain && spec_is_html(hview(headers@))),
        r is Some ==> r->0@ == spec_sticky_cookie(domain@),
{
    if !onlydomain {
        return None;
    }
    if !response_is_html(headers) {
        return None;
    }
    let mut out: Vec<char> = Vec::new();
    text::append_chars(&mut out, text::str_chars("tul_host=").as_slice());
    text::append_chars(&mut out, text::str_chars(domain).as_slice());
    text::append_chars(&mut out, text::str_chars("; Path=/; Max-Age=3600").as_slice());
    proof {
        assert(out@ =~= spec_sticky_cookie(domain@));
    }
    Some(text::chars_string(out.as_slice()))
}

} // verus!
