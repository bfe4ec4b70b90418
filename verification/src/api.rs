//! The registry/mirror proxy transformations: the upstream request's
//! headers, the response's headers (redirects, authentication challenges,
//! cookies, security headers), and the HTML body rewrite that keeps
//! navigation on the mirror. Fetching itself stays with the caller.

use vstd::prelude::*;
use crate::text;
use crate::text::contains_seq;
use crate::text::is_prefix;
use crate::text::lower;
use crate::text::occurs_at;
use crate::text::spec_replace_all;

verus! {

/// A header list as character sequences.
pub open spec fn hview(h: Seq<(String, String)>) -> Seq<(Seq<char>, Seq<char>)> {
    h.map_values(|p: (String, String)| (p.0@, p.1@))
}

/// The name is one of the hop-by-hop headers that never cross the proxy,
/// compared case-insensitively.
pub open spec fn is_hop_name(n: Seq<char>) -> bool {
    let l = lower(n);
    ||| l == "connection"@
    ||| l == "keep-alive"@
    ||| l == "proxy-authenticate"@
    ||| l == "proxy-authorization"@
    ||| l == "te"@
    ||| l == "trailers"@
    ||| l == "transfer-encoding"@
    ||| l == "upgrade"@
}

/// Exec test for the hop-by-hop set.
pub fn is_hop_header(name: &str) -> (r: bool)
    ensures
        r == is_hop_name(name@),
{
    let l = text::lower_chars(name);
    let ls = l.as_slice();
    if text::chars_eq(ls, text::str_chars("connection").as_slice()) {
        return true;
    }
    if text::chars_eq(ls, text::str_chars("keep-alive").as_slice()) {
        return true;
    }
    if text::chars_eq(ls, text::str_chars("proxy-authenticate").as_slice()) {
        return true;
    }
    if text::chars_eq(ls, text::str_chars("proxy-authorization").as_slice()) {
        return true;
    }
    if text::chars_eq(ls, text::str_chars("te").as_slice()) {
        return true;
    }
    if text::chars_eq(ls, text::str_chars("trailers").as_slice()) {
        return true;
    }
    if text::chars_eq(ls, text::str_chars("transfer-encoding").as_slice()) {
        return true;
    }
    if text::chars_eq(ls, text::str_chars("upgrade").as_slice()) {
        return true;
    }
    false
}

/// A request header survives the hop filter and is not about to be
/// overwritten: neither hop-by-hop nor `host` nor `referer`.
pub open spec fn keep_request_header(p: (Seq<char>, Seq<char>)) -> bool {
    !is_hop_name(p.0) && lower(p.0) != "host"@ && lower(p.0) != "referer"@
}

/// The kept request headers, in order.
pub open spec fn filter_request_headers(h: Seq<(Seq<char>, Seq<char>)>) -> Seq<
    (Seq<char>, Seq<char>),
>
    decreases h.len(),
{
    if h.len() == 0 {
        Seq::empty()
    } else {
        filter_request_headers(h.drop_last()) + if keep_request_header(h.last()) {
            seq![h.last()]
        } else {
            Seq::empty()
        }
    }
}

/// The upstream request's headers: the client's headers without the
/// hop-by-hop set, the host overwritten with the upstream host, and the
/// referer cleared.
pub open spec fn spec_upstream_headers(h: Seq<(Seq<char>, Seq<char>)>, up: Seq<char>) -> Seq<
    (Seq<char>, Seq<char>),
> {
    filter_request_headers(h) + seq![("host"@, up), ("referer"@, Seq::<char>::empty())]
}

/// `host` and `referer` are not hop-by-hop names.
pub proof fn lemma_overwritten_not_hop()
    ensures
        !is_hop_name("host"@),
        !is_hop_name("referer"@),
{
    reveal_strlit("host");
    reveal_strlit("referer");
    reveal_strlit("connection");
    reveal_strlit("keep-alive");
    reveal_strlit("proxy-authenticate");
    reveal_strlit("proxy-authorization");
    reveal_strlit("te");
    reveal_strlit("trailers");
    reveal_strlit("transfer-encoding");
    reveal_strlit("upgrade");
    assert(lower("host"@) =~= "host"@);
    assert(lower("referer"@) =~= "referer"@);
    assert("host"@.len() == 4);
    assert("referer"@[0] == 'r' && "upgrade"@[0] == 'u');
}

/// Builds the headers of the upstream request. No hop-by-hop header
/// survives, the upstream host replaces the client's, and the referer is
/// cleared.
pub fn build_upstream_headers(headers: &Vec<(String, String)>, upstream_host: &str) -> (r: Vec<
    (String, String),
>)
    ensures
        hview(r@) == spec_upstream_headers(hview(headers@), upstream_host@),
        forall|i: int| 0 <= i < hview(r@).len() ==> !is_hop_name(#[trigger] hview(r@)[i].0),
{
    let mut r: Vec<(String, String)> = Vec::new();
    let mut i: usize = 0;
    proof {
        assert(hview(headers@).take(0) =~= Seq::<(Seq<char>, Seq<char>)>::empty());
        assert(hview(r@) =~= filter_request_headers(hview(headers@).take(0)));
    }
    while i < headers.len()
        invariant
            i <= headers@.len(),
            hview(r@) == filter_request_headers(hview(headers@).take(i as int)),
            forall|j: int| 0 <= j < r@.len() ==> keep_request_header(#[trigger] hview(r@)[j]),
        decreases headers@.len() - i,
    {
        let ghost prev = hview(r@);
        let name = &headers[i].0;
        let value = &headers[i].1;
        let l = text::lower_chars(name.as_str());
        let keep = !is_hop_header(name.as_str()) && !text::chars_eq(
            l.as_slice(),
            text::str_chars("host").as_slice(),
        ) && !text::chars_eq(l.as_slice(), text::str_chars("referer").as_slice());
        if keep {
            r.push((name.clone(), value.clone()));
        }
        proof {
            assert(hview(headers@).take(i + 1).drop_last() =~= hview(headers@).take(i as int));
            assert(hview(headers@).take(i + 1).last() == (name@, value@));
            if keep {
                assert(hview(r@) =~= prev + seq![(name@, value@)]);
            } else {
                assert(hview(r@) =~= prev);
                assert(prev + Seq::<(Seq<char>, Seq<char>)>::empty() =~= prev);
            }
        }
        i = i + 1;
    }
    proof {
        assert(hview(headers@).take(headers@.len() as int) =~= hview(headers@));
    }
    let host_entry = ("host".to_owned(), upstream_host.to_owned());
    let referer_entry = ("referer".to_owned(), String::new());
    let ghost before = hview(r@);
    r.push(host_entry);
    r.push(referer_entry);
    proof {
        assert(hview(r@) =~= before + seq![
            ("host"@, upstream_host@),
            ("referer"@, Seq::<char>::empty()),
        ]);
        lemma_overwritten_not_hop();
        assert forall|i: int| 0 <= i < hview(r@).len() implies !is_hop_name(
            #[trigger] hview(r@)[i].0,
        ) by {
            if i < before.len() {
                assert(hview(r@)[i] == before[i]);
            } else if i == before.len() {
                assert(hview(r@)[i].0 == "host"@);
            } else {
                assert(hview(r@)[i].0 == "referer"@);
            }
        }
    }
    r
}

/// A forwarded header survives: not hop-by-hop and not the overwritten
/// host.
pub open spec fn keep_forward_header(p: (Seq<char>, Seq<char>)) -> bool {
    !is_hop_name(p.0) && lower(p.0) != "host"@
}

/// The kept forwarded headers, in order.
pub open spec fn filter_forward_headers(h: Seq<(Seq<char>, Seq<char>)>) -> Seq<
    (Seq<char>, Seq<char>),
>
    decreases h.len(),
{
    if h.len() == 0 {
        Seq::empty()
    } else {
        filter_forward_headers(h.drop_last()) + if keep_forward_header(h.last()) {
            seq![h.last()]
        } else {
            Seq::empty()
        }
    }
}

/// The headers of a verbatim forward (the DNS relay): the client's
/// headers without the hop-by-hop set, the host overwritten.
pub open spec fn spec_forward_headers(h: Seq<(Seq<char>, Seq<char>)>, host: Seq<char>) -> Seq<
    (Seq<char>, Seq<char>),
> {
    filter_forward_headers(h) + seq![("host"@, host)]
}

/// Builds the headers of a verbatim forward; no hop-by-hop header
/// survives and the target host replaces the client's.
pub fn build_forward_headers(headers: &Vec<(String, String)>, host: &str) -> (r: Vec<
    (String, String),
>)
    ensures
        hview(r@) == spec_forward_headers(hview(headers@), host@),
{
    let mut r: Vec<(String, String)> = Vec::new();
    let mut i: usize = 0;
    proof {
        assert(hview(headers@).take(0) =~= Seq::<(Seq<char>, Seq<char>)>::empty());
        assert(hview(r@) =~= filter_forward_headers(hview(headers@).take(0)));
    }
    while i < headers.len()
        invariant
            i <= headers@.len(),
            hview(r@) == filter_forward_headers(hview(headers@).take(i as int)),
        decreases headers@.len() - i,
    {
        let ghost prev = hview(r@);
        let name = &headers[i].0;
        let value = &headers[i].1;
        let l = text::lower_chars(name.as_str());
        let keep = !is_hop_header(name.as_str()) && !text::chars_eq(
            l.as_slice(),
            text::str_chars("host").as_slice(),
        );
        if keep {
            r.push((name.clone(), value.clone()));
        }
        proof {
            assert(hview(headers@).take(i + 1).drop_last() =~= hview(headers@).take(i as int));
            assert(hview(headers@).take(i + 1).last() == (name@, value@));
            if keep {
                assert(hview(r@) =~= prev + seq![(name@, value@)]);
            } else {
                assert(hview(r@) =~= prev);
                assert(prev + Seq::<(Seq<char>, Seq<char>)>::empty() =~= prev);
            }
        }
        i = i + 1;
    }
    proof {
        assert(hview(headers@).take(headers@.len() as int) =~= hview(headers@));
    }
    let ghost before = hview(r@);
    r.push(("host".to_owned(), host.to_owned()));
    proof {
        assert(hview(r@) =~= before + seq![("host"@, host@)]);
    }
    r
}

/// First `/`, `?` or `#` at or after `i`, or the end of `v`.
pub open spec fn loc_delim(v: Seq<char>, i: int) -> int
    decreases v.len() - i,
{
    if i >= v.len() {
        v.len() as int
    } else if v[i] == '/' || v[i] == '?' || v[i] == '#' {
        i
    } else {
        loc_delim(v, i + 1)
    }
}

/// The authority part of an `https://` URL: everything between the
/// scheme and the first `/`, `?` or `#`.
pub open spec fn location_authority(v: Seq<char>) -> Seq<char> {
    v.subrange(8, loc_delim(v, 8))
}

/// The redirect goes to object storage and must be followed directly:
/// its authority names `cloudflarestorage`.
pub open spec fn is_storage_location(v: Seq<char>) -> bool {
    contains_seq(location_authority(v), "cloudflarestorage"@)
}

/// The scheme-and-host replacement written into rewritten URLs.
pub open spec fn https_my(my: Seq<char>) -> Seq<char> {
    "https://"@ + my + seq!['/']
}

/// A redirect location as the client must see it: a path is prefixed
/// with the upstream host, an `https://` URL is re-rooted under the
/// mirror host unless it goes to object storage, and anything else is
/// left alone.
pub open spec fn spec_rewrite_location(v: Seq<char>, up: Seq<char>, my: Seq<char>) -> Seq<char> {
    if v.len() > 0 && v[0] == '/' {
        seq!['/'] + up + v
    } else if is_prefix(v, "https://"@) {
        if is_storage_location(v) {
            v
        } else {
            spec_replace_all(v, "https://"@, https_my(my))
        }
    } else {
        v
    }
}

/// Rewrites one redirect location.
pub fn rewrite_location(value: &str, upstream_host: &str, my_host: &str) -> (r: String)
    ensures
        r@ == spec_rewrite_location(value@, upstream_host@, my_host@),
{
    let v = text::str_chars(value);
    proof {
        reveal_strlit("https://");
    }
    if v.len() > 0 && v[0] == '/' {
        let mut out: Vec<char> = Vec::new();
        out.push('/');
        text::append_chars(&mut out, text::str_chars(upstream_host).as_slice());
        text::append_chars(&mut out, v.as_slice());
        proof {
            assert(out@ =~= seq!['/'] + upstream_host@ + value@);
        }
        return text::chars_string(out.as_slice());
    }
    let https = text::str_chars("https://");
    if !text::starts_with(v.as_slice(), https.as_slice()) {
        return value.to_owned();
    }
    // authority: from behind the scheme to the first '/', '?' or '#'
    let n = v.len();
    let mut cur: usize = 8;
    while cur < n && v[cur] != '/' && v[cur] != '?' && v[cur] != '#'
        invariant
            8 <= cur <= n,
            n == v@.len(),
            loc_delim(v@, 8) == loc_delim(v@, cur as int),
        decreases n - cur,
    {
        cur = cur + 1;
    }
    assert(loc_delim(v@, 8) == cur);
    let mut authority: Vec<char> = Vec::new();
    let mut k: usize = 8;
    while k < cur
        invariant
            8 <= k <= cur <= n,
            n == v@.len(),
            authority@ == v@.subrange(8, k as int),
        decreases cur - k,
    {
        authority.push(v[k]);
        assert(authority@ =~= v@.subrange(8, k + 1));
        k = k + 1;
    }
    proof {
        reveal_strlit("cloudflarestorage");
    }
    let storage = text::contains_sub(
        authority.as_slice(),
        text::str_chars("cloudflarestorage").as_slice(),
    );
    if storage {
        value.to_owned()
    } else {
        let mut repl: Vec<char> = Vec::new();
        text::append_chars(&mut repl, https.as_slice());
        text::append_chars(&mut repl, text::str_chars(my_host).as_slice());
        repl.push('/');
        proof {
            assert(repl@ =~= https_my(my_host@));
            assert("https://"@.len() == 8);
        }
        let out = text::replace_all(v.as_slice(), https.as_slice(), repl.as_slice());
        text::chars_string(out.as_slice())
    }
}

/// The value a response header carries on to the client: redirect
/// locations are re-rooted, the 401 challenge's realm is re-rooted, and
/// cookies have the upstream host replaced by the mirror host.
pub open spec fn spec_response_value(
    status: int,
    name_l: Seq<char>,
    value: Seq<char>,
    up: Seq<char>,
    my: Seq<char>,
) -> Seq<char> {
    if 301 <= status <= 308 && name_l == "location"@ {
        spec_rewrite_location(value, up, my)
    } else if status == 401 && name_l == "www-authenticate"@ {
        spec_replace_all(value, "https://"@, https_my(my))
    } else if name_l == "set-cookie"@ {
        spec_replace_all(value, up, my)
    } else {
        value
    }
}

/// A response header survives: not hop-by-hop, not the deleted security
/// policy, not the forced CORS header, and not a stale content encoding
/// when the body was rewritten.
pub open spec fn keep_response_header(p: (Seq<char>, Seq<char>), html: bool) -> bool {
    &&& !is_hop_name(p.0)
    &&& lower(p.0) != "content-security-policy"@
    &&& lower(p.0) != "access-control-allow-origin"@
    &&& (html ==> lower(p.0) != "content-encoding"@)
}

/// The surviving response headers with their rewritten values, in order.
pub open spec fn map_response_headers(
    h: Seq<(Seq<char>, Seq<char>)>,
    status: int,
    up: Seq<char>,
    my: Seq<char>,
    html: bool,
) -> Seq<(Seq<char>, Seq<char>)>
    decreases h.len(),
{
    if h.len() == 0 {
        Seq::empty()
    } else {
        map_response_headers(h.drop_last(), status, up, my, html) + if keep_response_header(
            h.last(),
            html,
        ) {
            seq![(h.last().0, spec_response_value(status, lower(h.last().0), h.last().1, up, my))]
        } else {
            Seq::empty()
        }
    }
}

/// The response headers handed to the client: the surviving upstream
/// headers, rewritten, with the CORS header forced open.
pub open spec fn spec_response_headers(
    h: Seq<(Seq<char>, Seq<char>)>,
    status: int,
    up: Seq<char>,
    my: Seq<char>,
    html: bool,
) -> Seq<(Seq<char>, Seq<char>)> {
    map_response_headers(h, status, up, my, html) + seq![("access-control-allow-origin"@, "*"@)]
}

/// Rewrites the upstream response's headers for the client. The result
/// never carries a hop-by-hop header or a content security policy,
/// always allows any origin, and carries no content encoding when the
/// body was rewritten.
pub fn rewrite_response_headers(
    headers: &Vec<(String, String)>,
    status: u16,
    upstream_host: &str,
    my_host: &str,
    html: bool,
) -> (r: Vec<(String, String)>)
    requires
        upstream_host@.len() > 0,
    ensures
        hview(r@) == spec_response_headers(
            hview(headers@),
            status as int,
            upstream_host@,
            my_host@,
            html,
        ),
{
    let mut r: Vec<(String, String)> = Vec::new();
    let mut i: usize = 0;
    proof {
        assert(hview(headers@).take(0) =~= Seq::<(Seq<char>, Seq<char>)>::empty());
        assert(hview(r@) =~= map_response_headers(
            hview(headers@).take(0),
            status as int,
            upstream_host@,
            my_host@,
            html,
        ));
    }
    while i < headers.len()
        invariant
            i <= headers@.len(),
            upstream_host@.len() > 0,
            hview(r@) == map_response_headers(
                hview(headers@).take(i as int),
                status as int,
                upstream_host@,
                my_host@,
                html,
            ),
        decreases headers@.len() - i,
    {
        let ghost prev = hview(r@);
        let name = &headers[i].0;
        let value = &headers[i].1;
        let l = text::lower_chars(name.as_str());
        let ls = l.as_slice();
        let mut keep = !is_hop_header(name.as_str()) && !text::chars_eq(
            ls,
            text::str_chars("content-security-policy").as_slice(),
        ) && !text::chars_eq(ls, text::str_chars("access-control-allow-origin").as_slice());
        if html && text::chars_eq(ls, text::str_chars("content-encoding").as_slice()) {
            keep = false;
        }
        if keep {
            let new_value: String = if 301 <= status && status <= 308 && text::chars_eq(
                ls,
                text::str_chars("location").as_slice(),
            ) {
                rewrite_location(value.as_str(), upstream_host, my_host)
            } else if status == 401 && text::chars_eq(
                ls,
                text::str_chars("www-authenticate").as_slice(),
            ) {
                proof {
                    reveal_strlit("https://");
                }
                let https = text::str_chars("https://");
                let mut repl: Vec<char> = Vec::new();
                text::append_chars(&mut repl, https.as_slice());
                text::append_chars(&mut repl, text::str_chars(my_host).as_slice());
                repl.push('/');
                proof {
                    assert(repl@ =~= https_my(my_host@));
                    assert("https://"@.len() == 8);
                }
                let out = text::replace_all(
                    text::str_chars(value.as_str()).as_slice(),
                    https.as_slice(),
                    repl.as_slice(),
                );
                text::chars_string(out.as_slice())
            } else if text::chars_eq(ls, text::str_chars("set-cookie").as_slice()) {
                let out = text::replace_all(
                    text::str_chars(value.as_str()).as_slice(),
                    text::str_chars(upstream_host).as_slice(),
                    text::str_chars(my_host).as_slice(),
                );
                text::chars_string(out.as_slice())
            } else {
                value.clone()
            };
            r.push((name.clone(), new_value));
        }
        proof {
            assert(hview(headers@).take(i + 1).drop_last() =~= hview(headers@).take(i as int));
            assert(hview(headers@).take(i + 1).last() == (name@, value@));
            if keep {
                assert(hview(r@) =~= prev + seq![
                    (
                        name@,
                        spec_response_value(
                            status as int,
                            lower(name@),
                            value@,
                            upstream_host@,
                            my_host@,
                        ),
                    ),
                ]);
            } else {
                assert(hview(r@) =~= prev);
                assert(prev + Seq::<(Seq<char>, Seq<char>)>::empty() =~= prev);
            }
        }
        i = i + 1;
    }
    proof {
        assert(hview(headers@).take(headers@.len() as int) =~= hview(headers@));
    }
    let ghost before = hview(r@);
    r.push(("access-control-allow-origin".to_owned(), "*".to_owned()));
    proof {
        assert(hview(r@) =~= before + seq![("access-control-allow-origin"@, "*"@)]);
    }
    r
}

/// A name an outgoing response may carry: not hop-by-hop, not the
/// content security policy, and no content encoding on a rewritten
/// body. The forced CORS header is the one exception the rewrite
/// appends itself.
pub open spec fn outgoing_name_ok(n: Seq<char>, html: bool) -> bool {
    &&& !is_hop_name(n)
    &&& lower(n) != "content-security-policy"@
    &&& (html ==> lower(n) != "content-encoding"@)
}

/// The CORS header the rewrite forces is itself an allowed outgoing
/// name.
proof fn lemma_acao_name_ok()
    ensures
        outgoing_name_ok("access-control-allow-origin"@, true),
{
    reveal_strlit("access-control-allow-origin");
    reveal_strlit("content-security-policy");
    reveal_strlit("content-encoding");
    reveal_strlit("connection");
    reveal_strlit("keep-alive");
    reveal_strlit("proxy-authenticate");
    reveal_strlit("proxy-authorization");
    reveal_strlit("te");
    reveal_strlit("trailers");
    reveal_strlit("transfer-encoding");
    reveal_strlit("upgrade");
    assert(lower("access-control-allow-origin"@) =~= "access-control-allow-origin"@);
    assert("access-control-allow-origin"@.len() == 27);
}

/// Every surviving mapped header carries an allowed outgoing name.
proof fn lemma_map_response_names(
    h: Seq<(Seq<char>, Seq<char>)>,
    status: int,
    up: Seq<char>,
    my: Seq<char>,
    html: bool,
)
    ensures
        forall|i: int|
            0 <= i < map_response_headers(h, status, up, my, html).len() ==> outgoing_name_ok(
                #[trigger] map_response_headers(h, status, up, my, html)[i].0,
                html,
            ),
    decreases h.len(),
{
    if h.len() > 0 {
        lemma_map_response_names(h.drop_last(), status, up, my, html);
        let m = map_response_headers(h, status, up, my, html);
        let prev = map_response_headers(h.drop_last(), status, up, my, html);
        assert forall|i: int| 0 <= i < m.len() implies outgoing_name_ok(
            #[trigger] m[i].0,
            html,
        ) by {
            if i < prev.len() {
                assert(m[i] == prev[i]);
            } else {
                assert(keep_response_header(h.last(), html));
                assert(m[i].0 == h.last().0);
            }
        }
    }
}

/// The response header contract: whatever the upstream sent, the
/// rewritten headers never carry a hop-by-hop name or a content
/// security policy, drop the content encoding when the body was
/// rewritten, and always allow any origin.
pub proof fn lemma_response_header_contract(
    h: Seq<(Seq<char>, Seq<char>)>,
    status: int,
    up: Seq<char>,
    my: Seq<char>,
    html: bool,
)
    ensures
        forall|i: int|
            0 <= i < spec_response_headers(h, status, up, my, html).len() ==> outgoing_name_ok(
                #[trigger] spec_response_headers(h, status, up, my, html)[i].0,
                html,
            ),
        spec_response_headers(h, status, up, my, html).last() == (
            "access-control-allow-origin"@,
            "*"@,
        ),
{
    lemma_map_response_names(h, status, up, my, html);
    lemma_acao_name_ok();
    let r = spec_response_headers(h, status, up, my, html);
    let m = map_response_headers(h, status, up, my, html);
    assert forall|i: int| 0 <= i < r.len() implies outgoing_name_ok(
        #[trigger] r[i].0,
        html,
    ) by {
        if i < m.len() {
            assert(r[i] == m[i]);
            assert(outgoing_name_ok(m[i].0, html));
        } else {
            assert(r[i] == ("access-control-allow-origin"@, "*"@));
        }
    }
}

/// The response body is HTML: some `content-type` header names
/// `text/html`.
pub open spec fn spec_is_html(h: Seq<(Seq<char>, Seq<char>)>) -> bool {
    exists|i: int|
        0 <= i < h.len() && lower(#[trigger] h[i].0) == "content-type"@ && contains_seq(
            h[i].1,
            "text/html"@,
        )
}

/// Whether the response carries an HTML body, by its headers.
pub fn response_is_html(headers: &Vec<(String, String)>) -> (r: bool)
    ensures
        r == spec_is_html(hview(headers@)),
{
    let mut i: usize = 0;
    while i < headers.len()
        invariant
            i <= headers@.len(),
            forall|j: int|
                0 <= j < i ==> !(lower(#[trigger] hview(headers@)[j].0) == "content-type"@
                    && contains_seq(hview(headers@)[j].1, "text/html"@)),
        decreases headers@.len() - i,
    {
        let l = text::lower_chars(headers[i].0.as_str());
        if text::chars_eq(l.as_slice(), text::str_chars("content-type").as_slice()) {
            proof {
                reveal_strlit("text/html");
            }
            if text::contains_sub(
                text::str_chars(headers[i].1.as_str()).as_slice(),
                text::str_chars("text/html").as_slice(),
            ) {
                assert(lower(hview(headers@)[i as int].0) == "content-type"@ && contains_seq(
                    hview(headers@)[i as int].1,
                    "text/html"@,
                ));
                return true;
            }
        }
        i = i + 1;
    }
    false
}

/// The registry upstream a `ns` query selects; anything unknown goes to
/// the default registry.
pub open spec fn spec_registry_upstream(ns: Option<Seq<char>>) -> Seq<char> {
    match ns {
        Some(v) => if v == "gcr.io"@ || v == "quay.io"@ || v == "ghcr.io"@ || v
            == "registry.k8s.io"@ {
            v
        } else {
            "registry-1.docker.io"@
        },
        None => "registry-1.docker.io"@,
    }
}

/// Length of the attribute keyword at `i`: `src` or `href`, else none.
pub open spec fn attr_kw_len(s: Seq<char>, i: int) -> int {
    if occurs_at(s, "src"@, i) {
        3
    } else if occurs_at(s, "href"@, i) {
        4
    } else {
        0
    }
}

/// One optional quote character at `i`.
pub open spec fn quote_len(s: Seq<char>, i: int) -> int {
    if 0 <= i < s.len() && (s[i] == '\'' || s[i] == '"') {
        1
    } else {
        0
    }
}

/// Length of the URL opening at `i`: a protocol-relative `//` or an
/// `https://` scheme, else none.
pub open spec fn url_len(s: Seq<char>, i: int) -> int {
    if occurs_at(s, "//"@, i) {
        2
    } else if occurs_at(s, "https://"@, i) {
        8
    } else {
        0
    }
}

/// An attribute reference begins at `i`: `src` or `href`, `=`, an
/// optional quote, and a rewritable URL opening.
pub open spec fn attr_match_at(s: Seq<char>, i: int) -> bool {
    let a = attr_kw_len(s, i);
    &&& a > 0
    &&& 0 <= i + a < s.len()
    &&& s[i + a] == '='
    &&& url_len(s, i + a + 1 + quote_len(s, i + a + 1)) > 0
}

/// How much of the match is kept in the rewrite: keyword, `=`, quote.
pub open spec fn attr_keep_len(s: Seq<char>, i: int) -> int {
    attr_kw_len(s, i) + 1 + quote_len(s, i + attr_kw_len(s, i) + 1)
}

/// The whole match: the kept part and the URL opening it replaces.
pub open spec fn attr_total_len(s: Seq<char>, i: int) -> int {
    attr_keep_len(s, i) + url_len(s, i + attr_keep_len(s, i))
}

/// The attribute scan of the HTML body, left to right over
/// non-overlapping matches: each matched URL opening becomes
/// `https://<my>/`; rewritten text is not rescanned.
pub open spec fn spec_rewrite_urls(s: Seq<char>, my: Seq<char>) -> Seq<char>
    decreases s.len(),
{
    if s.len() == 0 {
        Seq::empty()
    } else if attr_match_at(s, 0) && attr_total_len(s, 0) <= s.len() {
        s.take(attr_keep_len(s, 0)) + https_my(my) + spec_rewrite_urls(
            s.skip(attr_total_len(s, 0)),
            my,
        )
    } else {
        s.take(1) + spec_rewrite_urls(s.skip(1), my)
    }
}

/// The attribute pieces of a suffix are those of the whole, shifted.
proof fn lemma_attr_shift(s: Seq<char>, k: int, j: int)
    requires
        0 <= k <= s.len(),
        0 <= j,
    ensures
        attr_kw_len(s.skip(k), j) == attr_kw_len(s, k + j),
        quote_len(s.skip(k), j) == quote_len(s, k + j),
        url_len(s.skip(k), j) == url_len(s, k + j),
{
    text::lemma_occurs_at_shift(s, "src"@, k, j);
    text::lemma_occurs_at_shift(s, "href"@, k, j);
    text::lemma_occurs_at_shift(s, "//"@, k, j);
    text::lemma_occurs_at_shift(s, "https://"@, k, j);
    if 0 <= j < s.len() - k {
        assert(s.skip(k)[j] == s[k + j]);
    }
}

/// An attribute match in a suffix is a match of the whole, shifted, with
/// the same extents.
proof fn lemma_attr_match_shift(s: Seq<char>, k: int, j: int)
    requires
        0 <= k <= s.len(),
        0 <= j,
    ensures
        attr_match_at(s.skip(k), j) == attr_match_at(s, k + j),
        attr_match_at(s, k + j) ==> attr_keep_len(s.skip(k), j) == attr_keep_len(s, k + j)
            && attr_total_len(s.skip(k), j) == attr_total_len(s, k + j),
{
    lemma_attr_shift(s, k, j);
    let a = attr_kw_len(s, k + j);
    lemma_attr_shift(s, k, j + a + 1);
    let q = quote_len(s, k + j + a + 1);
    lemma_attr_shift(s, k, j + a + 1 + q);
    if 0 <= j + a < s.len() - k {
        assert(s.skip(k)[j + a] == s[k + j + a]);
    }
}

/// No attribute reference begins anywhere in `s`.
pub open spec fn no_attr_match(s: Seq<char>) -> bool {
    forall|i: int| !attr_match_at(s, i)
}

/// Where nothing matches, the attribute scan changes nothing.
pub proof fn lemma_rewrite_urls_absent(s: Seq<char>, my: Seq<char>)
    requires
        no_attr_match(s),
    ensures
        spec_rewrite_urls(s, my) == s,
    decreases s.len(),
{
    if s.len() == 0 {
        assert(spec_rewrite_urls(s, my) =~= s);
    } else {
        assert(!attr_match_at(s, 0));
        assert(no_attr_match(s.skip(1))) by {
            assert forall|i: int| !attr_match_at(s.skip(1), i) by {
                if i >= 0 {
                    lemma_attr_match_shift(s, 1, i);
                } else {
                    assert(attr_kw_len(s.skip(1), i) == 0) by {
                        if occurs_at(s.skip(1), "src"@, i) || occurs_at(s.skip(1), "href"@, i) {
                        }
                    }
                }
            }
        }
        lemma_rewrite_urls_absent(s.skip(1), my);
        assert(spec_rewrite_urls(s, my) =~= s.take(1) + s.skip(1));
        assert(s.take(1) + s.skip(1) =~= s);
    }
}

/// Scans for an attribute reference at `i`; a match comes back with its
/// kept length and total length.
fn attr_scan_at(s: &[char], i: usize) -> (r: Option<(usize, usize)>)
    requires
        i <= s@.len(),
    ensures
        match r {
            Some(kt) => {
                &&& attr_match_at(s@, i as int)
                &&& kt.0 as int == attr_keep_len(s@, i as int)
                &&& kt.1 as int == attr_total_len(s@, i as int)
                &&& kt.0 < kt.1
                &&& i + kt.1 <= s@.len()
            },
            None => !attr_match_at(s@, i as int),
        },
{
    let n = s.len();
    proof {
        reveal_strlit("src");
        reveal_strlit("href");
        reveal_strlit("https://");
        reveal_strlit("//");
    }
    let mut a: usize = 0;
    if text::starts_with_at(s, text::str_chars("src").as_slice(), i) {
        a = 3;
    } else if text::starts_with_at(s, text::str_chars("href").as_slice(), i) {
        a = 4;
    }
    assert(a as int == attr_kw_len(s@, i as int));
    if a == 0 {
        return None;
    }
    if !(i + a < n) || !(s[i + a] == '=') {
        return None;
    }
    let mut q: usize = 0;
    if i + a + 1 < n && (s[i + a + 1] == '\'' || s[i + a + 1] == '"') {
        q = 1;
    }
    assert(q as int == quote_len(s@, i + a + 1));
    let us = i + a + 1 + q;
    let mut u: usize = 0;
    if text::starts_with_at(s, text::str_chars("//").as_slice(), us) {
        u = 2;
    } else if text::starts_with_at(s, text::str_chars("https://").as_slice(), us) {
        u = 8;
    }
    assert(u as int == url_len(s@, us as int));
    if u == 0 {
        return None;
    }
    proof {
        assert(attr_match_at(s@, i as int));
        assert(attr_keep_len(s@, i as int) == a + 1 + q);
        assert(attr_total_len(s@, i as int) == a + 1 + q + u);
        assert(i + a + 1 + q + u <= n);
    }
    Some((a + 1 + q, a + 1 + q + u))
}

/// Runs the attribute scan over the body.
pub fn rewrite_urls(s: &[char], my: &[char]) -> (r: Vec<char>)
    ensures
        r@ == spec_rewrite_urls(s@, my@),
{
    let https_pat = text::str_chars("https://");
    proof {
        reveal_strlit("https://");
    }
    let n = s.len();
    let mut out: Vec<char> = Vec::new();
    let mut i: usize = 0;
    proof {
        assert(s@.skip(0) =~= s@);
        assert(Seq::<char>::empty() + spec_rewrite_urls(s@, my@) =~= spec_rewrite_urls(s@, my@));
    }
    while i < n
        invariant
            i <= n,
            n == s@.len(),
            https_pat@ == "https://"@,
            out@ + spec_rewrite_urls(s@.skip(i as int), my@) == spec_rewrite_urls(s@, my@),
        decreases n - i,
    {
        let ghost rest = s@.skip(i as int);
        let ghost out_before = out@;
        let scan = attr_scan_at(s, i);
        proof {
            lemma_attr_match_shift(s@, i as int, 0);
        }
        if let Some((keep, total)) = scan {
            let u = total - keep;
            let mut k: usize = 0;
            while k < keep
                invariant
                    k <= keep,
                    i + keep + u <= n,
                    n == s@.len(),
                    rest == s@.skip(i as int),
                    attr_match_at(rest, 0),
                    attr_keep_len(rest, 0) == keep as int,
                    attr_total_len(rest, 0) == keep + u,
                    https_pat@ == "https://"@,
                    out@ == out_before + s@.subrange(i as int, i + k),
                decreases keep - k,
            {
                assert(i + k < s.len());
                out.push(s[i + k]);
                assert(out@ =~= out_before + s@.subrange(i as int, i + k + 1));
                k = k + 1;
            }
            proof {
                reveal_strlit("https://");
            }
            text::append_chars(&mut out, https_pat.as_slice());
            text::append_chars(&mut out, my);
            out.push('/');
            proof {
                assert(rest.take(attr_keep_len(rest, 0)) =~= s@.subrange(i as int, i + keep));
                assert(out@ =~= out_before + rest.take(attr_keep_len(rest, 0)) + https_my(my@));
                assert(rest.skip(attr_total_len(rest, 0)) =~= s@.skip(i + keep + u));
                assert(spec_rewrite_urls(rest, my@) == rest.take(attr_keep_len(rest, 0))
                    + https_my(my@) + spec_rewrite_urls(s@.skip(i + keep + u), my@));
                assert(out@ + spec_rewrite_urls(s@.skip(i + keep + u), my@) =~= out_before
                    + spec_rewrite_urls(rest, my@));
            }
            i = i + keep + u;
        } else {
            proof {
                assert(rest.take(1) =~= seq![s@[i as int]]);
                assert(rest.skip(1) =~= s@.skip(i + 1));
                assert(spec_rewrite_urls(rest, my@) == rest.take(1) + spec_rewrite_urls(
                    s@.skip(i + 1),
                    my@,
                ));
            }
            out.push(s[i]);
            proof {
                assert(out@ + spec_rewrite_urls(s@.skip(i + 1), my@) =~= out_before
                    + spec_rewrite_urls(rest, my@));
            }
            i = i + 1;
        }
    }
    proof {
        assert(s@.skip(i as int) =~= Seq::<char>::empty());
        assert(out@ + spec_rewrite_urls(Seq::<char>::empty(), my@) =~= out@);
    }
    out
}

/// The whole HTML body rewrite: the attribute scan re-roots every
/// matched URL opening under the mirror host, then every literal
/// `//<upstream_host>` becomes `//<my_host>/<upstream_host>`.
pub open spec fn spec_replace_host(body: Seq<char>, src: Seq<char>, dest: Seq<char>) -> Seq<
    char,
> {
    spec_replace_all(
        spec_rewrite_urls(body, dest),
        "//"@ + src,
        "//"@ + dest + seq!['/'] + src,
    )
}

/// Rewrites an HTML body so navigation stays on the mirror host.
pub fn replace_host(content: &str, src_host: &str, dest_host: &str) -> (r: String)
    requires
        src_host@.len() > 0,
    ensures
        r@ == spec_replace_host(content@, src_host@, dest_host@),
{
    let body = text::str_chars(content);
    let step1 = rewrite_urls(body.as_slice(), text::str_chars(dest_host).as_slice());
    let mut pat: Vec<char> = Vec::new();
    let mut repl: Vec<char> = Vec::new();
    let ss = text::str_chars("//");
    text::append_chars(&mut pat, ss.as_slice());
    text::append_chars(&mut pat, text::str_chars(src_host).as_slice());
    text::append_chars(&mut repl, ss.as_slice());
    text::append_chars(&mut repl, text::str_chars(dest_host).as_slice());
    repl.push('/');
    text::append_chars(&mut repl, text::str_chars(src_host).as_slice());
    proof {
        assert(pat@ =~= "//"@ + src_host@);
        assert(repl@ =~= "//"@ + dest_host@ + seq!['/'] + src_host@);
    }
    let out = text::replace_all(step1.as_slice(), pat.as_slice(), repl.as_slice());
    text::chars_string(out.as_slice())
}

/// Applying the host rewrite twice changes nothing more than applying it
/// once, provided the once-rewritten body is free of further work: no
/// attribute reference opens in it and the upstream host no longer
/// appears after `//`. (A body that still matches — say one that came
/// out as `src=https://<my>/…`, which the scan would match again — is
/// rewritten further on the second pass.)
pub proof fn lemma_replace_host_idempotent(body: Seq<char>, src: Seq<char>, dest: Seq<char>)
    requires
        src != dest,
        src.len() > 0,
        no_attr_match(spec_replace_host(body, src, dest)),
        !contains_seq(spec_replace_host(body, src, dest), "//"@ + src),
    ensures
        spec_replace_host(spec_replace_host(body, src, dest), src, dest) == spec_replace_host(
            body,
            src,
            dest,
        ),
{
    let y = spec_replace_host(body, src, dest);
    lemma_rewrite_urls_absent(y, dest);
    text::lemma_replace_all_absent(y, "//"@ + src, "//"@ + dest + seq!['/'] + src);
}

/// Picks the registry upstream for the request's `ns` query value.
pub fn registry_upstream(ns: Option<&String>) -> (r: String)
    ensures
        r@ == spec_registry_upstream(
            match ns {
                Some(s) => Some(s@),
                None => None,
            },
        ),
{
    match ns {
        Some(s) => {
            let c = text::str_chars(s.as_str());
            let cs = c.as_slice();
            if text::chars_eq(cs, text::str_chars("gcr.io").as_slice()) || text::chars_eq(
                cs,
                text::str_chars("quay.io").as_slice(),
            ) || text::chars_eq(cs, text::str_chars("ghcr.io").as_slice()) || text::chars_eq(
                cs,
                text::str_chars("registry.k8s.io").as_slice(),
            ) {
                s.clone()
            } else {
                "registry-1.docker.io".to_owned()
            }
        },
        None => "registry-1.docker.io".to_owned(),
    }
}

} // verus!
