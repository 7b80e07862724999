//! UPnP-IGD port mapping: SSDP discovery and SOAP control, as texts.
//!
//! Opportunistic: if the local router runs UPnP with an Internet Gateway
//! Device, a stable UDP mapping for the bound port turns the node into a
//! directly-reachable peer. If it fails, the node simply keeps punching like
//! any other peer behind a NAT.
//!
//! XML is extracted with minimal tag scans over the fixed response shapes.
use vstd::prelude::*;
use vstd::utf8::encode_utf8;
use crate::endpoint::{
    ip4, ip4_text, is_loopback4, octet, octets, octets_spell_address, push_ip4, Endpoint,
};
use crate::text::{
    chars_of, decimal, decimal_denotes, decimal_parses_back, find, find_text, has_prefix,
    index_upto, is_digit, lines, read_text, lowercase, lowercase_text, owned, parse_number,
    parse_unsigned, push_chars, push_decimal, push_text, same_text, split_lines, string_of,
    strings, texts, trim, trim_text, upto, upto_bounds, as_text,
};

verus! {

/// The search for a gateway device.
pub open spec fn search_text() -> Seq<char> {
    "M-SEARCH * HTTP/1.1\r\nHOST: 239.255.255.250:1900\r\nMAN: \"ssdp:discover\"\r\nMX: 1\r\nST: urn:schemas-upnp-org:device:InternetGatewayDevice:1\r\n\r\n"@
}

/// The search for a gateway device.
pub fn search_request() -> (s: &'static str)
    ensures
        s@ == search_text(),
{
    "M-SEARCH * HTTP/1.1\r\nHOST: 239.255.255.250:1900\r\nMAN: \"ssdp:discover\"\r\nMX: 1\r\nST: urn:schemas-upnp-org:device:InternetGatewayDevice:1\r\n\r\n"
}

/// The multicast address of the search.
pub fn search_address() -> (e: Endpoint)
    ensures
        e == (Endpoint::V4 { ip: ip4(239, 255, 255, 250), port: 1900 }),
{
    Endpoint::v4(239, 255, 255, 250, 1900)
}

/// The locations that lines of an answer give.
pub open spec fn located(lines: Seq<Seq<char>>) -> Seq<Seq<char>>
    decreases lines.len(),
{
    if lines.len() == 0 {
        Seq::empty()
    } else {
        let rest = located(lines.drop_last());
        if "location:"@.is_prefix_of(lines.last()) {
            rest.push(trim(lines.last().skip("location:"@.len() as int)))
        } else {
            rest
        }
    }
}

/// The LOCATION headers of an answer to the search, in lower case.
pub fn locations(answer: &[u8]) -> (r: Vec<String>)
    ensures
        strings(r@) == located(lines(lowercase(as_text(answer@)))),
{
    let text = read_text(answer);
    let lower = lowercase_text(text.as_str());
    locations_in(lower.as_str())
}

/// The locations that an answer in lower case gives.
pub fn locations_in(text: &str) -> (r: Vec<String>)
    ensures
        strings(r@) == located(lines(text@)),
{
    let chars = chars_of(text);
    let lines = split_lines(&chars);
    let ghost all = texts(lines@);
    let tag = chars_of("location:");
    let mut r: Vec<String> = Vec::new();
    let mut i: usize = 0;
    proof {
        assert(strings(r@) =~= located(all.take(0)));
    }
    while i < lines.len()
        invariant
            i <= lines@.len(),
            all == texts(lines@),
            tag@ == "location:"@,
            strings(r@) == located(all.take(i as int)),
        decreases lines@.len() - i,
    {
        let line: &Vec<char> = &lines[i];
        let ghost before = strings(r@);
        proof {
            assert(all.take(i + 1).drop_last() =~= all.take(i as int));
            assert(all.take(i + 1).last() == line@);
        }
        if has_prefix(line, &tag) {
            let rest = vstd::slice::slice_subrange(line.as_slice(), tag.len(), line.len());
            proof {
                assert(rest@ =~= line@.skip(tag@.len() as int));
            }
            let value = string_of(trim_text(rest));
            r.push(value);
            proof {
                assert(strings(r@) =~= before.push(value@));
            }
        }
        i = i + 1;
    }
    proof {
        assert(all.take(i as int) =~= all);
    }
    r
}

/// A URL split into host and path; the path is at least a slash.
pub open spec fn url_parts(url: Seq<char>) -> Option<(Seq<char>, Seq<char>)> {
    if "http://"@.is_prefix_of(url) {
        let rest = url.skip("http://"@.len() as int);
        let n = upto(rest, '/');
        Some(
            (
                rest.take(n),
                if n < rest.len() {
                    rest.skip(n)
                } else {
                    "/"@
                },
            ),
        )
    } else {
        None
    }
}

/// Split a URL into (host:port, path) for HTTP/1.1 requests.
pub fn split_url(url: &str) -> (r: Option<(String, String)>)
    ensures
        match r {
            Some((host, path)) => url_parts(url@) == Some((host@, path@)),
            None => url_parts(url@) is None,
        },
{
    let chars = chars_of(url);
    let scheme = chars_of("http://");
    if !has_prefix(&chars, &scheme) {
        return None;
    }
    let rest = vstd::slice::slice_subrange(&chars, scheme.len(), chars.len());
    let n = index_upto(rest, '/', 0);
    proof {
        assert(rest@ =~= url@.skip("http://"@.len() as int));
        assert(rest@.skip(0) =~= rest@);
        assert(rest@.subrange(0, n as int) =~= rest@.take(n as int));
        assert(rest@.subrange(n as int, rest@.len() as int) =~= rest@.skip(n as int));
    }
    let host = string_of(vstd::slice::slice_subrange(rest, 0, n));
    let path = if n < rest.len() {
        string_of(vstd::slice::slice_subrange(rest, n, rest.len()))
    } else {
        owned("/")
    };
    Some((host, path))
}

/// The text inside the first occurrence of a tag.
pub open spec fn tagged(xml: Seq<char>, tag: Seq<char>) -> Option<Seq<char>> {
    let opening = "<"@ + tag + ">"@;
    let closing = "</"@ + tag + ">"@;
    match find(xml, opening) {
        Some(i) => {
            let rest = xml.skip(i + opening.len());
            match find(rest, closing) {
                Some(j) => Some(trim(rest.take(j))),
                None => None,
            }
        },
        None => None,
    }
}

/// Extract the text inside the first occurrence of `<tag>...</tag>`.
pub fn tag_text(xml: &str, tag: &str) -> (r: Option<String>)
    ensures
        match r {
            Some(s) => tagged(xml@, tag@) == Some(s@),
            None => tagged(xml@, tag@) is None,
        },
{
    let chars = chars_of(xml);
    let mut opening: Vec<char> = Vec::new();
    push_text(&mut opening, "<");
    push_text(&mut opening, tag);
    push_text(&mut opening, ">");
    let mut closing: Vec<char> = Vec::new();
    push_text(&mut closing, "</");
    push_text(&mut closing, tag);
    push_text(&mut closing, ">");
    proof {
        assert(opening@ =~= "<"@ + tag@ + ">"@);
        assert(closing@ =~= "</"@ + tag@ + ">"@);
    }
    let i = match find_text(&chars, &opening) {
        Some(i) => i,
        None => {
            return None;
        },
    };
    let len: usize = chars.len();
    let rest = vstd::slice::slice_subrange(&chars, i + opening.len(), len);
    proof {
        assert(rest@ =~= xml@.skip(i + opening@.len()));
    }
    let j = match find_text(rest, &closing) {
        Some(j) => j,
        None => {
            return None;
        },
    };
    let inner = vstd::slice::slice_subrange(rest, 0, j);
    proof {
        assert(inner@ =~= rest@.take(j as int));
    }
    Some(string_of(trim_text(inner)))
}

/// The body of an HTTP response (after the blank line).
pub open spec fn response_body(response: Seq<char>) -> Option<Seq<char>> {
    match find(response, "\r\n\r\n"@) {
        Some(i) => Some(response.skip(i + "\r\n\r\n"@.len())),
        None => None,
    }
}

/// The body of an HTTP response (after the blank line).
pub fn body_of(response: &str) -> (r: Option<String>)
    ensures
        match r {
            Some(s) => response_body(response@) == Some(s@),
            None => response_body(response@) is None,
        },
{
    let chars = chars_of(response);
    let blank = chars_of("\r\n\r\n");
    match find_text(&chars, &blank) {
        Some(i) => {
            let len: usize = chars.len();
            let rest = vstd::slice::slice_subrange(&chars, i + blank.len(), len);
            proof {
                assert(rest@ =~= response@.skip(i + blank@.len()));
            }
            Some(string_of(rest))
        },
        None => None,
    }
}

/// The service that maps ports.
pub open spec fn service() -> Seq<char> {
    "urn:schemas-upnp-org:service:WANIPConnection:1"@
}

/// The service that maps ports on a dial-up link.
pub open spec fn service_ppp() -> Seq<char> {
    "urn:schemas-upnp-org:service:WANPPPConnection:1"@
}

/// A text without the slashes at its end.
pub open spec fn without_end_slashes(s: Seq<char>) -> Seq<char>
    decreases s.len(),
{
    if s.len() > 0 && s.last() == '/' {
        without_end_slashes(s.drop_last())
    } else {
        s
    }
}

/// A text up to its last slash, empty where it has none.
pub open spec fn upto_last_slash(s: Seq<char>) -> Seq<char>
    decreases s.len(),
{
    if s.len() == 0 || s.last() == '/' {
        s
    } else {
        upto_last_slash(s.drop_last())
    }
}

/// A URL without its query and fragment.
pub open spec fn without_query(url: Seq<char>) -> Seq<char> {
    let s = url.take(upto(url, '?'));
    s.take(upto(s, '#'))
}

/// A control URL resolved against the address of the description: an absolute
/// path takes the place of its path, any other one that of what follows the
/// last slash of its path.
pub open spec fn resolved(location: Seq<char>, control: Seq<char>) -> Option<Seq<char>> {
    let base = without_end_slashes(location);
    if "http://"@.is_prefix_of(control) {
        Some(control)
    } else if "/"@.is_prefix_of(control) {
        match find(base, "://"@) {
            Some(i) => {
                let host = i + 3;
                let n = upto(base.skip(host), '/');
                Some(base.take(host + n) + control)
            },
            None => None,
        }
    } else {
        let place = without_query(location);
        match find(place, "://"@) {
            Some(i) => Some(
                if upto(place.skip(i + 3), '/') < place.len() - (i + 3) {
                    upto_last_slash(place) + control
                } else {
                    place + "/"@ + control
                },
            ),
            None => None,
        }
    }
}

/// The control URL of the mapping service in a device description.
pub open spec fn controlled(location: Seq<char>, body: Seq<char>) -> Option<Seq<char>> {
    let at = match find(body, service()) {
        Some(i) => Some(i),
        None => find(body, service_ppp()),
    };
    match at {
        Some(i) => match tagged(body.skip(i), "controlURL"@) {
            Some(control) => resolved(location, control),
            None => None,
        },
        None => None,
    }
}

fn strip_end_slashes(s: &[char]) -> (r: &[char])
    ensures
        r@ == without_end_slashes(s@),
{
    let mut n: usize = s.len();
    proof {
        assert(s@.take(n as int) =~= s@);
    }
    while n > 0 && s[n - 1] == '/'
        invariant
            n <= s@.len(),
            without_end_slashes(s@) == without_end_slashes(s@.take(n as int)),
        decreases n,
    {
        proof {
            assert(s@.take(n as int).last() == s@[n - 1]);
            assert(s@.take(n as int).drop_last() =~= s@.take(n - 1));
        }
        n = n - 1;
    }
    proof {
        if n > 0 {
            assert(s@.take(n as int).last() == s@[n - 1]);
        }
        assert(s@.subrange(0, n as int) =~= s@.take(n as int));
    }
    vstd::slice::slice_subrange(s, 0, n)
}

fn strip_name(s: &[char]) -> (r: &[char])
    ensures
        r@ == upto_last_slash(s@),
{
    let mut n: usize = s.len();
    proof {
        assert(s@.take(n as int) =~= s@);
    }
    while n > 0 && s[n - 1] != '/'
        invariant
            n <= s@.len(),
            upto_last_slash(s@) == upto_last_slash(s@.take(n as int)),
        decreases n,
    {
        proof {
            assert(s@.take(n as int).last() == s@[n - 1]);
            assert(s@.take(n as int).drop_last() =~= s@.take(n - 1));
        }
        n = n - 1;
    }
    proof {
        if n > 0 {
            assert(s@.take(n as int).last() == s@[n - 1]);
        }
        assert(s@.subrange(0, n as int) =~= s@.take(n as int));
    }
    vstd::slice::slice_subrange(s, 0, n)
}

fn strip_query(url: &[char]) -> (r: &[char])
    ensures
        r@ == without_query(url@),
{
    let n = index_upto(url, '?', 0);
    proof {
        assert(url@.skip(0) =~= url@);
        assert(url@.subrange(0, n as int) =~= url@.take(n as int));
    }
    let s = vstd::slice::slice_subrange(url, 0, n);
    let m = index_upto(s, '#', 0);
    proof {
        assert(s@.skip(0) =~= s@);
        assert(s@.subrange(0, m as int) =~= s@.take(m as int));
    }
    vstd::slice::slice_subrange(s, 0, m)
}

fn resolve(location: &str, control: &str) -> (r: Option<String>)
    ensures
        match r {
            Some(s) => resolved(location@, control@) == Some(s@),
            None => resolved(location@, control@) is None,
        },
{
    let target = chars_of(control);
    if has_prefix(&target, &chars_of("http://")) {
        return Some(owned(control));
    }
    let place = chars_of(location);
    let base = strip_end_slashes(&place);
    let mut out: Vec<char> = Vec::new();
    if has_prefix(&target, &chars_of("/")) {
        let mark = chars_of("://");
        proof {
            reveal_strlit("://");
        }
        let i = match find_text(base, &mark) {
            Some(i) => i,
            None => {
                return None;
            },
        };
        let len: usize = base.len();
        assert(i + 3 <= len);
        let end = index_upto(base, '/', i + 3);
        let head = vstd::slice::slice_subrange(base, 0, end);
        push_chars(&mut out, head);
        push_chars(&mut out, &target);
        proof {
            assert(head@ =~= base@.take(end as int));
            assert(out@ =~= base@.take(end as int) + control@);
        }
        return Some(string_of(&out));
    }
    let page = strip_query(&place);
    let mark = chars_of("://");
    proof {
        reveal_strlit("://");
    }
    let i = match find_text(page, &mark) {
        Some(i) => i,
        None => {
            return None;
        },
    };
    let len: usize = page.len();
    assert(i + 3 <= len);
    if index_upto(page, '/', i + 3) < len {
        push_chars(&mut out, strip_name(page));
        push_chars(&mut out, &target);
        proof {
            assert(out@ =~= upto_last_slash(page@) + control@);
        }
    } else {
        push_chars(&mut out, page);
        push_text(&mut out, "/");
        push_chars(&mut out, &target);
        proof {
            assert(out@ =~= page@ + "/"@ + control@);
        }
    }
    Some(string_of(&out))
}

/// The control URL of the mapping service in the description found at
/// `location`; relative ones are resolved against it.
pub fn control_url(location: &str, body: &str) -> (r: Option<String>)
    ensures
        match r {
            Some(s) => controlled(location@, body@) == Some(s@),
            None => controlled(location@, body@) is None,
        },
{
    let chars = chars_of(body);
    let first = find_text(&chars, &chars_of("urn:schemas-upnp-org:service:WANIPConnection:1"));
    let at = match first {
        Some(i) => i,
        None => match find_text(
            &chars,
            &chars_of("urn:schemas-upnp-org:service:WANPPPConnection:1"),
        ) {
            Some(i) => i,
            None => {
                return None;
            },
        },
    };
    let rest = vstd::slice::slice_subrange(&chars, at, chars.len());
    proof {
        assert(rest@ =~= body@.skip(at as int));
    }
    let text = string_of(rest);
    match tag_text(text.as_str(), "controlURL") {
        Some(control) => resolve(location, control.as_str()),
        None => None,
    }
}

/// A GET request.
pub open spec fn get_text(host: Seq<char>, path: Seq<char>) -> Seq<char> {
    "GET "@ + path + " HTTP/1.1\r\nHost: "@ + host + "\r\nConnection: close\r\n\r\n"@
}

/// Minimal HTTP/1.1 GET request.
pub fn get_request(host: &str, path: &str) -> (s: String)
    ensures
        s@ == get_text(host@, path@),
{
    let mut out: Vec<char> = Vec::new();
    push_text(&mut out, "GET ");
    push_text(&mut out, path);
    push_text(&mut out, " HTTP/1.1\r\nHost: ");
    push_text(&mut out, host);
    push_text(&mut out, "\r\nConnection: close\r\n\r\n");
    proof {
        assert(out@ =~= get_text(host@, path@));
    }
    string_of(&out)
}

/// The envelope of a call.
pub open spec fn envelope(action: Seq<char>, args: Seq<char>) -> Seq<char> {
    "<?xml version=\"1.0\"?>\n<s:Envelope xmlns:s=\"http://schemas.xmlsoap.org/soap/envelope/\" s:encodingStyle=\"http://schemas.xmlsoap.org/soap/encoding/\">\n<s:Body>\n<u:"@
        + action + " xmlns:u=\""@ + service() + "\">\n"@ + args + "\n</u:"@ + action
        + ">\n</s:Body>\n</s:Envelope>"@
}

/// A call of the mapping service.
pub open spec fn soap_text(
    host: Seq<char>,
    path: Seq<char>,
    action: Seq<char>,
    args: Seq<char>,
) -> Seq<char> {
    "POST "@ + path + " HTTP/1.1\r\nHost: "@ + host
        + "\r\nContent-Type: text/xml; charset=\"utf-8\"\r\nSOAPAction: \""@ + service() + "#"@
        + action + "\"\r\nContent-Length: "@ + decimal(
        encode_utf8(envelope(action, args)).len() as int,
    ) + "\r\nConnection: close\r\n\r\n"@ + envelope(action, args)
}

/// SOAP POST request to a control URL's host and path.
pub fn soap_request(host: &str, path: &str, action: &str, args: &str) -> (s: String)
    ensures
        s@ == soap_text(host@, path@, action@, args@),
{
    let mut inner: Vec<char> = Vec::new();
    push_text(
        &mut inner,
        "<?xml version=\"1.0\"?>\n<s:Envelope xmlns:s=\"http://schemas.xmlsoap.org/soap/envelope/\" s:encodingStyle=\"http://schemas.xmlsoap.org/soap/encoding/\">\n<s:Body>\n<u:",
    );
    push_text(&mut inner, action);
    push_text(&mut inner, " xmlns:u=\"");
    push_text(&mut inner, "urn:schemas-upnp-org:service:WANIPConnection:1");
    push_text(&mut inner, "\">\n");
    push_text(&mut inner, args);
    push_text(&mut inner, "\n</u:");
    push_text(&mut inner, action);
    push_text(&mut inner, ">\n</s:Body>\n</s:Envelope>");
    proof {
        assert(inner@ =~= envelope(action@, args@));
    }
    let body = string_of(&inner);
    let mut out: Vec<char> = Vec::new();
    push_text(&mut out, "POST ");
    push_text(&mut out, path);
    push_text(&mut out, " HTTP/1.1\r\nHost: ");
    push_text(&mut out, host);
    push_text(
        &mut out,
        "\r\nContent-Type: text/xml; charset=\"utf-8\"\r\nSOAPAction: \"",
    );
    push_text(&mut out, "urn:schemas-upnp-org:service:WANIPConnection:1");
    push_text(&mut out, "#");
    push_text(&mut out, action);
    push_text(&mut out, "\"\r\nContent-Length: ");
    push_decimal(&mut out, body.as_str().as_bytes().len() as u64);
    push_text(&mut out, "\r\nConnection: close\r\n\r\n");
    push_chars(&mut out, &inner);
    proof {
        assert(out@ =~= soap_text(host@, path@, action@, args@));
    }
    string_of(&out)
}

/// The arguments of the call that maps a port.
pub open spec fn mapping_text(port: u16, internal: u32) -> Seq<char> {
    "<NewRemoteHost></NewRemoteHost><NewExternalPort>"@ + decimal(port as int)
        + "</NewExternalPort><NewProtocol>UDP</NewProtocol><NewInternalPort>"@ + decimal(
        port as int,
    ) + "</NewInternalPort><NewInternalClient>"@ + ip4_text(internal)
        + "</NewInternalClient><NewEnabled>1</NewEnabled><NewPortMappingDescription>qstream</NewPortMappingDescription><NewLeaseDuration>0</NewLeaseDuration>"@
}

/// The arguments of the call that maps UDP `port` to this host.
pub fn mapping_args(port: u16, internal: u32) -> (s: String)
    ensures
        s@ == mapping_text(port, internal),
{
    let mut out: Vec<char> = Vec::new();
    push_text(&mut out, "<NewRemoteHost></NewRemoteHost><NewExternalPort>");
    push_decimal(&mut out, port as u64);
    push_text(
        &mut out,
        "</NewExternalPort><NewProtocol>UDP</NewProtocol><NewInternalPort>",
    );
    push_decimal(&mut out, port as u64);
    push_text(&mut out, "</NewInternalPort><NewInternalClient>");
    push_ip4(&mut out, internal);
    push_text(
        &mut out,
        "</NewInternalClient><NewEnabled>1</NewEnabled><NewPortMappingDescription>qstream</NewPortMappingDescription><NewLeaseDuration>0</NewLeaseDuration>",
    );
    proof {
        assert(out@ =~= mapping_text(port, internal));
    }
    string_of(&out)
}

/// Whether an answer confirms a mapping.
pub fn mapping_confirmed(body: &str) -> (r: bool)
    ensures
        r == (find(body@, "AddPortMappingResponse"@) is Some),
{
    find_text(&chars_of(body), &chars_of("AddPortMappingResponse")).is_some()
}

/// The address of this host for a mapping: an IPv4 one that is not loopback.
pub fn internal_address(e: Endpoint) -> (r: Option<u32>)
    ensures
        r == match e {
            Endpoint::V4 { ip, .. } => if is_loopback4(ip) {
                None
            } else {
                Some(ip)
            },
            Endpoint::V6 { .. } => None,
        },
{
    match e {
        Endpoint::V4 { ip, port: _ } => {
            let (a, _, _, _) = octets(ip);
            if a == 127 {
                None
            } else {
                Some(ip)
            }
        },
        Endpoint::V6 { .. } => None,
    }
}

/// Whether a text has no dot.
spec fn undotted(p: Seq<char>) -> bool {
    forall|i: int| 0 <= i < p.len() ==> #[trigger] p[i] != '.'
}

/// A text without a dot, and what follows the dot behind it, come apart.
proof fn parts_at_dot(s: Seq<char>, p: Seq<char>, rest: Seq<char>)
    requires
        undotted(p),
        s == p + "."@ + rest,
    ensures
        upto(s, '.') == p.len(),
        p.len() < s.len(),
        s.take(p.len() as int) == p,
        s.skip(p.len() as int + 1) == rest,
{
    reveal_strlit(".");
    upto_bounds(s, '.');
    let u = upto(s, '.');
    let k = p.len() as int;
    assert(s[k] == '.');
    if u < k {
        assert(s[u] == p[u]);
    }
    assert(s.take(k) =~= p);
    assert(s.skip(k + 1) =~= rest);
}

/// The dots divide four texts without a dot.
proof fn dots_divide(
    s: Seq<char>,
    p: Seq<char>,
    q: Seq<char>,
    x: Seq<char>,
    y: Seq<char>,
    a: int,
    b: int,
    c: int,
)
    requires
        undotted(p),
        undotted(q),
        undotted(x),
        s == p + "."@ + q + "."@ + x + "."@ + y,
        a == upto(s, '.'),
        a < s.len() ==> b == a + 1 + upto(s.skip(a + 1), '.'),
        b < s.len() ==> c == b + 1 + upto(s.skip(b + 1), '.'),
    ensures
        a < b < c < s.len(),
        s.subrange(0, a) == p,
        s.subrange(a + 1, b) == q,
        s.subrange(b + 1, c) == x,
        s.subrange(c + 1, s.len() as int) == y,
{
    let three = x + "."@ + y;
    let two = q + "."@ + three;
    assert(s =~= p + "."@ + two);
    parts_at_dot(s, p, two);
    parts_at_dot(two, q, three);
    parts_at_dot(three, x, y);
    assert(s.subrange(0, a) =~= s.take(a));
    assert(s.subrange(a + 1, b) =~= two.take(b - a - 1));
    assert(s.skip(b + 1) =~= two.skip(b - a));
    assert(s.subrange(b + 1, c) =~= three.take(c - b - 1));
    assert(s.subrange(c + 1, s.len() as int) =~= three.skip(c - b));
}

proof fn decimal_is_undotted(n: int)
    requires
        0 <= n,
    ensures
        undotted(decimal(n)),
{
    decimal_denotes(n);
    assert forall|i: int| 0 <= i < decimal(n).len() implies #[trigger] decimal(n)[i] != '.' by {
        assert(is_digit(decimal(n)[i]));
    }
}

/// The dots of an address divide its four numbers.
proof fn address_divides(ip: u32, a: int, b: int, c: int)
    requires
        ({
            let s = ip4_text(ip);
            &&& a == upto(s, '.')
            &&& a < s.len() ==> b == a + 1 + upto(s.skip(a + 1), '.')
            &&& b < s.len() ==> c == b + 1 + upto(s.skip(b + 1), '.')
        }),
    ensures
        ({
            let s = ip4_text(ip);
            &&& a < b < c < s.len()
            &&& parse_number(s.subrange(0, a), 255) == Some(octet(ip, 0) as int)
            &&& parse_number(s.subrange(a + 1, b), 255) == Some(octet(ip, 1) as int)
            &&& parse_number(s.subrange(b + 1, c), 255) == Some(octet(ip, 2) as int)
            &&& parse_number(s.subrange(c + 1, s.len() as int), 255) == Some(octet(ip, 3) as int)
        }),
{
    let p = octet(ip, 0) as int;
    let q = octet(ip, 1) as int;
    let x = octet(ip, 2) as int;
    let y = octet(ip, 3) as int;
    decimal_is_undotted(p);
    decimal_is_undotted(q);
    decimal_is_undotted(x);
    dots_divide(ip4_text(ip), decimal(p), decimal(q), decimal(x), decimal(y), a, b, c);
    decimal_parses_back(p, 255);
    decimal_parses_back(q, 255);
    decimal_parses_back(x, 255);
    decimal_parses_back(y, 255);
}

/// An address is read in dotted decimal notation as it is written: four
/// numbers up to 255, without leading zeros.
pub fn parse_ip4(s: &str) -> (r: Option<u32>)
    ensures
        match r {
            Some(ip) => ip4_text(ip) == s@,
            None => forall|ip: u32| #[trigger] ip4_text(ip) != s@,
        },
{
    let chars = chars_of(s);
    let a = index_upto(&chars, '.', 0);
    let b = if a < chars.len() {
        index_upto(&chars, '.', a + 1)
    } else {
        a
    };
    let c = if b < chars.len() {
        index_upto(&chars, '.', b + 1)
    } else {
        b
    };
    proof {
        if exists|ip: u32| #[trigger] ip4_text(ip) == s@ {
            let ip = choose|ip: u32| #[trigger] ip4_text(ip) == s@;
            assert(s@.skip(0) =~= s@);
            address_divides(ip, a as int, b as int, c as int);
            octets_spell_address(ip, 0, 0, 0, 0);
        }
    }
    if c >= chars.len() {
        return None;
    }
    let w = parse_unsigned(vstd::slice::slice_subrange(&chars, 0, a), 255);
    let x = parse_unsigned(vstd::slice::slice_subrange(&chars, a + 1, b), 255);
    let y = parse_unsigned(vstd::slice::slice_subrange(&chars, b + 1, c), 255);
    let z = parse_unsigned(vstd::slice::slice_subrange(&chars, c + 1, chars.len()), 255);
    let (w, x, y, z): (u32, u32, u32, u32) = match (w, x, y, z) {
        (Some(w), Some(x), Some(y), Some(z)) => (w as u32, x as u32, y as u32, z as u32),
        _ => {
            return None;
        },
    };
    let ip: u32 = w * 0x100_0000 + x * 0x1_0000 + y * 0x100 + z;
    let mut text: Vec<char> = Vec::new();
    push_ip4(&mut text, ip);
    proof {
        assert(text@ =~= ip4_text(ip));
    }
    if same_text(string_of(&text).as_str(), s) {
        Some(ip)
    } else {
        None
    }
}

/// The external address in an answer.
pub open spec fn external_text(body: Seq<char>) -> Option<Seq<char>> {
    match tagged(body, "NewExternalIPAddress"@) {
        Some(s) => Some(trim(s)),
        None => None,
    }
}

/// The external address in an answer to the question for it.
pub fn external_ip(body: &str) -> (r: Option<u32>)
    ensures
        match r {
            Some(ip) => external_text(body@) == Some(ip4_text(ip)),
            None => external_text(body@) matches Some(s) ==> forall|ip: u32| #[trigger]
                ip4_text(ip) != s,
        },
{
    match tag_text(body, "NewExternalIPAddress") {
        Some(s) => {
            let chars = chars_of(s.as_str());
            parse_ip4(string_of(trim_text(&chars)).as_str())
        },
        None => None,
    }
}

} // verus!
