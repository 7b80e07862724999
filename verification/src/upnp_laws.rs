//! What holds of the texts of a port mapping.
use vstd::prelude::*;
use vstd::utf8::encode_utf8;
use crate::endpoint::ip4_text;
use crate::report_laws::{is_at, says, says_itself, says_last, says_on};
use crate::text::{decimal, find, find_from, occurs_at, trim, upto, upto_bounds};
use crate::upnp::{
    controlled, envelope, external_text, located, mapping_text, resolved, response_body, service,
    soap_text, tagged, upto_last_slash, url_parts, without_end_slashes, without_query,
};

verus! {

proof fn first_is_found(s: Seq<char>, p: Seq<char>, i: int)
    requires
        0 <= i,
    ensures
        match find_from(s, p, i) {
            Some(k) => i <= k && is_at(s, p, k) && forall|j: int| i <= j < k ==> !is_at(s, p, j),
            None => forall|j: int| i <= j ==> !is_at(s, p, j),
        },
    decreases s.len() - i + 1,
{
    if i + p.len() <= s.len() {
        assert(occurs_at(s, p, i) == is_at(s, p, i));
        first_is_found(s, p, i + 1);
    }
}

/// The text of a tag is what stands between its first opening and the next
/// closing, trimmed; there is none where either is missing.
pub proof fn tags_hold_their_text(xml: Seq<char>, tag: Seq<char>)
    ensures
        ({
            let opening = "<"@ + tag + ">"@;
            let closing = "</"@ + tag + ">"@;
            match tagged(xml, tag) {
                Some(text) => exists|value: Seq<char>|
                    #[trigger] says(xml, opening + value + closing) && text == trim(value) && !says(
                        value,
                        closing,
                    ),
                None => forall|value: Seq<char>| !#[trigger] says(xml, opening + value + closing),
            }
        }),
{
    let opening = "<"@ + tag + ">"@;
    let closing = "</"@ + tag + ">"@;
    first_is_found(xml, opening, 0);
    match find(xml, opening) {
        Some(i) => {
            let rest = xml.skip(i + opening.len());
            first_is_found(rest, closing, 0);
            match find(rest, closing) {
                Some(j) => {
                    let value = rest.take(j);
                    let whole = opening + value + closing;
                    assert(xml.subrange(i, i + whole.len()) =~= whole) by {
                        assert(xml.subrange(i, i + opening.len()) == opening);
                        assert(rest.subrange(j, j + closing.len()) == closing);
                        assert forall|k: int| 0 <= k < whole.len() implies xml[i + k]
                            == whole[k] by {
                            if k < opening.len() {
                                assert(xml.subrange(i, i + opening.len())[k] == opening[k]);
                            } else if k < opening.len() + j {
                                assert(rest[k - opening.len()] == xml[i + k]);
                            } else {
                                let m = k - opening.len() - j;
                                assert(rest.subrange(j, j + closing.len())[m] == closing[m]);
                                assert(rest[j + m] == xml[i + k]);
                            }
                        }
                    }
                    assert(is_at(xml, whole, i));
                    assert(says(xml, whole));
                    if says(value, closing) {
                        let m = choose|m: int| #[trigger] is_at(value, closing, m);
                        assert(closing.len() > 0) by {
                            reveal_strlit("</");
                        }
                        assert(rest.subrange(m, m + closing.len()) =~= value.subrange(
                            m,
                            m + closing.len(),
                        ));
                        assert(is_at(rest, closing, m));
                    }
                },
                None => {
                    assert forall|value: Seq<char>| !#[trigger] says(
                        xml,
                        opening + value + closing,
                    ) by {
                        if says(xml, opening + value + closing) {
                            let whole = opening + value + closing;
                            let k = choose|k: int| #[trigger] is_at(xml, whole, k);
                            starts(xml, opening, value + closing, whole, k);
                            let at = k + opening.len() + value.len();
                            ends(xml, opening + value, closing, whole, k);
                            let m = at - i - opening.len();
                            assert(rest.subrange(m, m + closing.len()) =~= xml.subrange(
                                at,
                                at + closing.len(),
                            ));
                            assert(is_at(rest, closing, m));
                        }
                    }
                },
            }
        },
        None => {
            assert forall|value: Seq<char>| !#[trigger] says(xml, opening + value + closing) by {
                if says(xml, opening + value + closing) {
                    let whole = opening + value + closing;
                    let k = choose|k: int| #[trigger] is_at(xml, whole, k);
                    starts(xml, opening, value + closing, whole, k);
                }
            }
        },
    }
}

proof fn starts(text: Seq<char>, a: Seq<char>, b: Seq<char>, whole: Seq<char>, k: int)
    requires
        is_at(text, whole, k),
        whole =~= a + b,
    ensures
        is_at(text, a, k),
{
    assert forall|j: int| 0 <= j < a.len() implies text[k + j] == a[j] by {
        assert(text.subrange(k, k + whole.len())[j] == whole[j]);
    }
    assert(text.subrange(k, k + a.len()) =~= a);
}

proof fn ends(text: Seq<char>, a: Seq<char>, b: Seq<char>, whole: Seq<char>, k: int)
    requires
        is_at(text, whole, k),
        whole =~= a + b,
    ensures
        is_at(text, b, k + a.len()),
{
    let n = k + a.len();
    assert forall|j: int| 0 <= j < b.len() implies text[n + j] == b[j] by {
        assert(text.subrange(k, k + whole.len())[a.len() + j] == whole[a.len() + j]);
    }
    assert(text.subrange(n, n + b.len()) =~= b);
}

/// A URL that begins with http:// is its host, without a slash, and its path,
/// which begins with one; a URL without a path has the path /.
pub proof fn urls_are_host_and_path(url: Seq<char>)
    ensures
        match url_parts(url) {
            Some((host, path)) => {
                &&& !host.contains('/')
                &&& path.len() > 0 && path[0] == '/'
                &&& url == "http://"@ + host + path || (url == "http://"@ + host && path == "/"@)
            },
            None => !"http://"@.is_prefix_of(url),
        },
{
    reveal_strlit("http://");
    reveal_strlit("/");
    if "http://"@.is_prefix_of(url) {
        let rest = url.skip("http://"@.len() as int);
        upto_bounds(rest, '/');
        let n = upto(rest, '/');
        assert(url =~= "http://"@ + rest);
        assert(rest =~= rest.take(n) + rest.skip(n));
        if n < rest.len() {
            assert(url =~= "http://"@ + rest.take(n) + rest.skip(n));
        } else {
            assert(rest.take(n) =~= rest);
        }
    }
}

/// The body of a response is all that follows the first blank line.
pub proof fn bodies_follow_the_blank_line(response: Seq<char>)
    ensures
        match response_body(response) {
            Some(body) => exists|head: Seq<char>|
                response == #[trigger] (head + "\r\n\r\n"@) + body,
            None => !says(response, "\r\n\r\n"@),
        },
{
    let blank = "\r\n\r\n"@;
    first_is_found(response, blank, 0);
    if let Some(i) = find(response, blank) {
        let head = response.take(i);
        assert(response.subrange(i, i + blank.len()) == blank);
        assert(response =~= (head + blank) + response.skip(i + blank.len())) by {
            assert forall|k: int| 0 <= k < blank.len() implies response[i + k] == blank[k] by {
                assert(response.subrange(i, i + blank.len())[k] == blank[k]);
            }
        }
    }
}

/// The call that maps a port names the port outside and inside, the protocol,
/// and the address of this host.
pub proof fn mappings_name_port_and_host(port: u16, internal: u32)
    ensures
        ({
            let text = mapping_text(port, internal);
            let n = decimal(port as int);
            text == "<NewRemoteHost></NewRemoteHost><NewExternalPort>"@ + n
                + "</NewExternalPort><NewProtocol>UDP</NewProtocol><NewInternalPort>"@ + n
                + "</NewInternalPort><NewInternalClient>"@ + ip4_text(internal)
                + "</NewInternalClient><NewEnabled>1</NewEnabled><NewPortMappingDescription>qstream</NewPortMappingDescription><NewLeaseDuration>0</NewLeaseDuration>"@
        }),
{
}

/// A call goes to the path and host that are given, names its action, gives the
/// length of its envelope in bytes, and ends with the envelope, which holds the
/// arguments.
pub proof fn calls_carry_their_envelope(
    host: Seq<char>,
    path: Seq<char>,
    action: Seq<char>,
    args: Seq<char>,
)
    ensures
        ({
            let text = soap_text(host, path, action, args);
            let body = envelope(action, args);
            &&& body.is_suffix_of(text)
            &&& says(text, "POST "@ + path)
            &&& says(text, " HTTP/1.1\r\nHost: "@ + host)
            &&& says(text, "#"@ + action)
            &&& says(text, "\"\r\nContent-Length: "@ + decimal(encode_utf8(body).len() as int))
            &&& says(body, "\">\n"@ + args)
        }),
{
    let body = envelope(action, args);
    let length = decimal(encode_utf8(body).len() as int);
    let t0 = "POST "@;
    let t1 = t0 + path;
    says_itself(t1);
    let t2 = t1 + " HTTP/1.1\r\nHost: "@;
    let t3 = t2 + host;
    says_last(t1, " HTTP/1.1\r\nHost: "@, host);
    says_on(t1, " HTTP/1.1\r\nHost: "@);
    says_on(t2, host);
    let k4 = "\r\nContent-Type: text/xml; charset=\"utf-8\"\r\nSOAPAction: \""@;
    let t4 = t3 + k4;
    says_on(t3, k4);
    let t5 = t4 + service();
    says_on(t4, service());
    let t6 = t5 + "#"@;
    says_on(t5, "#"@);
    let t7 = t6 + action;
    says_last(t5, "#"@, action);
    says_on(t6, action);
    let t8 = t7 + "\"\r\nContent-Length: "@;
    says_on(t7, "\"\r\nContent-Length: "@);
    let t9 = t8 + length;
    says_last(t7, "\"\r\nContent-Length: "@, length);
    says_on(t8, length);
    let t10 = t9 + "\r\nConnection: close\r\n\r\n"@;
    says_on(t9, "\r\nConnection: close\r\n\r\n"@);
    let t11 = t10 + body;
    says_on(t10, body);
    assert(soap_text(host, path, action, args) == t11);
    assert(t11.subrange(t11.len() - body.len(), t11.len() as int) =~= body);
    let e0 = "<?xml version=\"1.0\"?>\n<s:Envelope xmlns:s=\"http://schemas.xmlsoap.org/soap/envelope/\" s:encodingStyle=\"http://schemas.xmlsoap.org/soap/encoding/\">\n<s:Body>\n<u:"@;
    let e3 = e0 + action + " xmlns:u=\""@ + service();
    says_last(e3, "\">\n"@, args);
    let e5 = e3 + "\">\n"@ + args;
    says_on(e5, "\n</u:"@);
    says_on(e5 + "\n</u:"@, action);
    says_on(e5 + "\n</u:"@ + action, ">\n</s:Body>\n</s:Envelope>"@);
}

/// A control URL that is complete is taken as it is, and any other one ends with
/// what the description says.
pub proof fn control_urls_end_as_described(location: Seq<char>, control: Seq<char>)
    ensures
        "http://"@.is_prefix_of(control) ==> resolved(location, control) == Some(control),
        resolved(location, control) matches Some(url) ==> control.is_suffix_of(url),
{
    if let Some(url) = resolved(location, control) {
        let n = url.len() - control.len();
        assert(url.subrange(n, url.len() as int) =~= control);
    }
}

/// The external address is the trimmed text of its tag.
pub proof fn external_address_is_tagged(body: Seq<char>)
    ensures
        external_text(body) is Some <==> tagged(body, "NewExternalIPAddress"@) is Some,
        external_text(body) matches Some(s) ==> s == trim(
            tagged(body, "NewExternalIPAddress"@)->0,
        ),
{
}

/// The locations of an answer are the trimmed rests of the lines that begin with
/// location:, in their order.
pub proof fn locations_are_the_location_lines(list: Seq<Seq<char>>)
    ensures
        located(list) == list.filter(|l: Seq<char>| "location:"@.is_prefix_of(l)).map_values(
            |l: Seq<char>| trim(l.skip(9)),
        ),
    decreases list.len(),
{
    let f = |l: Seq<char>| "location:"@.is_prefix_of(l);
    let g = |l: Seq<char>| trim(l.skip(9));
    reveal_strlit("location:");
    reveal(Seq::filter);
    if list.len() > 0 {
        let front = list.drop_last();
        locations_are_the_location_lines(front);
        let some = front.filter(f);
        if f(list.last()) {
            assert(some.push(list.last()).map_values(g) =~= some.map_values(g).push(
                g(list.last()),
            ));
        }
    }
    assert(located(list) =~= list.filter(f).map_values(g));
}

/// Whether `url` is the control URL behind the first mention of a service.
pub open spec fn is_control_url(
    location: Seq<char>,
    body: Seq<char>,
    name: Seq<char>,
    url: Seq<char>,
) -> bool {
    exists|i: int|
        {
            &&& #[trigger] is_at(body, name, i)
            &&& forall|j: int| 0 <= j < i ==> !is_at(body, name, j)
            &&& tagged(body.skip(i), "controlURL"@) matches Some(control)
            &&& resolved(location, control) == Some(url)
        }
}

/// The control URL is that behind the first mention of the WAN IP service, or,
/// where a description does not mention it, of the WAN PPP service.
pub proof fn ip_service_is_preferred(location: Seq<char>, body: Seq<char>)
    ensures
        ({
            let ip = "urn:schemas-upnp-org:service:WANIPConnection:1"@;
            let ppp = "urn:schemas-upnp-org:service:WANPPPConnection:1"@;
            match controlled(location, body) {
                Some(url) => if says(body, ip) {
                    is_control_url(location, body, ip, url)
                } else {
                    is_control_url(location, body, ppp, url)
                },
                None => forall|url: Seq<char>| !is_control_url(location, body, ip, url),
            }
        }),
{
    let ip = "urn:schemas-upnp-org:service:WANIPConnection:1"@;
    let ppp = "urn:schemas-upnp-org:service:WANPPPConnection:1"@;
    first_is_found(body, ip, 0);
    first_is_found(body, ppp, 0);
    match find(body, ip) {
        Some(i) => {
            assert(is_at(body, ip, i));
            assert(says(body, ip));
            if controlled(location, body) is None {
                assert forall|url: Seq<char>| !is_control_url(location, body, ip, url) by {
                    if is_control_url(location, body, ip, url) {
                        let k = choose|k: int|
                            {
                                &&& #[trigger] is_at(body, ip, k)
                                &&& forall|j: int| 0 <= j < k ==> !is_at(body, ip, j)
                                &&& tagged(body.skip(k), "controlURL"@) matches Some(control)
                                &&& resolved(location, control) == Some(url)
                            };
                        assert(k == i);
                    }
                }
            }
        },
        None => {
            assert(!says(body, ip));
            if let Some(i) = find(body, ppp) {
                assert(is_at(body, ppp, i));
            }
        },
    }
}

proof fn slashes_go(a: Seq<char>, b: Seq<char>)
    requires
        a.len() > 0,
        a.last() != '/',
    ensures
        a.is_prefix_of(without_end_slashes(a + b)),
        without_end_slashes(a + b).is_prefix_of(a + b),
    decreases b.len(),
{
    let s = a + b;
    if b.len() == 0 {
        assert(s =~= a);
    } else if s.last() == '/' {
        assert(s.drop_last() =~= a + b.drop_last());
        slashes_go(a, b.drop_last());
        let w = without_end_slashes(s.drop_last());
        assert(w =~= s.take(w.len() as int));
    }
}

proof fn scheme_ends(url: Seq<char>)
    requires
        "http://"@.is_prefix_of(url),
    ensures
        find(url, "://"@) == Some(4int),
{
    reveal_strlit("http://");
    reveal_strlit("://");
    let p = "://"@;
    first_is_found(url, p, 0);
    let scheme = "http://"@;
    assert(forall|k: int| 0 <= k < 7 ==> url[k] == #[trigger] scheme[k]);
    assert(scheme[0] == 'h' && scheme[1] == 't' && scheme[2] == 't' && scheme[3] == 'p');
    assert(scheme[4] == ':' && scheme[5] == '/' && scheme[6] == '/');
    assert(url.subrange(4, 7) =~= p);
    assert(is_at(url, p, 4));
    let found = find(url, p);
    if let Some(k) = found {
        if k < 4 {
            assert(url.subrange(k, k + 3)[0] == p[0]);
        }
    }
}

/// A control URL that is an absolute path stands behind the host of the
/// description, whatever the path of the description.
pub proof fn absolute_paths_keep_the_host(host: Seq<char>, path: Seq<char>, control: Seq<char>)
    requires
        host.len() > 0,
        !host.contains('/'),
        path.len() == 0 || path[0] == '/',
        control.len() > 0,
        control[0] == '/',
    ensures
        resolved("http://"@ + host + path, control) == Some("http://"@ + host + control),
{
    reveal_strlit("http://");
    reveal_strlit("/");
    let a = "http://"@ + host;
    assert(host.contains(host.last()));
    assert(a.last() == host.last());
    slashes_go(a, path);
    let base = without_end_slashes(a + path);
    assert(base.take(a.len() as int) =~= a);
    assert("http://"@.is_prefix_of(base)) by {
        assert(base.subrange(0, 7) =~= "http://"@);
    }
    scheme_ends(base);
    let rest = base.skip(7);
    upto_bounds(rest, '/');
    let n = upto(rest, '/');
    assert forall|k: int| 0 <= k < host.len() implies rest[k] == host[k] by {
        assert(base[7 + k] == a[7 + k]);
    }
    if n < host.len() {
        assert(host.contains(host[n]));
    }
    if n > host.len() {
        let k = host.len() as int;
        assert(rest[k] == (a + path)[7 + k]);
        assert(rest[k] == path[0]);
    }
    assert(base.take(7 + n) =~= a);
    assert("/"@.is_prefix_of(control)) by {
        assert(control.subrange(0, 1) =~= "/"@);
    }
    if "http://"@.is_prefix_of(control) {
        assert("http://"@[0] == control[0]);
    }
}

proof fn last_slash_splits(a: Seq<char>, b: Seq<char>)
    requires
        a.len() > 0,
        a.last() == '/',
        !b.contains('/'),
    ensures
        upto_last_slash(a + b) == a,
    decreases b.len(),
{
    let s = a + b;
    if b.len() == 0 {
        assert(s =~= a);
    } else {
        assert(b.contains(b.last()));
        assert(s.drop_last() =~= a + b.drop_last());
        assert forall|c: char| b.drop_last().contains(c) implies b.contains(c) by {
            let k = choose|k: int| 0 <= k < b.drop_last().len() && b.drop_last()[k] == c;
            assert(b[k] == c);
        }
        last_slash_splits(a, b.drop_last());
    }
}

proof fn query_less_stays(s: Seq<char>)
    requires
        !s.contains('?'),
        !s.contains('#'),
    ensures
        without_query(s) == s,
{
    upto_bounds(s, '?');
    if upto(s, '?') < s.len() {
        assert(s.contains(s[upto(s, '?')]));
    }
    let t = s.take(upto(s, '?'));
    assert(t =~= s);
    upto_bounds(s, '#');
    if upto(s, '#') < s.len() {
        assert(s.contains(s[upto(s, '#')]));
    }
    assert(t.take(upto(t, '#')) =~= s);
}

/// A control URL that is a name takes the place of the last part of the path of
/// the description.
pub proof fn names_replace_the_last_part(
    folder: Seq<char>,
    last: Seq<char>,
    control: Seq<char>,
)
    requires
        "http://"@.is_prefix_of(folder),
        folder.len() > 7,
        folder.last() == '/',
        !folder.contains('?'),
        !folder.contains('#'),
        !last.contains('/'),
        !last.contains('?'),
        !last.contains('#'),
        control.len() == 0 || control[0] != '/',
        !"http://"@.is_prefix_of(control),
    ensures
        resolved(folder + last, control) == Some(folder + control),
{
    reveal_strlit("http://");
    reveal_strlit("/");
    let place = folder + last;
    assert forall|c: char| place.contains(c) implies folder.contains(c) || last.contains(c) by {
        let k = choose|k: int| 0 <= k < place.len() && place[k] == c;
        if k < folder.len() {
            assert(folder[k] == c);
        } else {
            assert(last[k - folder.len()] == c);
        }
    }
    query_less_stays(place);
    assert("http://"@.is_prefix_of(place)) by {
        assert(folder.subrange(0, 7) =~= "http://"@);
        assert(place.subrange(0, 7) =~= folder.subrange(0, 7));
    }
    scheme_ends(place);
    let rest = place.skip(7);
    upto_bounds(rest, '/');
    assert(rest[folder.len() - 8] == '/');
    last_slash_splits(folder, last);
    if "/"@.is_prefix_of(control) {
        assert("/"@[0] == control[0]);
    }
}

} // verus!
