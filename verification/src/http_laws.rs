//! What holds of the answers over HTTP.
use vstd::prelude::*;
use vstd::utf8::encode_utf8;
use crate::http::{
    answer, file_answer, headers_end, method, replied, request_line, wanted, without_slashes,
    ReplyView, StatsSnapshot,
};
use crate::playlist::filtered;
use crate::text::{decimal, is_space, trim_start, upto, upto_bounds, word_len};
use crate::transfer::is_valid_filename;

verus! {

/// The headers of an answer: the status, the type, and the length of the body,
/// whether the body is sent or not.
pub open spec fn headers(
    status: int,
    reason: Seq<char>,
    mime: Seq<char>,
    length: int,
) -> Seq<u8> {
    encode_utf8(
        "HTTP/1.1 "@ + decimal(status) + " "@ + reason + "\r\nContent-Type: "@ + mime
            + "\r\nContent-Length: "@ + decimal(length) + "\r\nConnection: close\r\n\r\n"@,
    )
}

/// An answer is its headers, which give the length of the body, and then the
/// body as it is, unless only the headers were asked for.
pub proof fn answers_are_headers_and_body(
    status: u16,
    reason: Seq<char>,
    mime: Seq<char>,
    body: Seq<u8>,
)
    ensures
        ({
            let h = headers(status as int, reason, mime, body.len() as int);
            &&& answer(status, reason, mime, body, false) == h + body
            &&& answer(status, reason, mime, body, true) == h
        }),
{
}

/// Only GET and HEAD are served; anything else is answered with 405, whatever it
/// asks for.
pub proof fn other_methods_are_refused(
    method: Seq<char>,
    name: Seq<char>,
    stats: Option<StatsSnapshot>,
)
    requires
        method != "GET"@,
        method != "HEAD"@,
    ensures
        replied(method, name, stats) matches ReplyView::Answer(bytes) && bytes == headers(
            405,
            "Method Not Allowed"@,
            "text/plain"@,
            encode_utf8("method not allowed\n"@).len() as int,
        ) + encode_utf8("method not allowed\n"@),
{
}

/// HEAD is answered as GET is, without the body: the same headers, or the same
/// file to be read.
pub proof fn head_is_answered_as_get(name: Seq<char>, stats: Option<StatsSnapshot>)
    ensures
        match (replied("GET"@, name, stats), replied("HEAD"@, name, stats)) {
            (ReplyView::Answer(full), ReplyView::Answer(head)) => head.is_prefix_of(full),
            (
                ReplyView::File { name: a, head_only: x },
                ReplyView::File { name: b, head_only: y },
            ) => a == b && !x && y,
            _ => false,
        },
{
    reveal_strlit("GET");
    reveal_strlit("HEAD");
    assert("GET"@.len() != "HEAD"@.len());
}

/// A file is read exactly if a plain name is asked for that is none of the pages
/// of the node itself; any other name that is no page is answered with 404.
pub proof fn plain_names_are_read(name: Seq<char>, stats: Option<StatsSnapshot>)
    requires
        name != "health"@,
        name != "peers"@,
        name != "stats"@,
        name != "metrics"@,
    ensures
        is_valid_filename(name) ==> replied("GET"@, name, stats) == (ReplyView::File {
            name,
            head_only: false,
        }),
        !is_valid_filename(name) ==> replied("GET"@, name, stats) == ReplyView::Answer(
            headers(
                404,
                "Not Found"@,
                "text/plain"@,
                encode_utf8("not found\n"@).len() as int,
            ) + encode_utf8("not found\n"@),
        ),
{
    reveal_strlit("GET");
    reveal_strlit("HEAD");
    assert("GET"@.len() != "HEAD"@.len());
}

/// The pages of the node say what the snapshot of its statistics holds, with a
/// line feed at the end.
pub proof fn pages_say_what_the_snapshot_holds(stats: StatsSnapshot)
    requires
        stats.json@.len() > 0,
        stats.metrics@.len() > 0,
    ensures
        ({
            let json = encode_utf8(stats.json@ + "\n"@);
            let metrics = encode_utf8(stats.metrics@ + "\n"@);
            &&& replied("GET"@, "stats"@, Some(stats)) == ReplyView::Answer(
                headers(200, "OK"@, "application/json"@, json.len() as int) + json,
            )
            &&& replied("GET"@, "metrics"@, Some(stats)) == ReplyView::Answer(
                headers(200, "OK"@, "text/plain; version=0.0.4"@, metrics.len() as int) + metrics,
            )
            &&& replied("GET"@, "health"@, Some(stats)) == replied("GET"@, "health"@, None)
            &&& replied("GET"@, "health"@, None) == ReplyView::Answer(
                headers(200, "OK"@, "text/plain"@, encode_utf8("ok\n"@).len() as int) + encode_utf8(
                    "ok\n"@,
                ),
            )
        }),
{
    reveal_strlit("GET");
    reveal_strlit("HEAD");
    reveal_strlit("stats");
    reveal_strlit("metrics");
    reveal_strlit("peers");
    reveal_strlit("health");
    assert("GET"@.len() != "HEAD"@.len());
    assert("stats"@[0] != "peers"@[0]);
    assert("health"@.len() != "peers"@.len());
    assert("metrics"@.len() != "stats"@.len());
    assert("metrics"@.len() != "peers"@.len());
    assert("health"@.len() != "stats"@.len());
    assert("health"@.len() != "metrics"@.len());
}

/// A file that is there is answered with its bytes, unchanged unless it is a
/// playlist, which is filtered to what is there; one that is not is answered
/// with 404.
pub proof fn files_are_answered_as_they_are(
    name: Seq<char>,
    data: Seq<u8>,
    present: Seq<Seq<char>>,
)
    ensures
        ({
            let body = if ".m3u8"@.is_suffix_of(name) {
                filtered(data, present)
            } else {
                data
            };
            let mime = if ".m3u8"@.is_suffix_of(name) {
                "application/vnd.apple.mpegurl"@
            } else if ".ts"@.is_suffix_of(name) {
                "video/mp2t"@
            } else if ".mp4"@.is_suffix_of(name) {
                "video/mp4"@
            } else {
                "application/octet-stream"@
            };
            let h = headers(200, "OK"@, mime, body.len() as int);
            &&& file_answer(name, Some(data), present, false) == h + body
            &&& file_answer(name, Some(data), present, true) == h
            &&& file_answer(name, None, present, false) == headers(
                404,
                "Not Found"@,
                "text/plain"@,
                encode_utf8("not found\n"@).len() as int,
            ) + encode_utf8("not found\n"@)
        }),
{
}

proof fn word_ends(a: Seq<char>, b: Seq<char>)
    requires
        forall|i: int| 0 <= i < a.len() ==> !is_space(#[trigger] a[i]),
        b.len() == 0 || is_space(b[0]),
    ensures
        word_len(a + b) == a.len(),
    decreases a.len(),
{
    let s = a + b;
    if a.len() == 0 {
        assert(s =~= b);
    } else {
        assert(s[0] == a[0]);
        assert(s.skip(1) =~= a.skip(1) + b);
        assert forall|i: int| 0 <= i < a.skip(1).len() implies !is_space(
            #[trigger] a.skip(1)[i],
        ) by {
            assert(a.skip(1)[i] == a[i + 1]);
        }
        word_ends(a.skip(1), b);
    }
}

/// The first line of a request names the method and the file: a word, a blank, a
/// slash and the name, up to a query or the version. What follows the line tells
/// nothing.
pub proof fn requests_name_method_and_file(
    verb: Seq<char>,
    name: Seq<char>,
    query: Seq<char>,
    version: Seq<char>,
    rest: Seq<char>,
)
    requires
        verb.len() > 0,
        forall|i: int| 0 <= i < verb.len() ==> !is_space(#[trigger] verb[i]),
        forall|i: int| 0 <= i < name.len() ==> !is_space(#[trigger] name[i]) && name[i] != '?',
        name.len() > 0 ==> name[0] != '/',
        forall|i: int| 0 <= i < query.len() ==> !is_space(#[trigger] query[i]),
        query.len() > 0 ==> query[0] == '?',
        forall|i: int| 0 <= i < version.len() ==> #[trigger] version[i] != '\n',
    ensures
        ({
            let request = verb + " /"@ + name + query + " "@ + version + "\r\n"@ + rest;
            method(request) == verb && wanted(request) == name
        }),
{
    reveal_strlit(" /");
    reveal_strlit(" ");
    reveal_strlit("\r\n");
    let target = "/"@ + name + query;
    reveal_strlit("/");
    let tail = " "@ + version;
    let line = verb + " "@ + target + tail;
    let request = verb + " /"@ + name + query + " "@ + version + "\r\n"@ + rest;
    assert(request =~= line + "\r\n"@ + rest);
    assert forall|i: int| 0 <= i < target.len() implies !is_space(#[trigger] target[i]) by {
        if 1 <= i < 1 + name.len() {
            assert(target[i] == name[i - 1]);
        } else if i >= 1 + name.len() {
            assert(target[i] == query[i - 1 - name.len()]);
        }
    }
    assert forall|i: int| 0 <= i < line.len() implies line[i] != '\n' by {
        let a = verb.len();
        let b = target.len();
        if i < a {
            assert(line[i] == verb[i]);
            assert(!is_space(verb[i]));
        } else if a < i < a + 1 + b {
            assert(line[i] == target[i - a - 1]);
            assert(!is_space(target[i - a - 1]));
        } else if i > a + 1 + b {
            assert(line[i] == version[i - a - b - 2]);
        }
    }
    upto_bounds(request, '\n');
    let k = upto(request, '\n');
    let n = line.len() as int;
    assert(request[n] == '\r' && request[n + 1] == '\n');
    if k < n {
        assert(request[k] == line[k]);
    }
    assert(k == n + 1);
    assert(request.take(k).drop_last() =~= line);
    assert(request.take(k).last() == '\r');
    assert(request_line(request) == line);
    let behind = " "@ + target + tail;
    assert(line =~= verb + behind);
    assert(line[0] == verb[0]);
    assert(trim_start(line) == line);
    word_ends(verb, behind);
    assert(line.take(verb.len() as int) =~= verb);
    assert(line.skip(verb.len() as int) =~= behind);
    assert(behind.skip(1) =~= target + tail);
    assert((target + tail)[0] == '/');
    reveal_with_fuel(trim_start, 2);
    assert(trim_start(behind) == target + tail);
    word_ends(target, tail);
    assert((target + tail).take(target.len() as int) =~= target);
    upto_bounds(target, '?');
    let q = upto(target, '?');
    if q < 1 + name.len() {
        if q >= 1 {
            assert(target[q] == name[q - 1]);
        }
    }
    if query.len() > 0 {
        assert(target[1 + name.len() as int] == '?');
    }
    assert(target.take(q) =~= "/"@ + name);
    let slashed = "/"@ + name;
    assert(slashed.skip(1) =~= name);
    reveal_with_fuel(without_slashes, 2);
    assert(without_slashes(slashed) == name);
}

/// A request is complete as soon as a blank line stands in it, whatever follows.
pub proof fn requests_end_with_a_blank_line(head: Seq<u8>, rest: Seq<u8>, buf: Seq<u8>)
    ensures
        headers_end(head + seq![13u8, 10, 13, 10] + rest),
        headers_end(buf) ==> exists|i: int|
            0 <= i <= buf.len() - 4 && #[trigger] buf.subrange(i, i + 4) == seq![13u8, 10, 13, 10],
{
    let blank = seq![13u8, 10, 13, 10];
    let all = head + blank + rest;
    let n = head.len() as int;
    assert(all[n] == 13 && all[n + 1] == 10 && all[n + 2] == 13 && all[n + 3] == 10);
    if headers_end(buf) {
        let i = choose|i: int|
            0 <= i && i + 4 <= buf.len() && #[trigger] buf[i] == 13 && buf[i + 1] == 10 && buf[i
                + 2] == 13 && buf[i + 3] == 10;
        assert(buf.subrange(i, i + 4) =~= blank);
    }
}

} // verus!
