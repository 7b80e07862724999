//! Minimal HTTP/1.1 static file service.
//!
//! Answers for a directory (manifest + segments) so HLS players can watch the
//! stream over HTTP: GET and HEAD only, the connection is closed after each
//! answer, no range requests. Just enough to serve a live playlist.
use vstd::prelude::*;
use vstd::utf8::encode_utf8;
use crate::playlist::{filter_playlist, filtered};
use crate::table::Group;
use crate::text::{
    after_first_word, chars_of, decimal, first_word, has_suffix, index_upto, lines, read_text,
    push_bytes, push_chars, push_decimal, push_text, same_text, split_lines, split_word, string_of,
    strings, texts, upto, as_text,
};
use crate::transfer::{is_valid_filename, valid_filename};

verus! {

pub const MAX_REQUEST_BYTES: usize = 8192;

/// What the statistics pages show.
#[derive(Debug)]
pub struct StatsSnapshot {
    pub lines: Vec<String>,
    pub json: String,
    pub metrics: String,
}

impl Default for StatsSnapshot {
    fn default() -> (s: Self)
        ensures
            s.lines@.len() == 0,
            s.json@.len() == 0,
            s.metrics@.len() == 0,
    {
        let s = StatsSnapshot { lines: Vec::new(), json: String::new(), metrics: String::new() };
        s
    }
}

/// Whether the end of the headers occurs in what has been read.
pub open spec fn headers_end(buf: Seq<u8>) -> bool {
    exists|i: int|
        0 <= i && i + 4 <= buf.len() && #[trigger] buf[i] == 13 && buf[i + 1] == 10 && buf[i + 2]
            == 13 && buf[i + 3] == 10
}

/// Whether enough of a request has been read: up to the end of the headers,
/// or a sane cap.
pub fn request_complete(buf: &[u8]) -> (r: bool)
    ensures
        r == (headers_end(buf@) || buf@.len() >= MAX_REQUEST_BYTES),
{
    if buf.len() >= MAX_REQUEST_BYTES {
        return true;
    }
    let mut i: usize = 0;
    while i + 4 <= buf.len()
        invariant
            i <= buf@.len() < MAX_REQUEST_BYTES,
            forall|j: int|
                0 <= j < i && j + 4 <= buf@.len() ==> !(#[trigger] buf@[j] == 13 && buf@[j + 1]
                    == 10 && buf@[j + 2] == 13 && buf@[j + 3] == 10),
        decreases buf@.len() - i,
    {
        if buf[i] == 13 && buf[i + 1] == 10 && buf[i + 2] == 13 && buf[i + 3] == 10 {
            assert(buf@[i as int] == 13);
            return true;
        }
        i = i + 1;
    }
    false
}

/// The first line of a request.
pub open spec fn request_line(request: Seq<char>) -> Seq<char> {
    let all = lines(request);
    if all.len() > 0 {
        all[0]
    } else {
        Seq::empty()
    }
}

/// The method of a request.
pub open spec fn method(request: Seq<char>) -> Seq<char> {
    first_word(request_line(request))
}

/// A text without the slashes at its start.
pub open spec fn without_slashes(s: Seq<char>) -> Seq<char>
    decreases s.len(),
{
    if s.len() > 0 && s[0] == '/' {
        without_slashes(s.skip(1))
    } else {
        s
    }
}

/// The name that a request asks for: its target without the query and without
/// leading slashes.
pub open spec fn wanted(request: Seq<char>) -> Seq<char> {
    let target = first_word(after_first_word(request_line(request)));
    without_slashes(target.take(upto(target, '?')))
}

/// The type of a file by its name.
pub open spec fn mime(name: Seq<char>) -> Seq<char> {
    if ".m3u8"@.is_suffix_of(name) {
        "application/vnd.apple.mpegurl"@
    } else if ".ts"@.is_suffix_of(name) {
        "video/mp2t"@
    } else if ".mp4"@.is_suffix_of(name) {
        "video/mp4"@
    } else {
        "application/octet-stream"@
    }
}

/// An answer: the headers, and the body unless only the headers are wanted.
pub open spec fn answer(
    status: u16,
    reason: Seq<char>,
    mime: Seq<char>,
    body: Seq<u8>,
    head_only: bool,
) -> Seq<u8> {
    let header = encode_utf8(
        "HTTP/1.1 "@ + decimal(status as int) + " "@ + reason + "\r\nContent-Type: "@ + mime
            + "\r\nContent-Length: "@ + decimal(body.len() as int)
            + "\r\nConnection: close\r\n\r\n"@,
    );
    if head_only {
        header
    } else {
        header + body
    }
}

/// The answer that a method is not served.
pub open spec fn not_allowed() -> Seq<u8> {
    answer(
        405,
        "Method Not Allowed"@,
        "text/plain"@,
        encode_utf8("method not allowed\n"@),
        false,
    )
}

/// The answer that there is no such file.
pub open spec fn not_found(head_only: bool) -> Seq<u8> {
    answer(404, "Not Found"@, "text/plain"@, encode_utf8("not found\n"@), head_only)
}

/// Texts with a line feed between them.
pub open spec fn joined_lines(lines: Seq<Seq<char>>) -> Seq<char>
    decreases lines.len(),
{
    if lines.len() == 0 {
        Seq::empty()
    } else if lines.len() == 1 {
        lines[0]
    } else {
        joined_lines(lines.drop_last()) + "\n"@ + lines.last()
    }
}

/// A text with the end of its line, or what stands for an empty one.
pub open spec fn body_or(text: Seq<char>, empty: Seq<char>) -> Seq<char> {
    if text.len() == 0 {
        empty
    } else {
        text + "\n"@
    }
}

/// How a request is answered.
pub enum Reply {
    /// With these bytes.
    Answer(Vec<u8>),
    /// With a file: read it, and hand what came of it to `file_reply`.
    File { name: String, head_only: bool },
}

/// The model of a [`Reply`].
pub enum ReplyView {
    Answer(Seq<u8>),
    File { name: Seq<char>, head_only: bool },
}

impl View for Reply {
    type V = ReplyView;

    open spec fn view(&self) -> ReplyView {
        match *self {
            Reply::Answer(bytes) => ReplyView::Answer(bytes@),
            Reply::File { name, head_only } => ReplyView::File { name: name@, head_only },
        }
    }
}

/// How a request for a name is answered, with the statistics if there are any.
pub open spec fn replied(
    method: Seq<char>,
    name: Seq<char>,
    stats: Option<StatsSnapshot>,
) -> ReplyView {
    let head_only = method == "HEAD"@;
    if method != "GET"@ && !head_only {
        ReplyView::Answer(not_allowed())
    } else if name == "peers"@ && stats is Some {
        ReplyView::Answer(
            answer(
                200,
                "OK"@,
                "text/plain"@,
                encode_utf8(
                    body_or(
                        joined_lines(strings(stats->0.lines@)),
                        "node stats not ready\n"@,
                    ),
                ),
                head_only,
            ),
        )
    } else if name == "stats"@ && stats is Some {
        ReplyView::Answer(
            answer(
                200,
                "OK"@,
                "application/json"@,
                encode_utf8(body_or(stats->0.json@, "{}"@)),
                head_only,
            ),
        )
    } else if name == "metrics"@ && stats is Some {
        ReplyView::Answer(
            answer(
                200,
                "OK"@,
                "text/plain; version=0.0.4"@,
                encode_utf8(body_or(stats->0.metrics@, ""@)),
                head_only,
            ),
        )
    } else if name == "health"@ {
        ReplyView::Answer(answer(200, "OK"@, "text/plain"@, encode_utf8("ok\n"@), head_only))
    } else if !is_valid_filename(name) {
        ReplyView::Answer(not_found(head_only))
    } else {
        ReplyView::File { name, head_only }
    }
}

/// The answer with a file. A playlist is filtered to segments that actually
/// exist, so players never miss one on a live edge that the node hasn't
/// replicated yet.
pub open spec fn file_answer(
    name: Seq<char>,
    data: Option<Seq<u8>>,
    present: Seq<Seq<char>>,
    head_only: bool,
) -> Seq<u8> {
    match data {
        Some(data) => answer(
            200,
            "OK"@,
            mime(name),
            if ".m3u8"@.is_suffix_of(name) {
                filtered(data, present)
            } else {
                data
            },
            head_only,
        ),
        None => not_found(head_only),
    }
}

fn mime_of(name: &str) -> (r: &'static str)
    ensures
        r@ == mime(name@),
{
    let chars = chars_of(name);
    if has_suffix(&chars, &chars_of(".m3u8")) {
        "application/vnd.apple.mpegurl"
    } else if has_suffix(&chars, &chars_of(".ts")) {
        "video/mp2t"
    } else if has_suffix(&chars, &chars_of(".mp4")) {
        "video/mp4"
    } else {
        "application/octet-stream"
    }
}

/// An answer: the headers, and the body unless only the headers are wanted.
pub fn respond(status: u16, reason: &str, mime: &str, body: &[u8], head_only: bool) -> (r: Vec<u8>)
    ensures
        r@ == answer(status, reason@, mime@, body@, head_only),
{
    let mut header: Vec<char> = Vec::new();
    push_text(&mut header, "HTTP/1.1 ");
    push_decimal(&mut header, status as u64);
    push_text(&mut header, " ");
    push_text(&mut header, reason);
    push_text(&mut header, "\r\nContent-Type: ");
    push_text(&mut header, mime);
    push_text(&mut header, "\r\nContent-Length: ");
    push_decimal(&mut header, body.len() as u64);
    push_text(&mut header, "\r\nConnection: close\r\n\r\n");
    proof {
        assert(header@ =~= "HTTP/1.1 "@ + decimal(status as int) + " "@ + reason@
            + "\r\nContent-Type: "@ + mime@ + "\r\nContent-Length: "@ + decimal(
            body@.len() as int,
        ) + "\r\nConnection: close\r\n\r\n"@);
    }
    let text = string_of(&header);
    let mut r = vstd::slice::slice_to_vec(text.as_str().as_bytes());
    if !head_only {
        push_bytes(&mut r, body);
    }
    r
}

fn join_lines(lines: &[String]) -> (r: Vec<char>)
    ensures
        r@ == joined_lines(strings(lines@)),
{
    let ghost all = strings(lines@);
    let mut r: Vec<char> = Vec::new();
    let mut i: usize = 0;
    proof {
        assert(r@ =~= joined_lines(all.take(0)));
    }
    while i < lines.len()
        invariant
            i <= lines@.len(),
            all == strings(lines@),
            r@ == joined_lines(all.take(i as int)),
        decreases lines@.len() - i,
    {
        let ghost before = r@;
        proof {
            assert(all.take(i + 1).drop_last() =~= all.take(i as int));
            assert(all.take(i + 1).last() == lines@[i as int]@);
        }
        if i > 0 {
            push_text(&mut r, "\n");
        }
        push_text(&mut r, lines[i].as_str());
        proof {
            assert(r@ =~= joined_lines(all.take(i + 1)));
        }
        i = i + 1;
    }
    proof {
        assert(all.take(i as int) =~= all);
    }
    r
}

fn body_bytes(text: &[char], empty: &str) -> (r: Vec<u8>)
    ensures
        r@ == encode_utf8(body_or(text@, empty@)),
{
    let mut out: Vec<char> = Vec::new();
    if text.len() == 0 {
        push_text(&mut out, empty);
    } else {
        push_chars(&mut out, text);
        push_text(&mut out, "\n");
    }
    proof {
        assert(out@ =~= body_or(text@, empty@));
    }
    let s = string_of(&out);
    vstd::slice::slice_to_vec(s.as_str().as_bytes())
}

fn skip_slashes(s: &[char]) -> (r: &[char])
    ensures
        r@ == without_slashes(s@),
{
    let mut i: usize = 0;
    proof {
        assert(s@.skip(0) =~= s@);
    }
    while i < s.len() && s[i] == '/'
        invariant
            i <= s@.len(),
            without_slashes(s@) == without_slashes(s@.skip(i as int)),
        decreases s@.len() - i,
    {
        proof {
            assert(s@.skip(i as int)[0] == s@[i as int]);
            assert(s@.skip(i as int).skip(1) =~= s@.skip(i + 1));
        }
        i = i + 1;
    }
    proof {
        if i < s@.len() {
            assert(s@.skip(i as int)[0] == s@[i as int]);
        }
        assert(s@.subrange(i as int, s@.len() as int) =~= s@.skip(i as int));
    }
    vstd::slice::slice_subrange(s, i, s.len())
}

/// The method and the wanted name of a request.
pub fn parse_request(request: &[u8]) -> (r: (String, String))
    ensures
        r.0@ == method(as_text(request@)),
        r.1@ == wanted(as_text(request@)),
{
    let text = read_text(request);
    request_parts(text.as_str())
}

/// The method and the wanted name in the text of a request.
pub fn request_parts(text: &str) -> (r: (String, String))
    ensures
        r.0@ == method(text@),
        r.1@ == wanted(text@),
{
    let chars = chars_of(text);
    let all = split_lines(&chars);
    let empty: Vec<char> = Vec::new();
    let line: &Vec<char> = if all.len() > 0 {
        &all[0]
    } else {
        &empty
    };
    proof {
        assert(texts(all@).len() == all@.len());
        if all@.len() > 0 {
            assert(texts(all@)[0] == all@[0]@);
        } else {
            assert(empty@ =~= Seq::<char>::empty());
        }
        assert(line@ == request_line(text@));
    }
    let (verb, rest) = split_word(line.as_slice());
    let (target, _) = split_word(rest);
    let end = index_upto(target, '?', 0);
    proof {
        assert(target@.skip(0) =~= target@);
        assert(target@.subrange(0, end as int) =~= target@.take(upto(target@, '?')));
    }
    let path = vstd::slice::slice_subrange(target, 0, end);
    (string_of(verb), string_of(skip_slashes(path)))
}

/// How a request is answered, with the statistics if there are any.
pub fn reply(request: &[u8], stats: Option<&StatsSnapshot>) -> (r: Reply)
    ensures
        r@ == replied(
            method(as_text(request@)),
            wanted(as_text(request@)),
            match stats {
                Some(s) => Some(*s),
                None => None,
            },
        ),
{
    let (verb, name) = parse_request(request);
    reply_to(verb.as_str(), name, stats)
}

/// How a request for a name is answered, with the statistics if there are any.
pub fn reply_to(verb: &str, name: String, stats: Option<&StatsSnapshot>) -> (r: Reply)
    ensures
        r@ == replied(
            verb@,
            name@,
            match stats {
                Some(s) => Some(*s),
                None => None,
            },
        ),
{
    let head_only = same_text(verb, "HEAD");
    if !same_text(verb, "GET") && !head_only {
        return Reply::Answer(
            respond(
                405,
                "Method Not Allowed",
                "text/plain",
                "method not allowed\n".as_bytes(),
                false,
            ),
        );
    }
    if let Some(s) = stats {
        if same_text(name.as_str(), "peers") {
            let text = join_lines(s.lines.as_slice());
            let body = body_bytes(&text, "node stats not ready\n");
            return Reply::Answer(respond(200, "OK", "text/plain", body.as_slice(), head_only));
        }
        if same_text(name.as_str(), "stats") {
            let text = chars_of(s.json.as_str());
            let body = body_bytes(&text, "{}");
            return Reply::Answer(
                respond(200, "OK", "application/json", body.as_slice(), head_only),
            );
        }
        if same_text(name.as_str(), "metrics") {
            let text = chars_of(s.metrics.as_str());
            let body = body_bytes(&text, "");
            return Reply::Answer(
                respond(200, "OK", "text/plain; version=0.0.4", body.as_slice(), head_only),
            );
        }
    }
    if same_text(name.as_str(), "health") {
        return Reply::Answer(respond(200, "OK", "text/plain", "ok\n".as_bytes(), head_only));
    }
    if !valid_filename(name.as_str()) {
        return Reply::Answer(
            respond(404, "Not Found", "text/plain", "not found\n".as_bytes(), head_only),
        );
    }
    Reply::File { name, head_only }
}

/// The answer with what reading a file gave; `present` tells which files of a
/// playlist are there.
pub fn file_reply(name: &str, data: Option<Vec<u8>>, present: &Group<String>, head_only: bool) -> (r:
    Vec<u8>)
    ensures
        r@ == file_answer(
            name@,
            match data {
                Some(d) => Some(d@),
                None => None,
            },
            present@,
            head_only,
        ),
{
    match data {
        Some(data) => {
            let chars = chars_of(name);
            if has_suffix(&chars, &chars_of(".m3u8")) {
                let body = filter_playlist(present, data.as_slice());
                respond(200, "OK", mime_of(name), body.as_slice(), head_only)
            } else {
                respond(200, "OK", mime_of(name), data.as_slice(), head_only)
            }
        },
        None => respond(404, "Not Found", "text/plain", "not found\n".as_bytes(), head_only),
    }
}

/// A file is only ever asked for by a plain name: nothing outside the served
/// directory can be named, whatever the request.
pub proof fn only_plain_names_are_read(
    method: Seq<char>,
    wanted: Seq<char>,
    stats: Option<StatsSnapshot>,
)
    ensures
        replied(method, wanted, stats) matches ReplyView::File { name, .. } ==> is_valid_filename(
            name,
        ) && name == wanted,
{
}

/// An answer to HEAD is the answer to GET without its body.
pub proof fn head_is_get_without_body(
    status: u16,
    reason: Seq<char>,
    mime: Seq<char>,
    body: Seq<u8>,
)
    ensures
        answer(status, reason, mime, body, false) == answer(status, reason, mime, body, true) + body,
{
}

} // verus!
