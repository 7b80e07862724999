//! Player-facing playlists: what is listed is there.
use vstd::prelude::*;
use vstd::utf8::encode_utf8;
use crate::table::Group;
use crate::text::{
    as_text, chars_of, copy_chars, decimal, has_prefix, lines, parse_number, parse_unsigned,
    push_chars, push_decimal, push_text, read_text, same_text, split_lines, string_of, strings,
    strip_cr, texts, trim, trim_text,
};

verus! {

/// The tag in front of the number of the first segment.
pub open spec fn sequence_tag() -> Seq<char> {
    "#EXT-X-MEDIA-SEQUENCE:"@
}

/// The number of the first segment that the lines of a playlist give; the last
/// one counts, and what is no number is 0.
pub open spec fn media_sequence(lines: Seq<Seq<char>>) -> u64
    decreases lines.len(),
{
    if lines.len() == 0 {
        0
    } else if sequence_tag().is_prefix_of(lines.last()) {
        match parse_number(trim(lines.last().skip(sequence_tag().len() as int)), u64::MAX as int) {
            Some(n) => n as u64,
            None => 0,
        }
    } else {
        media_sequence(lines.drop_last())
    }
}

/// A line and the end of it.
pub open spec fn as_line(line: Seq<char>) -> Seq<char> {
    line + "\n"@
}

/// Lines one after the other.
pub open spec fn as_lines(lines: Seq<Seq<char>>) -> Seq<char>
    decreases lines.len(),
{
    if lines.len() == 0 {
        Seq::empty()
    } else {
        as_lines(lines.drop_last()) + as_line(lines.last())
    }
}

/// Whether a tag belongs to the segment behind it, and goes with it. Tags in
/// front of the first of these are about the whole playlist.
pub open spec fn is_segment_tag(line: Seq<char>) -> bool {
    ||| "#EXTINF:"@.is_prefix_of(line)
    ||| "#EXT-X-BYTERANGE:"@.is_prefix_of(line)
    ||| "#EXT-X-PROGRAM-DATE-TIME:"@.is_prefix_of(line)
    ||| line == "#EXT-X-DISCONTINUITY"@
}

/// How far the filtering of a playlist has come.
#[verifier::ext_equal]
pub struct Sifted {
    /// tags about the whole playlist
    pub header: Seq<Seq<char>>,
    /// the segments that are kept, with their tags
    pub body: Seq<Seq<char>>,
    /// tags that belong to the next segment
    pub pending: Seq<Seq<char>>,
    /// the number of the first segment kept
    pub first_kept: Option<u64>,
    /// whether the playlist says that it is one
    pub saw_m3u: bool,
    /// whether a segment was listed
    pub started: bool,
    /// the number of the next segment
    pub seq: u64,
    /// how many segments are kept
    pub kept: nat,
}

impl Sifted {
    /// The start of a filtering.
    pub open spec fn start(seq: u64) -> Self {
        Sifted {
            header: Seq::empty(),
            body: Seq::empty(),
            pending: Seq::empty(),
            first_kept: None,
            saw_m3u: false,
            started: false,
            seq,
            kept: 0,
        }
    }

    /// One tag further. A tag about the whole playlist stays; one of a segment
    /// waits for it, and so do those behind it. The number of the first segment
    /// is written anew.
    pub open spec fn sift_tag(self, line: Seq<char>) -> Self {
        let saw_m3u = self.saw_m3u || "#EXTM3U"@.is_prefix_of(line);
        if sequence_tag().is_prefix_of(line) {
            self
        } else if !self.started && self.pending.len() == 0 && !is_segment_tag(line) {
            Sifted { header: self.header.push(strip_cr(line)), saw_m3u, ..self }
        } else {
            Sifted { pending: self.pending.push(strip_cr(line)), saw_m3u, ..self }
        }
    }

    /// One line further. A segment that is there, and within the limit, is
    /// kept with its tags, any other is dropped with them.
    pub open spec fn sift(self, line: Seq<char>, present: Seq<Seq<char>>, limit: nat) -> Self {
        let name = trim(line);
        if line.len() > 0 && line[0] == '#' {
            self.sift_tag(line)
        } else if name.len() == 0 {
            self
        } else {
            let next = Sifted {
                pending: Seq::empty(),
                started: true,
                seq: ((self.seq + 1) % 0x1_0000_0000_0000_0000) as u64,
                ..self
            };
            if present.contains(name) && self.kept < limit {
                Sifted {
                    body: (self.body + self.pending).push(name),
                    first_kept: if self.first_kept is None {
                        Some(self.seq)
                    } else {
                        self.first_kept
                    },
                    kept: self.kept + 1,
                    ..next
                }
            } else {
                next
            }
        }
    }
}

/// A filtering after the lines.
pub open spec fn sifted(lines: Seq<Seq<char>>, present: Seq<Seq<char>>, limit: nat, seq: u64) -> Sifted
    decreases lines.len(),
{
    if lines.len() == 0 {
        Sifted::start(seq)
    } else {
        sifted(lines.drop_last(), present, limit, seq).sift(lines.last(), present, limit)
    }
}

/// Whether the number of the first segment belongs behind a line.
pub open spec fn is_heading(line: Seq<char>) -> bool {
    "#EXTM3U"@.is_prefix_of(line) || "#EXT-X-VERSION:"@.is_prefix_of(line)
}

/// The line with the number of the first segment.
pub open spec fn number_line(seq: u64) -> Seq<char> {
    sequence_tag() + decimal(seq as int)
}

/// The lines with the number of the first segment behind the first heading, and
/// whether there was one.
pub open spec fn headed(list: Seq<Seq<char>>, seq: u64) -> (Seq<Seq<char>>, bool)
    decreases list.len(),
{
    if list.len() == 0 {
        (Seq::empty(), false)
    } else {
        let (rest, done) = headed(list.drop_last(), seq);
        let next = rest.push(list.last());
        if !done && is_heading(list.last()) {
            (next.push(number_line(seq)), true)
        } else {
            (next, done)
        }
    }
}

/// The lines with the number of the first segment: behind the first heading, or
/// at the end where there is none.
pub open spec fn numbered_lines(list: Seq<Seq<char>>, seq: u64) -> Seq<Seq<char>> {
    let (all, done) = headed(list, seq);
    if done {
        all
    } else {
        all.push(number_line(seq))
    }
}

/// A playlist filtered.
pub open spec fn sifted_text(text: Seq<char>, present: Seq<Seq<char>>, limit: nat) -> Sifted {
    let all = lines(text);
    sifted(all, present, limit, media_sequence(all))
}

/// The lines of a filtered playlist.
pub open spec fn rewritten_lines(s: Sifted) -> Seq<Seq<char>> {
    numbered_lines(
        s.header + s.body,
        match s.first_kept {
            Some(n) => n,
            None => 0,
        },
    )
}

/// The text of a filtered playlist.
pub open spec fn rewritten(s: Sifted) -> Seq<char> {
    as_lines(rewritten_lines(s))
}

/// Whether every one of the names is there.
pub open spec fn all_present(names: Seq<Seq<char>>, present: Seq<Seq<char>>) -> bool {
    forall|i: int| 0 <= i < names.len() ==> present.contains(#[trigger] names[i])
}

/// A playlist with only the segments that are there; nothing where it goes out
/// as it is: because all of them are there, or none, or it is no playlist.
pub open spec fn filtered_text(text: Seq<char>, present: Seq<Seq<char>>) -> Option<Seq<char>> {
    let s = sifted_text(text, present, lines(text).len());
    if all_present(named_files(lines(text)), present) || !s.saw_m3u || s.kept == 0 {
        None
    } else {
        Some(rewritten(s))
    }
}

/// A playlist file with only the segments that are there. Where all of them are
/// there it stays as it is; so does one in which nothing is left, so players at
/// least see the edge and retry, and one that is no playlist.
pub open spec fn filtered(data: Seq<u8>, present: Seq<Seq<char>>) -> Seq<u8> {
    match filtered_text(as_text(data), present) {
        Some(text) => encode_utf8(text),
        None => data,
    }
}

/// The playlist for a player: only the segments that are there, the last ones
/// withheld; nothing where none is left.
pub open spec fn player_text(text: Seq<char>, present: Seq<Seq<char>>, holdback: nat) -> Option<
    Seq<char>,
> {
    let all = sifted_text(text, present, lines(text).len());
    if !all.saw_m3u || all.kept <= holdback {
        None
    } else {
        Some(rewritten(sifted_text(text, present, (all.kept - holdback) as nat)))
    }
}

/// The playlist file for a player.
pub open spec fn playback(data: Seq<u8>, present: Seq<Seq<char>>, holdback: nat) -> Option<Seq<u8>> {
    match player_text(as_text(data), present, holdback) {
        Some(text) => Some(encode_utf8(text)),
        None => None,
    }
}

/// The files that a playlist names.
pub open spec fn named_files(lines: Seq<Seq<char>>) -> Seq<Seq<char>>
    decreases lines.len(),
{
    if lines.len() == 0 {
        Seq::empty()
    } else {
        let rest = named_files(lines.drop_last());
        let line = lines.last();
        if (line.len() > 0 && line[0] == '#') || trim(line).len() == 0 {
            rest
        } else {
            rest.push(trim(line))
        }
    }
}

struct Sieve {
    header: Vec<Vec<char>>,
    body: Vec<Vec<char>>,
    pending: Vec<Vec<char>>,
    first_kept: Option<u64>,
    saw_m3u: bool,
    started: bool,
    seq: u64,
    kept: usize,
}

impl View for Sieve {
    type V = Sifted;

    closed spec fn view(&self) -> Sifted {
        Sifted {
            header: texts(self.header@),
            body: texts(self.body@),
            pending: texts(self.pending@),
            first_kept: self.first_kept,
            saw_m3u: self.saw_m3u,
            started: self.started,
            seq: self.seq,
            kept: self.kept as nat,
        }
    }
}

fn push_line(out: &mut Vec<char>, line: &[char])
    ensures
        final(out)@ == old(out)@ + as_line(line@),
{
    let ghost start = out@;
    push_chars(out, line);
    push_text(out, "\n");
    proof {
        assert(out@ =~= start + as_line(line@));
    }
}

fn without_cr(line: &[char]) -> (r: Vec<char>)
    ensures
        r@ == strip_cr(line@),
{
    let len: usize = line.len();
    let end: usize = if len > 0 && line[len - 1] == '\r' {
        len - 1
    } else {
        len
    };
    let part = vstd::slice::slice_subrange(line, 0, end);
    proof {
        assert(part@ =~= strip_cr(line@));
    }
    copy_chars(part)
}

fn segment_tag(line: &[char]) -> (r: bool)
    ensures
        r == is_segment_tag(line@),
{
    has_prefix(line, &chars_of("#EXTINF:")) || has_prefix(line, &chars_of("#EXT-X-BYTERANGE:"))
        || has_prefix(line, &chars_of("#EXT-X-PROGRAM-DATE-TIME:")) || same_text(
        string_of(line).as_str(),
        "#EXT-X-DISCONTINUITY",
    )
}

fn push_copy(list: &mut Vec<Vec<char>>, line: Vec<char>)
    ensures
        texts(final(list)@) == texts(old(list)@).push(line@),
{
    let ghost before = texts(list@);
    list.push(line);
    proof {
        assert(texts(list@) =~= before.push(line@));
    }
}

impl Sieve {
    fn sift_tag(&mut self, line: &[char])
        ensures
            final(self)@ == old(self)@.sift_tag(line@),
            final(self).kept == old(self).kept,
    {
        if has_prefix(line, &chars_of("#EXT-X-MEDIA-SEQUENCE:")) {
            return;
        }
        if has_prefix(line, &chars_of("#EXTM3U")) {
            self.saw_m3u = true;
        }
        if !self.started && self.pending.len() == 0 && !segment_tag(line) {
            push_copy(&mut self.header, without_cr(line));
        } else {
            push_copy(&mut self.pending, without_cr(line));
        }
    }

    fn sift(&mut self, line: &[char], present: &Group<String>, limit: usize)
        requires
            old(self).kept < usize::MAX,
        ensures
            final(self)@ == old(self)@.sift(line@, present@, limit as nat),
            final(self).kept <= old(self).kept + 1,
    {
        if line.len() > 0 && line[0] == '#' {
            self.sift_tag(line);
            return;
        }
        let name = trim_text(line);
        if name.len() == 0 {
            return;
        }
        if present.contains(&string_of(name)) && self.kept < limit {
            if self.first_kept.is_none() {
                self.first_kept = Some(self.seq);
            }
            let ghost tags = self@.pending;
            let ghost body = self@.body;
            let ghost raw = self.body@;
            let ghost waiting = self.pending@;
            self.body.append(&mut self.pending);
            proof {
                assert(self.body@ =~= raw + waiting);
                assert(texts(self.body@) =~= body + tags);
            }
            push_copy(&mut self.body, copy_chars(name));
            self.kept = self.kept + 1;
        }
        self.pending = Vec::new();
        self.started = true;
        proof {
            assert(self@.pending =~= Seq::empty());
        }
        self.seq = self.seq.wrapping_add(1);
    }
}

fn sequence_of(lines: &[Vec<char>]) -> (seq: u64)
    ensures
        seq == media_sequence(texts(lines@)),
{
    let ghost all = texts(lines@);
    let tag = chars_of("#EXT-X-MEDIA-SEQUENCE:");
    let mut seq: u64 = 0;
    let mut i: usize = 0;
    proof {
        assert(all.take(0).len() == 0);
    }
    while i < lines.len()
        invariant
            i <= lines@.len(),
            all == texts(lines@),
            tag@ == sequence_tag(),
            seq == media_sequence(all.take(i as int)),
        decreases lines@.len() - i,
    {
        let line: &Vec<char> = &lines[i];
        proof {
            assert(all.take(i + 1).drop_last() =~= all.take(i as int));
            assert(all.take(i + 1).last() == line@);
        }
        if has_prefix(line, &tag) {
            let rest = vstd::slice::slice_subrange(line.as_slice(), tag.len(), line.len());
            proof {
                assert(rest@ =~= line@.skip(tag@.len() as int));
            }
            seq = match parse_unsigned(trim_text(rest), u64::MAX) {
                Some(n) => n,
                None => 0,
            };
        }
        i = i + 1;
    }
    proof {
        assert(all.take(i as int) =~= all);
    }
    seq
}

fn sieve_of(lines: &[Vec<char>], present: &Group<String>, limit: usize) -> (s: Sieve)
    ensures
        s@ == sifted(texts(lines@), present@, limit as nat, media_sequence(texts(lines@))),
        s.kept <= lines@.len(),
{
    let ghost all = texts(lines@);
    let seq = sequence_of(lines);
    let mut s = Sieve {
        header: Vec::new(),
        body: Vec::new(),
        pending: Vec::new(),
        first_kept: None,
        saw_m3u: false,
        started: false,
        seq,
        kept: 0,
    };
    let mut i: usize = 0;
    proof {
        assert(all.take(0).len() == 0);
        assert(s@ =~= Sifted::start(seq));
    }
    while i < lines.len()
        invariant
            i <= lines@.len(),
            all == texts(lines@),
            s@ == sifted(all.take(i as int), present@, limit as nat, seq),
            s.kept <= i,
        decreases lines@.len() - i,
    {
        proof {
            assert(all.take(i + 1).drop_last() =~= all.take(i as int));
            assert(all.take(i + 1).last() == lines@[i as int]@);
        }
        s.sift(lines[i].as_slice(), present, limit);
        i = i + 1;
    }
    proof {
        assert(all.take(i as int) =~= all);
    }
    s
}

fn heading(line: &[char]) -> (r: bool)
    ensures
        r == is_heading(line@),
{
    has_prefix(line, &chars_of("#EXTM3U")) || has_prefix(line, &chars_of("#EXT-X-VERSION:"))
}

fn push_number(out: &mut Vec<char>, seq: u64)
    ensures
        final(out)@ == old(out)@ + as_line(number_line(seq)),
{
    let ghost start = out@;
    push_text(out, "#EXT-X-MEDIA-SEQUENCE:");
    push_decimal(out, seq);
    push_text(out, "\n");
    proof {
        assert(out@ =~= start + as_line(number_line(seq)));
    }
}

proof fn one_line_more(list: Seq<Seq<char>>, line: Seq<char>)
    ensures
        as_lines(list.push(line)) == as_lines(list) + as_line(line),
{
    assert(list.push(line).drop_last() =~= list);
}

fn write_lines(list: &[Vec<char>], seq: u64) -> (out: Vec<char>)
    ensures
        out@ == as_lines(numbered_lines(texts(list@), seq)),
{
    let ghost all = texts(list@);
    let mut out: Vec<char> = Vec::new();
    let mut done = false;
    let mut i: usize = 0;
    proof {
        assert(all.take(0).len() == 0);
        assert(out@ =~= as_lines(headed(all.take(0), seq).0));
    }
    while i < list.len()
        invariant
            i <= list@.len(),
            all == texts(list@),
            out@ == as_lines(headed(all.take(i as int), seq).0),
            done == headed(all.take(i as int), seq).1,
        decreases list@.len() - i,
    {
        proof {
            assert(all.take(i + 1).drop_last() =~= all.take(i as int));
            assert(all.take(i + 1).last() == list@[i as int]@);
            let before = headed(all.take(i as int), seq).0;
            one_line_more(before, list@[i as int]@);
            one_line_more(before.push(list@[i as int]@), number_line(seq));
        }
        push_line(&mut out, list[i].as_slice());
        if !done && heading(list[i].as_slice()) {
            push_number(&mut out, seq);
            done = true;
        }
        i = i + 1;
    }
    proof {
        assert(all.take(i as int) =~= all);
        one_line_more(headed(all, seq).0, number_line(seq));
    }
    if !done {
        push_number(&mut out, seq);
    }
    out
}

fn rewrite(s: Sieve) -> (text: String)
    ensures
        text@ == rewritten(s@),
{
    let ghost v = s@;
    let seq: u64 = match s.first_kept {
        Some(n) => n,
        None => 0,
    };
    let mut list = s.header;
    let mut body = s.body;
    let ghost head = list@;
    let ghost tail = body@;
    list.append(&mut body);
    proof {
        assert(list@ =~= head + tail);
        assert(texts(list@) =~= v.header + v.body);
    }
    let out = write_lines(list.as_slice(), seq);
    string_of(&out)
}

fn lines_of(text: &str) -> (v: Vec<Vec<char>>)
    ensures
        texts(v@) == lines(text@),
{
    let chars = chars_of(text);
    split_lines(&chars)
}

fn are_present(names: &[String], present: &Group<String>) -> (r: bool)
    ensures
        r == all_present(strings(names@), present@),
{
    let ghost all = strings(names@);
    let mut i: usize = 0;
    while i < names.len()
        invariant
            i <= names@.len(),
            all == strings(names@),
            forall|j: int| 0 <= j < i ==> present@.contains(#[trigger] all[j]),
        decreases names@.len() - i,
    {
        if !present.contains(&names[i]) {
            assert(!present@.contains(all[i as int]));
            return false;
        }
        assert(present@.contains(all[i as int]));
        i = i + 1;
    }
    true
}

/// Rewrite a playlist to list only segments that are `present`; nothing where
/// it goes out as it is: because all of them are there, or none, or it is no
/// playlist.
pub fn filter_text(present: &Group<String>, text: &str) -> (r: Option<String>)
    ensures
        match r {
            Some(t) => filtered_text(text@, present@) == Some(t@),
            None => filtered_text(text@, present@) is None,
        },
{
    let names = files_named(text);
    if are_present(names.as_slice(), present) {
        return None;
    }
    let all = lines_of(text);
    let s = sieve_of(all.as_slice(), present, all.len());
    proof {
        assert(texts(all@).len() == all@.len());
    }
    if !s.saw_m3u || s.kept == 0 {
        return None;
    }
    Some(rewrite(s))
}

/// A playlist without segments that are not `present` and without the last
/// `holdback` of the others; nothing where none is left.
pub fn playback_text(present: &Group<String>, text: &str, holdback: usize) -> (r: Option<String>)
    ensures
        match r {
            Some(t) => player_text(text@, present@, holdback as nat) == Some(t@),
            None => player_text(text@, present@, holdback as nat) is None,
        },
{
    let all = lines_of(text);
    let s = sieve_of(all.as_slice(), present, all.len());
    proof {
        assert(texts(all@).len() == all@.len());
    }
    if !s.saw_m3u || s.kept <= holdback {
        return None;
    }
    let shown = sieve_of(all.as_slice(), present, s.kept - holdback);
    Some(rewrite(shown))
}

/// Rewrite an m3u8 playlist to list only segments that are `present`.
/// EXT-X-MEDIA-SEQUENCE is advanced to the first kept segment so the playlist
/// stays coherent; a playlist of which everything is there is unchanged.
pub fn filter_playlist(present: &Group<String>, data: &[u8]) -> (r: Vec<u8>)
    ensures
        r@ == filtered(data@, present@),
{
    let text = read_text(data);
    match filter_text(present, text.as_str()) {
        Some(t) => vstd::slice::slice_to_vec(t.as_str().as_bytes()),
        None => vstd::slice::slice_to_vec(data),
    }
}

/// The player-only playlist: only segments that are `present`, without the
/// last `holdback` of them; nothing where none is left.
pub fn playback_playlist(present: &Group<String>, manifest: &[u8], holdback: usize) -> (r: Option<
    Vec<u8>,
>)
    ensures
        match r {
            Some(data) => playback(manifest@, present@, holdback as nat) == Some(data@),
            None => playback(manifest@, present@, holdback as nat) is None,
        },
{
    let text = read_text(manifest);
    match playback_text(present, text.as_str(), holdback) {
        Some(t) => Some(vstd::slice::slice_to_vec(t.as_str().as_bytes())),
        None => None,
    }
}

/// The files that a playlist file names, for looking which of them are there.
pub fn playlist_files(data: &[u8]) -> (names: Vec<String>)
    ensures
        strings(names@) == named_files(lines(as_text(data@))),
{
    let text = read_text(data);
    files_named(text.as_str())
}

/// The files that a playlist names.
pub fn files_named(text: &str) -> (names: Vec<String>)
    ensures
        strings(names@) == named_files(lines(text@)),
{
    let lines = lines_of(text);
    let ghost all = texts(lines@);
    let mut names: Vec<String> = Vec::new();
    let mut i: usize = 0;
    proof {
        assert(strings(names@) =~= named_files(all.take(0)));
    }
    while i < lines.len()
        invariant
            i <= lines@.len(),
            all == texts(lines@),
            strings(names@) == named_files(all.take(i as int)),
        decreases lines@.len() - i,
    {
        let line: &Vec<char> = &lines[i];
        let ghost before = strings(names@);
        proof {
            assert(all.take(i + 1).drop_last() =~= all.take(i as int));
            assert(all.take(i + 1).last() == line@);
        }
        if !(line.len() > 0 && line[0] == '#') {
            let name = trim_text(line.as_slice());
            if name.len() > 0 {
                let name = string_of(name);
                names.push(name);
                proof {
                    assert(strings(names@) =~= before.push(name@));
                }
            }
        }
        i = i + 1;
    }
    proof {
        assert(all.take(i as int) =~= all);
    }
    names
}

/// The segments that a filtering keeps, in order.
pub open spec fn kept_names(
    lines: Seq<Seq<char>>,
    present: Seq<Seq<char>>,
    limit: nat,
) -> Seq<Seq<char>>
    decreases lines.len(),
{
    if lines.len() == 0 {
        Seq::empty()
    } else {
        let rest = kept_names(lines.drop_last(), present, limit);
        let line = lines.last();
        if !(line.len() > 0 && line[0] == '#') && trim(line).len() > 0 && present.contains(
            trim(line),
        ) && rest.len() < limit {
            rest.push(trim(line))
        } else {
            rest
        }
    }
}

/// Every segment that a filtering keeps is there, in the order of the
/// playlist, and there are no more than the limit.
pub proof fn kept_are_present(
    lines: Seq<Seq<char>>,
    present: Seq<Seq<char>>,
    limit: nat,
    seq: u64,
)
    ensures
        sifted(lines, present, limit, seq).kept == kept_names(lines, present, limit).len(),
        kept_names(lines, present, limit).len() <= limit,
        forall|i: int|
            0 <= i < kept_names(lines, present, limit).len() ==> present.contains(
                #[trigger] kept_names(lines, present, limit)[i],
            ),
    decreases lines.len(),
{
    if lines.len() > 0 {
        kept_are_present(lines.drop_last(), present, limit, seq);
        let rest = kept_names(lines.drop_last(), present, limit);
        let all = kept_names(lines, present, limit);
        assert forall|i: int| 0 <= i < all.len() implies present.contains(#[trigger] all[i]) by {
            if i < rest.len() {
                assert(all[i] == rest[i]);
            }
        }
    }
}

/// A lower limit keeps the first ones of what a higher limit keeps.
pub proof fn limit_keeps_first(
    lines: Seq<Seq<char>>,
    present: Seq<Seq<char>>,
    low: nat,
    high: nat,
)
    requires
        low <= high,
    ensures
        kept_names(lines, present, low) == kept_names(lines, present, high).take(
            if kept_names(lines, present, high).len() < low {
                kept_names(lines, present, high).len() as int
            } else {
                low as int
            },
        ),
    decreases lines.len(),
{
    let a = kept_names(lines, present, low);
    let b = kept_names(lines, present, high);
    if lines.len() > 0 {
        limit_keeps_first(lines.drop_last(), present, low, high);
        let x = kept_names(lines.drop_last(), present, low);
        let y = kept_names(lines.drop_last(), present, high);
        let n = if b.len() < low {
            b.len() as int
        } else {
            low as int
        };
        assert(a =~= b.take(n));
    } else {
        assert(a =~= b.take(0));
    }
}

/// A player's playlist lists all segments that are there but the last
/// `holdback`.
pub proof fn playback_holds_back(text: Seq<char>, present: Seq<Seq<char>>, holdback: nat)
    ensures
        ({
            let all = lines(text);
            let complete = kept_names(all, present, all.len());
            let s = sifted_text(text, present, all.len());
            &&& s.kept == complete.len()
            &&& player_text(text, present, holdback) is Some ==> {
                let shown = (complete.len() - holdback) as nat;
                &&& shown > 0
                &&& kept_names(all, present, shown) == complete.take(shown as int)
                &&& sifted_text(text, present, shown).kept == shown
            }
            &&& complete.len() <= holdback ==> player_text(text, present, holdback) is None
        }),
{
    let all = lines(text);
    let seq = media_sequence(all);
    let complete = kept_names(all, present, all.len());
    kept_are_present(all, present, all.len(), seq);
    if complete.len() > holdback {
        let shown = (complete.len() - holdback) as nat;
        kept_are_present(all, present, shown, seq);
        limit_keeps_first(all, present, shown, all.len());
    }
}

} // verus!
