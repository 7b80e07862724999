//! What holds of the lines of a playlist that is filtered.
use vstd::prelude::*;
use vstd::utf8::{decode_utf8, encode_utf8, valid_utf8};
use crate::playlist::{
    as_lines, filtered, filtered_text, headed, is_heading, kept_are_present, kept_names,
    limit_keeps_first, media_sequence, named_files, number_line, numbered_lines, playback,
    player_text, sifted, sifted_text,
};
use crate::playlist_laws::{is_first_present, number_is_advanced, number_reads_back};
use crate::text::{as_text, decimal, lines, trim};

verus! {

/// Whether a line is a tag or a comment.
pub open spec fn is_tag_line(line: Seq<char>) -> bool {
    line.len() > 0 && line[0] == '#'
}

/// Whether a line names a segment: it is no tag, and not blank.
pub open spec fn is_segment_line(line: Seq<char>) -> bool {
    !is_tag_line(line) && trim(line).len() > 0
}

/// Whether a line gives the number of the first segment.
pub open spec fn is_number_line(line: Seq<char>) -> bool {
    "#EXT-X-MEDIA-SEQUENCE:"@.is_prefix_of(line)
}

/// A line without a carriage return at its end.
pub open spec fn bare(line: Seq<char>) -> Seq<char> {
    if line.len() > 0 && line[line.len() - 1] == '\r' {
        line.take(line.len() - 1)
    } else {
        line
    }
}

/// The tags in front of position `i`, behind the segment before it, in their
/// order; the number of the first segment is not among them.
pub open spec fn tags_before(list: Seq<Seq<char>>, i: int) -> Seq<Seq<char>>
    decreases i,
{
    if i <= 0 || is_segment_line(list[i - 1]) {
        Seq::empty()
    } else if is_tag_line(list[i - 1]) && !is_number_line(list[i - 1]) {
        tags_before(list, i - 1).push(bare(list[i - 1]))
    } else {
        tags_before(list, i - 1)
    }
}

/// Whether a segment is named in front of position `i`.
pub open spec fn segment_before(list: Seq<Seq<char>>, i: int) -> bool {
    exists|j: int| 0 <= j < i && is_segment_line(#[trigger] list[j])
}

/// Whether a tag is about one segment.
pub open spec fn is_about_segment(line: Seq<char>) -> bool {
    ||| "#EXTINF:"@.is_prefix_of(line)
    ||| "#EXT-X-BYTERANGE:"@.is_prefix_of(line)
    ||| "#EXT-X-PROGRAM-DATE-TIME:"@.is_prefix_of(line)
    ||| line == "#EXT-X-DISCONTINUITY"@
}

/// Where the tags about the whole playlist end and those about its first segment
/// begin: at the first tag that is about a segment.
pub open spec fn head_end(list: Seq<Seq<char>>, i: int) -> nat
    decreases i,
{
    if i <= 0 || is_segment_line(list[i - 1]) {
        0
    } else {
        let n = head_end(list, i - 1);
        if is_tag_line(list[i - 1]) && !is_number_line(list[i - 1]) && n == tags_before(
            list,
            i - 1,
        ).len() && !is_about_segment(list[i - 1]) {
            n + 1
        } else {
            n
        }
    }
}

/// The tags that go with the segment at position `i`: all in front of it, but
/// for those about the whole playlist in front of the first segment.
pub open spec fn own_tags(list: Seq<Seq<char>>, i: int) -> Seq<Seq<char>> {
    if segment_before(list, i) {
        tags_before(list, i)
    } else {
        tags_before(list, i).skip(head_end(list, i) as int)
    }
}

/// The tags about the whole playlist, as far as position `i`.
pub open spec fn head_tags(list: Seq<Seq<char>>, i: int) -> Seq<Seq<char>>
    decreases i,
{
    if i <= 0 {
        Seq::empty()
    } else if segment_before(list, i) {
        head_tags(list, i - 1)
    } else {
        tags_before(list, i).take(head_end(list, i) as int)
    }
}

/// The segments that are there, up to a limit, each behind its own tags.
pub open spec fn kept_with_tags(
    list: Seq<Seq<char>>,
    i: int,
    present: Seq<Seq<char>>,
    limit: nat,
) -> Seq<Seq<char>>
    decreases i,
{
    if i <= 0 {
        Seq::empty()
    } else {
        let rest = kept_with_tags(list, i - 1, present, limit);
        let line = list[i - 1];
        if is_segment_line(line) && present.contains(trim(line)) && kept_names(
            list.take(i - 1),
            present,
            limit,
        ).len() < limit {
            rest + own_tags(list, i - 1).push(trim(line))
        } else {
            rest
        }
    }
}

proof fn step_before(list: Seq<Seq<char>>, i: int)
    requires
        0 < i <= list.len(),
    ensures
        segment_before(list, i) == (segment_before(list, i - 1) || is_segment_line(list[i - 1])),
{
    if segment_before(list, i - 1) {
        let j = choose|j: int| 0 <= j < i - 1 && is_segment_line(#[trigger] list[j]);
        assert(is_segment_line(list[j]));
    }
    if segment_before(list, i) {
        let j = choose|j: int| 0 <= j < i && is_segment_line(#[trigger] list[j]);
        if j < i - 1 {
            assert(is_segment_line(list[j]));
        }
    }
}

proof fn sifting_follows(
    list: Seq<Seq<char>>,
    i: int,
    present: Seq<Seq<char>>,
    limit: nat,
    seq: u64,
)
    requires
        0 <= i <= list.len(),
    ensures
        ({
            let s = sifted(list.take(i), present, limit, seq);
            &&& s.started == segment_before(list, i)
            &&& s.header == head_tags(list, i)
            &&& s.pending == own_tags(list, i)
            &&& s.body == kept_with_tags(list, i, present, limit)
            &&& s.kept == kept_names(list.take(i), present, limit).len()
            &&& head_end(list, i) <= tags_before(list, i).len()
            &&& s.saw_m3u <==> exists|j: int|
                0 <= j < i && "#EXTM3U"@.is_prefix_of(#[trigger] list[j])
        }),
    decreases i,
{
    let some = list.take(i);
    kept_are_present(some, present, limit, seq);
    reveal_strlit("#EXTM3U");
    reveal_strlit("#EXT-X-MEDIA-SEQUENCE:");
    if i > 0 {
        let front = list.take(i - 1);
        let line = list[i - 1];
        assert(some.drop_last() =~= front);
        assert(some.last() == line);
        sifting_follows(list, i - 1, present, limit, seq);
        step_before(list, i);
        let r = sifted(front, present, limit, seq);
        let s = sifted(some, present, limit, seq);
        let tags = tags_before(list, i - 1);
        let n = head_end(list, i - 1) as int;
        assert(bare(line) == crate::text::strip_cr(line)) by {
            if line.len() > 0 {
                assert(line.take(line.len() - 1) =~= line.drop_last());
            }
        }
        if is_tag_line(line) {
            assert(!is_segment_line(line));
            if is_number_line(line) {
                assert(s.saw_m3u == r.saw_m3u);
                assert(!"#EXTM3U"@.is_prefix_of(line)) by {
                    if "#EXTM3U"@.is_prefix_of(line) {
                        assert(line[4] == "#EXTM3U"@[4]);
                        assert(line[4] == "#EXT-X-MEDIA-SEQUENCE:"@[4]);
                    }
                }
            } else if !segment_before(list, i) {
                assert(tags_before(list, i) == tags.push(bare(line)));
                if r.pending.len() == 0 {
                    assert(tags.skip(n).len() == 0);
                    assert(n == tags.len());
                    assert(tags.take(n) =~= tags);
                    if !is_about_segment(line) {
                        assert(tags.push(bare(line)).take(n + 1) =~= tags.push(bare(line)));
                        assert(head_tags(list, i - 1) =~= tags);
                        assert(s.header =~= head_tags(list, i));
                        assert(s.pending =~= own_tags(list, i));
                    } else {
                        assert(tags.push(bare(line)).take(n) =~= tags);
                        assert(tags.push(bare(line)).skip(n) =~= seq![bare(line)]);
                        assert(head_tags(list, i - 1) =~= tags);
                        assert(s.header =~= head_tags(list, i));
                        assert(s.pending =~= own_tags(list, i));
                    }
                } else {
                    assert(n < tags.len());
                    assert(tags.push(bare(line)).take(n) =~= tags.take(n));
                    assert(tags.push(bare(line)).skip(n) =~= tags.skip(n).push(bare(line)));
                    assert(head_tags(list, i - 1) =~= tags.take(n)) by {
                        if i == 1 {
                            assert(tags.len() == 0);
                        }
                    }
                    assert(s.header =~= head_tags(list, i));
                    assert(s.pending =~= own_tags(list, i));
                }
            }
        } else if is_segment_line(line) {
            assert(tags_before(list, i).len() == 0);
            assert(s.pending =~= own_tags(list, i));
            assert((r.body + r.pending).push(trim(line)) =~= r.body + r.pending.push(trim(line)));
        } else {
            if !segment_before(list, i) && i == 1 {
                assert(tags.len() == 0);
            }
            assert(s == r);
        }
        assert((exists|j: int| 0 <= j < i && "#EXTM3U"@.is_prefix_of(#[trigger] list[j])) <==> ((
        exists|j: int| 0 <= j < i - 1 && "#EXTM3U"@.is_prefix_of(#[trigger] list[j]))
            || "#EXTM3U"@.is_prefix_of(line))) by {
            if exists|j: int| 0 <= j < i && "#EXTM3U"@.is_prefix_of(#[trigger] list[j]) {
                let j = choose|j: int| 0 <= j < i && "#EXTM3U"@.is_prefix_of(#[trigger] list[j]);
                if j < i - 1 {
                    assert("#EXTM3U"@.is_prefix_of(list[j]));
                }
            }
            if exists|j: int| 0 <= j < i - 1 && "#EXTM3U"@.is_prefix_of(#[trigger] list[j]) {
                let j = choose|j: int|
                    0 <= j < i - 1 && "#EXTM3U"@.is_prefix_of(#[trigger] list[j]);
                assert("#EXTM3U"@.is_prefix_of(list[j]));
            }
        }
        assert(!is_tag_line(line) ==> !"#EXTM3U"@.is_prefix_of(line)) by {
            if "#EXTM3U"@.is_prefix_of(line) {
                assert(line[0] == "#EXTM3U"@[0]);
            }
        }
    } else {
        assert(some.len() == 0);
        assert(own_tags(list, 0) =~= Seq::<Seq<char>>::empty());
    }
}

/// A playlist that is filtered keeps the tags about the whole playlist, and each
/// segment that is there behind exactly the tags that stand between it and the
/// segment before it, all of them and in their order; every other segment goes
/// with its tags.
pub proof fn segments_keep_their_tags(
    list: Seq<Seq<char>>,
    present: Seq<Seq<char>>,
    limit: nat,
    seq: u64,
)
    ensures
        ({
            let s = sifted(list, present, limit, seq);
            &&& s.header == head_tags(list, list.len() as int)
            &&& s.body == kept_with_tags(list, list.len() as int, present, limit)
        }),
{
    assert(list.take(list.len() as int) =~= list);
    sifting_follows(list, list.len() as int, present, limit, seq);
}

/// Whether `part` stands in a list without a break from position `m` on.
pub open spec fn stands_at(list: Seq<Seq<char>>, m: int, part: Seq<Seq<char>>) -> bool {
    0 <= m && m + part.len() <= list.len() && list.subrange(m, m + part.len()) == part
}

/// A segment that is there, and is not the first one that is listed, stands
/// directly behind all of its tags.
pub proof fn kept_segment_follows_its_tags(
    list: Seq<Seq<char>>,
    present: Seq<Seq<char>>,
    seq: u64,
    i: int,
)
    requires
        0 <= i < list.len(),
        is_segment_line(list[i]),
        present.contains(trim(list[i])),
        segment_before(list, i),
    ensures
        exists|m: int| #[trigger]
            stands_at(
                sifted(list, present, list.len(), seq).body,
                m,
                tags_before(list, i).push(trim(list[i])),
            ),
{
    segments_keep_their_tags(list, present, list.len(), seq);
    block_is_kept(list, list.len() as int, present, i);
}

proof fn block_is_kept(list: Seq<Seq<char>>, n: int, present: Seq<Seq<char>>, i: int)
    requires
        0 <= i < n <= list.len(),
        is_segment_line(list[i]),
        present.contains(trim(list[i])),
        segment_before(list, i),
    ensures
        exists|m: int| #[trigger]
            stands_at(
                kept_with_tags(list, n, present, list.len()),
                m,
                tags_before(list, i).push(trim(list[i])),
            ),
    decreases n,
{
    let part = tags_before(list, i).push(trim(list[i]));
    let rest = kept_with_tags(list, n - 1, present, list.len());
    let all = kept_with_tags(list, n, present, list.len());
    few_kept(list.take(n - 1), present, list.len());
    if i == n - 1 {
        assert(all == rest + part);
        assert(all.subrange(rest.len() as int, (rest.len() + part.len()) as int) =~= part);
        assert(stands_at(all, rest.len() as int, part));
    } else {
        block_is_kept(list, n - 1, present, i);
        let m = choose|m: int| #[trigger] stands_at(rest, m, part);
        assert(all.subrange(m, m + part.len()) =~= rest.subrange(m, m + part.len()));
        assert(stands_at(all, m, part));
    }
}

proof fn few_kept(list: Seq<Seq<char>>, present: Seq<Seq<char>>, limit: nat)
    ensures
        kept_names(list, present, limit).len() <= list.len(),
    decreases list.len(),
{
    if list.len() > 0 {
        few_kept(list.drop_last(), present, limit);
    }
}

/// Whether a line says that the text is a playlist, or in which version.
pub open spec fn is_heading_line(line: Seq<char>) -> bool {
    "#EXTM3U"@.is_prefix_of(line) || "#EXT-X-VERSION:"@.is_prefix_of(line)
}

proof fn number_is_inserted(list: Seq<Seq<char>>, seq: u64)
    ensures
        ({
            let (all, done) = headed(list, seq);
            if done {
                exists|m: int|
                    0 < m <= list.len() && is_heading_line(list[m - 1]) && (forall|j: int|
                        0 <= j < m - 1 ==> !is_heading_line(#[trigger] list[j])) && all
                        == #[trigger] list.insert(m, number_line(seq))
            } else {
                &&& all == list
                &&& forall|j: int| 0 <= j < list.len() ==> !is_heading_line(#[trigger] list[j])
            }
        }),
    decreases list.len(),
{
    let (all, done) = headed(list, seq);
    if list.len() == 0 {
        assert(all =~= list);
    } else {
        let front = list.drop_last();
        number_is_inserted(front, seq);
        let (rest, before) = headed(front, seq);
        assert(list =~= front.push(list.last()));
        if before {
            let m = choose|m: int|
                0 < m <= front.len() && is_heading_line(front[m - 1]) && (forall|j: int|
                    0 <= j < m - 1 ==> !is_heading_line(#[trigger] front[j])) && rest
                    == #[trigger] front.insert(m, number_line(seq));
            assert(all =~= list.insert(m, number_line(seq)));
            assert(forall|j: int| 0 <= j < m - 1 ==> !is_heading_line(#[trigger] list[j])) by {
                assert forall|j: int| 0 <= j < m - 1 implies !is_heading_line(
                    #[trigger] list[j],
                ) by {
                    assert(front[j] == list[j]);
                }
            }
            assert(list[m - 1] == front[m - 1]);
        } else {
            assert(rest == front);
            assert forall|j: int| 0 <= j < front.len() implies !is_heading_line(
                #[trigger] list[j],
            ) by {
                assert(front[j] == list[j]);
            }
            if is_heading(list.last()) {
                let m = list.len() as int;
                assert(all =~= list.insert(m, number_line(seq)));
            } else {
                assert(all =~= list);
            }
        }
    }
}

/// The line with the number of the first segment is put in at one place and
/// nothing else changes: right behind the first heading, or at the end where
/// there is none.
pub proof fn number_stands_behind_the_heading(list: Seq<Seq<char>>, seq: u64)
    ensures
        exists|m: int|
            0 <= m <= list.len() && numbered_lines(list, seq) == #[trigger] list.insert(
                m,
                "#EXT-X-MEDIA-SEQUENCE:"@ + decimal(seq as int),
            ) && if exists|j: int| 0 <= j < list.len() && is_heading_line(#[trigger] list[j]) {
                &&& m > 0
                &&& is_heading_line(list[m - 1])
                &&& forall|j: int| 0 <= j < m - 1 ==> !is_heading_line(#[trigger] list[j])
            } else {
                m == list.len()
            },
{
    number_is_inserted(list, seq);
    let (all, done) = headed(list, seq);
    let line = "#EXT-X-MEDIA-SEQUENCE:"@ + decimal(seq as int);
    if done {
        let m = choose|m: int|
            0 < m <= list.len() && is_heading_line(list[m - 1]) && (forall|j: int|
                0 <= j < m - 1 ==> !is_heading_line(#[trigger] list[j])) && all
                == #[trigger] list.insert(m, number_line(seq));
        assert(numbered_lines(list, seq) == list.insert(m, line));
        assert(is_heading_line(list[m - 1]));
    } else {
        assert(numbered_lines(list, seq) =~= list.insert(list.len() as int, line));
    }
}

/// The names in a playlist are its lines that name a segment, trimmed.
pub proof fn names_are_the_segment_lines(list: Seq<Seq<char>>)
    ensures
        named_files(list) == list.filter(|line: Seq<char>| is_segment_line(line)).map_values(
            |line: Seq<char>| trim(line),
        ),
    decreases list.len(),
{
    let f = |line: Seq<char>| is_segment_line(line);
    let g = |line: Seq<char>| trim(line);
    reveal(Seq::filter);
    if list.len() > 0 {
        names_are_the_segment_lines(list.drop_last());
        let some = list.drop_last().filter(f);
        if is_segment_line(list.last()) {
            assert(list.filter(f) == some.push(list.last()));
            assert(some.push(list.last()).map_values(g) =~= some.map_values(g).push(
                trim(list.last()),
            ));
        }
        assert(named_files(list) =~= list.filter(f).map_values(g));
    } else {
        assert(named_files(list) =~= list.filter(f).map_values(g));
    }
}

/// Without a limit exactly the names that are there are kept, in their order.
pub proof fn all_that_is_there_is_kept(list: Seq<Seq<char>>, present: Seq<Seq<char>>, limit: nat)
    requires
        limit >= list.len(),
    ensures
        kept_names(list, present, limit) == named_files(list).filter(
            |name: Seq<char>| present.contains(name),
        ),
    decreases list.len(),
{
    let f = |name: Seq<char>| present.contains(name);
    reveal(Seq::filter);
    if list.len() > 0 {
        let front = list.drop_last();
        all_that_is_there_is_kept(front, present, limit);
        few_kept(front, present, limit);
        let names = named_files(list);
        if names != named_files(front) {
            assert(names.drop_last() =~= named_files(front));
        }
    } else {
        assert(kept_names(list, present, limit) =~= named_files(list).filter(f));
    }
}

/// A text is filtered exactly if it says that it is a playlist, and some but not
/// all of the segments that it names are there. Then it consists of what is
/// kept, with the number of the first kept segment put in.
pub proof fn incomplete_playlists_are_filtered(text: Seq<char>, present: Seq<Seq<char>>)
    ensures
        ({
            let list = lines(text);
            let names = named_files(list);
            let n = list.len() as int;
            let kept = head_tags(list, n) + kept_with_tags(list, n, present, list.len());
            match filtered_text(text, present) {
                Some(t) => {
                    &&& exists|j: int| 0 <= j < n && "#EXTM3U"@.is_prefix_of(#[trigger] list[j])
                    &&& exists|j: int|
                        0 <= j < names.len() && present.contains(#[trigger] names[j])
                    &&& exists|j: int|
                        0 <= j < names.len() && !present.contains(#[trigger] names[j])
                    &&& forall|i: int| #[trigger]
                        is_first_present(names, present, i) ==> t == as_lines(
                            numbered_lines(
                                kept,
                                ((media_sequence(list) + i) % 0x1_0000_0000_0000_0000) as u64,
                            ),
                        )
                },
                None => {
                    ||| !(exists|j: int| 0 <= j < n && "#EXTM3U"@.is_prefix_of(#[trigger] list[j]))
                    ||| forall|j: int|
                        0 <= j < names.len() ==> !present.contains(#[trigger] names[j])
                    ||| forall|j: int|
                        0 <= j < names.len() ==> present.contains(#[trigger] names[j])
                },
            }
        }),
{
    let list = lines(text);
    let names = named_files(list);
    let n = list.len() as int;
    let seq = media_sequence(list);
    let f = |name: Seq<char>| present.contains(name);
    assert(list.take(n) =~= list);
    sifting_follows(list, n, present, list.len(), seq);
    all_that_is_there_is_kept(list, present, list.len());
    some_are_there(names, present);
    let s = sifted_text(text, present, list.len());
    let kept = head_tags(list, n) + kept_with_tags(list, n, present, list.len());
    if let Some(t) = filtered_text(text, present) {
        assert forall|i: int| #[trigger] is_first_present(names, present, i) implies t == as_lines(
            numbered_lines(kept, ((seq + i) % 0x1_0000_0000_0000_0000) as u64),
        ) by {
            number_is_advanced(list, present, list.len(), seq, i);
        }
    }
}

proof fn some_are_there(names: Seq<Seq<char>>, present: Seq<Seq<char>>)
    ensures
        names.filter(|name: Seq<char>| present.contains(name)).len() > 0 <==> exists|j: int|
            0 <= j < names.len() && present.contains(#[trigger] names[j]),
{
    let f = |name: Seq<char>| present.contains(name);
    let some = names.filter(f);
    broadcast use vstd::seq_lib::group_filter_ensures;

    if some.len() > 0 {
        assert(f(some[0]));
        assert(some.contains(some[0]));
        names.lemma_filter_contains_rev(f, some[0]);
        let j = choose|j: int| 0 <= j < names.len() && names[j] == some[0];
        assert(present.contains(names[j]));
    }
    if exists|j: int| 0 <= j < names.len() && present.contains(#[trigger] names[j]) {
        let j = choose|j: int| 0 <= j < names.len() && present.contains(#[trigger] names[j]);
        assert(f(names[j]));
        names.lemma_filter_contains(f, j);
    }
}

/// A player gets a playlist exactly if the text says that it is one and more
/// segments are there than are held back; it lists all of those but the last
/// ones, each behind its own tags.
pub proof fn players_get_all_but_the_last(
    text: Seq<char>,
    present: Seq<Seq<char>>,
    holdback: nat,
)
    ensures
        ({
            let list = lines(text);
            let n = list.len() as int;
            let there = named_files(list).filter(|name: Seq<char>| present.contains(name));
            let says_so = exists|j: int|
                0 <= j < n && "#EXTM3U"@.is_prefix_of(#[trigger] list[j]);
            match player_text(text, present, holdback) {
                Some(t) => {
                    let shown = (there.len() - holdback) as nat;
                    let kept = head_tags(list, n) + kept_with_tags(list, n, present, shown);
                    &&& says_so
                    &&& there.len() > holdback
                    &&& kept_names(list, present, shown) == there.take(shown as int)
                    &&& forall|i: int| #[trigger]
                        is_first_present(named_files(list), present, i) ==> t == as_lines(
                            numbered_lines(
                                kept,
                                ((media_sequence(list) + i) % 0x1_0000_0000_0000_0000) as u64,
                            ),
                        )
                },
                None => !says_so || there.len() <= holdback,
            }
        }),
{
    let list = lines(text);
    let n = list.len() as int;
    let seq = media_sequence(list);
    assert(list.take(n) =~= list);
    sifting_follows(list, n, present, list.len(), seq);
    all_that_is_there_is_kept(list, present, list.len());
    let there = kept_names(list, present, list.len());
    if there.len() > holdback {
        let shown = (there.len() - holdback) as nat;
        few_kept(list, present, list.len());
        sifting_follows(list, n, present, shown, seq);
        limit_keeps_first(list, present, shown, list.len());
        let s = sifted_text(text, present, shown);
        let kept = head_tags(list, n) + kept_with_tags(list, n, present, shown);
        if let Some(t) = player_text(text, present, holdback) {
            assert forall|i: int| #[trigger]
                is_first_present(named_files(list), present, i) implies t == as_lines(
                numbered_lines(kept, ((seq + i) % 0x1_0000_0000_0000_0000) as u64),
            ) by {
                number_is_advanced(list, present, shown, seq, i);
            }
        }
    }
}

/// A playlist file is filtered as its text is, and stays byte for byte where its
/// text is not filtered; a player gets the bytes of the text for players.
pub proof fn files_are_filtered_as_text(
    data: Seq<u8>,
    present: Seq<Seq<char>>,
    holdback: nat,
)
    ensures
        match filtered_text(as_text(data), present) {
            Some(t) => filtered(data, present) == encode_utf8(t),
            None => filtered(data, present) == data,
        },
        match player_text(as_text(data), present, holdback) {
            Some(t) => playback(data, present, holdback) == Some(encode_utf8(t)),
            None => playback(data, present, holdback) is None,
        },
        valid_utf8(data) ==> as_text(data) == decode_utf8(data),
{
}

/// The number of the first segment is the one that the last line with such a
/// number gives, 0 where none does or it is no number.
pub proof fn last_number_counts(list: Seq<Seq<char>>, line: Seq<char>, n: u64)
    ensures
        media_sequence(Seq::empty()) == 0,
        !is_number_line(line) ==> media_sequence(list.push(line)) == media_sequence(list),
        media_sequence(list.push("#EXT-X-MEDIA-SEQUENCE:"@ + decimal(n as int))) == n,
{
    assert(list.push(line).drop_last() =~= list);
    let tag = "#EXT-X-MEDIA-SEQUENCE:"@;
    let digits = decimal(n as int);
    let whole = tag + digits;
    let more = list.push(whole);
    assert(more.last() == whole);
    assert(whole.subrange(0, tag.len() as int) =~= tag);
    assert(whole.skip(tag.len() as int) =~= digits);
    number_reads_back(n);
}

} // verus!
