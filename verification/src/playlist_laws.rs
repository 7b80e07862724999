//! What a rewritten playlist holds when it is read again.
use vstd::prelude::*;
use crate::playlist::{
    all_present, as_line, as_lines, filtered, filtered_text, headed, is_segment_tag,
    kept_are_present, kept_names, limit_keeps_first, media_sequence, named_files, number_line,
    numbered_lines, player_text, rewritten, rewritten_lines, sequence_tag, sifted, sifted_text,
    Sifted,
};
use crate::text::{
    as_text, decimal, decimal_denotes, decimal_parses_back, first_line, is_digit, is_space, lines,
    lines_end_at_newlines, parse_number, strip_cr, trim, trim_end, trim_start, trim_trims,
    written_reads_back,
};

verus! {

/// Whether a line is a tag.
spec fn is_tag(line: Seq<char>) -> bool {
    line.len() > 0 && line[0] == '#'
}

/// A line of a rewritten playlist: a tag other than the number of the first
/// segment, or the trimmed name of a segment.
spec fn clean(line: Seq<char>) -> bool {
    &&& line.len() > 0
    &&& !line.contains('\n')
    &&& !sequence_tag().is_prefix_of(line)
    &&& is_tag(line) || (!is_space(line[0]) && !is_space(line.last()))
}

spec fn all_clean(list: Seq<Seq<char>>) -> bool {
    forall|i: int| 0 <= i < list.len() ==> clean(#[trigger] list[i])
}

/// The lines without the carriage returns at their ends.
spec fn stripped(list: Seq<Seq<char>>) -> Seq<Seq<char>> {
    list.map_values(|l: Seq<char>| strip_cr(l))
}

proof fn trimmed_stays(s: Seq<char>)
    requires
        s.len() > 0,
        !is_space(s[0]),
        !is_space(s.last()),
    ensures
        trim(s) == s,
{
    assert(trim_start(s) == s);
    assert(trim_end(s) == s);
}

proof fn strip_keeps_clean(l: Seq<char>)
    requires
        clean(l),
    ensures
        clean(strip_cr(l)),
        is_tag(strip_cr(l)) == is_tag(l),
        !is_tag(l) ==> strip_cr(l) == l,
{
    let r = strip_cr(l);
    if l.last() == '\r' {
        assert(is_space('\r'));
        assert(is_tag(l));
        assert(l.len() > 1);
        assert(r[0] == l[0]);
        if r.contains('\n') {
            let j = choose|j: int| 0 <= j < r.len() && r[j] == '\n';
            assert(l[j] == '\n');
        }
        if sequence_tag().is_prefix_of(r) {
            assert(sequence_tag() =~= l.take(sequence_tag().len() as int));
        }
    }
}

proof fn stripping_keeps_names(list: Seq<Seq<char>>)
    requires
        all_clean(list),
    ensures
        all_clean(stripped(list)),
        named_files(stripped(list)) == named_files(list),
    decreases list.len(),
{
    if list.len() > 0 {
        let front = list.drop_last();
        assert forall|i: int| 0 <= i < front.len() implies clean(#[trigger] front[i]) by {
            assert(front[i] == list[i]);
        }
        stripping_keeps_names(front);
        assert(stripped(list).drop_last() =~= stripped(front));
        assert(clean(list[list.len() - 1]));
        strip_keeps_clean(list.last());
        assert forall|i: int| 0 <= i < stripped(list).len() implies clean(
            #[trigger] stripped(list)[i],
        ) by {
            if i < front.len() {
                assert(stripped(list)[i] == stripped(front)[i]);
            }
        }
    }
}

/// The lines of texts that were put one after the other.
proof fn lines_of_lines(list: Seq<Seq<char>>, rest: Seq<char>)
    requires
        forall|i: int| 0 <= i < list.len() ==> !(#[trigger] list[i]).contains('\n'),
    ensures
        lines(as_lines(list) + rest) == stripped(list) + lines(rest),
    decreases list.len(),
{
    reveal_strlit("\n");
    if list.len() == 0 {
        assert(as_lines(list) + rest =~= rest);
        assert(stripped(list) + lines(rest) =~= lines(rest));
    } else {
        let front = list.drop_last();
        let last = list.last();
        assert forall|i: int| 0 <= i < front.len() implies !(#[trigger] front[i]).contains(
            '\n',
        ) by {
            assert(front[i] == list[i]);
        }
        assert(!list[list.len() - 1].contains('\n'));
        assert("\n"@ =~= seq!['\n']);
        let more = as_line(last) + rest;
        lines_of_lines(front, more);
        first_line(last, rest);
        assert(more =~= last + seq!['\n'] + rest);
        assert(as_lines(list) + rest =~= as_lines(front) + more);
        assert(stripped(list) =~= stripped(front).push(strip_cr(last)));
        assert(stripped(front) + (seq![strip_cr(last)] + lines(rest)) =~= stripped(list) + lines(
            rest,
        ));
    }
}

proof fn tags_name_nothing(a: Seq<Seq<char>>, b: Seq<Seq<char>>)
    requires
        forall|i: int| 0 <= i < b.len() ==> is_tag(#[trigger] b[i]),
    ensures
        named_files(a + b) == named_files(a),
    decreases b.len(),
{
    if b.len() == 0 {
        assert(a + b =~= a);
    } else {
        let front = b.drop_last();
        assert forall|i: int| 0 <= i < front.len() implies is_tag(#[trigger] front[i]) by {
            assert(front[i] == b[i]);
        }
        tags_name_nothing(a, front);
        assert((a + b).drop_last() =~= a + front);
        assert(is_tag(b[b.len() - 1]));
        assert((a + b).last() == b.last());
    }
}

/// None of the names begins like a tag.
pub open spec fn plain_names(names: Seq<Seq<char>>) -> bool {
    forall|i: int| 0 <= i < names.len() ==> (#[trigger] names[i]).len() > 0 && names[i][0] != '#'
}

proof fn names_after_tags(a: Seq<Seq<char>>, b: Seq<Seq<char>>)
    requires
        forall|i: int| 0 <= i < a.len() ==> is_tag(#[trigger] a[i]),
    ensures
        named_files(a + b) == named_files(b),
    decreases b.len(),
{
    if b.len() == 0 {
        let none = Seq::<Seq<char>>::empty();
        assert(a + b =~= none + a);
        assert(named_files(none) =~= none);
        tags_name_nothing(none, a);
        assert(named_files(b) =~= none);
    } else {
        names_after_tags(a, b.drop_last());
        assert((a + b).drop_last() =~= a + b.drop_last());
        assert((a + b).last() == b.last());
    }
}

/// Every line is a tag other than the number of the first segment.
spec fn clean_tags(list: Seq<Seq<char>>) -> bool {
    forall|i: int| 0 <= i < list.len() ==> clean(#[trigger] list[i]) && is_tag(list[i])
}

proof fn sifting_keeps(list: Seq<Seq<char>>, present: Seq<Seq<char>>, limit: nat, seq: u64)
    requires
        forall|i: int| 0 <= i < list.len() ==> !(#[trigger] list[i]).contains('\n'),
        plain_names(kept_names(list, present, limit)),
    ensures
        ({
            let s = sifted(list, present, limit, seq);
            &&& clean_tags(s.header)
            &&& clean_tags(s.pending)
            &&& all_clean(s.body)
            &&& named_files(s.body) == kept_names(list, present, limit)
        }),
    decreases list.len(),
{
    if list.len() > 0 {
        let front = list.drop_last();
        let line = list.last();
        let name = trim(line);
        let names = kept_names(list, present, limit);
        let rest = kept_names(front, present, limit);
        assert(!list[list.len() - 1].contains('\n'));
        assert forall|i: int| 0 <= i < front.len() implies !(#[trigger] front[i]).contains(
            '\n',
        ) by {
            assert(front[i] == list[i]);
        }
        assert forall|i: int| 0 <= i < rest.len() implies (#[trigger] rest[i]).len() > 0
            && rest[i][0] != '#' by {
            assert(names[i] == rest[i]);
        }
        sifting_keeps(front, present, limit, seq);
        kept_are_present(front, present, limit, seq);
        let before = sifted(front, present, limit, seq);
        let s = sifted(list, present, limit, seq);
        if is_tag(line) {
            if !sequence_tag().is_prefix_of(line) {
                assert(clean(line));
                strip_keeps_clean(line);
            }
        } else if name.len() > 0 && present.contains(name) && before.kept < limit {
            name_is_clean(line, names);
            let mid = before.body + before.pending;
            tags_name_nothing(before.body, before.pending);
            assert(mid.push(name).drop_last() =~= mid);
            assert(mid.push(name).last() == name);
            trimmed_stays(name);
            assert(names == rest.push(name));
            assert(s.body == mid.push(name));
            assert forall|i: int| 0 <= i < s.body.len() implies clean(#[trigger] s.body[i]) by {
                if i < before.body.len() {
                    assert(s.body[i] == before.body[i]);
                } else if i < mid.len() {
                    assert(s.body[i] == before.pending[i - before.body.len()]);
                }
            }
        }
    } else {
        assert(named_files(sifted(list, present, limit, seq).body) =~= kept_names(
            list,
            present,
            limit,
        ));
    }
}

proof fn name_is_clean(line: Seq<char>, names: Seq<Seq<char>>)
    requires
        !line.contains('\n'),
        trim(line).len() > 0,
        plain_names(names),
        names.len() > 0,
        names.last() == trim(line),
    ensures
        clean(trim(line)),
        !is_tag(trim(line)),
        !is_space(trim(line)[0]),
        !is_space(trim(line).last()),
{
    let name = trim(line);
    trim_trims(line);
    assert(names[names.len() - 1] == name);
    if name.contains('\n') {
        assert(line.contains('\n'));
    }
    reveal_strlit("#EXT-X-MEDIA-SEQUENCE:");
    if sequence_tag().is_prefix_of(name) {
        assert(name[0] == sequence_tag()[0]);
    }
}

pub(crate) proof fn number_reads_back(n: u64)
    ensures
        parse_number(trim(decimal(n as int)), u64::MAX as int) == Some(n as int),
{
    number_line_reads(n);
    assert(number_line(n).skip(sequence_tag().len() as int) =~= decimal(n as int));
}

proof fn number_line_reads(seq: u64)
    ensures
        !number_line(seq).contains('\n'),
        is_tag(number_line(seq)),
        strip_cr(number_line(seq)) == number_line(seq),
        sequence_tag().is_prefix_of(number_line(seq)),
        parse_number(
            trim(number_line(seq).skip(sequence_tag().len() as int)),
            u64::MAX as int,
        ) == Some(seq as int),
{
    let q = number_line(seq);
    let d = decimal(seq as int);
    reveal_strlit("#EXT-X-MEDIA-SEQUENCE:");
    decimal_denotes(seq as int);
    decimal_parses_back(seq as int, u64::MAX as int);
    assert forall|i: int| 0 <= i < d.len() implies is_digit(#[trigger] d[i]) by {}
    assert(is_digit(d[0]) && is_digit(d[d.len() - 1]));
    assert(q.last() == d.last());
    assert(!is_space(d[0]) && !is_space(d.last()));
    trimmed_stays(d);
    assert(q.skip(sequence_tag().len() as int) =~= d);
    if q.contains('\n') {
        let j = choose|j: int| 0 <= j < q.len() && q[j] == '\n';
        if j >= sequence_tag().len() {
            assert(is_digit(d[j - sequence_tag().len()]));
        }
    }
}

/// A line of a numbered playlist.
spec fn numbered_line(line: Seq<char>, seq: u64) -> bool {
    line == number_line(seq) || clean(line)
}

proof fn heading_reads(list: Seq<Seq<char>>, seq: u64)
    requires
        all_clean(list),
    ensures
        ({
            let (all, done) = headed(list, seq);
            &&& forall|i: int| 0 <= i < all.len() ==> numbered_line(#[trigger] all[i], seq)
            &&& named_files(stripped(all)) == named_files(list)
            &&& media_sequence(stripped(all)) == if done {
                seq
            } else {
                0
            }
        }),
    decreases list.len(),
{
    if list.len() > 0 {
        let front = list.drop_last();
        let line = list.last();
        assert forall|i: int| 0 <= i < front.len() implies clean(#[trigger] front[i]) by {
            assert(front[i] == list[i]);
        }
        heading_reads(front, seq);
        assert(clean(list[list.len() - 1]));
        let some = headed(front, seq).0;
        let next = some.push(line);
        one_more_line(some, line);
        number_comes_last(next, seq);
    } else {
        assert(stripped(headed(list, seq).0) =~= Seq::empty());
    }
}

proof fn one_more_line(list: Seq<Seq<char>>, line: Seq<char>)
    requires
        clean(line),
    ensures
        media_sequence(stripped(list.push(line))) == media_sequence(stripped(list)),
        named_files(stripped(list.push(line))) == if is_tag(line) {
            named_files(stripped(list))
        } else {
            named_files(stripped(list)).push(trim(line))
        },
        !is_tag(line) ==> trim(line).len() > 0,
{
    strip_keeps_clean(line);
    let next = stripped(list.push(line));
    assert(next =~= stripped(list).push(strip_cr(line)));
    assert(next.drop_last() =~= stripped(list));
    assert(next.last() == strip_cr(line));
    if !is_tag(line) {
        trimmed_stays(line);
    }
}

proof fn number_comes_last(list: Seq<Seq<char>>, seq: u64)
    ensures
        media_sequence(stripped(list.push(number_line(seq)))) == seq,
        named_files(stripped(list.push(number_line(seq)))) == named_files(stripped(list)),
{
    number_line_reads(seq);
    let next = stripped(list.push(number_line(seq)));
    assert(next =~= stripped(list).push(number_line(seq)));
    assert(next.drop_last() =~= stripped(list));
    assert(next.last() == number_line(seq));
}

/// A rewritten text read again: it lists the kept segments, and counts them
/// from the first one on.
proof fn rewriting_reads_back(list: Seq<Seq<char>>, seq: u64)
    requires
        all_clean(list),
    ensures
        ({
            let read = lines(as_lines(numbered_lines(list, seq)));
            &&& read == stripped(numbered_lines(list, seq))
            &&& named_files(read) == named_files(list)
            &&& media_sequence(read) == seq
        }),
{
    let all = numbered_lines(list, seq);
    let none = Seq::<char>::empty();
    heading_reads(list, seq);
    number_comes_last(headed(list, seq).0, seq);
    number_line_reads(seq);
    assert forall|i: int| 0 <= i < all.len() implies !(#[trigger] all[i]).contains('\n') by {
        assert(numbered_line(all[i], seq)) by {
            if i < headed(list, seq).0.len() {
                assert(all[i] == headed(list, seq).0[i]);
            }
        }
    }
    assert(lines(none) =~= Seq::<Seq<char>>::empty());
    lines_of_lines(all, none);
    assert(as_lines(all) + none =~= as_lines(all));
    assert(stripped(all) + lines(none) =~= stripped(all));
}

/// The lines that a filtering keeps are in order, and name what is kept.
proof fn kept_lines_are_clean(s: Sifted)
    requires
        clean_tags(s.header),
        all_clean(s.body),
    ensures
        all_clean(s.header + s.body),
        named_files(s.header + s.body) == named_files(s.body),
{
    names_after_tags(s.header, s.body);
    assert forall|i: int| 0 <= i < (s.header + s.body).len() implies clean(
        #[trigger] (s.header + s.body)[i],
    ) by {
        if i < s.header.len() {
            assert(clean(s.header[i]));
        } else {
            assert(clean(s.body[i - s.header.len()]));
        }
    }
}

/// A playlist as it goes out: filtered, or as it is.
pub open spec fn served_text(text: Seq<char>, present: Seq<Seq<char>>) -> Seq<char> {
    match filtered_text(text, present) {
        Some(t) => t,
        None => text,
    }
}

/// A playlist of which everything is there goes out as it is.
pub proof fn complete_stays(data: Seq<u8>, present: Seq<Seq<char>>)
    requires
        all_present(named_files(lines(as_text(data))), present),
    ensures
        filtered(data, present) == data,
{
}

proof fn complete_keeps_all(list: Seq<Seq<char>>, present: Seq<Seq<char>>, limit: nat)
    requires
        all_present(named_files(list), present),
        limit >= list.len(),
    ensures
        kept_names(list, present, limit) == named_files(list),
        named_files(list).len() <= list.len(),
    decreases list.len(),
{
    if list.len() > 0 {
        let front = list.drop_last();
        let names = named_files(front);
        assert forall|i: int| 0 <= i < names.len() implies present.contains(
            #[trigger] names[i],
        ) by {
            assert(named_files(list)[i] == names[i]);
        }
        complete_keeps_all(front, present, limit);
        if named_files(list) != names {
            let n = names.len() as int;
            assert(named_files(list)[n] == trim(list.last()));
        }
    } else {
        assert(kept_names(list, present, limit) =~= named_files(list));
    }
}

/// A playlist goes out with exactly its segments that are there, in their
/// order, and its number is that of the first of them. The names may not begin
/// like a tag.
pub proof fn filtered_lists_present(text: Seq<char>, present: Seq<Seq<char>>)
    requires
        sifted_text(text, present, lines(text).len()).saw_m3u,
        kept_names(lines(text), present, lines(text).len()).len() > 0,
        plain_names(kept_names(lines(text), present, lines(text).len())),
    ensures
        named_files(lines(served_text(text, present))) == kept_names(
            lines(text),
            present,
            lines(text).len(),
        ),
        sifted_text(text, present, lines(text).len()).first_kept == Some(
            media_sequence(lines(served_text(text, present))),
        ),
{
    let all = lines(text);
    let seq = media_sequence(all);
    let names = named_files(all);
    let s = sifted(all, present, all.len(), seq);
    kept_are_present(all, present, all.len(), seq);
    if all_present(names, present) {
        complete_keeps_all(all, present, all.len());
        assert(present.contains(names[0]));
        assert(is_first_present(names, present, 0));
        number_is_advanced(all, present, all.len(), seq, 0);
    } else {
        lines_end_at_newlines(text);
        sifting_keeps(all, present, all.len(), seq);
        first_is_counted(all, present, all.len(), seq);
        kept_lines_are_clean(s);
    rewriting_reads_back(s.header + s.body, s.first_kept->0);
    }
}

/// A player's playlist lists exactly the segments that are there but the last
/// `holdback`, and its number is that of the first of them. The names may not
/// begin like a tag.
pub proof fn playback_lists_held_back(text: Seq<char>, present: Seq<Seq<char>>, holdback: nat)
    requires
        player_text(text, present, holdback) is Some,
        plain_names(kept_names(lines(text), present, lines(text).len())),
    ensures
        ({
            let complete = kept_names(lines(text), present, lines(text).len());
            let shown = lines(player_text(text, present, holdback)->0);
            &&& complete.len() > holdback
            &&& named_files(shown) == complete.take(complete.len() - holdback)
            &&& sifted_text(text, present, lines(text).len()).first_kept == Some(
                media_sequence(shown),
            )
        }),
{
    let all = lines(text);
    lines_end_at_newlines(text);
    let seq = media_sequence(all);
    let complete = kept_names(all, present, all.len());
    kept_are_present(all, present, all.len(), seq);
    let n = (complete.len() - holdback) as nat;
    limit_keeps_first(all, present, n, all.len());
    let some = kept_names(all, present, n);
    assert(some == complete.take(n as int));
    assert forall|i: int| 0 <= i < some.len() implies (#[trigger] some[i]).len() > 0
        && some[i][0] != '#' by {
        assert(complete[i] == some[i]);
    }
    kept_are_present(all, present, n, seq);
    sifting_keeps(all, present, n, seq);
    first_is_counted(all, present, all.len(), seq);
    first_is_counted(all, present, n, seq);
    first_is_the_same(all, present, n, all.len(), seq);
    let s = sifted(all, present, n, seq);
    kept_lines_are_clean(s);
    rewriting_reads_back(s.header + s.body, s.first_kept->0);
}

proof fn heading_stays(
    text: Seq<char>,
    present: Seq<Seq<char>>,
    limit: nat,
    i: int,
)
    requires
        lines(text).len() > 0,
        lines(text)[0] == "#EXTM3U"@,
        limit <= lines(text).len(),
        kept_names(lines(text), present, limit).len() > 0,
        plain_names(kept_names(lines(text), present, limit)),
    ensures
        ({
            let s = sifted_text(text, present, limit);
            let shown = lines(rewritten(s));
            &&& s.saw_m3u
            &&& shown.len() > 2
            &&& shown[0] == "#EXTM3U"@
            &&& s.first_kept is Some
            &&& shown[1] == number_line(s.first_kept->0)
            &&& 0 <= i < shown.len() && sequence_tag().is_prefix_of(shown[i]) ==> i == 1
        }),
{
    let all = lines(text);
    let seq = media_sequence(all);
    let s = sifted(all, present, limit, seq);
    lines_end_at_newlines(text);
    kept_are_present(all, present, limit, seq);
    first_is_counted(all, present, limit, seq);
    sifting_keeps(all, present, limit, seq);
    heading_is_first(all, present, limit, seq);
    let n = s.first_kept->0;
    let kept = s.header + s.body;
    kept_lines_are_clean(s);
    assert(kept[0] == s.header[0]);
    rewriting_reads_back(kept, n);
    number_line_reads(n);
    let list = numbered_lines(kept, n);
    number_is_second(kept, n);
    let shown = lines(rewritten(s));
    assert(shown == stripped(list));
    reveal_strlit("#EXTM3U");
    assert(strip_cr("#EXTM3U"@) == "#EXTM3U"@);
    if 0 <= i < shown.len() && i != 1 {
        assert(clean(list[i]));
        strip_keeps_clean(list[i]);
    }
}

/// Whether a playlist begins with the heading, and right behind it, before
/// every segment, stands its only number.
pub open spec fn well_headed(shown: Seq<Seq<char>>, seq: u64) -> bool {
    &&& shown.len() > 2
    &&& shown[0] == "#EXTM3U"@
    &&& shown[1] == number_line(seq)
    &&& forall|i: int|
        0 <= i < shown.len() && sequence_tag().is_prefix_of(#[trigger] shown[i]) ==> i == 1
}

/// A playlist that begins with the heading keeps it when it is filtered, also
/// where its first segment is not there.
pub proof fn filtered_keeps_heading(text: Seq<char>, present: Seq<Seq<char>>)
    requires
        filtered_text(text, present) is Some,
        lines(text).len() > 0,
        lines(text)[0] == "#EXTM3U"@,
        plain_names(kept_names(lines(text), present, lines(text).len())),
    ensures
        ({
            let shown = lines(filtered_text(text, present)->0);
            well_headed(shown, media_sequence(shown))
        }),
{
    let n = lines(text).len();
    let s = sifted_text(text, present, n);
    let shown = lines(rewritten(s));
    kept_are_present(lines(text), present, n, media_sequence(lines(text)));
    filtered_lists_present(text, present);
    heading_stays(text, present, n, 0);
    assert forall|i: int|
        0 <= i < shown.len() && sequence_tag().is_prefix_of(#[trigger] shown[i]) implies i == 1 by {
        heading_stays(text, present, n, i);
    }
}

/// So does a player's playlist.
pub proof fn playback_keeps_heading(text: Seq<char>, present: Seq<Seq<char>>, holdback: nat)
    requires
        player_text(text, present, holdback) is Some,
        lines(text).len() > 0,
        lines(text)[0] == "#EXTM3U"@,
        plain_names(kept_names(lines(text), present, lines(text).len())),
    ensures
        ({
            let shown = lines(player_text(text, present, holdback)->0);
            well_headed(shown, media_sequence(shown))
        }),
{
    let all = lines(text);
    let seq = media_sequence(all);
    let complete = kept_names(all, present, all.len());
    kept_are_present(all, present, all.len(), seq);
    playback_lists_held_back(text, present, holdback);
    let n = (complete.len() - holdback) as nat;
    limit_keeps_first(all, present, n, all.len());
    let some = kept_names(all, present, n);
    assert(some == complete.take(n as int));
    assert forall|i: int| 0 <= i < some.len() implies (#[trigger] some[i]).len() > 0
        && some[i][0] != '#' by {
        assert(complete[i] == some[i]);
    }
    first_is_counted(all, present, n, seq);
    kept_are_present(all, present, n, seq);
    first_is_the_same(all, present, n, all.len(), seq);
    let shown = lines(rewritten(sifted_text(text, present, n)));
    heading_stays(text, present, n, 0);
    assert forall|i: int|
        0 <= i < shown.len() && sequence_tag().is_prefix_of(#[trigger] shown[i]) implies i == 1 by {
        heading_stays(text, present, n, i);
    }
}

proof fn heading_is_first(list: Seq<Seq<char>>, present: Seq<Seq<char>>, limit: nat, seq: u64)
    requires
        list.len() > 0,
        list[0] == "#EXTM3U"@,
    ensures
        sifted(list, present, limit, seq).saw_m3u,
        sifted(list, present, limit, seq).header.len() > 0,
        sifted(list, present, limit, seq).header[0] == "#EXTM3U"@,
    decreases list.len(),
{
    if list.len() > 1 {
        heading_is_first(list.drop_last(), present, limit, seq);
    } else {
        reveal_strlit("#EXTM3U");
        reveal_strlit("#EXTINF:");
        reveal_strlit("#EXT-X-BYTERANGE:");
        reveal_strlit("#EXT-X-PROGRAM-DATE-TIME:");
        reveal_strlit("#EXT-X-DISCONTINUITY");
        reveal_strlit("#EXT-X-MEDIA-SEQUENCE:");
        let line = list[0];
        assert(line[4] == 'M');
        assert("#EXTINF:"@[4] == 'I');
        assert(!"#EXTINF:"@.is_prefix_of(line));
        assert(!is_segment_tag(line));
        assert(!sequence_tag().is_prefix_of(line));
        assert(strip_cr(line) == line);
        assert("#EXTM3U"@.is_prefix_of(line));
        assert(sifted(list.drop_last(), present, limit, seq) == Sifted::start(seq));
        assert(list.last() == line);
    }
}

proof fn number_is_second(list: Seq<Seq<char>>, seq: u64)
    requires
        all_clean(list),
        list.len() > 0,
        list[0] == "#EXTM3U"@,
    ensures
        ({
            let (all, done) = headed(list, seq);
            &&& done
            &&& all.len() == list.len() + 1
            &&& all[0] == "#EXTM3U"@
            &&& all[1] == number_line(seq)
            &&& forall|i: int| 0 <= i < all.len() && i != 1 ==> clean(#[trigger] all[i])
        }),
    decreases list.len(),
{
    let front = list.drop_last();
    assert(clean(list[list.len() - 1]));
    if list.len() > 1 {
        assert forall|i: int| 0 <= i < front.len() implies clean(#[trigger] front[i]) by {
            assert(front[i] == list[i]);
        }
        number_is_second(front, seq);
        let some = headed(front, seq).0;
        let all = headed(list, seq).0;
        assert(all == some.push(list.last()));
        assert forall|i: int| 0 <= i < all.len() && i != 1 implies clean(#[trigger] all[i]) by {
            if i < some.len() {
                assert(all[i] == some[i]);
            }
        }
    } else {
        assert(headed(front, seq) == (Seq::<Seq<char>>::empty(), false));
        assert("#EXTM3U"@.is_prefix_of(list[0]));
        let all = headed(list, seq).0;
        assert(all =~= seq![list[0], number_line(seq)]);
    }
}

/// Whether what a line names, if anything, is there.
spec fn names_present(line: Seq<char>, present: Seq<Seq<char>>) -> bool {
    is_tag(line) || trim(line).len() == 0 || present.contains(trim(line))
}

proof fn named_are_present(list: Seq<Seq<char>>, present: Seq<Seq<char>>)
    requires
        forall|i: int| 0 <= i < list.len() ==> names_present(#[trigger] list[i], present),
    ensures
        all_present(named_files(list), present),
    decreases list.len(),
{
    if list.len() > 0 {
        let front = list.drop_last();
        assert forall|i: int| 0 <= i < front.len() implies names_present(
            #[trigger] front[i],
            present,
        ) by {
            assert(front[i] == list[i]);
        }
        named_are_present(front, present);
        assert(names_present(list[list.len() - 1], present));
        let names = named_files(list);
        assert forall|i: int| 0 <= i < names.len() implies present.contains(
            #[trigger] names[i],
        ) by {
            if i < named_files(front).len() {
                assert(names[i] == named_files(front)[i]);
            }
        }
    }
}

/// A kept line: it holds no newline, and is a tag, or the trimmed name of a
/// segment that is there.
spec fn sound(line: Seq<char>, present: Seq<Seq<char>>) -> bool {
    &&& line.len() > 0
    &&& !line.contains('\n')
    &&& is_tag(line) || (!is_space(line[0]) && !is_space(line.last()) && present.contains(line))
}

spec fn all_sound(list: Seq<Seq<char>>, present: Seq<Seq<char>>) -> bool {
    forall|i: int| 0 <= i < list.len() ==> sound(#[trigger] list[i], present)
}

proof fn stripped_is_sound(line: Seq<char>, present: Seq<Seq<char>>)
    requires
        sound(line, present),
    ensures
        sound(strip_cr(line), present),
        names_present(strip_cr(line), present),
{
    let r = strip_cr(line);
    if line.last() == '\r' {
        assert(is_space('\r'));
        assert(is_tag(line));
        assert(r[0] == line[0]);
        if r.contains('\n') {
            let j = choose|j: int| 0 <= j < r.len() && r[j] == '\n';
            assert(line[j] == '\n');
        }
    } else if !is_tag(line) {
        trimmed_stays(line);
    }
}

proof fn sifting_is_sound(list: Seq<Seq<char>>, present: Seq<Seq<char>>, limit: nat, seq: u64)
    requires
        forall|i: int| 0 <= i < list.len() ==> !(#[trigger] list[i]).contains('\n'),
    ensures
        ({
            let s = sifted(list, present, limit, seq);
            &&& all_sound(s.header, present)
            &&& all_sound(s.pending, present)
            &&& all_sound(s.body, present)
        }),
    decreases list.len(),
{
    if list.len() > 0 {
        let front = list.drop_last();
        let line = list.last();
        assert(!list[list.len() - 1].contains('\n'));
        assert forall|i: int| 0 <= i < front.len() implies !(#[trigger] front[i]).contains(
            '\n',
        ) by {
            assert(front[i] == list[i]);
        }
        sifting_is_sound(front, present, limit, seq);
        let before = sifted(front, present, limit, seq);
        let s = sifted(list, present, limit, seq);
        if is_tag(line) {
            stripped_is_sound(line, present);
        } else {
            let name = trim(line);
            trim_trims(line);
            if name.contains('\n') {
                assert(line.contains('\n'));
            }
            if name.len() > 0 && present.contains(name) && before.kept < limit {
                let mid = before.body + before.pending;
                assert(s.body == mid.push(name));
                assert forall|i: int| 0 <= i < s.body.len() implies sound(
                    #[trigger] s.body[i],
                    present,
                ) by {
                    if i < before.body.len() {
                        assert(s.body[i] == before.body[i]);
                    } else if i < mid.len() {
                        assert(s.body[i] == before.pending[i - before.body.len()]);
                    }
                }
            }
        }
    }
}

proof fn heading_is_sound(list: Seq<Seq<char>>, present: Seq<Seq<char>>, seq: u64)
    requires
        all_sound(list, present),
    ensures
        all_sound(headed(list, seq).0, present),
    decreases list.len(),
{
    if list.len() > 0 {
        let front = list.drop_last();
        assert forall|i: int| 0 <= i < front.len() implies sound(#[trigger] front[i], present) by {
            assert(front[i] == list[i]);
        }
        heading_is_sound(front, present, seq);
        assert(sound(list[list.len() - 1], present));
        number_line_reads(seq);
    }
}

/// What is filtered lists only segments that are there.
proof fn filtered_is_complete(text: Seq<char>, present: Seq<Seq<char>>)
    requires
        filtered_text(text, present) is Some,
    ensures
        all_present(named_files(lines(filtered_text(text, present)->0)), present),
{
    let all = lines(text);
    let seq = media_sequence(all);
    let s = sifted(all, present, all.len(), seq);
    let n = match s.first_kept {
        Some(n) => n,
        None => 0,
    };
    lines_end_at_newlines(text);
    sifting_is_sound(all, present, all.len(), seq);
    let kept = s.header + s.body;
    assert forall|i: int| 0 <= i < kept.len() implies sound(#[trigger] kept[i], present) by {
        if i < s.header.len() {
            assert(sound(s.header[i], present));
        } else {
            assert(sound(s.body[i - s.header.len()], present));
        }
    }
    heading_is_sound(kept, present, n);
    number_line_reads(n);
    let list = rewritten_lines(s);
    assert forall|i: int| 0 <= i < list.len() implies sound(#[trigger] list[i], present) by {
        if i < headed(kept, n).0.len() {
            assert(list[i] == headed(kept, n).0[i]);
        }
    }
    assert forall|i: int| 0 <= i < list.len() implies !(#[trigger] list[i]).contains('\n') by {
        assert(sound(list[i], present));
    }
    let none = Seq::<char>::empty();
    assert(lines(none) =~= Seq::<Seq<char>>::empty());
    lines_of_lines(list, none);
    assert(as_lines(list) + none =~= as_lines(list));
    assert(stripped(list) + lines(none) =~= stripped(list));
    assert forall|i: int| 0 <= i < stripped(list).len() implies names_present(
        #[trigger] stripped(list)[i],
        present,
    ) by {
        assert(sound(list[i], present));
        stripped_is_sound(list[i], present);
    }
    named_are_present(stripped(list), present);
}

/// Filtering a filtered playlist changes nothing more.
pub proof fn filtering_twice_is_once(text: Seq<char>, present: Seq<Seq<char>>)
    ensures
        served_text(served_text(text, present), present) == served_text(text, present),
{
    if filtered_text(text, present) is Some {
        filtered_is_complete(text, present);
    }
}

/// Filtering a filtered playlist file gives the same bytes.
pub proof fn filtering_files_twice_is_once(data: Seq<u8>, present: Seq<Seq<char>>)
    ensures
        filtered(filtered(data, present), present) == filtered(data, present),
{
    let text = as_text(data);
    if let Some(t) = filtered_text(text, present) {
        written_reads_back(t);
        filtered_is_complete(text, present);
    }
}

/// Whether the first of the names that is there is the one at position `i`.
pub open spec fn is_first_present(names: Seq<Seq<char>>, present: Seq<Seq<char>>, i: int) -> bool {
    &&& 0 <= i < names.len()
    &&& present.contains(names[i])
    &&& forall|j: int| 0 <= j < i ==> !present.contains(#[trigger] names[j])
}

/// The number of a filtered playlist is advanced past the segments in front of
/// the first one that is there.
pub proof fn number_is_advanced(
    list: Seq<Seq<char>>,
    present: Seq<Seq<char>>,
    limit: nat,
    seq: u64,
    i: int,
)
    requires
        limit > 0,
        is_first_present(named_files(list), present, i),
    ensures
        sifted(list, present, limit, seq).first_kept == Some(
            ((seq + i) % 0x1_0000_0000_0000_0000) as u64,
        ),
{
    first_is_found(list, present, limit, seq);
    let names = named_files(list);
    let s = sifted(list, present, limit, seq);
    if s.first_kept is None {
        assert(!present.contains(names[i]));
    } else {
        let k = choose|k: int|
            is_first_present(names, present, k) && s.first_kept == Some(
                #[trigger] number_at(seq, k),
            );
        if k < i {
            assert(!present.contains(names[k]));
        } else if i < k {
            assert(!present.contains(names[i]));
        }
    }
}

spec fn number_at(seq: u64, k: int) -> u64 {
    ((seq + k) % 0x1_0000_0000_0000_0000) as u64
}

proof fn first_is_found(list: Seq<Seq<char>>, present: Seq<Seq<char>>, limit: nat, seq: u64)
    requires
        limit > 0,
    ensures
        ({
            let s = sifted(list, present, limit, seq);
            let names = named_files(list);
            &&& s.seq == number_at(seq, names.len() as int)
            &&& s.first_kept is None ==> forall|j: int|
                0 <= j < names.len() ==> !present.contains(#[trigger] names[j])
            &&& s.first_kept is Some ==> exists|k: int|
                is_first_present(names, present, k) && s.first_kept == Some(
                    #[trigger] number_at(seq, k),
                )
        }),
    decreases list.len(),
{
    if list.len() > 0 {
        let front = list.drop_last();
        first_is_found(front, present, limit, seq);
        first_is_counted(front, present, limit, seq);
        let old = sifted(front, present, limit, seq);
        let s = sifted(list, present, limit, seq);
        let before = named_files(front);
        let names = named_files(list);
        if names != before {
            let n = before.len() as int;
            assert(names == before.push(trim(list.last())));
            assert forall|j: int| 0 <= j < n implies #[trigger] names[j] == before[j] by {}
            if old.first_kept is Some {
                let k = choose|k: int|
                    is_first_present(before, present, k) && old.first_kept == Some(
                        #[trigger] number_at(seq, k),
                    );
                assert(is_first_present(names, present, k));
            } else if present.contains(names[n]) {
                assert(is_first_present(names, present, n));
                assert(s.first_kept == Some(number_at(seq, n)));
            }
        }
    }
}

/// A filtering has a first segment exactly where it keeps one.
proof fn first_is_counted(list: Seq<Seq<char>>, present: Seq<Seq<char>>, limit: nat, seq: u64)
    ensures
        sifted(list, present, limit, seq).kept > 0 <==> sifted(
            list,
            present,
            limit,
            seq,
        ).first_kept is Some,
        sifted(list, present, limit, seq).kept <= sifted(list, present, limit, seq).body.len(),
    decreases list.len(),
{
    if list.len() > 0 {
        first_is_counted(list.drop_last(), present, limit, seq);
    }
}

proof fn first_is_the_same(
    list: Seq<Seq<char>>,
    present: Seq<Seq<char>>,
    low: nat,
    high: nat,
    seq: u64,
)
    requires
        0 < low <= high,
    ensures
        ({
            let a = sifted(list, present, low, seq);
            let b = sifted(list, present, high, seq);
            &&& a.first_kept == b.first_kept
            &&& a.seq == b.seq
            &&& a.kept <= b.kept
            &&& a.kept < low ==> a.kept == b.kept
        }),
    decreases list.len(),
{
    if list.len() > 0 {
        first_is_the_same(list.drop_last(), present, low, high, seq);
        first_is_counted(list.drop_last(), present, low, seq);
        first_is_counted(list.drop_last(), present, high, seq);
    }
}

} // verus!
