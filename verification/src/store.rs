//! What a node's directory tells: how much is stored, and what can go.
use vstd::prelude::*;
use crate::text::{
    after_first_word, chars_of, first_word, has_prefix, has_suffix, owned, parse_number,
    parse_unsigned, same_text, split_word, strings,
};
use crate::transfer::{manifest_names, numbered, parse_manifest, segment_number};

verus! {

/// Whether a file looks like a segment.
pub open spec fn is_segment_name(name: Seq<char>) -> bool {
    "seg_"@.is_prefix_of(name) && ".ts"@.is_suffix_of(name)
}

/// Whether a file looks like a segment.
pub fn segment_name(name: &str) -> (r: bool)
    ensures
        r == is_segment_name(name@),
{
    let chars = chars_of(name);
    has_prefix(&chars, &chars_of("seg_")) && has_suffix(&chars, &chars_of(".ts"))
}

/// The bytes of the segments among files with their sizes, modulo 2^64.
pub open spec fn bytes_of(files: Seq<(String, u64)>) -> u64
    decreases files.len(),
{
    if files.len() == 0 {
        0
    } else {
        let rest = bytes_of(files.drop_last());
        if is_segment_name(files.last().0@) {
            ((rest + files.last().1) % 0x1_0000_0000_0000_0000) as u64
        } else {
            rest
        }
    }
}

/// The bytes of the segments among files with their sizes.
pub fn store_bytes(files: &[(String, u64)]) -> (n: u64)
    ensures
        n == bytes_of(files@),
{
    let mut n: u64 = 0;
    let mut i: usize = 0;
    proof {
        assert(files@.take(0).len() == 0);
    }
    while i < files.len()
        invariant
            i <= files@.len(),
            n == bytes_of(files@.take(i as int)),
        decreases files@.len() - i,
    {
        proof {
            assert(files@.take(i + 1).drop_last() =~= files@.take(i as int));
            assert(files@.take(i + 1).last() == files@[i as int]);
        }
        if segment_name(files[i].0.as_str()) {
            n = n.wrapping_add(files[i].1);
        }
        i = i + 1;
    }
    proof {
        assert(files@.take(i as int) =~= files@);
    }
    n
}

/// How many files are numbered segments, and the largest number (0 for none).
pub open spec fn segments_of(names: Seq<String>) -> (nat, u64)
    decreases names.len(),
{
    if names.len() == 0 {
        (0, 0)
    } else {
        let (count, newest) = segments_of(names.drop_last());
        match numbered(names.last()@) {
            Some(n) => (
                count + 1,
                if n > newest {
                    n as u64
                } else {
                    newest
                },
            ),
            None => (count, newest),
        }
    }
}

/// (count, newest segment number) of stored files.
pub fn store_segments(names: &[String]) -> (r: (u64, u64))
    ensures
        r.0 == segments_of(names@).0,
        r.1 == segments_of(names@).1,
{
    let mut count: u64 = 0;
    let mut newest: u64 = 0;
    let mut i: usize = 0;
    proof {
        assert(names@.take(0).len() == 0);
    }
    while i < names.len()
        invariant
            i <= names@.len(),
            count <= i,
            count == segments_of(names@.take(i as int)).0,
            newest == segments_of(names@.take(i as int)).1,
        decreases names@.len() - i,
    {
        proof {
            assert(names@.take(i + 1).drop_last() =~= names@.take(i as int));
            assert(names@.take(i + 1).last() == names@[i as int]);
        }
        if let Some(n) = segment_number(names[i].as_str()) {
            count = count + 1;
            if n > newest {
                newest = n;
            }
        }
        i = i + 1;
    }
    proof {
        assert(names@.take(i as int) =~= names@);
    }
    (count, newest)
}

/// The newest segment number in a manifest (the live edge); 0 where its last
/// entry has none.
pub open spec fn edge_of(data: Seq<u8>) -> u64 {
    let names = manifest_names(data);
    if names.len() == 0 {
        0
    } else {
        match numbered(names.last()) {
            Some(n) => n as u64,
            None => 0,
        }
    }
}

/// Newest segment number in the local manifest copy (the live edge the node
/// knows about).
pub fn manifest_edge(data: &[u8]) -> (n: u64)
    ensures
        n == edge_of(data@),
{
    let names = parse_manifest(data);
    if names.len() == 0 {
        return 0;
    }
    proof {
        assert(manifest_names(data@).last() == names@[names@.len() - 1]@);
    }
    match segment_number(names[names.len() - 1].as_str()) {
        Some(n) => n,
        None => 0,
    }
}

/// Whether a file can go: a segment or a leftover of a download that is not in
/// the playlist and has been there for the retention time. A file of unknown
/// age stays.
pub open spec fn can_go(
    name: Seq<char>,
    age: Option<u128>,
    listed: Seq<Seq<char>>,
    retention_secs: u64,
) -> bool {
    &&& is_segment_name(name) || ".tmp"@.is_suffix_of(name)
    &&& !listed.contains(name)
    &&& age matches Some(a) && a >= retention_secs * 1_000_000_000
}

/// The files that can go.
pub open spec fn goers(
    files: Seq<(String, Option<u128>)>,
    listed: Seq<Seq<char>>,
    retention_secs: u64,
) -> Seq<Seq<char>>
    decreases files.len(),
{
    if files.len() == 0 {
        Seq::empty()
    } else {
        let rest = goers(files.drop_last(), listed, retention_secs);
        if can_go(files.last().0@, files.last().1, listed, retention_secs) {
            rest.push(files.last().0@)
        } else {
            rest
        }
    }
}

fn listed_in(names: &[String], name: &str) -> (r: bool)
    ensures
        r == strings(names@).contains(name@),
{
    let ghost all = strings(names@);
    let mut i: usize = 0;
    while i < names.len()
        invariant
            i <= names@.len(),
            all == strings(names@),
            forall|j: int| 0 <= j < i ==> #[trigger] all[j] != name@,
        decreases names@.len() - i,
    {
        if same_text(names[i].as_str(), name) {
            assert(all[i as int] == name@);
            return true;
        }
        assert(all[i as int] != name@);
        i = i + 1;
    }
    false
}

/// The files, given with their age in nanoseconds, that rolled out of the
/// playlist and are older than the retention window: viewers may be behind the
/// edge, so old pieces must stay servable for a while.
pub fn prunable(files: &[(String, Option<u128>)], manifest: &[u8], retention_secs: u64) -> (r: Vec<
    String,
>)
    ensures
        strings(r@) == goers(files@, manifest_names(manifest@), retention_secs),
{
    let listed = parse_manifest(manifest);
    let ghost names = strings(listed@);
    let retention: u128 = retention_secs as u128 * 1_000_000_000;
    let mut r: Vec<String> = Vec::new();
    let mut i: usize = 0;
    proof {
        assert(strings(r@) =~= goers(files@.take(0), names, retention_secs));
    }
    while i < files.len()
        invariant
            i <= files@.len(),
            names == strings(listed@),
            retention == retention_secs * 1_000_000_000,
            strings(r@) == goers(files@.take(i as int), names, retention_secs),
        decreases files@.len() - i,
    {
        let ghost before = strings(r@);
        proof {
            assert(files@.take(i + 1).drop_last() =~= files@.take(i as int));
            assert(files@.take(i + 1).last() == files@[i as int]);
        }
        let name: &str = files[i].0.as_str();
        let leftover = has_suffix(&chars_of(name), &chars_of(".tmp"));
        let old = match files[i].1 {
            Some(age) => age >= retention,
            None => false,
        };
        if (segment_name(name) || leftover) && !listed_in(listed.as_slice(), name) && old {
            let copy = owned(name);
            r.push(copy);
            proof {
                assert(strings(r@) =~= before.push(copy@));
            }
        }
        i = i + 1;
    }
    proof {
        assert(files@.take(i as int) =~= files@);
    }
    r
}

/// The resident memory that a line of process statistics tells: its second
/// field counts pages of 4096 bytes.
pub open spec fn resident(statm: Seq<char>) -> u64 {
    match parse_number(first_word(after_first_word(statm)), u64::MAX as int) {
        Some(pages) => ((pages * 4096) % 0x1_0000_0000_0000_0000) as u64,
        None => 0,
    }
}

/// The resident memory in bytes.
pub fn resident_bytes(statm: &str) -> (n: u64)
    ensures
        n == resident(statm@),
{
    let chars = chars_of(statm);
    let (_, rest) = split_word(&chars);
    let (pages, _) = split_word(rest);
    match parse_unsigned(pages, u64::MAX) {
        Some(pages) => pages.wrapping_mul(4096),
        None => 0,
    }
}

/// What is in the playlist is never pruned, and neither is what is younger
/// than the retention time.
pub proof fn prune_spares_listed(
    files: Seq<(String, Option<u128>)>,
    listed: Seq<Seq<char>>,
    retention_secs: u64,
    i: int,
)
    requires
        0 <= i < goers(files, listed, retention_secs).len(),
    ensures
        !listed.contains(goers(files, listed, retention_secs)[i]),
        exists|j: int|
            0 <= j < files.len() && (#[trigger] files[j]).0@ == goers(
                files,
                listed,
                retention_secs,
            )[i] && files[j].1 is Some && files[j].1->0 >= retention_secs * 1_000_000_000,
    decreases files.len(),
{
    let all = goers(files, listed, retention_secs);
    let rest = goers(files.drop_last(), listed, retention_secs);
    if i < rest.len() {
        prune_spares_listed(files.drop_last(), listed, retention_secs, i);
        let j = choose|j: int|
            0 <= j < files.drop_last().len() && (#[trigger] files.drop_last()[j]).0@ == rest[i]
                && files.drop_last()[j].1 is Some && files.drop_last()[j].1->0 >= retention_secs
                * 1_000_000_000;
        assert(files[j].0@ == all[i]);
    } else {
        assert(files[files.len() - 1].0@ == all[i]);
    }
}

} // verus!
