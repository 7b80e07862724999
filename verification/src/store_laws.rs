//! What holds of the files of a node.
use vstd::prelude::*;
use vstd::utf8::encode_utf8;
use crate::store::{bytes_of, edge_of, goers, segments_of};
use crate::text::{decimal, trim};
use crate::transfer::{is_valid_filename, listed_names, manifest_names, numbered};

verus! {

/// Whether a file is a segment by its name.
pub open spec fn is_segment(name: Seq<char>) -> bool {
    "seg_"@.is_prefix_of(name) && ".ts"@.is_suffix_of(name)
}

/// Whether a file is to be pruned: it is a segment or a leftover of a download,
/// is not in the playlist, and is known to be as old as the retention time.
pub open spec fn is_outlived(
    file: (String, Option<u128>),
    listed: Seq<Seq<char>>,
    retention_secs: u64,
) -> bool {
    &&& is_segment(file.0@) || ".tmp"@.is_suffix_of(file.0@)
    &&& !listed.contains(file.0@)
    &&& file.1 matches Some(age) && age >= retention_secs * 1_000_000_000
}

/// Exactly the files that are outlived are pruned, in their order.
pub proof fn outlived_files_are_pruned(
    files: Seq<(String, Option<u128>)>,
    listed: Seq<Seq<char>>,
    retention_secs: u64,
)
    ensures
        goers(files, listed, retention_secs) == files.filter(
            |f: (String, Option<u128>)| is_outlived(f, listed, retention_secs),
        ).map_values(|f: (String, Option<u128>)| f.0@),
    decreases files.len(),
{
    let p = |f: (String, Option<u128>)| is_outlived(f, listed, retention_secs);
    let g = |f: (String, Option<u128>)| f.0@;
    reveal(Seq::filter);
    if files.len() > 0 {
        let front = files.drop_last();
        outlived_files_are_pruned(front, listed, retention_secs);
        let some = front.filter(p);
        if p(files.last()) {
            assert(some.push(files.last()).map_values(g) =~= some.map_values(g).push(
                files.last().0@,
            ));
        }
    }
    assert(goers(files, listed, retention_secs) =~= files.filter(p).map_values(g));
}

/// A longer retention time prunes nothing that a shorter one spares.
pub proof fn longer_retention_spares_more(
    file: (String, Option<u128>),
    listed: Seq<Seq<char>>,
    shorter: u64,
    longer: u64,
)
    requires
        shorter <= longer,
        is_outlived(file, listed, longer),
    ensures
        is_outlived(file, listed, shorter),
{
}

/// The segments of a list of files are those with a number, and the newest of
/// them is the one with the largest.
pub proof fn segments_are_counted(names: Seq<String>)
    ensures
        segments_of(names).0 == names.filter(|n: String| numbered(n@) is Some).len(),
        forall|i: int|
            0 <= i < names.len() && numbered((#[trigger] names[i])@) is Some ==> numbered(
                names[i]@,
            )->0 <= segments_of(names).1,
        segments_of(names).0 == 0 ==> segments_of(names).1 == 0,
        segments_of(names).1 > 0 ==> exists|i: int|
            0 <= i < names.len() && numbered((#[trigger] names[i])@) == Some(
                segments_of(names).1 as int,
            ),
    decreases names.len(),
{
    reveal(Seq::filter);
    if names.len() > 0 {
        let front = names.drop_last();
        segments_are_counted(front);
        crate::source_laws::numbers_fit(names.last()@);
        let newest = segments_of(names).1;
        assert forall|i: int|
            0 <= i < names.len() && numbered((#[trigger] names[i])@) is Some implies numbered(
            names[i]@,
        )->0 <= newest by {
            if i < front.len() {
                assert(front[i] == names[i]);
            }
        }
        if newest > 0 {
            if newest == segments_of(front).1 {
                let i = choose|i: int|
                    0 <= i < front.len() && numbered((#[trigger] front[i])@) == Some(
                        newest as int,
                    );
                assert(names[i] == front[i]);
            } else {
                assert(numbered(names[names.len() - 1]@) == Some(newest as int));
            }
        }
    }
}

/// The bytes of the store are those of its segments, and of no other file.
pub proof fn only_segments_are_weighed(files: Seq<(String, u64)>, file: (String, u64))
    ensures
        bytes_of(Seq::empty()) == 0,
        bytes_of(files.push(file)) == if is_segment(file.0@) {
            (bytes_of(files) + file.1) % 0x1_0000_0000_0000_0000
        } else {
            bytes_of(files) as int
        },
{
    assert(files.push(file).drop_last() =~= files);
}

/// The live edge is the number of the last segment that a manifest names, 0
/// where that has none.
pub proof fn edge_is_the_last_number(data: Seq<u8>)
    ensures
        ({
            let names = manifest_names(data);
            &&& names.len() == 0 ==> edge_of(data) == 0
            &&& names.len() > 0 && numbered(names.last()) is Some ==> edge_of(data) == numbered(
                names.last(),
            )->0
            &&& names.len() > 0 && numbered(names.last()) is None ==> edge_of(data) == 0
        }),
{
    let names = manifest_names(data);
    if names.len() > 0 {
        crate::source_laws::numbers_fit(names.last());
    }
}

/// A name is that of a file that may be read exactly if it is not empty, has at
/// most 255 characters, all of them visible ASCII, none a slash or a backslash,
/// and does not begin with a dot.
pub proof fn plain_names_are_flat(name: Seq<char>)
    ensures
        is_valid_filename(name) ==> {
            &&& 0 < name.len() <= 255
            &&& name[0] != '.'
            &&& forall|i: int|
                0 <= i < name.len() ==> '!' <= #[trigger] name[i] <= '~' && name[i] != '/'
                    && name[i] != '\\'
        },
        0 < name.len() && name[0] != '.' && encode_utf8(name).len() <= 255 && (forall|i: int|
            0 <= i < name.len() ==> '!' <= #[trigger] name[i] <= '~' && name[i] != '/' && name[i]
                != '\\') ==> is_valid_filename(name),
{
    if is_valid_filename(name) {
        assert forall|i: int| 0 <= i < name.len() implies '!' <= #[trigger] name[i] <= '~'
            && name[i] != '/' && name[i] != '\\' by {
            assert(crate::transfer::is_graphic(name[i]));
            assert(name.contains(name[i]));
        }
        no_shorter_in_bytes(name);
    }
}

proof fn no_shorter_in_bytes(name: Seq<char>)
    ensures
        name.len() <= encode_utf8(name).len(),
    decreases name.len(),
{
    if name.len() > 0 {
        no_shorter_in_bytes(name.drop_first());
    }
}

/// The segment with a number has that number in its name, and no other.
pub proof fn segments_are_named_by_number(n: u64)
    ensures
        numbered("seg_"@ + decimal(n as int) + ".ts"@) == Some(n as int),
{
    reveal_strlit("seg_");
    reveal_strlit(".ts");
    let digits = decimal(n as int);
    let name = "seg_"@ + digits + ".ts"@;
    crate::text::decimal_parses_back(n as int, u64::MAX as int);
    assert(name.subrange(4, name.len() - 3) =~= digits);
    assert("seg_"@.is_prefix_of(name)) by {
        assert(name.subrange(0, 4) =~= "seg_"@);
    }
    let rest = name.skip(4);
    assert(rest =~= digits + ".ts"@);
    assert(".ts"@.is_suffix_of(rest)) by {
        assert(rest.subrange(rest.len() - 3, rest.len() as int) =~= ".ts"@);
    }
}

/// The segments of a manifest are its lines that are neither empty nor begin
/// with a hash, trimmed and in their order.
pub proof fn manifests_name_their_segments(list: Seq<Seq<char>>)
    ensures
        listed_names(list) == list.filter(
            |line: Seq<char>| line.len() > 0 && line[0] != '#',
        ).map_values(|line: Seq<char>| trim(line)),
    decreases list.len(),
{
    let f = |line: Seq<char>| line.len() > 0 && line[0] != '#';
    let g = |line: Seq<char>| trim(line);
    reveal(Seq::filter);
    if list.len() > 0 {
        manifests_name_their_segments(list.drop_last());
        let some = list.drop_last().filter(f);
        if f(list.last()) {
            assert(some.push(list.last()).map_values(g) =~= some.map_values(g).push(
                trim(list.last()),
            ));
        }
    }
    assert(listed_names(list) =~= list.filter(f).map_values(g));
}

} // verus!
