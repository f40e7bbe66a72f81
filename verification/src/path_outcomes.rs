//! What paths are made of.
use crate::paths::{
    ascii_shards, extension_appended, extension_set, file_name, file_stem, joined_path, last_dot, parent_path,
    part_start, path_in_shard, plain_hashes_are_stored_by_name, shard_directory, sibling, stored_path, trimmed,
};
use vstd::prelude::*;

verus! {

/// Whether a text holds no slash and no dot, and is not empty.
pub open spec fn plain(text: Seq<char>) -> bool {
    text.len() > 0 && forall|i: int| 0 <= i < text.len() ==> #[trigger] text[i] != '/' && text[i] != '.'
}

/// Whether a path can be gone on from with a slash: it is not empty, and ends in a plain character.
pub open spec fn open_ended(path: Seq<char>) -> bool {
    path.len() > 0 && path.last() != '/' && path.last() != '.'
}

/// Two parts with a slash between them.
pub open spec fn below(path: Seq<char>, part: Seq<char>) -> Seq<char> {
    path + seq!['/'] + part
}

proof fn lemma_below(path: Seq<char>, part: Seq<char>)
    requires
        open_ended(path),
        part.len() > 0,
        part[0] != '/',
    ensures
        joined_path(path, part) == below(path, part),
        below(path, part).last() == part.last(),
{
    assert(joined_path(path, part) =~= below(path, part));
}

/// A path that is joined with a part has a slash before the part, unless it is empty or ends in one; a
/// part that starts with a slash stands for itself.
pub proof fn joined_paths_hold_both_parts(path: Seq<char>, part: Seq<char>)
    ensures
        part.len() > 0 && part[0] == '/' ==> joined_path(path, part) == part,
        !(part.len() > 0 && part[0] == '/') && path.len() == 0 ==> joined_path(path, part) == part,
        !(part.len() > 0 && part[0] == '/') && path.len() > 0 && path.last() == '/' ==> joined_path(path, part) == path
            + part,
        !(part.len() > 0 && part[0] == '/') && path.len() > 0 && path.last() != '/' ==> joined_path(path, part)
            == below(path, part),
{
    assert(Seq::<char>::empty() + part =~= part);
    if path.len() == 0 {
        assert(path + part =~= part);
    }
    assert(path.push('/') + part =~= below(path, part));
}

/// A file is stored three directories below its storage location, each called by two characters of its
/// hash, under its hash with the extension behind it.
pub proof fn files_are_stored_by_the_first_characters_of_their_hash(
    base: Seq<char>,
    hash: Seq<char>,
    extension: Seq<char>,
)
    requires
        open_ended(base),
        plain(hash),
        vstd::utf8::is_ascii_chars(hash),
        hash.len() >= 7,
        extension.len() > 0,
    ensures
        ({
            let directory = below(
                below(below(base, hash.subrange(0, 2)), hash.subrange(2, 4)),
                hash.subrange(4, 6),
            );
            &&& shard_directory(base, hash) == directory
            &&& stored_path(base, hash) == below(directory, hash)
            &&& extension_set(stored_path(base, hash), extension) == below(directory, hash + seq!['.'] + extension)
            &&& extension_appended(stored_path(base, hash), extension) == below(directory, hash + seq!['.'] + extension)
        }),
{
    let one = hash.subrange(0, 2);
    let two = hash.subrange(2, 4);
    let three = hash.subrange(4, 6);
    ascii_shards(hash, 0);
    ascii_shards(hash, 1);
    ascii_shards(hash, 2);
    assert(one[0] == hash[0] && one.last() == hash[1]);
    assert(two[0] == hash[2] && two.last() == hash[3]);
    assert(three[0] == hash[4] && three.last() == hash[5]);
    lemma_below(base, one);
    lemma_below(below(base, one), two);
    lemma_below(below(below(base, one), two), three);
    let directory = below(below(below(base, one), two), three);
    lemma_below(directory, hash);
    plain_hashes_are_stored_by_name(directory, hash, extension);
    let name = hash.push('.') + extension;
    assert(name[0] == hash[0]);
    assert(name =~= hash + seq!['.'] + extension);
    assert(joined_path(directory, name) =~= below(directory, name));
}

/// A file that goes by its own name is stored in the directory for its hash under that name.
pub proof fn names_are_stored_below_the_directory(base: Seq<char>, hash: Seq<char>, name: Seq<char>)
    requires
        open_ended(shard_directory(base, hash)),
        name.len() > 0,
        name[0] != '/',
    ensures
        path_in_shard(base, hash, name) == below(shard_directory(base, hash), name),
{
    lemma_below(shard_directory(base, hash), name);
}

proof fn lemma_dot(name: Seq<char>, at: int, from: int)
    requires
        0 <= at <= from < name.len(),
        name[at] == '.',
        forall|i: int| at < i <= from ==> #[trigger] name[i] != '.',
    ensures
        last_dot(name, from) == Some(at),
    decreases from - at,
{
    if from > at {
        assert(name[from] != '.');
        lemma_dot(name, at, from - 1);
    }
}

proof fn lemma_no_dot(name: Seq<char>, from: int)
    requires
        from < name.len(),
        forall|i: int| 0 <= i <= from ==> #[trigger] name[i] != '.',
    ensures
        last_dot(name, from) is None,
    decreases from + 1,
{
    if from >= 0 {
        assert(name[from] != '.');
        lemma_no_dot(name, from - 1);
    }
}

/// The stem of a file name is what stands before its last dot, and all of it where there is none.
pub proof fn stems_stand_before_the_last_dot(stem: Seq<char>, extension: Seq<char>)
    requires
        stem.len() > 0,
        forall|i: int| 0 <= i < extension.len() ==> #[trigger] extension[i] != '.',
    ensures
        file_stem(stem + seq!['.'] + extension) == stem,
        (forall|i: int| 0 <= i < stem.len() ==> #[trigger] stem[i] != '.') ==> file_stem(stem) == stem,
{
    let name = stem + seq!['.'] + extension;
    let at = stem.len() as int;
    assert forall|i: int| at < i <= name.len() - 1 implies #[trigger] name[i] != '.' by {
        assert(name[i] == extension[i - at - 1]);
    }
    lemma_dot(name, at, name.len() - 1);
    assert(name.take(at) =~= stem);
    if forall|i: int| 0 <= i < stem.len() ==> #[trigger] stem[i] != '.' {
        lemma_no_dot(stem, stem.len() - 1);
    }
}

/// The file name at the end of a path is what stands behind its last slash, and a sibling of the path has
/// another name in its place.
pub proof fn names_stand_behind_the_last_slash(directory: Seq<char>, name: Seq<char>, other: Seq<char>)
    requires
        open_ended(directory),
        name.len() > 0,
        name.last() != '.',
        forall|i: int| 0 <= i < name.len() ==> #[trigger] name[i] != '/',
        other.len() > 0,
        other[0] != '/',
    ensures
        file_name(below(directory, name)) == Some(name),
        parent_path(below(directory, name)) == directory,
        sibling(below(directory, name), other) == below(directory, other),
{
    let path = below(directory, name);
    let before = path.len() - name.len();
    assert(path.last() == name.last());
    assert(name[name.len() - 1] != '/');
    assert(trimmed(path) == path);
    assert(path.skip(before) =~= name);
    assert(path[before - 1] == '/');
    assert forall|i: int| before <= i < path.len() implies #[trigger] path[i] != '/' by {
        assert(path[i] == name[i - before]);
    }
    lemma_start(path, before, path.len() as int);
    reveal_strlit(".");
    reveal_strlit("..");
    assert("."@.last() == '.');
    assert(".."@.last() == '.');
    let up = path.take(before);
    assert(up.last() == '/');
    assert(up.drop_last() =~= directory);
    assert(trimmed(directory) == directory);
    assert(trimmed(up) == directory) by {
        assert(up.len() > 1);
        reveal_with_fuel(trimmed, 2);
    }
    lemma_below(directory, other);
}

proof fn lemma_start(path: Seq<char>, before: int, at: int)
    requires
        0 < before <= at <= path.len(),
        path[before - 1] == '/',
        forall|i: int| before <= i < at ==> #[trigger] path[i] != '/',
    ensures
        part_start(path, at) == before,
    decreases at - before,
{
    if at > before {
        assert(path[at - 1] != '/');
        lemma_start(path, before, at - 1);
    }
}

} // verus!
