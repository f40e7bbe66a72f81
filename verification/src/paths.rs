//! Where files are stored: paths made of a storage location, parts of the hash, and a file name.
use crate::text::{chars_of, text_is, text_of};
use vstd::prelude::*;
use vstd::utf8::{decode_utf8, encode_utf8, is_char_boundary};

verus! {

/// A path with one more part. A part that starts with a slash stands for itself.
pub open spec fn joined_path(base: Seq<char>, part: Seq<char>) -> Seq<char> {
    if part.len() > 0 && part[0] == '/' {
        part
    } else if base.len() == 0 || base.last() == '/' {
        base + part
    } else {
        base.push('/') + part
    }
}

/// A path with one more part.
pub fn join_path(base: &str, part: &str) -> (path: String)
    ensures
        path@ == joined_path(base@, part@),
{
    let start = chars_of(base);
    let more = chars_of(part);
    if more.len() > 0 && more[0] == '/' {
        return part.to_owned();
    }
    let mut path = base.to_owned();
    if start.len() > 0 && start[start.len() - 1] != '/' {
        path.push('/');
    }
    path.append(part);
    path
}

/// The position of the last dot at or before `at`, if any.
pub open spec fn last_dot(name: Seq<char>, at: int) -> Option<int>
    decreases at + 1,
{
    if at < 0 || at >= name.len() {
        None
    } else if name[at] == '.' {
        Some(at)
    } else {
        last_dot(name, at - 1)
    }
}

/// A file name without its extension. A leading dot starts no extension.
pub open spec fn file_stem(name: Seq<char>) -> Seq<char> {
    match last_dot(name, name.len() - 1) {
        Some(at) => if at == 0 {
            name
        } else {
            name.take(at)
        },
        None => name,
    }
}

/// A file name without its extension.
pub fn stem_of(name: &str) -> (stem: String)
    ensures
        stem@ == file_stem(name@),
{
    let chars = chars_of(name);
    let mut at: usize = chars.len();
    while at > 0
        invariant
            at <= chars.len(),
            chars@ == name@,
            last_dot(name@, name@.len() - 1) == last_dot(name@, at - 1),
        decreases at,
    {
        if chars[at - 1] == '.' {
            if at - 1 == 0 {
                return name.to_owned();
            }
            let stem = text_of(&chars, 0, at - 1);
            assert(stem@ =~= name@.take(at - 1));
            return stem;
        }
        at -= 1;
    }
    name.to_owned()
}

/// A path without the slashes, and the parts that stand for no step, at its end. The root stays.
pub open spec fn trimmed(path: Seq<char>) -> Seq<char>
    decreases path.len(),
{
    if path.len() > 1 && (path.last() == '/' || (path.last() == '.' && path[path.len() - 2] == '/')) {
        trimmed(path.drop_last())
    } else {
        path
    }
}

/// The place behind the last slash before `at`.
pub open spec fn part_start(path: Seq<char>, at: int) -> int
    decreases at,
{
    if at <= 0 || path[at - 1] == '/' {
        at
    } else {
        part_start(path, at - 1)
    }
}

/// The file name at the end of a path; the root, and steps up or nowhere, have none.
pub open spec fn file_name(path: Seq<char>) -> Option<Seq<char>> {
    let plain = trimmed(path);
    let name = plain.skip(part_start(plain, plain.len() as int));
    if name.len() == 0 || name == "."@ || name == ".."@ {
        None
    } else {
        Some(name)
    }
}

/// The path before the file name at its end.
pub open spec fn parent_path(path: Seq<char>) -> Seq<char> {
    let plain = trimmed(path);
    trimmed(plain.take(part_start(plain, plain.len() as int)))
}

/// A path with another file name at its end.
pub open spec fn sibling(path: Seq<char>, name: Seq<char>) -> Seq<char> {
    match file_name(path) {
        Some(_) => joined_path(parent_path(path), name),
        None => joined_path(path, name),
    }
}

/// A path whose file name has another extension, or none where it is empty.
pub open spec fn extension_set(path: Seq<char>, extension: Seq<char>) -> Seq<char> {
    match file_name(path) {
        Some(name) => {
            let plain = trimmed(path);
            let bare = plain.take(plain.len() - name.len() + file_stem(name).len());
            if extension.len() == 0 {
                bare
            } else {
                bare.push('.') + extension
            }
        },
        None => path,
    }
}

/// A path whose file name has an extension more, unless that is empty.
pub open spec fn extension_appended(path: Seq<char>, extension: Seq<char>) -> Seq<char> {
    if file_name(path) is Some && extension.len() > 0 {
        trimmed(path).push('.') + extension
    } else {
        path
    }
}

proof fn lemma_part_start(path: Seq<char>, at: int)
    requires
        0 <= at <= path.len(),
    ensures
        0 <= part_start(path, at) <= at,
    decreases at,
{
    if !(at <= 0 || path[at - 1] == '/') {
        lemma_part_start(path, at - 1);
    }
}

/// How much of a path stays when its end is trimmed.
fn trimmed_length(chars: &Vec<char>, from: usize) -> (length: usize)
    requires
        from <= chars@.len(),
    ensures
        length <= from,
        chars@.take(length as int) == trimmed(chars@.take(from as int)),
{
    let mut length: usize = from;
    while length > 1 && (chars[length - 1] == '/' || (chars[length - 1] == '.' && chars[length - 2] == '/'))
        invariant
            length <= from <= chars@.len(),
            trimmed(chars@.take(from as int)) == trimmed(chars@.take(length as int)),
        decreases length,
    {
        assert(chars@.take(length as int).drop_last() =~= chars@.take(length - 1));
        length -= 1;
    }
    length
}

/// Where the last part of a path starts, given its trimmed length.
fn last_part_start(chars: &Vec<char>, length: usize) -> (start: usize)
    requires
        length <= chars@.len(),
    ensures
        start <= length,
        start == part_start(chars@.take(length as int), length as int),
{
    let ghost plain = chars@.take(length as int);
    let mut start: usize = length;
    while start > 0 && chars[start - 1] != '/'
        invariant
            start <= length <= chars@.len(),
            plain == chars@.take(length as int),
            part_start(plain, length as int) == part_start(plain, start as int),
        decreases start,
    {
        start -= 1;
    }
    start
}

/// The file name at the end of a path.
pub fn file_name_of(path: &str) -> (name: Option<String>)
    ensures
        crate::text::opt_text(name) == file_name(path@),
{
    let chars = chars_of(path);
    let length: usize = trimmed_length(&chars, chars.len());
    let start: usize = last_part_start(&chars, length);
    let name = text_of(&chars, start, length);
    proof {
        assert(chars@.take(chars@.len() as int) =~= path@);
        let plain = trimmed(path@);
        assert(name@ =~= plain.skip(start as int));
        reveal_strlit(".");
        reveal_strlit("..");
    }
    if start == length || text_is(&name, ".") || text_is(&name, "..") {
        None
    } else {
        Some(name)
    }
}

/// A path with another file name at its end.
pub fn sibling_of(path: &str, name: &str) -> (full: String)
    ensures
        full@ == sibling(path@, name@),
{
    if file_name_of(path).is_none() {
        return join_path(path, name);
    }
    let chars = chars_of(path);
    let length: usize = trimmed_length(&chars, chars.len());
    let start: usize = last_part_start(&chars, length);
    let end: usize = trimmed_length(&chars, start);
    let parent = text_of(&chars, 0, end);
    proof {
        assert(chars@.take(chars@.len() as int) =~= path@);
        assert(trimmed(path@).take(start as int) =~= chars@.take(start as int));
        assert(parent@ =~= chars@.take(end as int));
    }
    join_path(parent.as_str(), name)
}

/// A path whose file name has another extension, or none where it is empty.
pub fn set_extension(path: &str, extension: &str) -> (full: String)
    ensures
        full@ == extension_set(path@, extension@),
{
    match file_name_of(path) {
        Some(name) => {
            let chars = chars_of(path);
            let length: usize = trimmed_length(&chars, chars.len());
            let name_length: usize = chars_of(name.as_str()).len();
            let stem_length: usize = chars_of(stem_of(name.as_str()).as_str()).len();
            proof {
                assert(chars@.take(chars@.len() as int) =~= path@);
                let plain = trimmed(path@);
                lemma_part_start(plain, plain.len() as int);
                lemma_stem_len(name@);
            }
            let end: usize = length - name_length + stem_length;
            let mut full = text_of(&chars, 0, end);
            assert(full@ =~= trimmed(path@).take(end as int));
            if !extension.is_empty() {
                full.push('.');
                full.append(extension);
            }
            full
        },
        None => path.to_owned(),
    }
}

/// A path whose file name has an extension more, unless that is empty.
pub fn append_extension(path: &str, extension: &str) -> (full: String)
    ensures
        full@ == extension_appended(path@, extension@),
{
    if extension.is_empty() || file_name_of(path).is_none() {
        return path.to_owned();
    }
    let chars = chars_of(path);
    let length: usize = trimmed_length(&chars, chars.len());
    let mut full = text_of(&chars, 0, length);
    proof {
        assert(chars@.take(chars@.len() as int) =~= path@);
        assert(full@ =~= trimmed(path@));
    }
    full.push('.');
    full.append(extension);
    full
}

proof fn lemma_last_dot(name: Seq<char>, at: int)
    ensures
        last_dot(name, at) matches Some(dot) ==> 0 <= dot <= at && dot < name.len(),
    decreases at + 1,
{
    if 0 <= at < name.len() && name[at] != '.' {
        lemma_last_dot(name, at - 1);
    }
}

proof fn lemma_stem_len(name: Seq<char>)
    ensures
        file_stem(name).len() <= name.len(),
{
    lemma_last_dot(name, name.len() - 1);
}

/// Whether a hash is long enough to be stored under: it has more than six bytes.
pub open spec fn storable(hash: Seq<char>) -> bool {
    encode_utf8(hash).len() > 6
}

/// Whether a hash starts with three pairs of bytes that are whole characters each, as they are in a
/// hash of ASCII characters.
pub open spec fn sharded(hash: Seq<char>) -> bool {
    let bytes = encode_utf8(hash);
    &&& bytes.len() >= 6
    &&& is_char_boundary(bytes, 2)
    &&& is_char_boundary(bytes.skip(2), 2)
    &&& is_char_boundary(bytes.skip(2).skip(2), 2)
}

/// Whether a directory can be made of the first bytes of a hash.
pub fn can_shard(hash: &str) -> (can: bool)
    ensures
        can == sharded(hash@),
{
    if hash.as_bytes().len() < 6 {
        return false;
    }
    let ghost bytes = encode_utf8(hash@);
    if !hash.is_char_boundary(2) {
        return false;
    }
    let (_, rest) = hash.split_at(2);
    assert(encode_utf8(rest@) =~= bytes.skip(2));
    if !rest.is_char_boundary(2) {
        return false;
    }
    let (_, tail) = rest.split_at(2);
    assert(encode_utf8(tail@) =~= bytes.skip(2).skip(2));
    tail.is_char_boundary(2)
}

/// The `n`th pair of bytes of a hash, as text.
pub open spec fn shard(hash: Seq<char>, n: int) -> Seq<char> {
    decode_utf8(encode_utf8(hash).subrange(2 * n, 2 * n + 2))
}

/// The directory that a file with this hash is stored in.
pub open spec fn shard_directory(base: Seq<char>, hash: Seq<char>) -> Seq<char> {
    joined_path(joined_path(joined_path(base, shard(hash, 0)), shard(hash, 1)), shard(hash, 2))
}

/// The path of a file in the directory for a hash.
pub open spec fn path_in_shard(base: Seq<char>, hash: Seq<char>, name: Seq<char>) -> Seq<char> {
    joined_path(shard_directory(base, hash), name)
}

/// The path that a file with this hash is stored under, but for its extension.
pub open spec fn stored_path(base: Seq<char>, hash: Seq<char>) -> Seq<char> {
    path_in_shard(base, hash, hash)
}

/// The directory that a file with this hash is stored in.
pub fn shard_directory_of(base: &str, hash: &str) -> (directory: String)
    requires
        sharded(hash@),
    ensures
        directory@ == shard_directory(base@, hash@),
{
    broadcast use vstd::utf8::encode_utf8_decode_utf8;

    let ghost bytes = encode_utf8(hash@);
    let (first, rest) = hash.split_at(2);
    assert(encode_utf8(rest@) =~= bytes.skip(2));
    let (second, tail) = rest.split_at(2);
    assert(encode_utf8(tail@) =~= bytes.skip(2).skip(2));
    let (third, _) = tail.split_at(2);
    proof {
        assert(encode_utf8(first@) =~= bytes.subrange(0, 2));
        assert(encode_utf8(second@) =~= bytes.subrange(2, 4));
        assert(encode_utf8(third@) =~= bytes.subrange(4, 6));
        assert(first@ == shard(hash@, 0));
        assert(second@ == shard(hash@, 1));
        assert(third@ == shard(hash@, 2));
    }
    let one = join_path(base, first);
    let two = join_path(one.as_str(), second);
    join_path(two.as_str(), third)
}

/// The pairs of bytes of an ASCII hash are its pairs of characters.
pub proof fn ascii_shards(hash: Seq<char>, n: int)
    requires
        vstd::utf8::is_ascii_chars(hash),
        0 <= n,
        2 * n + 2 <= hash.len(),
    ensures
        shard(hash, n) == hash.subrange(2 * n, 2 * n + 2),
{
    broadcast use vstd::utf8::encode_utf8_decode_utf8;

    vstd::utf8::is_ascii_chars_encode_utf8(hash);
    let part = hash.subrange(2 * n, 2 * n + 2);
    assert(vstd::utf8::is_ascii_chars(part));
    vstd::utf8::is_ascii_chars_encode_utf8(part);
    assert(encode_utf8(part) =~= encode_utf8(hash).subrange(2 * n, 2 * n + 2));
}

/// A hash without slashes and dots is stored under its name with the extension behind it.
pub proof fn plain_hashes_are_stored_by_name(directory: Seq<char>, hash: Seq<char>, extension: Seq<char>)
    requires
        hash.len() > 0,
        extension.len() > 0,
        directory.len() > 0,
        forall|i: int| 0 <= i < hash.len() ==> hash[i] != '/' && hash[i] != '.',
    ensures
        extension_set(joined_path(directory, hash), extension) == joined_path(directory, hash.push('.') + extension),
        extension_appended(joined_path(directory, hash), extension) == joined_path(
            directory,
            hash.push('.') + extension,
        ),
{
    let path = joined_path(directory, hash);
    let before = path.len() - hash.len();
    assert(path.last() == hash.last());
    assert(trimmed(path) == path);
    lemma_part_start_at(path, before, path.len() as int, hash);
    assert(path.skip(before) =~= hash);
    reveal_strlit(".");
    reveal_strlit("..");
    assert(hash[0] != '.');
    assert(file_name(path) == Some(hash));
    lemma_no_dot(hash, hash.len() - 1);
    assert(file_stem(hash) == hash);
    assert(path.take(path.len() as int) =~= path);
    assert((hash.push('.') + extension)[0] == hash[0]);
    assert(path.push('.') + extension =~= joined_path(directory, hash.push('.') + extension));
}

proof fn lemma_part_start_at(path: Seq<char>, before: int, at: int, hash: Seq<char>)
    requires
        0 < before <= at <= path.len(),
        path[before - 1] == '/',
        path.skip(before) =~= hash,
        forall|i: int| 0 <= i < hash.len() ==> hash[i] != '/',
    ensures
        part_start(path, at) == before,
    decreases at,
{
    if at > before {
        assert(path[at - 1] == hash[at - 1 - before]);
        lemma_part_start_at(path, before, at - 1, hash);
    }
}

proof fn lemma_no_dot(name: Seq<char>, at: int)
    requires
        forall|i: int| 0 <= i < name.len() ==> name[i] != '.',
    ensures
        last_dot(name, at) is None,
    decreases at + 1,
{
    if 0 <= at < name.len() {
        lemma_no_dot(name, at - 1);
    }
}

} // verus!
