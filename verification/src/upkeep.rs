//! Keeping the file table complete: sizes and digests that it lacks, changed rows, and where a file is.
use crate::database::{SQL_CHUNK_SIZE, DbError, DbState, MainDatabase};
use crate::file::digest_clashes;
use crate::relationship::{chunk, chunk_count, file_exists};
use crate::rows::{
    FileRec, FileRow, HashRec, HashRow, StorageRec, StorageRow, digest_keys, file_algorithms, file_ids, find_digest,
    find_file_algorithm, find_file_id, find_storage_id, storage_ids,
};
use crate::storage_check::sizes_set;
use crate::text::{lemma_filter_members, lemma_filter_step, lemma_pos, opt_text, opt_text_copy, pos, views};
use crate::types::{DigestView, FileInternal, FileView, HashesSupported, hashessupportedtokey};
use std::collections::HashSet;
use vstd::prelude::*;

verus! {

broadcast use vstd::std_specs::hash::group_hash_axioms;

/// Whether a row of the file table has a hash and no size.
pub open spec fn is_unsized(row: FileRec) -> bool {
    row.hash is Some && row.size_bytes is None
}

/// Whether the file table has a row with an id and a hash, and without a size.
pub open spec fn lacks_size(files: Seq<FileRec>, id: u64) -> bool {
    exists|i: int| 0 <= i < files.len() && (#[trigger] files[i]).id == id && is_unsized(files[i])
}

/// Whether an id is the smallest above another whose file has no size.
pub open spec fn is_next_unsized(files: Seq<FileRec>, after: u64, id: u64) -> bool {
    &&& id > after
    &&& lacks_size(files, id)
    &&& forall|other: u64| other > after && #[trigger] lacks_size(files, other) ==> id <= other
}

/// The smallest id above another whose file has no size.
pub open spec fn next_unsized(files: Seq<FileRec>, after: u64) -> Option<u64> {
    if exists|id: u64| is_next_unsized(files, after, id) {
        Some(choose|id: u64| is_next_unsized(files, after, id))
    } else {
        None
    }
}

/// The next ids, at most `n`, whose files have no size, in order.
pub open spec fn unsized_batch(files: Seq<FileRec>, after: u64, n: nat) -> Seq<u64>
    decreases n,
{
    if n == 0 {
        Seq::empty()
    } else {
        match next_unsized(files, after) {
            Some(id) => seq![id] + unsized_batch(files, id, (n - 1) as nat),
            None => Seq::empty(),
        }
    }
}

/// The ids of the files without any digest, in the order of the file table.
pub open spec fn unhashed(files: Seq<FileRec>, hashes: Seq<HashRec>) -> Seq<u64> {
    let rows = files.filter(|row: FileRec| !has_digest(hashes, row.id));
    Seq::new(rows.len(), |i: int| rows[i].id)
}

/// Whether a file has a digest.
pub open spec fn has_digest(hashes: Seq<HashRec>, file_id: u64) -> bool {
    exists|i: int| 0 <= i < hashes.len() && (#[trigger] hashes[i]).file_id == file_id
}

/// At most so many items as go in one statement, behind the first `offset`.
pub open spec fn page_from(ids: Seq<u64>, offset: nat) -> Seq<u64> {
    let from = if offset < ids.len() {
        offset as int
    } else {
        ids.len() as int
    };
    let to = if from + SQL_CHUNK_SIZE < ids.len() {
        from + SQL_CHUNK_SIZE
    } else {
        ids.len() as int
    };
    ids.subrange(from, to)
}

/// The digest table after digests have been added, those that clash with a row left out; nothing where
/// one is of a file that does not exist.
pub open spec fn digests_inserted(files: Seq<FileRec>, hashes: Seq<HashRec>, rows: Seq<HashRec>) -> Option<Seq<HashRec>>
    decreases rows.len(),
{
    if rows.len() == 0 {
        Some(hashes)
    } else {
        match digests_inserted(files, hashes, rows.drop_last()) {
            Some(before) => if digest_clashes(before, rows.last()) {
                Some(before)
            } else if file_exists(files, rows.last().file_id) {
                Some(before.push(rows.last()))
            } else {
                None
            },
            None => None,
        }
    }
}

/// The storage locations but one.
pub open spec fn other_bases(storage: Seq<StorageRec>, storage_id: u64) -> Seq<Seq<char>> {
    let rows = storage.filter(|row: StorageRec| row.id != storage_id);
    Seq::new(rows.len(), |i: int| rows[i].location)
}

/// The first path that was found.
pub open spec fn first_found(found: Seq<Option<Seq<char>>>) -> Option<Seq<char>>
    decreases found.len(),
{
    if found.len() == 0 {
        None
    } else if found[0] is Some {
        found[0]
    } else {
        first_found(found.skip(1))
    }
}

/// The file table after a file has been changed. Another file must not have its hash, and its storage
/// location must exist.
pub open spec fn file_changed(files: Seq<FileRec>, storage: Seq<StorageRec>, file: FileView) -> Result<Seq<FileRec>, DbError> {
    if file.id is None {
        Ok(files)
    } else {
        let at = pos(file_ids(files), file.id->0);
        if at >= files.len() {
            Ok(files)
        } else if hash_taken(files, file.hash, at) {
            Err(DbError::Unique)
        } else if pos(storage_ids(storage), file.storage_id) >= storage.len() {
            Err(DbError::ForeignKey)
        } else {
            Ok(
                files.update(
                    at,
                    FileRec {
                        hash: Some(file.hash),
                        extension: file.extension,
                        storage_id: file.storage_id,
                        ..files[at]
                    },
                ),
            )
        }
    }
}

/// Whether a row of the file table but one has a hash.
pub open spec fn hash_taken(files: Seq<FileRec>, hash: Seq<char>, but: int) -> bool {
    exists|i: int| 0 <= i < files.len() && i != but && (#[trigger] files[i]).hash == Some(hash)
}

/// The file table after files have been changed, one after the other.
pub open spec fn files_changed(files: Seq<FileRec>, storage: Seq<StorageRec>, changes: Seq<FileView>) -> Result<
    Seq<FileRec>,
    DbError,
>
    decreases changes.len(),
{
    if changes.len() == 0 {
        Ok(files)
    } else {
        match files_changed(files, storage, changes.drop_last()) {
            Ok(before) => file_changed(before, storage, changes.last()),
            Err(error) => Err(error),
        }
    }
}

impl DbState {
    /// The places where a file may be: its own storage location first, then the others.
    pub open spec fn bases_for(self, storage_id: u64) -> Seq<Seq<char>> {
        match self.base_path(storage_id) {
            Some(base) => seq![base] + other_bases(self.storage, storage_id),
            None => other_bases(self.storage, storage_id),
        }
    }

    /// The digests to compute for a page of the files without any.
    pub open spec fn digests_missing(self, offset: nat) -> Seq<(u64, Seq<char>)> {
        digests_wanted(page_from(unhashed(self.files, self.hashes), offset))
    }

    /// The state after digests have been recorded, `n` times as many as go in one statement.
    pub open spec fn with_digest_chunks(self, rows: Seq<HashRec>, n: nat) -> Option<DbState>
        decreases n,
    {
        if n == 0 {
            Some(self)
        } else {
            match self.with_digest_chunks(rows, (n - 1) as nat) {
                Some(before) => match digests_inserted(before.files, before.hashes, chunk(rows, (n - 1) as nat)) {
                    Some(hashes) => Some(DbState { hashes, ..before }),
                    None => None,
                },
                None => None,
            }
        }
    }
}

fn find_next_unsized(files: &Vec<FileRow>, after: u64) -> (id: Option<u64>)
    ensures
        id == next_unsized(views(files@), after),
{
    let ghost all = views(files@);
    let mut next: Option<u64> = None;
    let mut i: usize = 0;
    while i < files.len()
        invariant
            i <= files.len(),
            all == views(files@),
            match next {
                Some(id) => id > after && lacks_size(all, id) && forall|k: int|
                    0 <= k < i && (#[trigger] all[k]).id > after && is_unsized(all[k]) ==> id <= all[k].id,
                None => forall|k: int| 0 <= k < i ==> !((#[trigger] all[k]).id > after && is_unsized(all[k])),
            },
        decreases files.len() - i,
    {
        let row = &files[i];
        assert(all[i as int] == row@);
        if row.id > after && row.hash.is_some() && row.size_bytes.is_none() {
            assert(lacks_size(all, row.id));
            match next {
                Some(id) => {
                    if row.id < id {
                        next = Some(row.id);
                    }
                },
                None => {
                    next = Some(row.id);
                },
            }
        }
        i += 1;
    }
    proof {
        match next {
            Some(id) => {
                assert forall|other: u64| other > after && #[trigger] lacks_size(all, other) implies id <= other by {
                    let k = choose|k: int|
                        0 <= k < all.len() && (#[trigger] all[k]).id == other && is_unsized(all[k]);
                    assert(all[k].id > after);
                }
                assert(is_next_unsized(all, after, id));
                let other = choose|other: u64| is_next_unsized(all, after, other);
                assert(lacks_size(all, other) && lacks_size(all, id));
            },
            None => {
                assert forall|id: u64| !is_next_unsized(all, after, id) by {
                    if id > after && lacks_size(all, id) {
                        let k = choose|k: int|
                            0 <= k < all.len() && (#[trigger] all[k]).id == id && is_unsized(all[k]);
                        assert(all[k].id > after);
                    }
                }
            },
        }
    }
    next
}

fn file_has_digest(hashes: &Vec<HashRow>, file_id: u64) -> (has: bool)
    ensures
        has == has_digest(views(hashes@), file_id),
{
    let ghost all = views(hashes@);
    let mut i: usize = 0;
    while i < hashes.len()
        invariant
            i <= hashes.len(),
            all == views(hashes@),
            forall|k: int| 0 <= k < i ==> (#[trigger] all[k]).file_id != file_id,
        decreases hashes.len() - i,
    {
        assert(all[i as int] == hashes@[i as int]@);
        if hashes[i].file_id == file_id {
            return true;
        }
        i += 1;
    }
    false
}

fn is_hash_taken(files: &Vec<FileRow>, hash: &String, but: usize) -> (taken: bool)
    ensures
        taken == hash_taken(views(files@), hash@, but as int),
{
    let ghost all = views(files@);
    let mut i: usize = 0;
    while i < files.len()
        invariant
            i <= files.len(),
            all == views(files@),
            forall|k: int| 0 <= k < i && k != but ==> (#[trigger] all[k]).hash != Some(hash@),
        decreases files.len() - i,
    {
        assert(all[i as int] == files@[i as int]@);
        if let Some(own) = &files[i].hash {
            if i != but && *own == *hash {
                return true;
            }
        }
        i += 1;
    }
    false
}

/// A copy of the file table.
fn copy_files(files: &Vec<FileRow>) -> (copy: Vec<FileRow>)
    ensures
        views(copy@) == views(files@),
{
    let mut copy: Vec<FileRow> = Vec::new();
    let mut i: usize = 0;
    while i < files.len()
        invariant
            i <= files.len(),
            copy@.len() == i,
            forall|k: int| 0 <= k < i ==> (#[trigger] copy@[k])@ == files@[k]@,
        decreases files.len() - i,
    {
        copy.push(
            FileRow {
                id: files[i].id,
                hash: opt_text_copy(&files[i].hash),
                extension: files[i].extension.clone(),
                storage_id: files[i].storage_id,
                size_bytes: files[i].size_bytes,
            },
        );
        i += 1;
    }
    assert(views(copy@) =~= views(files@));
    copy
}

fn change_file(files: &mut Vec<FileRow>, storage: &Vec<StorageRow>, file: &FileInternal) -> (changed: Result<(), DbError>)
    ensures
        match changed {
            Ok(()) => file_changed(views(old(files)@), views(storage@), file@) == Ok::<_, DbError>(views(final(files)@)),
            Err(error) => file_changed(views(old(files)@), views(storage@), file@) == Err::<Seq<FileRec>, _>(error),
        },
{
    let id: u64 = match file.id {
        Some(id) => id,
        None => {
            return Ok(());
        },
    };
    let ghost before = views(files@);
    let at: usize = find_file_id(files, id);
    if at == files.len() {
        return Ok(());
    }
    if is_hash_taken(files, &file.hash, at) {
        return Err(DbError::Unique);
    }
    if find_storage_id(storage, file.storage_id) == storage.len() {
        return Err(DbError::ForeignKey);
    }
    assert(before[at as int] == files@[at as int]@);
    let row = FileRow {
        id: files[at].id,
        hash: Some(file.hash.clone()),
        extension: file.extension.clone(),
        storage_id: file.storage_id,
        size_bytes: files[at].size_bytes,
    };
    files[at] = row;
    assert(views(files@) =~= before.update(at as int, row@));
    Ok(())
}

/// Adds digests to a copy of the digest table.
fn insert_digests(files: &Vec<FileRow>, hashes: &Vec<HashRow>, rows: &Vec<HashRow>, from: usize, to: usize) -> (
    inserted: Option<Vec<HashRow>>)
    requires
        from <= to <= rows@.len(),
    ensures
        match inserted {
            Some(table) => digests_inserted(
                views(files@),
                views(hashes@),
                views(rows@).subrange(from as int, to as int),
            ) == Some(views(table@)),
            None => digests_inserted(
                views(files@),
                views(hashes@),
                views(rows@).subrange(from as int, to as int),
            ) is None,
        },
{
    let ghost part = views(rows@).subrange(from as int, to as int);
    let mut table: Vec<HashRow> = Vec::new();
    let mut k: usize = 0;
    while k < hashes.len()
        invariant
            k <= hashes.len(),
            table@.len() == k,
            forall|j: int| 0 <= j < k ==> (#[trigger] table@[j])@ == hashes@[j]@,
        decreases hashes.len() - k,
    {
        table.push(
            HashRow {
                file_id: hashes[k].file_id,
                algorithm: hashes[k].algorithm.clone(),
                digest: hashes[k].digest.clone(),
            },
        );
        k += 1;
    }
    assert(views(table@) =~= views(hashes@));
    let mut failed = false;
    let mut i: usize = from;
    assert(part.take(0) =~= Seq::<HashRec>::empty());
    while i < to
        invariant
            from <= i <= to <= rows@.len(),
            part == views(rows@).subrange(from as int, to as int),
            failed ==> digests_inserted(views(files@), views(hashes@), part.take(i - from)) is None,
            !failed ==> digests_inserted(views(files@), views(hashes@), part.take(i - from)) == Some(views(table@)),
        decreases to - i,
    {
        let row = &rows[i];
        proof {
            assert(part.take(i - from + 1).drop_last() =~= part.take(i - from));
            assert(part.take(i - from + 1).last() == row@);
            lemma_pos(file_algorithms(views(table@)), (row.file_id, row.algorithm@));
            lemma_pos(digest_keys(views(table@)), (row.algorithm@, row.digest@));
            lemma_pos(file_ids(views(files@)), row.file_id);
        }
        if !failed {
            let clashes = find_file_algorithm(&table, row.file_id, &row.algorithm) < table.len() || find_digest(
                &table,
                &row.algorithm,
                &row.digest,
            ) < table.len();
            if !clashes {
                if find_file_id(files, row.file_id) < files.len() {
                    let ghost before = views(table@);
                    table.push(
                        HashRow {
                            file_id: row.file_id,
                            algorithm: row.algorithm.clone(),
                            digest: row.digest.clone(),
                        },
                    );
                    assert(views(table@) =~= before.push(row@));
                } else {
                    failed = true;
                }
            }
        }
        i += 1;
    }
    assert(part.take(to - from) =~= part);
    if failed {
        None
    } else {
        Some(table)
    }
}

/// The names of the kinds of digests.
pub open spec fn algorithm_names() -> Seq<Seq<char>> {
    seq!["MD5"@, "SHA1"@, "SHA256"@, "SHA512"@, "IPFSCID"@, "IPFSCID1"@, "ImageHash"@]
}

/// A kind of digest, without its text.
fn hash_algorithm(n: usize) -> (algorithm: HashesSupported)
    requires
        n < algorithm_names().len(),
    ensures
        algorithm@.algorithm == algorithm_names()[n as int],
{
    match n {
        0 => HashesSupported::Md5(String::new()),
        1 => HashesSupported::Sha1(String::new()),
        2 => HashesSupported::Sha256(String::new()),
        3 => HashesSupported::Sha512(String::new()),
        4 => HashesSupported::IPFSCID(String::new()),
        5 => HashesSupported::IPFSCID1(String::new()),
        _ => HashesSupported::ImageHash(String::new()),
    }
}

/// One of each kind of digest, without its text.
pub fn hash_algorithms() -> (algorithms: Vec<HashesSupported>)
    ensures
        views(algorithms@).map_values(|digest: DigestView| digest.algorithm) == algorithm_names(),
{
    let mut algorithms: Vec<HashesSupported> = Vec::new();
    let mut n: usize = 0;
    while n < 7
        invariant
            n <= 7,
            algorithms@.len() == n,
            forall|k: int| 0 <= k < n ==> (#[trigger] algorithms@[k])@.algorithm == algorithm_names()[k],
        decreases 7 - n,
    {
        algorithms.push(hash_algorithm(n));
        n += 1;
    }
    assert(views(algorithms@).map_values(|digest: DigestView| digest.algorithm) =~= algorithm_names());
    algorithms
}

/// The digests of a file, by their kinds.
pub open spec fn digests_of_each_kind(id: u64) -> Seq<(u64, Seq<char>)> {
    Seq::new(algorithm_names().len(), |k: int| (id, algorithm_names()[k]))
}

/// The digests of some files: of each file one of each kind.
pub open spec fn digests_wanted(ids: Seq<u64>) -> Seq<(u64, Seq<char>)>
    decreases ids.len(),
{
    if ids.len() == 0 {
        Seq::empty()
    } else {
        digests_wanted(ids.drop_last()) + digests_of_each_kind(ids.last())
    }
}

/// Of digests that are wanted, the rows of those that were computed.
pub open spec fn digests_known(wanted: Seq<(u64, Seq<char>)>, digests: Seq<Option<Seq<char>>>) -> Seq<HashRec>
    decreases wanted.len(),
{
    if wanted.len() == 0 {
        Seq::empty()
    } else {
        let before = digests_known(wanted.drop_last(), digests);
        match digests[wanted.len() - 1] {
            Some(digest) => before.push(
                HashRec { file_id: wanted.last().0, algorithm: wanted.last().1, digest },
            ),
            None => before,
        }
    }
}

/// The files and kinds of digests.
pub open spec fn kinds_view(wanted: Seq<(u64, HashesSupported)>) -> Seq<(u64, Seq<char>)> {
    Seq::new(wanted.len(), |i: int| (wanted[i].0, wanted[i].1@.algorithm))
}

/// The views of optional texts.
pub open spec fn opt_texts(texts: Seq<Option<String>>) -> Seq<Option<Seq<char>>> {
    Seq::new(texts.len(), |i: int| opt_text(texts[i]))
}

impl MainDatabase {
    /// The ids of the files without a size, with a hash or without.
    pub fn internal_file_id_get_size_bytes_null(&self) -> (ids: HashSet<u64>)
        ensures
            forall|id: u64| #[trigger]
                ids@.contains(id) <==> exists|i: int|
                    0 <= i < self@.files.len() && (#[trigger] self@.files[i]).id == id && self@.files[i].size_bytes is None,
    {
        let ghost all = self@.files;
        let mut ids: HashSet<u64> = HashSet::new();
        let mut i: usize = 0;
        while i < self.files.len()
            invariant
                i <= self.files.len(),
                all == self@.files,
                forall|id: u64| #[trigger]
                    ids@.contains(id) <==> exists|k: int|
                        0 <= k < i && (#[trigger] all[k]).id == id && all[k].size_bytes is None,
            decreases self.files.len() - i,
        {
            let ghost before = ids@;
            assert(all[i as int] == self.files@[i as int]@);
            if self.files[i].size_bytes.is_none() {
                ids.insert(self.files[i].id);
            }
            assert forall|id: u64| #[trigger] ids@.contains(id) <==> exists|k: int|
                0 <= k < i + 1 && (#[trigger] all[k]).id == id && all[k].size_bytes is None by {
                if before.contains(id) {
                    let k = choose|k: int| 0 <= k < i && (#[trigger] all[k]).id == id && all[k].size_bytes is None;
                    assert(all[k].id == id);
                }
                if ids@.contains(id) && !before.contains(id) {
                    assert(all[i as int].id == id);
                }
            }
            i += 1;
        }
        ids
    }

    /// The next files with a hash and without a size, as many as go in one statement, in the order of their ids.
    pub fn next_unsized_files(&self, after: u64) -> (ids: Vec<u64>)
        ensures
            ids@ == unsized_batch(self@.files, after, SQL_CHUNK_SIZE as nat),
    {
        let mut ids: Vec<u64> = Vec::new();
        let mut last: u64 = after;
        let mut n: usize = 0;
        assert(ids@ + unsized_batch(self@.files, last, SQL_CHUNK_SIZE as nat) =~= unsized_batch(
            self@.files,
            after,
            SQL_CHUNK_SIZE as nat,
        ));
        while n < SQL_CHUNK_SIZE
            invariant
                n <= SQL_CHUNK_SIZE,
                ids@ + unsized_batch(self@.files, last, (SQL_CHUNK_SIZE - n) as nat) == unsized_batch(
                    self@.files,
                    after,
                    SQL_CHUNK_SIZE as nat,
                ),
            decreases SQL_CHUNK_SIZE - n,
        {
            match find_next_unsized(&self.files, last) {
                Some(id) => {
                    let ghost rest = unsized_batch(self@.files, id, (SQL_CHUNK_SIZE - n - 1) as nat);
                    assert(ids@ + (seq![id] + rest) =~= ids@.push(id) + rest);
                    ids.push(id);
                    last = id;
                },
                None => {
                    assert(ids@ + Seq::<u64>::empty() =~= ids@);
                    return ids;
                },
            }
            n += 1;
        }
        assert(ids@ + Seq::<u64>::empty() =~= ids@);
        ids
    }

    /// The places where a file may be: its own storage location first, then the others.
    pub fn candidate_bases(&self, storage_id: u64) -> (bases: Vec<String>)
        ensures
            views(bases@) == self@.bases_for(storage_id),
    {
        let mut bases: Vec<String> = Vec::new();
        if let Some(base) = self.storage_base(storage_id) {
            bases.push(base);
        }
        let ghost first = views(bases@);
        let ghost all = self@.storage;
        let ghost keep = |row: StorageRec| row.id != storage_id;
        let mut i: usize = 0;
        assert(all.take(0).filter(keep) =~= Seq::<StorageRec>::empty()) by {
            reveal(Seq::filter);
        }
        while i < self.storage.len()
            invariant
                i <= self.storage.len(),
                all == self@.storage,
                keep == (|row: StorageRec| row.id != storage_id),
                bases@.len() == first.len() + all.take(i as int).filter(keep).len(),
                forall|k: int| 0 <= k < first.len() ==> (#[trigger] bases@[k])@ == first[k],
                forall|k: int|
                    first.len() <= k < bases@.len() ==> (#[trigger] bases@[k])@ == all.take(i as int).filter(keep)[k
                        - first.len()].location,
            decreases self.storage.len() - i,
        {
            proof {
                lemma_filter_step(all, i as int, keep);
                assert(all[i as int] == self.storage@[i as int]@);
            }
            if self.storage[i].id != storage_id {
                bases.push(self.storage[i].location.clone());
            }
            i += 1;
        }
        assert(all.take(i as int) =~= all);
        assert(views(bases@) =~= self@.bases_for(storage_id)) by {
            let wanted = self@.bases_for(storage_id);
            assert(wanted =~= first + other_bases(all, storage_id));
        }
        bases
    }

    /// The files without any digest, as many as go in one statement, behind the first `offset`.
    pub fn next_unhashed_files(&self, offset: usize) -> (ids: Vec<u64>)
        ensures
            ids@ == page_from(unhashed(self@.files, self@.hashes), offset as nat),
    {
        let ghost all = self@.files;
        let ghost keep = |row: FileRec| !has_digest(self@.hashes, row.id);
        let mut listed: Vec<u64> = Vec::new();
        let mut i: usize = 0;
        assert(all.take(0).filter(keep) =~= Seq::<FileRec>::empty()) by {
            reveal(Seq::filter);
        }
        while i < self.files.len()
            invariant
                i <= self.files.len(),
                all == self@.files,
                keep == (|row: FileRec| !has_digest(self@.hashes, row.id)),
                listed@.len() == all.take(i as int).filter(keep).len(),
                forall|k: int| 0 <= k < listed@.len() ==> #[trigger] listed@[k] == all.take(i as int).filter(keep)[k].id,
            decreases self.files.len() - i,
        {
            proof {
                lemma_filter_step(all, i as int, keep);
                assert(all[i as int] == self.files@[i as int]@);
            }
            if !file_has_digest(&self.hashes, self.files[i].id) {
                listed.push(self.files[i].id);
            }
            i += 1;
        }
        assert(all.take(i as int) =~= all);
        assert(listed@ =~= unhashed(self@.files, self@.hashes));
        let mut ids: Vec<u64> = Vec::new();
        let from: usize = if offset < listed.len() {
            offset
        } else {
            listed.len()
        };
        let mut k: usize = from;
        while k < listed.len() && k - from < SQL_CHUNK_SIZE
            invariant
                from <= k <= listed@.len(),
                k - from <= SQL_CHUNK_SIZE,
                ids@ == listed@.subrange(from as int, k as int),
            decreases listed.len() - k,
        {
            ids.push(listed[k]);
            assert(ids@ =~= listed@.subrange(from as int, k + 1));
            k += 1;
        }
        ids
    }

    /// Records digests, as many at a time as go in one statement. A statement that holds a digest of a file
    /// that does not exist changes nothing, and ends it.
    pub fn record_digests(&mut self, rows: &Vec<HashRow>) -> (recorded: Result<(), DbError>)
        ensures
            match recorded {
                Ok(()) => old(self)@.with_digest_chunks(views(rows@), chunk_count(rows@.len())) == Some(final(self)@),
                Err(error) => error == DbError::ForeignKey && exists|n: nat|
                    n < chunk_count(rows@.len()) && #[trigger] old(self)@.with_digest_chunks(views(rows@), n) == Some(
                        final(self)@,
                    ) && old(self)@.with_digest_chunks(views(rows@), n + 1) is None,
            },
    {
        let ghost start = self@;
        let ghost all = views(rows@);
        let ghost mut n: nat = 0;
        let mut from: usize = 0;
        while from < rows.len()
            invariant
                from <= rows.len(),
                all == views(rows@),
                from == n * SQL_CHUNK_SIZE || from == rows.len(),
                n == chunk_count(from as nat),
                start == old(self)@,
                start.with_digest_chunks(all, n) == Some(self@),
            decreases rows.len() - from,
        {
            let to: usize = if rows.len() - from > SQL_CHUNK_SIZE {
                from + SQL_CHUNK_SIZE
            } else {
                rows.len()
            };
            assert(chunk(all, n) == all.subrange(from as int, to as int));
            match insert_digests(&self.files, &self.hashes, rows, from, to) {
                Some(table) => {
                    self.hashes = table;
                },
                None => {
                    assert(start.with_digest_chunks(all, n + 1) is None);
                    return Err(DbError::ForeignKey);
                },
            }
            proof {
                n = n + 1;
            }
            from = to;
        }
        Ok(())
    }

    /// Changes files: their hash, extension and storage location. All are changed, or none.
    pub fn internal_file_update_batch(&mut self, files: &Vec<FileInternal>) -> (changed: Result<(), DbError>)
        ensures
            match changed {
                Ok(()) => files_changed(old(self)@.files, old(self)@.storage, views(files@)) == Ok::<_, DbError>(
                    final(self)@.files,
                ) && final(self)@ == (DbState { files: final(self)@.files, ..old(self)@ }),
                Err(error) => files_changed(old(self)@.files, old(self)@.storage, views(files@)) == Err::<
                    Seq<FileRec>,
                    _,
                >(error) && final(self)@ == old(self)@,
            },
    {
        let ghost start = self@;
        let ghost all = views(files@);
        let mut table = copy_files(&self.files);
        let mut failure: Option<DbError> = None;
        let mut i: usize = 0;
        assert(all.take(0) =~= Seq::<FileView>::empty());
        while i < files.len()
            invariant
                i <= files.len(),
                all == views(files@),
                self@ == start,
                match failure {
                    Some(error) => files_changed(start.files, start.storage, all.take(i as int)) == Err::<
                        Seq<FileRec>,
                        _,
                    >(error),
                    None => files_changed(start.files, start.storage, all.take(i as int)) == Ok::<_, DbError>(
                        views(table@),
                    ),
                },
            decreases files.len() - i,
        {
            proof {
                assert(all.take(i + 1).drop_last() =~= all.take(i as int));
                assert(all.take(i + 1).last() == files@[i as int]@);
            }
            if failure.is_none() {
                if let Err(error) = change_file(&mut table, &self.storage, &files[i]) {
                    failure = Some(error);
                }
            }
            i += 1;
        }
        assert(all.take(i as int) =~= all);
        match failure {
            Some(error) => Err(error),
            None => {
                self.files = table;
                Ok(())
            },
        }
    }

    /// The path of a file, given what was found of it below each storage location: the first that was found.
    pub fn internal_file_get_physical_path(&self, file_id: &u64, found: &Vec<Option<String>>) -> (path: Result<
        Option<String>,
        DbError,
    >)
        requires
            found@.len() == self@.storage.len(),
        ensures
            match path {
                Ok(path) => self@.file_looked_up(*file_id) is Some && opt_text(path) == first_found(
                    opt_texts(found@),
                ),
                Err(error) => self@.file_looked_up(*file_id) is None && error == (if self@.file(*file_id) is None {
                    DbError::QueryReturnedNoRows
                } else {
                    DbError::MissingValue
                }),
            },
    {
        if let Err(error) = self.internal_file_id_get(file_id) {
            return Err(error);
        }
        let ghost all = opt_texts(found@);
        let mut i: usize = 0;
        assert(all.skip(0) =~= all);
        while i < found.len()
            invariant
                i <= found.len(),
                all == opt_texts(found@),
                first_found(all) == first_found(all.skip(i as int)),
                self@.file_looked_up(*file_id) is Some,
            decreases found.len() - i,
        {
            assert(all.skip(i as int)[0] == opt_text(found@[i as int]));
            assert(all.skip(i as int).skip(1) =~= all.skip(i + 1));
            if let Some(path) = &found[i] {
                return Ok(Some(path.clone()));
            }
            i += 1;
        }
        Ok(None)
    }

    /// The path of a file, given what was found of it below each storage location.
    pub fn file_get_physical_path_sync(&self, file_id: &u64, found: &Vec<Option<String>>) -> (path: Option<String>)
        requires
            found@.len() == self@.storage.len(),
        ensures
            opt_text(path) == (if self@.file_looked_up(*file_id) is Some {
                first_found(opt_texts(found@))
            } else {
                None
            }),
    {
        match self.internal_file_get_physical_path(file_id, found) {
            Ok(path) => path,
            Err(_) => None,
        }
    }
}

/// The sizes that were found of some files.
pub open spec fn sizes_known(ids: Seq<u64>, sizes: Seq<Option<u64>>) -> Seq<(u64, u64)>
    decreases ids.len(),
{
    if ids.len() == 0 {
        Seq::empty()
    } else {
        let before = sizes_known(ids.drop_last(), sizes);
        match sizes[ids.len() - 1] {
            Some(size) => before.push((ids.last(), size)),
            None => before,
        }
    }
}

impl MainDatabase {
    /// Sets the sizes of the next files without one, given what was found of them in the order of
    /// [`MainDatabase::next_unsized_files`]. Files of which nothing was found are passed over. Gives the id
    /// to go on after; `None` where there was no such file left.
    pub fn update_missing_file_sizes(&mut self, after: u64, sizes: &Vec<Option<u64>>) -> (last: Option<u64>)
        requires
            sizes@.len() == unsized_batch(old(self)@.files, after, SQL_CHUNK_SIZE as nat).len(),
        ensures
            ({
                let ids = unsized_batch(old(self)@.files, after, SQL_CHUNK_SIZE as nat);
                &&& final(self)@ == (DbState {
                    files: sizes_set(old(self)@.files, sizes_known(ids, sizes@), false),
                    ..old(self)@
                })
                &&& last == (if ids.len() == 0 {
                    None
                } else {
                    Some(ids.last())
                })
            }),
    {
        let ids = self.next_unsized_files(after);
        let mut updates: Vec<(u64, u64)> = Vec::new();
        let mut i: usize = 0;
        assert(ids@.take(0) =~= Seq::<u64>::empty());
        while i < ids.len()
            invariant
                i <= ids.len(),
                ids@.len() == sizes@.len(),
                updates@ == sizes_known(ids@.take(i as int), sizes@),
            decreases ids.len() - i,
        {
            assert(ids@.take(i + 1).drop_last() =~= ids@.take(i as int));
            if let Some(size) = sizes[i] {
                updates.push((ids[i], size));
            }
            i += 1;
        }
        assert(ids@.take(i as int) =~= ids@);
        self.set_file_sizes(&updates, false);
        if ids.len() == 0 {
            None
        } else {
            Some(ids[ids.len() - 1])
        }
    }

    /// The digests to compute for the files that [`MainDatabase::next_unhashed_files`] gives at `offset`: a file
    /// that lacks one lacks them all.
    pub fn next_missing_digests(&self, offset: usize) -> (wanted: Vec<(u64, HashesSupported)>)
        ensures
            kinds_view(wanted@) == self@.digests_missing(offset as nat),
    {
        let ids = self.next_unhashed_files(offset);
        let mut wanted: Vec<(u64, HashesSupported)> = Vec::new();
        let mut i: usize = 0;
        assert(ids@.take(0) =~= Seq::<u64>::empty());
        assert(kinds_view(wanted@) =~= digests_wanted(ids@.take(0)));
        while i < ids.len()
            invariant
                i <= ids.len(),
                kinds_view(wanted@) == digests_wanted(ids@.take(i as int)),
            decreases ids.len() - i,
        {
            let ghost before = kinds_view(wanted@);
            let ghost kinds = digests_of_each_kind(ids@[i as int]);
            let mut n: usize = 0;
            assert(before + kinds.take(0) =~= before);
            while n < 7
                invariant
                    n <= 7,
                    i < ids.len(),
                    kinds == digests_of_each_kind(ids@[i as int]),
                    kinds_view(wanted@) == before + kinds.take(n as int),
                decreases 7 - n,
            {
                let ghost so_far = kinds_view(wanted@);
                wanted.push((ids[i], hash_algorithm(n)));
                proof {
                    assert(kinds_view(wanted@) =~= so_far.push(kinds[n as int]));
                    assert(kinds.take(n + 1) =~= kinds.take(n as int).push(kinds[n as int]));
                    assert(kinds_view(wanted@) =~= before + kinds.take(n + 1));
                }
                n += 1;
            }
            proof {
                assert(kinds.take(7) =~= kinds);
                assert(ids@.take(i + 1).drop_last() =~= ids@.take(i as int));
            }
            i += 1;
        }
        assert(ids@.take(i as int) =~= ids@);
        wanted
    }

    /// Records digests of the files without any, given what was computed for each that
    /// [`MainDatabase::next_missing_digests`] gives at `offset`. Gives the offset to go on at; `None` where there
    /// was no such file left.
    pub fn hash_missing_file_hashes(&mut self, offset: usize, digests: &Vec<Option<String>>) -> (next: Option<usize>)
        requires
            offset + SQL_CHUNK_SIZE <= usize::MAX,
            digests@.len() == old(self)@.digests_missing(offset as nat).len(),
        ensures
            next == (if page_from(unhashed(old(self)@.files, old(self)@.hashes), offset as nat).len() == 0 {
                None
            } else {
                Some((offset + SQL_CHUNK_SIZE) as usize)
            }),
            ({
                let rows = digests_known(old(self)@.digests_missing(offset as nat), opt_texts(digests@));
                old(self)@.with_digest_chunks(rows, chunk_count(rows.len())) == Some(final(self)@)
            }),
    {
        let wanted = self.next_missing_digests(offset);
        proof {
            lemma_wanted_len(page_from(unhashed(self@.files, self@.hashes), offset as nat));
        }
        let ghost pairs = kinds_view(wanted@);
        let ghost texts = opt_texts(digests@);
        let mut rows: Vec<HashRow> = Vec::new();
        let mut i: usize = 0;
        assert(pairs.take(0) =~= Seq::<(u64, Seq<char>)>::empty());
        assert(views(rows@) =~= digests_known(pairs.take(0), texts));
        while i < wanted.len()
            invariant
                i <= wanted.len(),
                pairs == kinds_view(wanted@),
                texts == opt_texts(digests@),
                wanted@.len() == digests@.len(),
                views(rows@) == digests_known(pairs.take(i as int), texts),
            decreases wanted.len() - i,
        {
            proof {
                assert(pairs.take(i + 1).drop_last() =~= pairs.take(i as int));
                assert(texts[i as int] == opt_text(digests@[i as int]));
            }
            if let Some(digest) = &digests[i] {
                let ghost before = views(rows@);
                let (algorithm, _) = hashessupportedtokey(&wanted[i].1);
                rows.push(HashRow { file_id: wanted[i].0, algorithm, digest: digest.clone() });
                assert(views(rows@) =~= before.push(
                    HashRec { file_id: pairs[i as int].0, algorithm: pairs[i as int].1, digest: digest@ },
                ));
            }
            i += 1;
        }
        assert(pairs.take(i as int) =~= pairs);
        proof {
            lemma_missing_digests_fit(self@, offset as nat, texts);
        }
        let recorded = self.record_digests(&rows);
        assert(recorded is Ok);
        if wanted.is_empty() {
            None
        } else {
            Some(offset + SQL_CHUNK_SIZE)
        }
    }
}

/// Of each file one digest of each kind is wanted.
proof fn lemma_wanted_len(ids: Seq<u64>)
    ensures
        digests_wanted(ids).len() == 7 * ids.len(),
    decreases ids.len(),
{
    if ids.len() > 0 {
        lemma_wanted_len(ids.drop_last());
    }
}

/// Whether digests of a file are wanted.
spec fn wants(wanted: Seq<(u64, Seq<char>)>, id: u64) -> bool {
    exists|i: int| 0 <= i < wanted.len() && (#[trigger] wanted[i]).0 == id
}

/// The rows of digests that are wanted are of the files that they are wanted of.
proof fn lemma_known_are_wanted(wanted: Seq<(u64, Seq<char>)>, digests: Seq<Option<Seq<char>>>)
    ensures
        forall|k: int|
            0 <= k < digests_known(wanted, digests).len() ==> wants(
                wanted,
                (#[trigger] digests_known(wanted, digests)[k]).file_id,
            ),
    decreases wanted.len(),
{
    if wanted.len() > 0 {
        let shorter = wanted.drop_last();
        lemma_known_are_wanted(shorter, digests);
        let before = digests_known(shorter, digests);
        let rows = digests_known(wanted, digests);
        assert forall|k: int| 0 <= k < rows.len() implies wants(wanted, (#[trigger] rows[k]).file_id) by {
            if k < before.len() {
                assert(rows[k] == before[k]);
                assert(wants(shorter, before[k].file_id));
                let i = choose|i: int| 0 <= i < shorter.len() && (#[trigger] shorter[i]).0 == before[k].file_id;
                assert(wanted[i] == shorter[i]);
            } else {
                assert(wanted[wanted.len() - 1].0 == rows[k].file_id);
            }
        }
    }
}

/// What is wanted of files is wanted of one of them.
proof fn lemma_wanted_of_files(ids: Seq<u64>)
    ensures
        forall|i: int| 0 <= i < digests_wanted(ids).len() ==> ids.contains((#[trigger] digests_wanted(ids)[i]).0),
    decreases ids.len(),
{
    if ids.len() > 0 {
        let shorter = ids.drop_last();
        lemma_wanted_of_files(shorter);
        let before = digests_wanted(shorter);
        let all = digests_wanted(ids);
        assert forall|i: int| 0 <= i < all.len() implies ids.contains((#[trigger] all[i]).0) by {
            if i < before.len() {
                assert(all[i] == before[i]);
                let k = choose|k: int| 0 <= k < shorter.len() && shorter[k] == before[i].0;
                assert(ids[k] == before[i].0);
            } else {
                assert(all[i] == digests_of_each_kind(ids.last())[i - before.len()]);
                assert(ids[ids.len() - 1] == all[i].0);
            }
        }
    }
}

/// Digests of files that exist can be recorded.
proof fn lemma_digests_fit(files: Seq<FileRec>, hashes: Seq<HashRec>, rows: Seq<HashRec>)
    requires
        forall|k: int| 0 <= k < rows.len() ==> file_exists(files, (#[trigger] rows[k]).file_id),
    ensures
        digests_inserted(files, hashes, rows) is Some,
    decreases rows.len(),
{
    if rows.len() > 0 {
        assert(file_exists(files, rows[rows.len() - 1].file_id));
        assert forall|k: int| 0 <= k < rows.drop_last().len() implies file_exists(
            files,
            (#[trigger] rows.drop_last()[k]).file_id,
        ) by {
            assert(rows.drop_last()[k] == rows[k]);
        }
        lemma_digests_fit(files, hashes, rows.drop_last());
    }
}

/// Digests of files that exist can be recorded, statement by statement.
proof fn lemma_digest_chunks_fit(state: DbState, rows: Seq<HashRec>, n: nat)
    requires
        n <= chunk_count(rows.len()),
        forall|k: int| 0 <= k < rows.len() ==> file_exists(state.files, (#[trigger] rows[k]).file_id),
    ensures
        state.with_digest_chunks(rows, n) matches Some(after) && after.files == state.files,
    decreases n,
{
    if n > 0 {
        let m = (n - 1) as nat;
        lemma_digest_chunks_fit(state, rows, m);
        let before = state.with_digest_chunks(rows, m)->0;
        let part = chunk(rows, m);
        assert forall|k: int| 0 <= k < part.len() implies file_exists(before.files, (#[trigger] part[k]).file_id) by {
            assert(part[k] == rows[m * 800 + k]);
        }
        lemma_digests_fit(before.files, before.hashes, part);
    }
}

/// The digests that were computed for a page of files without any can be recorded.
proof fn lemma_missing_digests_fit(state: DbState, offset: nat, digests: Seq<Option<Seq<char>>>)
    ensures
        ({
            let rows = digests_known(state.digests_missing(offset), digests);
            forall|n: nat|
                n <= chunk_count(rows.len()) ==> #[trigger] state.with_digest_chunks(rows, n) is Some
        }),
{
    let ids = unhashed(state.files, state.hashes);
    let page = page_from(ids, offset);
    let wanted = digests_wanted(page);
    let rows = digests_known(wanted, digests);
    let keep = |row: FileRec| !has_digest(state.hashes, row.id);
    lemma_known_are_wanted(wanted, digests);
    lemma_wanted_of_files(page);
    lemma_filter_members(state.files, keep);
    assert forall|k: int| 0 <= k < rows.len() implies file_exists(state.files, (#[trigger] rows[k]).file_id) by {
        assert(wants(wanted, rows[k].file_id));
        let i = choose|i: int| 0 <= i < wanted.len() && (#[trigger] wanted[i]).0 == rows[k].file_id;
        let j = choose|j: int| 0 <= j < page.len() && page[j] == wanted[i].0;
        let at = j + if offset < ids.len() {
            offset as int
        } else {
            ids.len() as int
        };
        assert(ids[at] == page[j]);
        let kept = state.files.filter(keep);
        assert(kept.contains(kept[at]));
        let f = choose|f: int| 0 <= f < state.files.len() && state.files[f] == kept[at];
        assert(file_ids(state.files)[f] == rows[k].file_id);
        lemma_pos(file_ids(state.files), rows[k].file_id);
    }
    assert forall|n: nat| n <= chunk_count(rows.len()) implies #[trigger] state.with_digest_chunks(rows, n) is Some by {
        lemma_digest_chunks_fit(state, rows, n);
    }
}

/// Filtering twice, the second time more strictly, is filtering once.
proof fn lemma_filter_stricter<T>(items: Seq<T>, keep: spec_fn(T) -> bool, stricter: spec_fn(T) -> bool)
    requires
        forall|x: T| #[trigger] stricter(x) ==> keep(x),
    ensures
        items.filter(keep).filter(stricter) == items.filter(stricter),
    decreases items.len(),
{
    reveal(Seq::filter);
    if items.len() > 0 {
        let shorter = items.drop_last();
        lemma_filter_stricter(shorter, keep, stricter);
        if keep(items.last()) {
            assert(shorter.filter(keep).push(items.last()).drop_last() =~= shorter.filter(keep));
        }
    }
}

proof fn lemma_filter_all<T>(items: Seq<T>, keep: spec_fn(T) -> bool)
    requires
        forall|i: int| 0 <= i < items.len() ==> keep(#[trigger] items[i]),
    ensures
        items.filter(keep) == items,
    decreases items.len(),
{
    reveal(Seq::filter);
    if items.len() > 0 {
        let shorter = items.drop_last();
        assert forall|i: int| 0 <= i < shorter.len() implies keep(#[trigger] shorter[i]) by {
            assert(shorter[i] == items[i]);
        }
        lemma_filter_all(shorter, keep);
        assert(keep(items[items.len() - 1]));
        assert(shorter.push(items.last()) =~= items);
    }
}

/// Whether one digest table has the digests of another, and of no further files but some.
spec fn digests_grow(before: Seq<HashRec>, after: Seq<HashRec>, ids: Seq<u64>) -> bool {
    &&& forall|id: u64| #[trigger] has_digest(before, id) ==> has_digest(after, id)
    &&& forall|id: u64| #[trigger] has_digest(after, id) ==> has_digest(before, id) || ids.contains(id)
}

proof fn lemma_inserted_grow(files: Seq<FileRec>, hashes: Seq<HashRec>, rows: Seq<HashRec>, ids: Seq<u64>)
    requires
        forall|k: int| 0 <= k < rows.len() ==> ids.contains((#[trigger] rows[k]).file_id),
        digests_inserted(files, hashes, rows) is Some,
    ensures
        digests_grow(hashes, digests_inserted(files, hashes, rows)->0, ids),
    decreases rows.len(),
{
    if rows.len() > 0 {
        let shorter = rows.drop_last();
        assert forall|k: int| 0 <= k < shorter.len() implies ids.contains((#[trigger] shorter[k]).file_id) by {
            assert(shorter[k] == rows[k]);
        }
        lemma_inserted_grow(files, hashes, shorter, ids);
        let before = digests_inserted(files, hashes, shorter)->0;
        let after = digests_inserted(files, hashes, rows)->0;
        assert(ids.contains(rows[rows.len() - 1].file_id));
        assert forall|id: u64| #[trigger] has_digest(hashes, id) implies has_digest(after, id) by {
            assert(has_digest(before, id));
            let k = choose|k: int| 0 <= k < before.len() && (#[trigger] before[k]).file_id == id;
            assert(after[k] == before[k]);
        }
        assert forall|id: u64| #[trigger] has_digest(after, id) implies has_digest(hashes, id) || ids.contains(id) by {
            let k = choose|k: int| 0 <= k < after.len() && (#[trigger] after[k]).file_id == id;
            if k < before.len() {
                assert(before[k] == after[k]);
                assert(has_digest(before, id));
            }
        }
    }
}

proof fn lemma_chunks_grow(state: DbState, rows: Seq<HashRec>, ids: Seq<u64>, n: nat)
    requires
        n <= chunk_count(rows.len()),
        forall|k: int| 0 <= k < rows.len() ==> ids.contains((#[trigger] rows[k]).file_id),
        state.with_digest_chunks(rows, n) is Some,
    ensures
        state.with_digest_chunks(rows, n)->0.files == state.files,
        digests_grow(state.hashes, state.with_digest_chunks(rows, n)->0.hashes, ids),
    decreases n,
{
    if n > 0 {
        let m = (n - 1) as nat;
        lemma_chunks_grow(state, rows, ids, m);
        let before = state.with_digest_chunks(rows, m)->0;
        let after = state.with_digest_chunks(rows, n)->0;
        let part = chunk(rows, m);
        assert forall|k: int| 0 <= k < part.len() implies ids.contains((#[trigger] part[k]).file_id) by {
            assert(part[k] == rows[m * 800 + k]);
        }
        lemma_inserted_grow(before.files, before.hashes, part, ids);
        assert forall|id: u64| #[trigger] has_digest(state.hashes, id) implies has_digest(after.hashes, id) by {
            assert(has_digest(before.hashes, id));
        }
        assert forall|id: u64| #[trigger] has_digest(after.hashes, id) implies has_digest(state.hashes, id)
            || ids.contains(id) by {
            if !ids.contains(id) {
                assert(has_digest(before.hashes, id));
            }
        }
    }
}

/// Files that get digests leave the list of those without any, so that the page that follows starts as many
/// files further on: those in between are not reached until the list is gone through anew.
pub proof fn recorded_files_move_the_pages(state: DbState, offset: nat, digests: Seq<Option<Seq<char>>>)
    requires
        file_ids(state.files).no_duplicates(),
    ensures
        ({
            let rows = digests_known(state.digests_missing(offset), digests);
            let after = state.with_digest_chunks(rows, chunk_count(rows.len()))->0;
            let listed = unhashed(state.files, state.hashes);
            let left = unhashed(after.files, after.hashes);
            &&& left.len() <= listed.len()
            &&& page_from(left, (offset + SQL_CHUNK_SIZE) as nat) == page_from(
                listed,
                (offset + SQL_CHUNK_SIZE + (listed.len() - left.len())) as nat,
            )
        }),
{
    let rows = digests_known(state.digests_missing(offset), digests);
    let all = chunk_count(rows.len());
    lemma_missing_digests_fit(state, offset, digests);
    assert(state.with_digest_chunks(rows, all) is Some);
    let after = state.with_digest_chunks(rows, all)->0;
    let listed = unhashed(state.files, state.hashes);
    let left = unhashed(after.files, after.hashes);
    let page = page_from(listed, offset);
    let wanted = digests_wanted(page);
    lemma_known_are_wanted(wanted, digests);
    lemma_wanted_of_files(page);
    assert forall|k: int| 0 <= k < rows.len() implies page.contains((#[trigger] rows[k]).file_id) by {
        assert(wants(wanted, rows[k].file_id));
        let i = choose|i: int| 0 <= i < wanted.len() && (#[trigger] wanted[i]).0 == rows[k].file_id;
        assert(page.contains(wanted[i].0));
    }
    lemma_chunks_grow(state, rows, page, all);
    let keep = |row: FileRec| !has_digest(state.hashes, row.id);
    let stricter = |row: FileRec| !has_digest(after.hashes, row.id);
    let files = state.files.filter(keep);
    lemma_filter_stricter(state.files, keep, stricter);
    assert(left =~= Seq::new(files.filter(stricter).len(), |i: int| files.filter(stricter)[i].id));
    let from = if offset < listed.len() {
        offset as int
    } else {
        listed.len() as int
    };
    let to = if from + SQL_CHUNK_SIZE < listed.len() {
        from + SQL_CHUNK_SIZE
    } else {
        listed.len() as int
    };
    let first = files.take(from);
    let middle = files.subrange(from, to);
    let last = files.skip(to);
    assert(files =~= first + middle + last);
    Seq::filter_distributes_over_add(first + middle, last, stricter);
    Seq::filter_distributes_over_add(first, middle, stricter);
    assert forall|i: int| 0 <= i < files.len() && !(from <= i < to) implies stricter(#[trigger] files[i]) by {
        lemma_filter_members(state.files, keep);
        assert(files.contains(files[i]));
        if page.contains(files[i].id) {
            let j = choose|j: int| 0 <= j < page.len() && page[j] == files[i].id;
            assert(files[from + j].id == files[i].id);
            lemma_kept_ids_differ(state.files, keep, from + j, i);
        }
    }
    assert forall|i: int| 0 <= i < first.len() implies stricter(#[trigger] first[i]) by {
        assert(first[i] == files[i]);
    }
    assert forall|i: int| 0 <= i < last.len() implies stricter(#[trigger] last[i]) by {
        assert(last[i] == files[to + i]);
    }
    lemma_filter_all(first, stricter);
    lemma_filter_all(last, stricter);
    middle.lemma_filter_len(stricter);
    let kept = first + middle.filter(stricter) + last;
    assert(files.filter(stricter) =~= kept);
    let dropped = middle.len() - middle.filter(stricter).len();
    assert(listed.len() - left.len() == dropped);
    assert(page_from(left, (offset + SQL_CHUNK_SIZE) as nat) =~= page_from(
        listed,
        (offset + SQL_CHUNK_SIZE + dropped) as nat,
    ));
}

/// Rows that are kept have ids of their own where all rows have.
proof fn lemma_kept_ids_differ(files: Seq<FileRec>, keep: spec_fn(FileRec) -> bool, i: int, k: int)
    requires
        file_ids(files).no_duplicates(),
        0 <= i < files.filter(keep).len(),
        0 <= k < files.filter(keep).len(),
        i != k,
    ensures
        files.filter(keep)[i].id != files.filter(keep)[k].id,
    decreases files.len(),
{
    reveal(Seq::filter);
    let shorter = files.drop_last();
    let before = shorter.filter(keep);
    let after = files.filter(keep);
    assert(file_ids(shorter) =~= file_ids(files).drop_last());
    if i < before.len() && k < before.len() {
        assert(file_ids(shorter).no_duplicates());
        lemma_kept_ids_differ(shorter, keep, i, k);
    } else {
        let other = if i < before.len() {
            i
        } else {
            k
        };
        lemma_filter_members(shorter, keep);
        assert(before.contains(before[other]));
        let j = choose|j: int| 0 <= j < shorter.len() && shorter[j] == before[other];
        assert(file_ids(files)[j] == before[other].id);
        assert(file_ids(files)[files.len() - 1] == files.last().id);
    }
}

/// A batch of files without a size lists, in order, all of them up to the last that it holds; where it is
/// not full, all of them.
pub proof fn unsized_batches_are_complete(files: Seq<FileRec>, after: u64, n: nat)
    ensures
        ({
            let ids = unsized_batch(files, after, n);
            &&& ids.len() <= n
            &&& forall|i: int, k: int| 0 <= i < k < ids.len() ==> #[trigger] ids[i] < #[trigger] ids[k]
            &&& forall|i: int| 0 <= i < ids.len() ==> after < #[trigger] ids[i] && lacks_size(files, ids[i])
            &&& forall|id: u64| #[trigger]
                lacks_size(files, id) && id > after && (ids.len() < n || (ids.len() > 0 && id <= ids.last()))
                    ==> ids.contains(id)
        }),
    decreases n,
{
    if n > 0 {
        lemma_next_unsized(files, after);
        if let Some(first) = next_unsized(files, after) {
            let rest = unsized_batch(files, first, (n - 1) as nat);
            let ids = unsized_batch(files, after, n);
            unsized_batches_are_complete(files, first, (n - 1) as nat);
            assert(ids == seq![first] + rest);
            assert forall|i: int, k: int| 0 <= i < k < ids.len() implies #[trigger] ids[i] < #[trigger] ids[k] by {
                assert(ids[k] == rest[k - 1]);
                if i > 0 {
                    assert(ids[i] == rest[i - 1]);
                }
            }
            assert forall|i: int| 0 <= i < ids.len() implies after < #[trigger] ids[i] && lacks_size(files, ids[i]) by {
                if i > 0 {
                    assert(ids[i] == rest[i - 1]);
                }
            }
            assert forall|id: u64| #[trigger]
                lacks_size(files, id) && id > after && (ids.len() < n || (ids.len() > 0 && id <= ids.last())) implies ids.contains(
                id,
            ) by {
                if id == first {
                    assert(ids[0] == id);
                } else {
                    assert(id > first);
                    if rest.len() > 0 {
                        assert(ids.last() == rest.last());
                    }
                    assert(rest.contains(id));
                    let k = choose|k: int| 0 <= k < rest.len() && rest[k] == id;
                    assert(ids[k + 1] == id);
                }
            }
        } else {
            assert forall|id: u64| lacks_size(files, id) implies id <= after by {
                if id > after {
                    lemma_some_next(files, after, id);
                }
            }
        }
    }
}

proof fn lemma_next_unsized(files: Seq<FileRec>, after: u64)
    ensures
        next_unsized(files, after) matches Some(id) ==> is_next_unsized(files, after, id),
{
}

/// Where a file above an id has no size, there is a first one.
proof fn lemma_some_next(files: Seq<FileRec>, after: u64, id: u64)
    requires
        id > after,
        lacks_size(files, id),
    ensures
        next_unsized(files, after) is Some,
    decreases id,
{
    if forall|other: u64| other > after && #[trigger] lacks_size(files, other) ==> id <= other {
        assert(is_next_unsized(files, after, id));
    } else {
        let other = choose|other: u64| other > after && #[trigger] lacks_size(files, other) && !(id <= other);
        lemma_some_next(files, after, other);
    }
}

} // verus!
