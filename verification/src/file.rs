//! Files: adding them, their digests, and looking them up.
use crate::database::{DbError, DbState, MainDatabase};
use crate::paths::{
    append_extension, extension_appended, extension_set, join_path, set_extension, shard_directory_of, sharded,
    storable, stored_path,
};
use crate::relationship::{file_exists, tag_namespace};
use crate::rows::{
    FileRec, FileRow, HashRec, HashRow, allocate_id, collect_file_ids, digest_keys, file_algorithms, file_hashes,
    file_ids, find_digest, find_file, find_file_algorithm, find_file_id, next_id, opt_file,
};
use crate::settings::storage_id_of;
use crate::text::{lemma_pos, opt_text_copy, pos, views};
use crate::types::{DigestView, FileInternal, FileView, HashesSupported, hashessupportedtokey};
use std::collections::HashSet;
use vstd::prelude::*;

verus! {

broadcast use vstd::std_specs::hash::group_hash_axioms;

/// The id of the file with a hash.
pub open spec fn file_id_of(rows: Seq<FileRec>, hash: Seq<char>) -> Option<u64> {
    let at = pos(file_hashes(rows), Some(hash));
    if at < rows.len() {
        Some(rows[at].id)
    } else {
        None
    }
}

/// The file table after a file has been added, or brought up to date: its size stays where the new
/// one is unknown.
pub open spec fn file_upserted(rows: Seq<FileRec>, file: FileView) -> Seq<FileRec> {
    let at = pos(file_hashes(rows), Some(file.hash));
    if at < rows.len() {
        rows.update(
            at,
            FileRec {
                extension: file.extension,
                storage_id: file.storage_id,
                size_bytes: if file.size_bytes is Some {
                    file.size_bytes
                } else {
                    rows[at].size_bytes
                },
                ..rows[at]
            },
        )
    } else {
        rows.push(
            FileRec {
                id: next_id(file_ids(rows)),
                hash: Some(file.hash),
                extension: file.extension,
                storage_id: file.storage_id,
                size_bytes: file.size_bytes,
            },
        )
    }
}

/// The file table after files have been added, one after the other.
pub open spec fn files_upserted(rows: Seq<FileRec>, files: Seq<FileView>) -> Seq<FileRec>
    decreases files.len(),
{
    if files.len() == 0 {
        rows
    } else {
        file_upserted(files_upserted(rows, files.drop_last()), files.last())
    }
}

/// An added file has an id, and the ids of the others stay.
pub proof fn lemma_file_upserted(rows: Seq<FileRec>, file: FileView)
    ensures
        file_id_of(file_upserted(rows, file), file.hash) is Some,
        forall|hash: Seq<char>|
            file_id_of(rows, hash) is Some ==> #[trigger] file_id_of(file_upserted(rows, file), hash) == file_id_of(
                rows,
                hash,
            ),
{
    let after = file_upserted(rows, file);
    let keys = file_hashes(rows);
    let after_keys = file_hashes(after);
    lemma_pos(keys, Some(file.hash));
    lemma_pos(after_keys, Some(file.hash));
    let at = pos(keys, Some(file.hash));
    if at < rows.len() {
        assert(after_keys =~= keys);
    } else {
        assert(after_keys[rows.len() as int] == Some(file.hash));
    }
    assert forall|hash: Seq<char>| file_id_of(rows, hash) is Some implies #[trigger] file_id_of(after, hash)
        == file_id_of(rows, hash) by {
        lemma_pos(keys, Some(hash));
        lemma_pos(after_keys, Some(hash));
        if at >= rows.len() {
            let i = pos(keys, Some(hash));
            let k = pos(after_keys, Some(hash));
            assert(after_keys[i] == keys[i]);
            if k < i {
                assert(after_keys[k] == keys[k]);
            }
        }
    }
}

/// Added files have ids, and the ids of the others stay.
pub proof fn files_keep_their_ids(rows: Seq<FileRec>, files: Seq<FileView>)
    ensures
        forall|i: int|
            0 <= i < files.len() ==> file_id_of(files_upserted(rows, files), (#[trigger] files[i]).hash) is Some,
        forall|hash: Seq<char>|
            file_id_of(rows, hash) is Some ==> #[trigger] file_id_of(files_upserted(rows, files), hash) == file_id_of(
                rows,
                hash,
            ),
    decreases files.len(),
{
    if files.len() > 0 {
        let shorter = files.drop_last();
        files_keep_their_ids(rows, shorter);
        let before = files_upserted(rows, shorter);
        lemma_file_upserted(before, files.last());
        assert forall|i: int| 0 <= i < files.len() implies file_id_of(
            files_upserted(rows, files),
            (#[trigger] files[i]).hash,
        ) is Some by {
            if i < files.len() - 1 {
                assert(shorter[i] == files[i]);
            }
        }
        assert forall|hash: Seq<char>| file_id_of(rows, hash) is Some implies #[trigger] file_id_of(
            files_upserted(rows, files),
            hash,
        ) == file_id_of(rows, hash) by {
            assert(file_id_of(before, hash) is Some);
        }
    }
}

/// Whether the digest table has a row that a new one would clash with: the file has a digest by the
/// same algorithm, or the digest is known.
pub open spec fn digest_clashes(rows: Seq<HashRec>, digest: HashRec) -> bool {
    pos(file_algorithms(rows), (digest.file_id, digest.algorithm)) < rows.len() || pos(
        digest_keys(rows),
        (digest.algorithm, digest.digest),
    ) < rows.len()
}

/// The digest table after a digest has been added, unless a row clashes with it.
pub open spec fn digest_added(rows: Seq<HashRec>, digest: HashRec) -> Seq<HashRec> {
    if digest_clashes(rows, digest) {
        rows
    } else {
        rows.push(digest)
    }
}

impl DbState {
    /// The files that have a tag in a namespace.
    pub open spec fn files_of_namespace(self, namespace: u64) -> Set<u64> {
        Set::new(
            |f: u64|
                exists|t: u64| self.relationships.contains((f, t)) && tag_namespace(self.tags, t) == Some(namespace),
        )
    }

    /// The row of the file with an id.
    pub open spec fn file(self, id: u64) -> Option<FileRec> {
        let at = pos(file_ids(self.files), id);
        if at < self.files.len() {
            Some(self.files[at])
        } else {
            None
        }
    }

    /// The file with an id, as lookups give it: without its size. Rows without a hash stand for none.
    pub open spec fn file_looked_up(self, id: u64) -> Option<FileView> {
        match self.file(id) {
            Some(row) => match row.file() {
                Some(file) => Some(FileView { size_bytes: None, ..file }),
                None => None,
            },
            None => None,
        }
    }

    /// The file that a digest belongs to.
    pub open spec fn digest_owner(self, digest: DigestView) -> Option<FileView> {
        let at = pos(digest_keys(self.hashes), (digest.algorithm, digest.digest));
        if at < self.hashes.len() {
            self.file_looked_up(self.hashes[at].file_id)
        } else {
            None
        }
    }

    /// The state after a digest of a file has been recorded. Texts that are empty, digests that clash
    /// with a row, and files that do not exist change nothing.
    pub open spec fn with_digest(self, file_id: u64, algorithm: Seq<char>, digest: Seq<char>) -> DbState {
        if algorithm.len() > 0 && digest.len() > 0 && file_exists(self.files, file_id) {
            DbState { hashes: digest_added(self.hashes, HashRec { file_id, algorithm, digest }), ..self }
        } else {
            self
        }
    }
}

/// The file with an id; `None` where its row has no hash.
pub fn lookup_file(rows: &Vec<FileRow>, id: u64) -> (file: Option<FileInternal>)
    ensures
        opt_file(file) == ({
            let at = pos(file_ids(views(rows@)), id);
            if at < rows@.len() {
                views(rows@)[at].file()
            } else {
                None
            }
        }),
{
    let at: usize = find_file_id(rows, id);
    if at < rows.len() {
        rows[at].to_file()
    } else {
        None
    }
}

/// Whether each row of the file table has a hash.
pub open spec fn all_hashed(rows: Seq<FileRec>) -> bool {
    forall|i: int| 0 <= i < rows.len() ==> (#[trigger] rows[i]).hash is Some
}

/// Whether a row clashes with a digest.
fn clashes_with_digest(rows: &Vec<HashRow>, file_id: u64, algorithm: &String, digest: &String) -> (clashes: bool)
    ensures
        clashes == digest_clashes(views(rows@), HashRec { file_id, algorithm: algorithm@, digest: digest@ }),
{
    proof {
        lemma_pos(file_algorithms(views(rows@)), (file_id, algorithm@));
        lemma_pos(digest_keys(views(rows@)), (algorithm@, digest@));
    }
    find_file_algorithm(rows, file_id, algorithm) < rows.len() || find_digest(rows, algorithm, digest) < rows.len()
}

/// Adds a digest, unless a row clashes with it.
pub fn insert_digest(rows: &mut Vec<HashRow>, file_id: u64, algorithm: &String, digest: &String)
    ensures
        views(final(rows)@) == digest_added(
            views(old(rows)@),
            HashRec { file_id, algorithm: algorithm@, digest: digest@ },
        ),
{
    if !clashes_with_digest(rows, file_id, algorithm, digest) {
        let ghost before = views(rows@);
        rows.push(HashRow { file_id, algorithm: algorithm.clone(), digest: digest.clone() });
        assert(views(rows@) =~= before.push(HashRec { file_id, algorithm: algorithm@, digest: digest@ }));
    }
}

fn upsert_file(rows: &mut Vec<FileRow>, file: &FileInternal)
    ensures
        views(final(rows)@) == file_upserted(views(old(rows)@), file@),
{
    let at: usize = find_file(rows, &file.hash);
    let ghost before = views(rows@);
    if at < rows.len() {
        let size_bytes = if file.size_bytes.is_some() {
            file.size_bytes
        } else {
            rows[at].size_bytes
        };
        let row = FileRow {
            id: rows[at].id,
            hash: opt_text_copy(&rows[at].hash),
            extension: file.extension.clone(),
            storage_id: file.storage_id,
            size_bytes,
        };
        rows.set(at, row);
    } else {
        let ids = collect_file_ids(rows);
        let id: u64 = allocate_id(&ids);
        rows.push(
            FileRow {
                id,
                hash: Some(file.hash.clone()),
                extension: file.extension.clone(),
                storage_id: file.storage_id,
                size_bytes: file.size_bytes,
            },
        );
    }
    assert(views(rows@) =~= file_upserted(before, file@));
}

impl MainDatabase {
    /// Adds files, or brings them up to date, and gives each its id.
    pub fn internal_file_bulk_add(&mut self, files: &Vec<FileInternal>) -> (added: Vec<FileInternal>)
        ensures
            final(self)@ == (DbState { files: files_upserted(old(self)@.files, views(files@)), ..old(self)@ }),
            added@.len() == files@.len(),
            forall|i: int|
                0 <= i < added@.len() ==> (#[trigger] added@[i])@ == (FileView {
                    id: file_id_of(final(self)@.files, files@[i].hash@),
                    ..files@[i]@
                }) && added@[i].id is Some,
    {
        let ghost start = self@;
        let ghost all = views(files@);
        let mut i: usize = 0;
        assert(all.take(0) =~= Seq::<FileView>::empty());
        while i < files.len()
            invariant
                i <= files.len(),
                all == views(files@),
                self@ == (DbState { files: files_upserted(start.files, all.take(i as int)), ..start }),
            decreases files.len() - i,
        {
            upsert_file(&mut self.files, &files[i]);
            assert(all.take(i + 1).drop_last() =~= all.take(i as int));
            i += 1;
        }
        proof {
            assert(all.take(i as int) =~= all);
            files_keep_their_ids(start.files, all);
        }
        let mut added: Vec<FileInternal> = Vec::new();
        let mut k: usize = 0;
        while k < files.len()
            invariant
                k <= files.len(),
                all == views(files@),
                added@.len() == k,
                forall|j: int|
                    0 <= j < all.len() ==> file_id_of(self@.files, (#[trigger] all[j]).hash) is Some,
                forall|j: int|
                    0 <= j < k ==> (#[trigger] added@[j])@ == (FileView {
                        id: file_id_of(self@.files, files@[j].hash@),
                        ..files@[j]@
                    }) && added@[j].id is Some,
            decreases files.len() - k,
        {
            let at: usize = find_file(&self.files, &files[k].hash);
            assert(file_id_of(self@.files, all[k as int].hash) is Some);
            let mut file = files[k].copy();
            file.id = Some(self.files[at].id);
            added.push(file);
            k += 1;
        }
        added
    }

    /// Adds files; does nothing where there is none.
    pub fn file_add_bulk(&mut self, files: &Vec<FileInternal>) -> (added: Vec<FileInternal>)
        ensures
            final(self)@ == (DbState { files: files_upserted(old(self)@.files, views(files@)), ..old(self)@ }),
            added@.len() == files@.len(),
            forall|i: int|
                0 <= i < added@.len() ==> (#[trigger] added@[i])@ == (FileView {
                    id: file_id_of(final(self)@.files, files@[i].hash@),
                    ..files@[i]@
                }) && added@[i].id is Some,
    {
        self.internal_file_bulk_add(files)
    }

    /// The file with an id, unless its row has no hash. Its size is not read.
    pub fn internal_file_id_get(&self, file_id: &u64) -> (file: Result<FileInternal, DbError>)
        ensures
            match file {
                Ok(found) => self@.file_looked_up(*file_id) == Some(found@),
                Err(error) => self@.file_looked_up(*file_id) is None && error == (if self@.file(*file_id) is None {
                    DbError::QueryReturnedNoRows
                } else {
                    DbError::MissingValue
                }),
            },
    {
        let at: usize = find_file_id(&self.files, *file_id);
        if at == self.files.len() {
            return Err(DbError::QueryReturnedNoRows);
        }
        assert(self@.files[at as int] == self.files@[at as int]@);
        match self.files[at].to_file() {
            Some(found) => {
                let mut file = found;
                file.size_bytes = None;
                Ok(file)
            },
            None => Err(DbError::MissingValue),
        }
    }

    /// The file with an id, unless its row has no hash. Its size is not read.
    pub fn file_id_get(&self, file_id: u64) -> (file: Option<FileInternal>)
        ensures
            opt_file(file) == self@.file_looked_up(file_id),
    {
        match self.internal_file_id_get(&file_id) {
            Ok(file) => Some(file),
            Err(_) => None,
        }
    }

    /// All files. A row without a hash is refused.
    pub fn internal_file_get_all(&self) -> (files: Result<Vec<FileInternal>, DbError>)
        ensures
            match files {
                Ok(files) => all_hashed(self@.files) && files@.len() == self@.files.len() && forall|i: int|
                    0 <= i < files@.len() ==> Some((#[trigger] files@[i])@) == self@.files[i].file(),
                Err(error) => error == DbError::MissingValue && !all_hashed(self@.files),
            },
    {
        let mut files: Vec<FileInternal> = Vec::new();
        let mut i: usize = 0;
        while i < self.files.len()
            invariant
                i <= self.files.len(),
                files@.len() == i,
                forall|k: int| 0 <= k < i ==> Some((#[trigger] files@[k])@) == self@.files[k].file(),
            decreases self.files.len() - i,
        {
            assert(self@.files[i as int] == self.files@[i as int]@);
            match self.files[i].to_file() {
                Some(file) => {
                    files.push(file);
                },
                None => {
                    return Err(DbError::MissingValue);
                },
            }
            i += 1;
        }
        assert forall|k: int| 0 <= k < self@.files.len() implies (#[trigger] self@.files[k]).hash is Some by {
            assert(Some(files@[k]@) == self@.files[k].file());
        }
        Ok(files)
    }

    /// The ids of all files.
    pub fn internal_file_id_get_all(&self) -> (ids: HashSet<u64>)
        ensures
            ids@ == file_ids(self@.files).to_set(),
    {
        let list = collect_file_ids(&self.files);
        crate::sets::set_of(&list)
    }

    /// The ids of all files.
    pub fn file_id_get_all_sync(&self) -> (ids: HashSet<u64>)
        ensures
            ids@ == file_ids(self@.files).to_set(),
    {
        self.internal_file_id_get_all()
    }

    /// The ids and the places of all storage locations.
    pub fn internal_file_storage_get_all(&self) -> (locations: Vec<(u64, String)>)
        ensures
            locations@.len() == self@.storage.len(),
            forall|i: int|
                0 <= i < locations@.len() ==> (#[trigger] locations@[i]).0 == self@.storage[i].id && locations@[i].1@
                    == self@.storage[i].location,
    {
        let mut locations: Vec<(u64, String)> = Vec::new();
        let mut i: usize = 0;
        while i < self.storage.len()
            invariant
                i <= self.storage.len(),
                locations@.len() == i,
                forall|k: int|
                    0 <= k < i ==> (#[trigger] locations@[k]).0 == self@.storage[k].id && locations@[k].1@
                        == self@.storage[k].location,
            decreases self.storage.len() - i,
        {
            locations.push((self.storage[i].id, self.storage[i].location.clone()));
            i += 1;
        }
        locations
    }

    /// The file that a digest belongs to. Its size is not read.
    pub fn contains_hash_sync(&self, hash: &HashesSupported) -> (file: Option<FileInternal>)
        ensures
            opt_file(file) == self@.digest_owner(hash@),
    {
        let (algorithm, digest) = hashessupportedtokey(hash);
        let at: usize = find_digest(&self.hashes, &algorithm, &digest);
        if at < self.hashes.len() {
            self.file_id_get(self.hashes[at].file_id)
        } else {
            None
        }
    }

    /// The files that digests belong to, for those digests that are known. Their sizes are not read.
    pub fn hashes_files_get_sync(&self, hashes: &Vec<HashesSupported>) -> (files: Vec<((String, String), FileInternal)>)
        ensures
            owners_view(files@) == self@.digest_owners(views(hashes@)),
    {
        let ghost all = views(hashes@);
        let mut files: Vec<((String, String), FileInternal)> = Vec::new();
        let mut i: usize = 0;
        assert(all.take(0) =~= Seq::<DigestView>::empty());
        assert(owners_view(files@) =~= self@.digest_owners(all.take(0)));
        while i < hashes.len()
            invariant
                i <= hashes.len(),
                all == views(hashes@),
                owners_view(files@) == self@.digest_owners(all.take(i as int)),
            decreases hashes.len() - i,
        {
            proof {
                assert(all.take(i + 1).drop_last() =~= all.take(i as int));
                assert(all.take(i + 1).last() == hashes@[i as int]@);
            }
            if let Some(file) = self.contains_hash_sync(&hashes[i]) {
                let key = hashessupportedtokey(&hashes[i]);
                let ghost before = owners_view(files@);
                let ghost found = file@;
                files.push((key, file));
                assert(owners_view(files@) =~= before.push((hashes@[i as int]@, found)));
            }
            i += 1;
        }
        assert(all.take(i as int) =~= all);
        files
    }

    /// Records a digest of a file: how many rows were written, or why none could be.
    pub fn internal_file_hash_add(&mut self, algo: &String, hash: &String, file_id: &u64) -> (written: Result<
        usize,
        DbError,
    >)
        ensures
            final(self)@ == old(self)@.with_digest(*file_id, algo@, hash@),
            ({
                let row = HashRec { file_id: *file_id, algorithm: algo@, digest: hash@ };
                match written {
                    Ok(rows) => if algo@.len() > 0 && hash@.len() > 0 && !digest_clashes(old(self)@.hashes, row) {
                        rows == 1 && file_exists(old(self)@.files, *file_id)
                    } else {
                        rows == 0
                    },
                    Err(error) => error == DbError::ForeignKey && algo@.len() > 0 && hash@.len() > 0 && !digest_clashes(
                        old(self)@.hashes,
                        row,
                    ) && !file_exists(old(self)@.files, *file_id),
                }
            }),
    {
        if algo.as_str().is_empty() || hash.as_str().is_empty() {
            return Ok(0);
        }
        if clashes_with_digest(&self.hashes, *file_id, algo, hash) {
            return Ok(0);
        }
        proof {
            lemma_pos(file_ids(self@.files), *file_id);
        }
        if find_file_id(&self.files, *file_id) == self.files.len() {
            return Err(DbError::ForeignKey);
        }
        insert_digest(&mut self.hashes, *file_id, algo, hash);
        Ok(1)
    }

    /// The algorithms and digests of a file.
    pub fn file_hashes_get(&self, file_id: &u64) -> (hashes: Vec<(String, String)>)
        ensures
            views(hashes@) == digests_of(self@.hashes, *file_id),
    {
        let ghost rows = self@.hashes;
        let mut hashes: Vec<(String, String)> = Vec::new();
        let mut i: usize = 0;
        assert(rows.take(0) =~= Seq::<HashRec>::empty());
        assert(views(hashes@) =~= digests_of(rows.take(0), *file_id));
        while i < self.hashes.len()
            invariant
                i <= self.hashes.len(),
                rows == self@.hashes,
                views(hashes@) == digests_of(rows.take(i as int), *file_id),
            decreases self.hashes.len() - i,
        {
            assert(rows.take(i + 1).drop_last() =~= rows.take(i as int));
            if self.hashes[i].file_id == *file_id {
                let ghost before = views(hashes@);
                hashes.push((self.hashes[i].algorithm.clone(), self.hashes[i].digest.clone()));
                assert(views(hashes@) =~= before.push((rows[i as int].algorithm, rows[i as int].digest)));
            }
            i += 1;
        }
        assert(rows.take(i as int) =~= rows);
        hashes
    }

    /// The files that have a tag in a namespace.
    pub fn internal_file_id_get_namespace_id(&self, namespace_id: &u64) -> (files: HashSet<u64>)
        ensures
            files@ == self@.files_of_namespace(*namespace_id),
    {
        let ghost rows = self.relationships@;
        let mut files: HashSet<u64> = HashSet::new();
        let mut i: usize = 0;
        while i < self.relationships.len()
            invariant
                i <= self.relationships.len(),
                rows == self.relationships@,
                forall|f: u64| #[trigger]
                    files@.contains(f) <==> exists|k: int|
                        0 <= k < i && (#[trigger] rows[k]).0 == f && tag_namespace(self@.tags, rows[k].1) == Some(
                            *namespace_id,
                        ),
            decreases self.relationships.len() - i,
        {
            let (file_id, tag_id) = self.relationships[i];
            let ghost before = files@;
            if let Some(namespace) = crate::relationship::namespace_of_tag(&self.tags, tag_id) {
                if namespace == *namespace_id {
                    files.insert(file_id);
                }
            }
            assert forall|f: u64| #[trigger] files@.contains(f) <==> exists|k: int|
                0 <= k < i + 1 && (#[trigger] rows[k]).0 == f && tag_namespace(self@.tags, rows[k].1) == Some(
                    *namespace_id,
                ) by {
                if before.contains(f) {
                    let k = choose|k: int|
                        0 <= k < i && (#[trigger] rows[k]).0 == f && tag_namespace(self@.tags, rows[k].1) == Some(
                            *namespace_id,
                        );
                    assert(rows[k].0 == f);
                }
                if files@.contains(f) && !before.contains(f) {
                    assert(rows[i as int].0 == f);
                }
            }
            i += 1;
        }
        proof {
            assert forall|f: u64| #[trigger] files@.contains(f) <==> exists|t: u64|
                self@.relationships.contains((f, t)) && tag_namespace(self@.tags, t) == Some(*namespace_id) by {
                if files@.contains(f) {
                    let k = choose|k: int|
                        0 <= k < i && (#[trigger] rows[k]).0 == f && tag_namespace(self@.tags, rows[k].1) == Some(
                            *namespace_id,
                        );
                    assert(rows.contains(rows[k]));
                    assert(self@.relationships.contains((f, rows[k].1)));
                }
                if exists|t: u64|
                    self@.relationships.contains((f, t)) && tag_namespace(self@.tags, t) == Some(*namespace_id) {
                    let t = choose|t: u64|
                        self@.relationships.contains((f, t)) && tag_namespace(self@.tags, t) == Some(*namespace_id);
                    assert(rows.contains((f, t)));
                    let k = choose|k: int| 0 <= k < rows.len() && rows[k] == (f, t);
                    assert(rows[k].0 == f);
                }
            }
            assert(files@ =~= self@.files_of_namespace(*namespace_id));
        }
        files
    }

    /// The files that have a tag in a namespace.
    pub fn file_id_get_namespace_id_sync(&self, namespace_id: &u64) -> (files: HashSet<u64>)
        ensures
            files@ == self@.files_of_namespace(*namespace_id),
    {
        self.internal_file_id_get_namespace_id(namespace_id)
    }

    /// The full path that a file is stored under, and the id of its storage location; `None` where the
    /// hash is too short.
    pub fn file_download_location_get_sync(&mut self, hash: &str, ext: &str) -> (location: Option<(String, u64)>)
        requires
            storable(hash@) ==> sharded(hash@),
        ensures
            location is Some <==> storable(hash@),
            final(self)@ == (if storable(hash@) {
                old(self)@.with_download_location()
            } else {
                old(self)@
            }),
            location matches Some(found) ==> found.0@ == extension_set(
                stored_path(old(self)@.download_location(), hash@),
                ext@,
            ) && storage_id_of(final(self)@.storage, old(self)@.download_location()) == Some(found.1),
    {
        if hash.as_bytes().len() <= 6 {
            return None;
        }
        let (base, storage_id) = self.internal_file_download_location_get();
        let directory = shard_directory_of(base.as_str(), hash);
        let path = join_path(directory.as_str(), hash);
        Some((set_extension(path.as_str(), ext), storage_id))
    }
}

/// The algorithms and digests of a file among rows.
pub open spec fn digests_of(rows: Seq<HashRec>, file_id: u64) -> Seq<(Seq<char>, Seq<char>)>
    decreases rows.len(),
{
    if rows.len() == 0 {
        Seq::empty()
    } else {
        let before = digests_of(rows.drop_last(), file_id);
        if rows.last().file_id == file_id {
            before.push((rows.last().algorithm, rows.last().digest))
        } else {
            before
        }
    }
}

/// The view of files with the digests that they were found by.
pub open spec fn owners_view(files: Seq<((String, String), FileInternal)>) -> Seq<(DigestView, FileView)> {
    Seq::new(
        files.len(),
        |i: int| (DigestView { algorithm: files[i].0.0@, digest: files[i].0.1@ }, files[i].1@),
    )
}

impl DbState {
    /// The files that digests belong to, for those digests that are known.
    pub open spec fn digest_owners(self, digests: Seq<DigestView>) -> Seq<(DigestView, FileView)>
        decreases digests.len(),
    {
        if digests.len() == 0 {
            Seq::empty()
        } else {
            let before = self.digest_owners(digests.drop_last());
            match self.digest_owner(digests.last()) {
                Some(file) => before.push((digests.last(), file)),
                None => before,
            }
        }
    }
}

/// Where a stored file is looked for: under its full name, and under its name without an extension.
#[derive(Debug, Clone)]
pub struct FileLocation {
    pub full: String,
    pub bare: String,
}

impl MainDatabase {
    /// Where a file is looked for below a base; `None` where its hash is too short.
    pub fn get_file_location(file: &FileInternal, base: &String) -> (location: Option<FileLocation>)
        requires
            storable(file.hash@) ==> sharded(file.hash@),
        ensures
            location is Some <==> storable(file.hash@),
            location matches Some(found) ==> {
                let full = extension_appended(stored_path(base@, file.hash@), file.extension@);
                &&& found.full@ == full
                &&& found.bare@ == extension_set(full, Seq::empty())
            },
    {
        if file.hash.as_str().as_bytes().len() <= 6 {
            return None;
        }
        let directory = shard_directory_of(base.as_str(), file.hash.as_str());
        let path = join_path(directory.as_str(), file.hash.as_str());
        let full = append_extension(path.as_str(), file.extension.as_str());
        let bare = set_extension(full.as_str(), "");
        proof {
            reveal_strlit("");
            assert(""@ =~= Seq::<char>::empty());
        }
        Some(FileLocation { full, bare })
    }
}

} // verus!
