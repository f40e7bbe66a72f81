//! The rows of the tables, the keys they are found by, and the ids they get.
use crate::text::{opt_text, pos, pos_from, views};
use crate::types::{
    DbJobView, DbJobsObj, DbSettingsObj, FileInternal, FileView, JobView, ParamView, PluginJob, SettingView, Tag,
    TagParents, TagView, params_same,
};
use vstd::prelude::*;

verus! {

/// A row of the namespace table.
#[derive(Debug, Clone)]
pub struct NamespaceRow {
    pub id: u64,
    pub name: String,
    pub description: Option<String>,
}

/// The view of a [`NamespaceRow`].
pub struct NamespaceRec {
    pub id: u64,
    pub name: Seq<char>,
    pub description: Option<Seq<char>>,
}

impl View for NamespaceRow {
    type V = NamespaceRec;

    open spec fn view(&self) -> NamespaceRec {
        NamespaceRec { id: self.id, name: self.name@, description: opt_text(self.description) }
    }
}

/// A row of the tag table. `count` is how often the tag was given to a file.
#[derive(Debug, Clone)]
pub struct TagRow {
    pub id: u64,
    pub name: String,
    pub namespace: u64,
    pub count: u64,
}

/// The view of a [`TagRow`].
pub struct TagRec {
    pub id: u64,
    pub name: Seq<char>,
    pub namespace: u64,
    pub count: u64,
}

impl View for TagRow {
    type V = TagRec;

    open spec fn view(&self) -> TagRec {
        TagRec { id: self.id, name: self.name@, namespace: self.namespace, count: self.count }
    }
}

/// A row of the table of structural relations between tags.
#[derive(Debug, Clone, Copy, PartialEq, Eq, Structural)]
pub struct ParentRow {
    pub id: u64,
    pub relation: TagParents,
}

impl View for ParentRow {
    type V = ParentRow;

    open spec fn view(&self) -> ParentRow {
        *self
    }
}

/// A row of the table of storage locations.
#[derive(Debug, Clone)]
pub struct StorageRow {
    pub id: u64,
    pub location: String,
}

/// The view of a [`StorageRow`].
pub struct StorageRec {
    pub id: u64,
    pub location: Seq<char>,
}

impl View for StorageRow {
    type V = StorageRec;

    open spec fn view(&self) -> StorageRec {
        StorageRec { id: self.id, location: self.location@ }
    }
}

/// A row of the file table. One without a hash has no extension either: its text is empty.
#[derive(Debug, Clone)]
pub struct FileRow {
    pub id: u64,
    pub hash: Option<String>,
    pub extension: String,
    pub storage_id: u64,
    pub size_bytes: Option<u64>,
}

/// The view of a [`FileRow`].
pub struct FileRec {
    pub id: u64,
    pub hash: Option<Seq<char>>,
    pub extension: Seq<char>,
    pub storage_id: u64,
    pub size_bytes: Option<u64>,
}

impl View for FileRow {
    type V = FileRec;

    open spec fn view(&self) -> FileRec {
        FileRec {
            id: self.id,
            hash: opt_text(self.hash),
            extension: self.extension@,
            storage_id: self.storage_id,
            size_bytes: self.size_bytes,
        }
    }
}

/// The view of an optional file.
pub open spec fn opt_file(file: Option<FileInternal>) -> Option<FileView> {
    match file {
        Some(found) => Some(found@),
        None => None,
    }
}

impl FileRec {
    /// The file that a row stands for; none where it has no hash.
    pub open spec fn file(self) -> Option<FileView> {
        match self.hash {
            Some(hash) => Some(
                FileView {
                    id: Some(self.id),
                    hash,
                    extension: self.extension,
                    storage_id: self.storage_id,
                    size_bytes: self.size_bytes,
                },
            ),
            None => None,
        }
    }
}

impl FileRow {
    /// The file that the row stands for; `None` where it has no hash.
    pub fn to_file(&self) -> (file: Option<FileInternal>)
        ensures
            opt_file(file) == self@.file(),
    {
        match &self.hash {
            Some(hash) => Some(
                FileInternal {
                    id: Some(self.id),
                    hash: hash.clone(),
                    extension: self.extension.clone(),
                    storage_id: self.storage_id,
                    size_bytes: self.size_bytes,
                },
            ),
            None => None,
        }
    }
}

/// A row of the table of digests.
#[derive(Debug, Clone)]
pub struct HashRow {
    pub file_id: u64,
    pub algorithm: String,
    pub digest: String,
}

/// The view of a [`HashRow`].
pub struct HashRec {
    pub file_id: u64,
    pub algorithm: Seq<char>,
    pub digest: Seq<char>,
}

impl View for HashRow {
    type V = HashRec;

    open spec fn view(&self) -> HashRec {
        HashRec { file_id: self.file_id, algorithm: self.algorithm@, digest: self.digest@ }
    }
}

/// The largest id that a table gives out in ascending order.
pub const MAX_ROWID: u64 = 0x7fff_ffff_ffff_ffff;

/// The largest of some ids; zero where there is none.
pub open spec fn max_id(ids: Seq<u64>) -> u64
    decreases ids.len(),
{
    if ids.len() == 0 {
        0
    } else if ids.last() > max_id(ids.drop_last()) {
        ids.last()
    } else {
        max_id(ids.drop_last())
    }
}

/// Whether `id` is the smallest number that is no id yet.
pub open spec fn is_lowest_free(ids: Seq<u64>, id: u64) -> bool {
    &&& !ids.contains(id)
    &&& forall|k: u64| k < id ==> ids.contains(k)
}

/// The id that the next row of a table gets: one more than the largest, and where that is
/// exhausted, the smallest that is free.
pub open spec fn next_id(ids: Seq<u64>) -> u64 {
    if max_id(ids) < MAX_ROWID {
        (max_id(ids) + 1) as u64
    } else {
        choose|id: u64| is_lowest_free(ids, id)
    }
}

pub proof fn lemma_max_id(ids: Seq<u64>)
    ensures
        forall|i: int| 0 <= i < ids.len() ==> ids[i] <= max_id(ids),
    decreases ids.len(),
{
    if ids.len() > 0 {
        lemma_max_id(ids.drop_last());
        assert forall|i: int| 0 <= i < ids.len() implies ids[i] <= max_id(ids) by {
            if i < ids.len() - 1 {
                assert(ids.drop_last()[i] == ids[i]);
            }
        }
    }
}

proof fn lemma_used_ids(ids: Seq<u64>, bound: u64)
    requires
        forall|k: u64| k <= bound ==> ids.contains(k),
    ensures
        bound < ids.len(),
{
    let used = ids.to_set();
    let low = Set::new(|k: u64| k <= bound);
    let numbers = vstd::set_lib::set_int_range(0, bound + 1);
    vstd::set_lib::lemma_int_range(0, bound + 1);
    assert(numbers.map(|k: int| k as u64) =~= low) by {
        assert forall|k: u64| low.contains(k) implies numbers.map(|k: int| k as u64).contains(k) by {
            assert(numbers.contains(k as int) && (k as int) as u64 == k);
        }
    }
    vstd::set_lib::lemma_map_size(numbers, low, |k: int| k as u64);
    ids.lemma_cardinality_of_set();
    vstd::seq_lib::seq_to_set_is_finite(ids);
    assert(low.subset_of(used));
    vstd::set_lib::lemma_len_subset(low, used);
}

/// The next id is no id yet.
pub proof fn next_id_is_fresh(ids: Seq<u64>)
    requires
        ids.len() <= u64::MAX,
    ensures
        !ids.contains(next_id(ids)),
{
    lemma_max_id(ids);
    if max_id(ids) >= MAX_ROWID {
        lemma_lowest_free_exists(ids, 0);
    }
}

proof fn lemma_lowest_free_exists(ids: Seq<u64>, from: u64)
    requires
        ids.len() <= u64::MAX,
        forall|k: u64| k < from ==> ids.contains(k),
    ensures
        exists|id: u64| is_lowest_free(ids, id),
    decreases u64::MAX - from,
{
    if ids.contains(from) {
        assert forall|k: u64| k <= from implies ids.contains(k) by {
            if k < from {
            }
        }
        lemma_used_ids(ids, from);
        lemma_lowest_free_exists(ids, (from + 1) as u64);
    } else {
        assert(is_lowest_free(ids, from));
    }
}

fn holds_id(ids: &Vec<u64>, id: u64) -> (found: bool)
    ensures
        found == ids@.contains(id),
{
    let mut i: usize = 0;
    while i < ids.len()
        invariant
            i <= ids.len(),
            forall|k: int| 0 <= k < i ==> ids@[k] != id,
        decreases ids.len() - i,
    {
        if ids[i] == id {
            return true;
        }
        i += 1;
    }
    false
}

/// The id that the next row gets.
pub fn allocate_id(ids: &Vec<u64>) -> (id: u64)
    ensures
        id == next_id(ids@),
{
    let mut max: u64 = 0;
    let mut i: usize = 0;
    while i < ids.len()
        invariant
            i <= ids.len(),
            max == max_id(ids@.take(i as int)),
        decreases ids.len() - i,
    {
        assert(ids@.take(i + 1).drop_last() =~= ids@.take(i as int));
        if ids[i] > max {
            max = ids[i];
        }
        i += 1;
    }
    assert(ids@.take(i as int) =~= ids@);
    if max < MAX_ROWID {
        return max + 1;
    }
    let mut candidate: u64 = 0;
    while holds_id(ids, candidate)
        invariant
            ids@.len() <= usize::MAX,
            forall|k: u64| k < candidate ==> ids@.contains(k),
        decreases u64::MAX - candidate,
    {
        proof {
            assert forall|k: u64| k <= candidate implies ids@.contains(k) by {
                if k < candidate {
                }
            }
            lemma_used_ids(ids@, candidate);
        }
        candidate += 1;
    }
    assert(is_lowest_free(ids@, candidate));
    candidate
}

/// The ids of the namespaces.
pub open spec fn namespace_ids(rows: Seq<NamespaceRec>) -> Seq<u64> {
    Seq::new(rows.len(), |i: int| rows[i].id)
}

/// The ids of the namespaces.
pub fn collect_namespace_ids(rows: &Vec<NamespaceRow>) -> (ids: Vec<u64>)
    ensures
        ids@ == namespace_ids(views(rows@)),
{
    let mut ids: Vec<u64> = Vec::new();
    let mut i: usize = 0;
    while i < rows.len()
        invariant
            i == ids.len(),
            i <= rows.len(),
            forall|k: int| 0 <= k < i ==> ids@[k] == rows@[k].id,
        decreases rows.len() - i,
    {
        ids.push(rows[i].id);
        i += 1;
    }
    assert(ids@ =~= namespace_ids(views(rows@)));
    ids
}

/// The ids of the tags.
pub open spec fn tag_ids(rows: Seq<TagRec>) -> Seq<u64> {
    Seq::new(rows.len(), |i: int| rows[i].id)
}

/// The ids of the tags.
pub fn collect_tag_ids(rows: &Vec<TagRow>) -> (ids: Vec<u64>)
    ensures
        ids@ == tag_ids(views(rows@)),
{
    let mut ids: Vec<u64> = Vec::new();
    let mut i: usize = 0;
    while i < rows.len()
        invariant
            i == ids.len(),
            i <= rows.len(),
            forall|k: int| 0 <= k < i ==> ids@[k] == rows@[k].id,
        decreases rows.len() - i,
    {
        ids.push(rows[i].id);
        i += 1;
    }
    assert(ids@ =~= tag_ids(views(rows@)));
    ids
}

/// The ids of the relations.
pub open spec fn parent_ids(rows: Seq<ParentRow>) -> Seq<u64> {
    Seq::new(rows.len(), |i: int| rows[i].id)
}

/// The ids of the relations.
pub fn collect_parent_ids(rows: &Vec<ParentRow>) -> (ids: Vec<u64>)
    ensures
        ids@ == parent_ids(views(rows@)),
{
    let mut ids: Vec<u64> = Vec::new();
    let mut i: usize = 0;
    while i < rows.len()
        invariant
            i == ids.len(),
            i <= rows.len(),
            forall|k: int| 0 <= k < i ==> ids@[k] == rows@[k].id,
        decreases rows.len() - i,
    {
        ids.push(rows[i].id);
        i += 1;
    }
    assert(ids@ =~= parent_ids(views(rows@)));
    ids
}

/// The ids of the storage locations.
pub open spec fn storage_ids(rows: Seq<StorageRec>) -> Seq<u64> {
    Seq::new(rows.len(), |i: int| rows[i].id)
}

/// The ids of the storage locations.
pub fn collect_storage_ids(rows: &Vec<StorageRow>) -> (ids: Vec<u64>)
    ensures
        ids@ == storage_ids(views(rows@)),
{
    let mut ids: Vec<u64> = Vec::new();
    let mut i: usize = 0;
    while i < rows.len()
        invariant
            i == ids.len(),
            i <= rows.len(),
            forall|k: int| 0 <= k < i ==> ids@[k] == rows@[k].id,
        decreases rows.len() - i,
    {
        ids.push(rows[i].id);
        i += 1;
    }
    assert(ids@ =~= storage_ids(views(rows@)));
    ids
}

/// The ids of the files.
pub open spec fn file_ids(rows: Seq<FileRec>) -> Seq<u64> {
    Seq::new(rows.len(), |i: int| rows[i].id)
}

/// The ids of the files.
pub fn collect_file_ids(rows: &Vec<FileRow>) -> (ids: Vec<u64>)
    ensures
        ids@ == file_ids(views(rows@)),
{
    let mut ids: Vec<u64> = Vec::new();
    let mut i: usize = 0;
    while i < rows.len()
        invariant
            i == ids.len(),
            i <= rows.len(),
            forall|k: int| 0 <= k < i ==> ids@[k] == rows@[k].id,
        decreases rows.len() - i,
    {
        ids.push(rows[i].id);
        i += 1;
    }
    assert(ids@ =~= file_ids(views(rows@)));
    ids
}

/// The ids of the jobs.
pub open spec fn job_ids(rows: Seq<DbJobView>) -> Seq<u64> {
    Seq::new(rows.len(), |i: int| rows[i].id)
}

/// The ids of the jobs.
pub fn collect_job_ids(rows: &Vec<DbJobsObj>) -> (ids: Vec<u64>)
    ensures
        ids@ == job_ids(views(rows@)),
{
    let mut ids: Vec<u64> = Vec::new();
    let mut i: usize = 0;
    while i < rows.len()
        invariant
            i == ids.len(),
            i <= rows.len(),
            forall|k: int| 0 <= k < i ==> ids@[k] == rows@[k].id,
        decreases rows.len() - i,
    {
        ids.push(rows[i].id);
        i += 1;
    }
    assert(ids@ =~= job_ids(views(rows@)));
    ids
}

/// The names of the namespaces.
pub open spec fn namespace_names(rows: Seq<NamespaceRec>) -> Seq<Seq<char>> {
    Seq::new(rows.len(), |i: int| rows[i].name)
}

/// The position of the namespace called `name`.
pub fn find_namespace(rows: &Vec<NamespaceRow>, name: &String) -> (at: usize)
    ensures
        at == pos(namespace_names(views(rows@)), name@),
        at <= rows.len(),
{
    let mut i: usize = 0;
    let ghost keys = namespace_names(views(rows@));
    while i < rows.len()
        invariant
            i <= rows.len(),
            keys == namespace_names(views(rows@)),
            pos(keys, name@) == pos_from(keys, name@, i as int),
        decreases rows.len() - i,
    {
        if rows[i].name == *name {
            return i;
        }
        i += 1;
    }
    i
}

/// The position of the namespace with this id.
pub fn find_namespace_id(rows: &Vec<NamespaceRow>, id: u64) -> (at: usize)
    ensures
        at == pos(namespace_ids(views(rows@)), id),
        at <= rows.len(),
{
    let mut i: usize = 0;
    let ghost keys = namespace_ids(views(rows@));
    while i < rows.len()
        invariant
            i <= rows.len(),
            keys == namespace_ids(views(rows@)),
            pos(keys, id) == pos_from(keys, id, i as int),
        decreases rows.len() - i,
    {
        if rows[i].id == id {
            return i;
        }
        i += 1;
    }
    i
}

/// The name and the namespace of each tag.
pub open spec fn tag_keys(rows: Seq<TagRec>) -> Seq<(Seq<char>, u64)> {
    Seq::new(rows.len(), |i: int| (rows[i].name, rows[i].namespace))
}

/// The position of the tag with this name in this namespace.
pub fn find_tag(rows: &Vec<TagRow>, name: &String, namespace: u64) -> (at: usize)
    ensures
        at == pos(tag_keys(views(rows@)), (name@, namespace)),
        at <= rows.len(),
{
    let mut i: usize = 0;
    let ghost keys = tag_keys(views(rows@));
    while i < rows.len()
        invariant
            i <= rows.len(),
            keys == tag_keys(views(rows@)),
            pos(keys, (name@, namespace)) == pos_from(keys, (name@, namespace), i as int),
        decreases rows.len() - i,
    {
        if rows[i].namespace == namespace && rows[i].name == *name {
            return i;
        }
        i += 1;
    }
    i
}

/// The position of the tag with this id.
pub fn find_tag_id(rows: &Vec<TagRow>, id: u64) -> (at: usize)
    ensures
        at == pos(tag_ids(views(rows@)), id),
        at <= rows.len(),
{
    let mut i: usize = 0;
    let ghost keys = tag_ids(views(rows@));
    while i < rows.len()
        invariant
            i <= rows.len(),
            keys == tag_ids(views(rows@)),
            pos(keys, id) == pos_from(keys, id, i as int),
        decreases rows.len() - i,
    {
        if rows[i].id == id {
            return i;
        }
        i += 1;
    }
    i
}

/// The relations of the rows.
pub open spec fn parent_relations(rows: Seq<ParentRow>) -> Seq<TagParents> {
    Seq::new(rows.len(), |i: int| rows[i].relation)
}

/// The position of this relation.
pub fn find_parent(rows: &Vec<ParentRow>, relation: TagParents) -> (at: usize)
    ensures
        at == pos(parent_relations(views(rows@)), relation),
        at <= rows.len(),
{
    let mut i: usize = 0;
    let ghost keys = parent_relations(views(rows@));
    while i < rows.len()
        invariant
            i <= rows.len(),
            keys == parent_relations(views(rows@)),
            pos(keys, relation) == pos_from(keys, relation, i as int),
        decreases rows.len() - i,
    {
        if rows[i].relation == relation {
            return i;
        }
        i += 1;
    }
    i
}

/// The places of the storage locations.
pub open spec fn storage_locations(rows: Seq<StorageRec>) -> Seq<Seq<char>> {
    Seq::new(rows.len(), |i: int| rows[i].location)
}

/// The position of the storage location at this place.
pub fn find_storage(rows: &Vec<StorageRow>, location: &String) -> (at: usize)
    ensures
        at == pos(storage_locations(views(rows@)), location@),
        at <= rows.len(),
{
    let mut i: usize = 0;
    let ghost keys = storage_locations(views(rows@));
    while i < rows.len()
        invariant
            i <= rows.len(),
            keys == storage_locations(views(rows@)),
            pos(keys, location@) == pos_from(keys, location@, i as int),
        decreases rows.len() - i,
    {
        if rows[i].location == *location {
            return i;
        }
        i += 1;
    }
    i
}

/// The position of the storage location with this id.
pub fn find_storage_id(rows: &Vec<StorageRow>, id: u64) -> (at: usize)
    ensures
        at == pos(storage_ids(views(rows@)), id),
        at <= rows.len(),
{
    let mut i: usize = 0;
    let ghost keys = storage_ids(views(rows@));
    while i < rows.len()
        invariant
            i <= rows.len(),
            keys == storage_ids(views(rows@)),
            pos(keys, id) == pos_from(keys, id, i as int),
        decreases rows.len() - i,
    {
        if rows[i].id == id {
            return i;
        }
        i += 1;
    }
    i
}

/// The hashes of the files.
pub open spec fn file_hashes(rows: Seq<FileRec>) -> Seq<Option<Seq<char>>> {
    Seq::new(rows.len(), |i: int| rows[i].hash)
}

/// The position of the file with this hash.
pub fn find_file(rows: &Vec<FileRow>, hash: &String) -> (at: usize)
    ensures
        at == pos(file_hashes(views(rows@)), Some(hash@)),
        at <= rows.len(),
{
    let mut i: usize = 0;
    let ghost keys = file_hashes(views(rows@));
    while i < rows.len()
        invariant
            i <= rows.len(),
            keys == file_hashes(views(rows@)),
            pos(keys, Some(hash@)) == pos_from(keys, Some(hash@), i as int),
        decreases rows.len() - i,
    {
        if let Some(own) = &rows[i].hash {
            if *own == *hash {
                return i;
            }
        }
        i += 1;
    }
    i
}

/// The position of the file with this id.
pub fn find_file_id(rows: &Vec<FileRow>, id: u64) -> (at: usize)
    ensures
        at == pos(file_ids(views(rows@)), id),
        at <= rows.len(),
{
    let mut i: usize = 0;
    let ghost keys = file_ids(views(rows@));
    while i < rows.len()
        invariant
            i <= rows.len(),
            keys == file_ids(views(rows@)),
            pos(keys, id) == pos_from(keys, id, i as int),
        decreases rows.len() - i,
    {
        if rows[i].id == id {
            return i;
        }
        i += 1;
    }
    i
}

/// The algorithm and the digest of each row.
pub open spec fn digest_keys(rows: Seq<HashRec>) -> Seq<(Seq<char>, Seq<char>)> {
    Seq::new(rows.len(), |i: int| (rows[i].algorithm, rows[i].digest))
}

/// The position of this digest.
pub fn find_digest(rows: &Vec<HashRow>, algorithm: &String, digest: &String) -> (at: usize)
    ensures
        at == pos(digest_keys(views(rows@)), (algorithm@, digest@)),
        at <= rows.len(),
{
    let mut i: usize = 0;
    let ghost keys = digest_keys(views(rows@));
    while i < rows.len()
        invariant
            i <= rows.len(),
            keys == digest_keys(views(rows@)),
            pos(keys, (algorithm@, digest@)) == pos_from(keys, (algorithm@, digest@), i as int),
        decreases rows.len() - i,
    {
        if rows[i].algorithm == *algorithm && rows[i].digest == *digest {
            return i;
        }
        i += 1;
    }
    i
}

/// The file and the algorithm of each row.
pub open spec fn file_algorithms(rows: Seq<HashRec>) -> Seq<(u64, Seq<char>)> {
    Seq::new(rows.len(), |i: int| (rows[i].file_id, rows[i].algorithm))
}

/// The position of the file's digest by this algorithm.
pub fn find_file_algorithm(rows: &Vec<HashRow>, file_id: u64, algorithm: &String) -> (at: usize)
    ensures
        at == pos(file_algorithms(views(rows@)), (file_id, algorithm@)),
        at <= rows.len(),
{
    let mut i: usize = 0;
    let ghost keys = file_algorithms(views(rows@));
    while i < rows.len()
        invariant
            i <= rows.len(),
            keys == file_algorithms(views(rows@)),
            pos(keys, (file_id, algorithm@)) == pos_from(keys, (file_id, algorithm@), i as int),
        decreases rows.len() - i,
    {
        if rows[i].file_id == file_id && rows[i].algorithm == *algorithm {
            return i;
        }
        i += 1;
    }
    i
}

/// The names of the settings.
pub open spec fn setting_names(rows: Seq<SettingView>) -> Seq<Seq<char>> {
    Seq::new(rows.len(), |i: int| rows[i].name)
}

/// The position of the setting called `name`.
pub fn find_setting(rows: &Vec<DbSettingsObj>, name: &String) -> (at: usize)
    ensures
        at == pos(setting_names(views(rows@)), name@),
        at <= rows.len(),
{
    let mut i: usize = 0;
    let ghost keys = setting_names(views(rows@));
    while i < rows.len()
        invariant
            i <= rows.len(),
            keys == setting_names(views(rows@)),
            pos(keys, name@) == pos_from(keys, name@, i as int),
        decreases rows.len() - i,
    {
        if rows[i].name == *name {
            return i;
        }
        i += 1;
    }
    i
}

/// The position of the job with this id.
pub fn find_job_id(rows: &Vec<DbJobsObj>, id: u64) -> (at: usize)
    ensures
        at == pos(job_ids(views(rows@)), id),
        at <= rows.len(),
{
    let mut i: usize = 0;
    let ghost keys = job_ids(views(rows@));
    while i < rows.len()
        invariant
            i <= rows.len(),
            keys == job_ids(views(rows@)),
            pos(keys, id) == pos_from(keys, id, i as int),
        decreases rows.len() - i,
    {
        if rows[i].id == id {
            return i;
        }
        i += 1;
    }
    i
}

/// What tells one job from another: when it runs, where, and on what.
pub struct JobKey {
    pub time: u64,
    pub reptime: u64,
    pub site: Seq<char>,
    pub param: Seq<ParamView>,
}

/// The key of a job.
pub open spec fn job_key(job: JobView) -> JobKey {
    JobKey { time: job.time, reptime: job.reptime, site: job.site, param: job.param }
}

/// The keys of the jobs.
pub open spec fn job_keys(rows: Seq<DbJobView>) -> Seq<JobKey> {
    Seq::new(rows.len(), |i: int| job_key(rows[i].config))
}

/// The position of the job with the same key.
pub fn find_job(rows: &Vec<DbJobsObj>, job: &PluginJob) -> (at: usize)
    ensures
        at == pos(job_keys(views(rows@)), job_key(job@)),
        at <= rows.len(),
{
    let mut i: usize = 0;
    let ghost keys = job_keys(views(rows@));
    while i < rows.len()
        invariant
            i <= rows.len(),
            keys == job_keys(views(rows@)),
            pos(keys, job_key(job@)) == pos_from(keys, job_key(job@), i as int),
        decreases rows.len() - i,
    {
        if rows[i].config.time == job.time && rows[i].config.reptime == job.reptime && rows[i].config.site == job.site
            && params_same(&rows[i].config.param, &job.param) {
            return i;
        }
        i += 1;
    }
    i
}

/// The names that a cache of ids holds.
pub open spec fn cached_names(rows: Seq<(Seq<char>, u64)>) -> Seq<Seq<char>> {
    Seq::new(rows.len(), |i: int| rows[i].0)
}

/// The position of `name` in a cache of ids.
pub fn find_cached_name(rows: &Vec<(String, u64)>, name: &String) -> (at: usize)
    ensures
        at == pos(cached_names(views(rows@)), name@),
        at <= rows.len(),
{
    let mut i: usize = 0;
    let ghost keys = cached_names(views(rows@));
    while i < rows.len()
        invariant
            i <= rows.len(),
            keys == cached_names(views(rows@)),
            pos(keys, name@) == pos_from(keys, name@, i as int),
        decreases rows.len() - i,
    {
        if rows[i].0 == *name {
            return i;
        }
        i += 1;
    }
    i
}

/// The ids that a cache of tags holds.
pub open spec fn cached_ids(rows: Seq<(u64, TagView)>) -> Seq<u64> {
    Seq::new(rows.len(), |i: int| rows[i].0)
}

/// The position of `id` in a cache of tags.
pub fn find_cached_id(rows: &Vec<(u64, Tag)>, id: u64) -> (at: usize)
    ensures
        at == pos(cached_ids(views(rows@)), id),
        at <= rows.len(),
{
    let mut i: usize = 0;
    let ghost keys = cached_ids(views(rows@));
    while i < rows.len()
        invariant
            i <= rows.len(),
            keys == cached_ids(views(rows@)),
            pos(keys, id) == pos_from(keys, id, i as int),
        decreases rows.len() - i,
    {
        if rows[i].0 == id {
            return i;
        }
        i += 1;
    }
    i
}

/// The position of `text`.
pub fn find_text(rows: &Vec<String>, text: &String) -> (at: usize)
    ensures
        at == pos(views(rows@), text@),
        at <= rows.len(),
{
    let mut i: usize = 0;
    let ghost keys = views(rows@);
    while i < rows.len()
        invariant
            i <= rows.len(),
            keys == views(rows@),
            pos(keys, text@) == pos_from(keys, text@, i as int),
        decreases rows.len() - i,
    {
        if rows[i] == *text {
            return i;
        }
        i += 1;
    }
    i
}

} // verus!
