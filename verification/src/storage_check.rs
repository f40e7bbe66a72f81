//! Checking stored files against the file table: which are missing, which have strayed, and where the
//! strayed ones belong.
use crate::database::{DbError, DbState, MainDatabase};
use crate::file::all_hashed;
use crate::jobs::job_added;
use crate::paths::{
    extension_set, file_name, file_name_of, file_stem, join_path, joined_path, path_in_shard, set_extension,
    shard_directory_of, sharded, sibling, sibling_of, stem_of, stored_path,
};
use crate::rows::{
    FileRec, FileRow, TagRec, file_hashes, file_ids, find_file, find_file_id, find_namespace_id, find_storage_id,
    namespace_ids, storage_ids,
};
use crate::text::{decimal, decimal_text, lemma_filter_step, opt_text, opt_text_copy, pos, text_is, views};
use crate::types::{
    CheckFilesEnum, DbJobView, FileInternal, FileView, JobView, ParamView, PluginJob, ScraperParam, text_pairs,
};
use vstd::prelude::*;

verus! {

broadcast use vstd::std_specs::hash::group_hash_axioms;

/// The priority of jobs that nobody gives another.
pub const DEFAULT_PRIORITY: u64 = 10;

/// What was found of a file where it should be stored.
#[derive(Debug, Clone)]
pub struct FileFinding {
    pub path: Option<String>,
    pub size: Option<u64>,
}

/// The view of a [`FileFinding`].
pub struct FindingView {
    pub path: Option<Seq<char>>,
    pub size: Option<u64>,
}

impl View for FileFinding {
    type V = FindingView;

    open spec fn view(&self) -> FindingView {
        FindingView { path: opt_text(self.path), size: self.size }
    }
}

/// What a survey of the stored files gives: the paths in order, the missing files, and the sizes that
/// the file table lacks.
#[derive(Debug, Clone)]
pub struct StorageSurvey {
    pub valid_paths: Vec<String>,
    pub missing: Vec<FileInternal>,
    pub sizes: Vec<(u64, u64)>,
}

/// What comes after the survey.
#[derive(Debug, Clone, Copy, PartialEq, Eq, Structural)]
pub enum StorageStep {
    Finished,
    PrintMissing,
    /// Look through the storage locations, by the hash of each file.
    ScanContents,
    /// Look through the storage locations, by the name of each file.
    ScanNames,
}

/// What to do with a file that is not where a row of the file table says.
#[derive(Debug, Clone)]
pub enum FileMove {
    Leave,
    /// Move it to a path, unless something is there.
    IfFree(String),
    /// Move it to a path, over what may be there.
    Over(String),
}

/// The view of a [`FileMove`].
pub enum MoveView {
    Leave,
    IfFree(Seq<char>),
    Over(Seq<char>),
}

impl View for FileMove {
    type V = MoveView;

    open spec fn view(&self) -> MoveView {
        match self {
            FileMove::Leave => MoveView::Leave,
            FileMove::IfFree(path) => MoveView::IfFree(path@),
            FileMove::Over(path) => MoveView::Over(path@),
        }
    }
}

/// What to do with a file of which two names were looked for.
#[derive(Debug, Clone, Copy, PartialEq, Eq, Structural)]
pub enum FileProbe {
    /// It is there under its full name.
    Found,
    /// It is there without its extension, and gets its full name.
    Rename,
    Missing,
}

/// What to do with a file, given whether something is there under its full name and under its name
/// without an extension.
pub fn probe_file(full_exists: bool, bare_exists: bool) -> (probe: FileProbe)
    ensures
        probe == (if full_exists {
            FileProbe::Found
        } else if bare_exists {
            FileProbe::Rename
        } else {
            FileProbe::Missing
        }),
{
    if full_exists {
        FileProbe::Found
    } else if bare_exists {
        FileProbe::Rename
    } else {
        FileProbe::Missing
    }
}

/// What comes after a survey that found so many files missing.
pub open spec fn step_after(action: CheckFilesEnum, missing: nat) -> StorageStep {
    match action {
        CheckFilesEnum::Redownload => StorageStep::Finished,
        CheckFilesEnum::StorageCheck => StorageStep::ScanContents,
        CheckFilesEnum::StorageCheckFileName => StorageStep::ScanNames,
        CheckFilesEnum::Print => if missing > 0 {
            StorageStep::PrintMissing
        } else {
            StorageStep::Finished
        },
    }
}

fn storage_step(action: CheckFilesEnum, missing: usize) -> (step: StorageStep)
    ensures
        step == step_after(action, missing as nat),
{
    match action {
        CheckFilesEnum::Redownload => StorageStep::Finished,
        CheckFilesEnum::StorageCheck => StorageStep::ScanContents,
        CheckFilesEnum::StorageCheckFileName => StorageStep::ScanNames,
        CheckFilesEnum::Print => if missing > 0 {
            StorageStep::PrintMissing
        } else {
            StorageStep::Finished
        },
    }
}

/// The paths of the first `n` findings.
pub open spec fn paths_found(findings: Seq<FindingView>, n: nat) -> Seq<Seq<char>>
    decreases n,
{
    if n == 0 {
        Seq::empty()
    } else {
        let before = paths_found(findings, (n - 1) as nat);
        match findings[n - 1].path {
            Some(path) => before.push(path),
            None => before,
        }
    }
}

/// The files among the first `n` of which nothing was found.
pub open spec fn files_missing(files: Seq<FileRec>, findings: Seq<FindingView>, n: nat) -> Seq<FileView>
    decreases n,
{
    if n == 0 {
        Seq::empty()
    } else {
        let before = files_missing(files, findings, (n - 1) as nat);
        if findings[n - 1].path is None {
            before.push(files[n - 1].file()->0)
        } else {
            before
        }
    }
}

/// The sizes that were found of those among the first `n` files that have none.
pub open spec fn sizes_found(files: Seq<FileRec>, findings: Seq<FindingView>, n: nat) -> Seq<(u64, u64)>
    decreases n,
{
    if n == 0 {
        Seq::empty()
    } else {
        let before = sizes_found(files, findings, (n - 1) as nat);
        match findings[n - 1].size {
            Some(size) => if findings[n - 1].path is Some && files[n - 1].size_bytes is None {
                before.push((files[n - 1].id, size))
            } else {
                before
            },
            None => before,
        }
    }
}

/// The file table after the size of a file has been set, unless it is set and only missing ones are to be.
pub open spec fn size_set(files: Seq<FileRec>, id: u64, size: u64, only_missing: bool) -> Seq<FileRec> {
    let at = pos(file_ids(files), id);
    if at < files.len() && (!only_missing || files[at].size_bytes is None) {
        files.update(at, FileRec { size_bytes: Some(size), ..files[at] })
    } else {
        files
    }
}

/// The file table after sizes have been set, one after the other.
pub open spec fn sizes_set(files: Seq<FileRec>, sizes: Seq<(u64, u64)>, only_missing: bool) -> Seq<FileRec>
    decreases sizes.len(),
{
    if sizes.len() == 0 {
        files
    } else {
        size_set(sizes_set(files, sizes.drop_last(), only_missing), sizes.last().0, sizes.last().1, only_missing)
    }
}

/// A move to a path; a file that is there already is left.
pub open spec fn move_if_free(path: Seq<char>, target: Seq<char>) -> MoveView {
    if path == target {
        MoveView::Leave
    } else {
        MoveView::IfFree(target)
    }
}

/// The site that handles a URL.
pub open spec fn site_of(sites: Seq<(Seq<char>, Seq<char>)>, url: Seq<char>) -> Option<Seq<char>> {
    let at = pos(site_urls(sites), url);
    if at < sites.len() {
        Some(sites[at].1)
    } else {
        None
    }
}

/// The URLs of some pairs of URL and site.
pub open spec fn site_urls(sites: Seq<(Seq<char>, Seq<char>)>) -> Seq<Seq<char>> {
    Seq::new(sites.len(), |i: int| sites[i].0)
}

/// The job that downloads a missing file again.
pub open spec fn redownload_job(
    file_id: u64,
    file: FileView,
    url: Seq<char>,
    site: Seq<char>,
    now: u64,
) -> JobView {
    JobView {
        time: now,
        reptime: 0,
        priority: DEFAULT_PRIORITY,
        recreation: None,
        site,
        param: seq![ParamView::Url(url)],
        user_data: seq![
            ("INTSCRAPE_REDOWNLOAD"@, "true"@),
            ("INTSCRAPE_REDOWNLOAD_FILE_ID"@, decimal(file_id as nat)),
            ("INTSCRAPE_REDOWNLOAD_HASH"@, file.hash),
            ("INTSCRAPE_REDOWNLOAD_STORAGE_ID"@, decimal(file.storage_id as nat)),
        ],
    }
}

/// The job table after jobs have been added, one after the other.
pub open spec fn jobs_added(rows: Seq<DbJobView>, jobs: Seq<JobView>) -> Seq<DbJobView>
    decreases jobs.len(),
{
    if jobs.len() == 0 {
        rows
    } else {
        job_added(jobs_added(rows, jobs.drop_last()), jobs.last())
    }
}

impl DbState {
    /// The place of a storage location.
    pub open spec fn base_path(self, storage_id: u64) -> Option<Seq<char>> {
        let at = pos(storage_ids(self.storage), storage_id);
        if at < self.storage.len() {
            Some(self.storage[at].location)
        } else {
            None
        }
    }

    /// The file with a hash, if its storage location is known, and the place of that.
    pub open spec fn stored_file(self, hash: Seq<char>) -> Option<(FileRec, Seq<char>)> {
        let at = pos(file_hashes(self.files), Some(hash));
        if at < self.files.len() {
            match self.base_path(self.files[at].storage_id) {
                Some(base) => Some((self.files[at], base)),
                None => None,
            }
        } else {
            None
        }
    }

    /// What to do with a strayed file, by its hash. Files that no row knows go to a place beside the
    /// default location, under their whole path. A path that starts at the root stands for itself there, as
    /// it does wherever it is joined to another.
    pub open spec fn move_by_hash(self, default: Seq<char>, path: Seq<char>, hash: Seq<char>) -> MoveView {
        match self.stored_file(hash) {
            Some((file, base)) => move_if_free(path, extension_set(stored_path(base, hash), file.extension)),
            None => MoveView::Over(joined_path(sibling(default, "dumpster"@), path)),
        }
    }

    /// What to do with a strayed file, by its name. Files that no row knows go to a place beside the
    /// default location, under their name.
    pub open spec fn move_by_name(self, default: Seq<char>, path: Seq<char>) -> MoveView {
        match file_name(path) {
            Some(name) => if pos(file_hashes(self.files), Some(file_stem(name))) < self.files.len() {
                match self.stored_file(file_stem(name)) {
                    Some((_, base)) => move_if_free(path, path_in_shard(base, file_stem(name), name)),
                    None => MoveView::Leave,
                }
            } else {
                move_if_free(path, joined_path(sibling(default, "dumpster"@), name))
            },
            None => MoveView::Leave,
        }
    }

    /// What to do with some strayed files, by their hashes. Those that could not be read are left.
    pub open spec fn moves_by_hash(
        self,
        default: Seq<char>,
        paths: Seq<Seq<char>>,
        hashes: Seq<Option<Seq<char>>>,
    ) -> Seq<MoveView> {
        Seq::new(
            paths.len(),
            |i: int|
                match hashes[i] {
                    Some(hash) => self.move_by_hash(default, paths[i], hash),
                    None => MoveView::Leave,
                },
        )
    }

    /// Whether a tag is a source URL of a file.
    pub open spec fn is_source_of(self, row: TagRec, file_id: u64) -> bool {
        let at = pos(namespace_ids(self.namespaces), row.namespace);
        &&& self.tags_of_file(file_id).contains(row.id)
        &&& at < self.namespaces.len()
        &&& self.namespaces[at].name == "source_url"@
    }

    /// The first source URL of a file, in the order of the tag table.
    pub open spec fn source_url_of(self, file_id: u64) -> Option<Seq<char>> {
        let urls = self.tags.filter(|row: TagRec| self.is_source_of(row, file_id));
        if urls.len() > 0 {
            Some(urls[0].name)
        } else {
            None
        }
    }

    /// The job that downloads a missing file again: it takes an id, a source URL, and a site that handles it.
    pub open spec fn redownload(self, file: FileView, sites: Seq<(Seq<char>, Seq<char>)>, now: u64) -> Option<JobView> {
        if file.id is None || self.source_url_of(file.id->0) is None || self.regex_tags is None {
            None
        } else {
            let url = self.source_url_of(file.id->0)->0;
            match site_of(sites, url) {
                Some(site) => Some(redownload_job(file.id->0, file, url, site, now)),
                None => None,
            }
        }
    }

    /// The jobs that download missing files again.
    pub open spec fn redownloads(self, files: Seq<FileView>, sites: Seq<(Seq<char>, Seq<char>)>, now: u64) -> Seq<JobView>
        decreases files.len(),
    {
        if files.len() == 0 {
            Seq::empty()
        } else {
            let before = self.redownloads(files.drop_last(), sites, now);
            match self.redownload(files.last(), sites, now) {
                Some(job) => before.push(job),
                None => before,
            }
        }
    }
}

/// The place of a URL among pairs of URL and site.
fn find_site(sites: &Vec<(String, String)>, url: &String) -> (site: Option<String>)
    ensures
        opt_text(site) == site_of(text_pairs(sites@), url@),
{
    let ghost keys = site_urls(text_pairs(sites@));
    let mut i: usize = 0;
    while i < sites.len()
        invariant
            i <= sites.len(),
            keys == site_urls(text_pairs(sites@)),
            pos(keys, url@) == crate::text::pos_from(keys, url@, i as int),
        decreases sites.len() - i,
    {
        if sites[i].0 == *url {
            return Some(sites[i].1.clone());
        }
        i += 1;
    }
    None
}

/// Sets the size of a file.
fn set_size(files: &mut Vec<FileRow>, id: u64, size: u64, only_missing: bool)
    ensures
        views(final(files)@) == size_set(views(old(files)@), id, size, only_missing),
{
    let ghost before = views(files@);
    let at: usize = find_file_id(files, id);
    if at < files.len() {
        assert(before[at as int] == files@[at as int]@);
        if !only_missing || files[at].size_bytes.is_none() {
            let row = FileRow {
                id: files[at].id,
                hash: opt_text_copy(&files[at].hash),
                extension: files[at].extension.clone(),
                storage_id: files[at].storage_id,
                size_bytes: Some(size),
            };
            files[at] = row;
            assert(views(files@) =~= size_set(before, id, size, only_missing));
        }
    }
}

fn move_unless_there(path: &String, target: String) -> (decision: FileMove)
    ensures
        decision@ == move_if_free(path@, target@),
{
    if *path == target {
        FileMove::Leave
    } else {
        FileMove::IfFree(target)
    }
}

impl MainDatabase {
    /// The place of a storage location.
    pub fn storage_base(&self, storage_id: u64) -> (base: Option<String>)
        ensures
            opt_text(base) == self@.base_path(storage_id),
    {
        let at: usize = find_storage_id(&self.storage, storage_id);
        if at < self.storage.len() {
            Some(self.storage[at].location.clone())
        } else {
            None
        }
    }

    /// What the findings of the files, one for each row of the file table, amount to.
    pub fn survey_files(&self, findings: &Vec<FileFinding>) -> (survey: StorageSurvey)
        requires
            findings@.len() == self@.files.len(),
            all_hashed(self@.files),
        ensures
            views(survey.valid_paths@) == paths_found(views(findings@), findings@.len()),
            views(survey.missing@) == files_missing(self@.files, views(findings@), findings@.len()),
            survey.sizes@ == sizes_found(self@.files, views(findings@), findings@.len()),
    {
        let ghost all = views(findings@);
        let mut valid_paths: Vec<String> = Vec::new();
        let mut missing: Vec<FileInternal> = Vec::new();
        let mut sizes: Vec<(u64, u64)> = Vec::new();
        let mut i: usize = 0;
        proof {
            assert(views(valid_paths@) =~= paths_found(all, 0));
            assert(views(missing@) =~= files_missing(self@.files, all, 0));
        }
        while i < findings.len()
            invariant
                i <= findings.len(),
                findings@.len() == self@.files.len(),
                all_hashed(self@.files),
                all == views(findings@),
                views(valid_paths@) == paths_found(all, i as nat),
                views(missing@) == files_missing(self@.files, all, i as nat),
                sizes@ == sizes_found(self@.files, all, i as nat),
            decreases findings.len() - i,
        {
            let finding = &findings[i];
            let row = &self.files[i];
            proof {
                assert(all[i as int] == finding@);
                assert(self@.files[i as int] == row@);
            }
            match &finding.path {
                Some(path) => {
                    let ghost before = views(valid_paths@);
                    valid_paths.push(path.clone());
                    assert(views(valid_paths@) =~= before.push(path@));
                    if row.size_bytes.is_none() {
                        if let Some(size) = finding.size {
                            sizes.push((row.id, size));
                        }
                    }
                },
                None => {
                    let ghost before = views(missing@);
                    assert(row@.hash is Some);
                    if let Some(file) = row.to_file() {
                        missing.push(file);
                        assert(views(missing@) =~= before.push(row@.file()->0));
                    }
                },
            }
            i += 1;
        }
        StorageSurvey { valid_paths, missing, sizes }
    }

    /// Sets sizes of files, one after the other; where only missing ones are to be set, the others stay.
    pub fn set_file_sizes(&mut self, sizes: &Vec<(u64, u64)>, only_missing: bool)
        ensures
            final(self)@ == (DbState { files: sizes_set(old(self)@.files, sizes@, only_missing), ..old(self)@ }),
    {
        let ghost start = self@;
        let mut i: usize = 0;
        assert(sizes@.take(0) =~= Seq::<(u64, u64)>::empty());
        while i < sizes.len()
            invariant
                i <= sizes.len(),
                self@ == (DbState { files: sizes_set(start.files, sizes@.take(i as int), only_missing), ..start }),
            decreases sizes.len() - i,
        {
            assert(sizes@.take(i + 1).drop_last() =~= sizes@.take(i as int));
            set_size(&mut self.files, sizes[i].0, sizes[i].1, only_missing);
            i += 1;
        }
        assert(sizes@.take(i as int) =~= sizes@);
    }

    /// What to do with a strayed file, by its hash.
    fn decide_by_hash(&self, default: &String, path: &String, hash: &String) -> (decision: FileMove)
        requires
            self@.stored_file(hash@) is Some ==> sharded(hash@),
        ensures
            decision@ == self@.move_by_hash(default@, path@, hash@),
    {
        let at: usize = find_file(&self.files, hash);
        if at < self.files.len() {
            assert(self@.files[at as int] == self.files@[at as int]@);
            if let Some(base) = self.storage_base(self.files[at].storage_id) {
                let directory = shard_directory_of(base.as_str(), hash.as_str());
                let stored = join_path(directory.as_str(), hash.as_str());
                let target = set_extension(stored.as_str(), self.files[at].extension.as_str());
                return move_unless_there(path, target);
            }
        }
        let dumpster = sibling_of(default.as_str(), "dumpster");
        FileMove::Over(join_path(dumpster.as_str(), path.as_str()))
    }

    /// What to do with a strayed file, by its name.
    fn decide_by_name(&self, default: &String, path: &String) -> (decision: FileMove)
        requires
            file_name(path@) matches Some(name) && self@.stored_file(file_stem(name)) is Some ==> sharded(
                file_stem(file_name(path@)->0),
            ),
        ensures
            decision@ == self@.move_by_name(default@, path@),
    {
        match file_name_of(path.as_str()) {
            Some(name) => {
                let stem = stem_of(name.as_str());
                let at: usize = find_file(&self.files, &stem);
                if at < self.files.len() {
                    proof {
                        assert(self@.files[at as int] == self.files@[at as int]@);
                        crate::text::lemma_pos(file_hashes(self@.files), Some(stem@));
                    }
                    match self.storage_base(self.files[at].storage_id) {
                        Some(base) => {
                            let directory = shard_directory_of(base.as_str(), stem.as_str());
                            move_unless_there(path, join_path(directory.as_str(), name.as_str()))
                        },
                        None => FileMove::Leave,
                    }
                } else {
                    let dumpster = sibling_of(default.as_str(), "dumpster");
                    move_unless_there(path, join_path(dumpster.as_str(), name.as_str()))
                }
            },
            None => FileMove::Leave,
        }
    }

    /// What to do with some strayed files, given the hashes of those that could be read.
    pub fn process_storage_check_chunk(
        &self,
        paths: &Vec<String>,
        hashes: &Vec<Option<String>>,
        default_file_location: &String,
    ) -> (moves: Vec<FileMove>)
        requires
            hashes@.len() == paths@.len(),
            forall|i: int|
                0 <= i < hashes@.len() ==> (#[trigger] hashes@[i] matches Some(hash) && self@.stored_file(hash@) is Some
                    ==> sharded(hashes@[i]->0@)),
        ensures
            views(moves@) == self@.moves_by_hash(
                default_file_location@,
                views(paths@),
                Seq::new(hashes@.len(), |i: int| opt_text(hashes@[i])),
            ),
    {
        let ghost known = Seq::new(hashes@.len(), |i: int| opt_text(hashes@[i]));
        let ghost wanted = self@.moves_by_hash(default_file_location@, views(paths@), known);
        let mut moves: Vec<FileMove> = Vec::new();
        let mut i: usize = 0;
        while i < paths.len()
            invariant
                i <= paths.len(),
                hashes@.len() == paths@.len(),
                known == Seq::new(hashes@.len(), |i: int| opt_text(hashes@[i])),
                wanted == self@.moves_by_hash(default_file_location@, views(paths@), known),
                forall|k: int|
                    0 <= k < hashes@.len() ==> (#[trigger] hashes@[k] matches Some(hash) && self@.stored_file(hash@)
                        is Some ==> sharded(hashes@[k]->0@)),
                moves@.len() == i,
                forall|k: int| 0 <= k < i ==> (#[trigger] moves@[k])@ == wanted[k],
            decreases paths.len() - i,
        {
            assert(known[i as int] == opt_text(hashes@[i as int]));
            match &hashes[i] {
                Some(hash) => {
                    moves.push(self.decide_by_hash(default_file_location, &paths[i], hash));
                },
                None => {
                    moves.push(FileMove::Leave);
                },
            }
            i += 1;
        }
        assert(views(moves@) =~= wanted);
        moves
    }

    /// What to do with some strayed files, by their names.
    pub fn process_storage_check_filename_chunk(&self, paths: &Vec<String>, default_file_location: &String) -> (moves: Vec<
        FileMove,
    >)
        requires
            forall|i: int|
                0 <= i < paths@.len() ==> (file_name((#[trigger] paths@[i])@) matches Some(name) && self@.stored_file(
                    file_stem(name),
                ) is Some ==> sharded(file_stem(file_name(paths@[i]@)->0))),
        ensures
            moves@.len() == paths@.len(),
            forall|i: int|
                0 <= i < moves@.len() ==> (#[trigger] moves@[i])@ == self@.move_by_name(
                    default_file_location@,
                    paths@[i]@,
                ),
    {
        let mut moves: Vec<FileMove> = Vec::new();
        let mut i: usize = 0;
        while i < paths.len()
            invariant
                i <= paths.len(),
                forall|k: int|
                    0 <= k < paths@.len() ==> (file_name((#[trigger] paths@[k])@) matches Some(name)
                        && self@.stored_file(file_stem(name)) is Some ==> sharded(
                        file_stem(file_name(paths@[k]@)->0),
                    )),
                moves@.len() == i,
                forall|k: int|
                    0 <= k < i ==> (#[trigger] moves@[k])@ == self@.move_by_name(default_file_location@, paths@[k]@),
            decreases paths.len() - i,
        {
            moves.push(self.decide_by_name(default_file_location, &paths[i]));
            i += 1;
        }
        moves
    }

    /// The first source URL of a file, in the order of the tag table.
    pub fn file_source_url(&self, file_id: u64) -> (url: Option<String>)
        ensures
            opt_text(url) == self@.source_url_of(file_id),
    {
        let current = self.internal_file_id_get_tag_ids(&file_id);
        let ghost keep = |row: TagRec| self@.is_source_of(row, file_id);
        let ghost all = self@.tags;
        let mut i: usize = 0;
        assert(all.take(0).filter(keep) =~= Seq::<TagRec>::empty()) by {
            reveal(Seq::filter);
        }
        while i < self.tags.len()
            invariant
                i <= self.tags.len(),
                all == self@.tags,
                keep == (|row: TagRec| self@.is_source_of(row, file_id)),
                current@ == self@.tags_of_file(file_id),
                all.take(i as int).filter(keep).len() == 0,
            decreases self.tags.len() - i,
        {
            let row = &self.tags[i];
            proof {
                assert(all[i as int] == row@);
                lemma_filter_step(all, i as int, keep);
            }
            let at: usize = find_namespace_id(&self.namespaces, row.namespace);
            if current.contains(&row.id) && at < self.namespaces.len() {
                assert(self@.namespaces[at as int] == self.namespaces@[at as int]@);
                if text_is(&self.namespaces[at].name, "source_url") {
                    proof {
                        lemma_filter_first(all, i as int, keep);
                    }
                    return Some(row.name.clone());
                }
            }
            i += 1;
        }
        assert(all.take(i as int) =~= all);
        None
    }

    /// The job that downloads a missing file again.
    fn redownload_of(&self, file: &FileInternal, sites: &Vec<(String, String)>, now: u64) -> (job: Option<PluginJob>)
        ensures
            match job {
                Some(job) => self@.redownload(file@, text_pairs(sites@), now) == Some(job@),
                None => self@.redownload(file@, text_pairs(sites@), now) is None,
            },
    {
        let file_id: u64 = match file.id {
            Some(id) => id,
            None => {
                return None;
            },
        };
        let url = match self.file_source_url(file_id) {
            Some(url) => url,
            None => {
                return None;
            },
        };
        if self.plugin_manager.is_none() {
            return None;
        }
        let site = match find_site(sites, &url) {
            Some(site) => site,
            None => {
                return None;
            },
        };
        let mut user_data: Vec<(String, String)> = Vec::new();
        user_data.push(("INTSCRAPE_REDOWNLOAD".to_owned(), "true".to_owned()));
        user_data.push(("INTSCRAPE_REDOWNLOAD_FILE_ID".to_owned(), decimal_text(file_id)));
        user_data.push(("INTSCRAPE_REDOWNLOAD_HASH".to_owned(), file.hash.clone()));
        user_data.push(("INTSCRAPE_REDOWNLOAD_STORAGE_ID".to_owned(), decimal_text(file.storage_id)));
        let mut param: Vec<ScraperParam> = Vec::new();
        param.push(ScraperParam::Url(url));
        let job = PluginJob {
            time: now,
            reptime: 0,
            priority: DEFAULT_PRIORITY,
            recreation: None,
            site,
            param,
            user_data,
        };
        proof {
            let wanted = redownload_job(file_id, file@, url@, site@, now);
            assert(job@.param =~= wanted.param);
            assert(job@.user_data =~= wanted.user_data);
        }
        Some(job)
    }

    /// Adds jobs that download missing files again. `sites` names the site that handles a URL.
    pub fn queue_missing_file_jobs(&mut self, missing_files: &Vec<FileInternal>, sites: &Vec<(String, String)>, now: u64)
        ensures
            final(self)@ == (DbState {
                jobs: jobs_added(
                    old(self)@.jobs,
                    old(self)@.redownloads(views(missing_files@), text_pairs(sites@), now),
                ),
                ..old(self)@
            }),
    {
        let ghost start = self@;
        let ghost all = views(missing_files@);
        let mut jobs: Vec<PluginJob> = Vec::new();
        let mut i: usize = 0;
        assert(all.take(0) =~= Seq::<FileView>::empty());
        assert(views(jobs@) =~= start.redownloads(all.take(0), text_pairs(sites@), now));
        while i < missing_files.len()
            invariant
                i <= missing_files.len(),
                all == views(missing_files@),
                self@ == start,
                views(jobs@) == start.redownloads(all.take(i as int), text_pairs(sites@), now),
            decreases missing_files.len() - i,
        {
            proof {
                assert(all.take(i + 1).drop_last() =~= all.take(i as int));
                assert(all.take(i + 1).last() == missing_files@[i as int]@);
            }
            if let Some(job) = self.redownload_of(&missing_files[i], sites, now) {
                let ghost before = views(jobs@);
                jobs.push(job);
                assert(views(jobs@) =~= before.push(job@));
            }
            i += 1;
        }
        assert(all.take(i as int) =~= all);
        let ghost wanted = views(jobs@);
        let mut k: usize = 0;
        assert(wanted.take(0) =~= Seq::<JobView>::empty());
        while k < jobs.len()
            invariant
                k <= jobs.len(),
                wanted == views(jobs@),
                self@ == (DbState { jobs: jobs_added(start.jobs, wanted.take(k as int)), ..start }),
            decreases jobs.len() - k,
        {
            proof {
                assert(wanted.take(k + 1).drop_last() =~= wanted.take(k as int));
                assert(wanted.take(k + 1).last() == jobs@[k as int]@);
            }
            let _ = self.internal_jobs_add(&jobs[k]);
            k += 1;
        }
        assert(wanted.take(k as int) =~= wanted);
    }
}

impl MainDatabase {
    /// Takes stock of the stored files, given what was found of each, in the order of the file table, where its
    /// own storage location should hold it. Sizes that were found are filled in. Where missing files are
    /// to be downloaded again, jobs for that are added. Gives what was found, and what comes next. A row
    /// without a hash is refused, and nothing is done.
    pub fn fix_internal_files(
        &mut self,
        action: CheckFilesEnum,
        findings: &Vec<FileFinding>,
        sites: &Vec<(String, String)>,
        now: u64,
    ) -> (outcome: Result<(StorageSurvey, StorageStep), DbError>)
        requires
            all_hashed(old(self)@.files) ==> findings@.len() == old(self)@.files.len(),
        ensures
            outcome is Ok <==> all_hashed(old(self)@.files),
            outcome matches Err(error) ==> error == DbError::MissingValue && final(self)@ == old(self)@,
            outcome matches Ok(outcome) ==> ({
                let all = views(findings@);
                let missing = files_missing(old(self)@.files, all, all.len());
                let sized = DbState {
                    files: sizes_set(old(self)@.files, sizes_found(old(self)@.files, all, all.len()), true),
                    ..old(self)@
                };
                &&& views(outcome.0.valid_paths@) == paths_found(all, all.len())
                &&& views(outcome.0.missing@) == missing
                &&& outcome.0.sizes@ == sizes_found(old(self)@.files, all, all.len())
                &&& outcome.1 == step_after(action, missing.len())
                &&& final(self)@ == (if action == CheckFilesEnum::Redownload {
                    DbState { jobs: jobs_added(sized.jobs, sized.redownloads(missing, text_pairs(sites@), now)), ..sized }
                } else {
                    sized
                })
            }),
    {
        if let Err(error) = self.internal_file_get_all() {
            return Err(error);
        }
        let survey = self.survey_files(findings);
        self.set_file_sizes(&survey.sizes, true);
        let step = storage_step(action, survey.missing.len());
        if action == CheckFilesEnum::Redownload {
            self.queue_missing_file_jobs(&survey.missing, sites, now);
        }
        Ok((survey, step))
    }
}

/// The first item that is kept stands first among those that are.
proof fn lemma_filter_first<T>(items: Seq<T>, i: int, keep: spec_fn(T) -> bool)
    requires
        0 <= i < items.len(),
        items.take(i).filter(keep).len() == 0,
        keep(items[i]),
    ensures
        items.filter(keep).len() > 0,
        items.filter(keep)[0] == items[i],
    decreases items.len(),
{
    reveal(Seq::filter);
    if i == items.len() - 1 {
        assert(items.drop_last() =~= items.take(i));
    } else {
        let shorter = items.drop_last();
        assert(shorter.take(i) =~= items.take(i));
        lemma_filter_first(shorter, i, keep);
    }
}

} // verus!
