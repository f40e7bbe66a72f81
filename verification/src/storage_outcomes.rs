//! What the checks of the stored files come to, told of the rows and of what was found.
use crate::database::DbState;
use crate::paths::{extension_set, file_name, file_stem, joined_path, path_in_shard, sibling, stored_path};
use crate::rows::{FileRec, HashRec, StorageRec, TagRec, file_hashes, file_ids, namespace_ids, storage_ids};
use crate::storage_check::{
    FindingView, MoveView, StorageStep, files_missing, paths_found, site_urls, sizes_found, sizes_set, step_after,
};
use crate::tag_outcomes::has_tag;
use crate::text::{decimal, lemma_filter_members, lemma_pos, lemma_push_contains, pos};
use crate::types::{CheckFilesEnum, FileView, ParamView};
use crate::upkeep::{
    algorithm_names, digests_known, digests_of_each_kind, digests_wanted, file_changed, first_found, has_digest,
    other_bases, page_from, sizes_known, unhashed,
};
use crate::url_outcomes::told_by;
use vstd::prelude::*;

verus! {

/// A survey lists, of the files that were looked for, those that were not found as missing, the paths of the others, and
/// of those the sizes that were found and not known.
pub proof fn surveys_list_what_was_found(files: Seq<FileRec>, findings: Seq<FindingView>, n: nat)
    requires
        n <= files.len(),
        n <= findings.len(),
        forall|i: int| 0 <= i < files.len() ==> (#[trigger] files[i]).hash is Some,
    ensures
        forall|file: FileView| #[trigger]
            files_missing(files, findings, n).contains(file) <==> exists|i: int|
                0 <= i < n && findings[i].path is None && told_by(file, #[trigger] files[i]),
        forall|path: Seq<char>| #[trigger]
            paths_found(findings, n).contains(path) <==> exists|i: int| 0 <= i < n && (#[trigger] findings[i]).path == Some(path),
        forall|id: u64, size: u64| #[trigger]
            sizes_found(files, findings, n).contains((id, size)) <==> exists|i: int|
                0 <= i < n && (#[trigger] files[i]).id == id && files[i].size_bytes is None && findings[i].path is Some
                    && findings[i].size == Some(size),
    decreases n,
{
    if n > 0 {
        let m = (n - 1) as nat;
        surveys_list_what_was_found(files, findings, m);
        let last = findings[n - 1];
        let row = files[n - 1];
        assert(row.hash is Some);
        let missing = files_missing(files, findings, m);
        let paths = paths_found(findings, m);
        let sizes = sizes_found(files, findings, m);
        lemma_push_contains(missing, row.file()->0);
        if last.path is Some {
            lemma_push_contains(paths, last.path->0);
        }
        if last.size is Some {
            lemma_push_contains(sizes, (row.id, last.size->0));
        }
        assert forall|file: FileView| #[trigger] files_missing(files, findings, n).contains(file) <==> exists|i: int|
            0 <= i < n && findings[i].path is None && told_by(file, #[trigger] files[i]) by {
            if files_missing(files, findings, n).contains(file) {
                if missing.contains(file) {
                    let i = choose|i: int| 0 <= i < m && findings[i].path is None && told_by(file, #[trigger] files[i]);
                    assert(told_by(file, files[i]));
                } else {
                    assert(told_by(file, files[n - 1]));
                }
            }
            if exists|i: int| 0 <= i < n && findings[i].path is None && told_by(file, #[trigger] files[i]) {
                let i = choose|i: int| 0 <= i < n && findings[i].path is None && told_by(file, #[trigger] files[i]);
                if i == n - 1 {
                    assert(file == row.file()->0);
                }
            }
        }
        assert forall|path: Seq<char>| #[trigger] paths_found(findings, n).contains(path) <==> exists|i: int|
            0 <= i < n && (#[trigger] findings[i]).path == Some(path) by {
            if paths_found(findings, n).contains(path) {
                if paths.contains(path) {
                    let i = choose|i: int| 0 <= i < m && (#[trigger] findings[i]).path == Some(path);
                    assert(findings[i].path == Some(path));
                } else {
                    assert(findings[n - 1].path == Some(path));
                }
            }
        }
        assert forall|id: u64, size: u64| #[trigger] sizes_found(files, findings, n).contains((id, size)) <==> exists|i: int|
            0 <= i < n && (#[trigger] files[i]).id == id && files[i].size_bytes is None && findings[i].path is Some
                && findings[i].size == Some(size) by {
            if sizes_found(files, findings, n).contains((id, size)) {
                if sizes.contains((id, size)) {
                    let i = choose|i: int|
                        0 <= i < m && (#[trigger] files[i]).id == id && files[i].size_bytes is None && findings[i].path is Some
                            && findings[i].size == Some(size);
                    assert(files[i].id == id);
                } else {
                    assert(files[n - 1].id == id);
                }
            }
        }
    }
}

/// What comes after a survey: files that are downloaded again need nothing more, a check of the storage scans what is
/// there, by contents or by names, and a printout prints where something is missing.
pub proof fn surveys_lead_on(missing: nat)
    ensures
        step_after(CheckFilesEnum::Redownload, missing) == StorageStep::Finished,
        step_after(CheckFilesEnum::StorageCheck, missing) == StorageStep::ScanContents,
        step_after(CheckFilesEnum::StorageCheckFileName, missing) == StorageStep::ScanNames,
        step_after(CheckFilesEnum::Print, missing) == StorageStep::PrintMissing <==> missing > 0,
        missing == 0 ==> step_after(CheckFilesEnum::Print, missing) == StorageStep::Finished,
{
}

/// Setting sizes of files, each file once, gives each file its size, but for those that have one where only missing sizes
/// are set; nothing else changes.
pub proof fn set_sizes_stand_in_the_rows(files: Seq<FileRec>, sizes: Seq<(u64, u64)>, only_missing: bool)
    requires
        file_ids(files).no_duplicates(),
        forall|i: int, k: int| 0 <= i < k < sizes.len() ==> (#[trigger] sizes[i]).0 != (#[trigger] sizes[k]).0,
    ensures
        ({
            let after = sizes_set(files, sizes, only_missing);
            &&& after.len() == files.len()
            &&& forall|r: int|
                0 <= r < files.len() ==> (#[trigger] after[r]).id == files[r].id && after[r].hash == files[r].hash
                    && after[r].extension == files[r].extension && after[r].storage_id == files[r].storage_id
            &&& forall|r: int|
                0 <= r < files.len() && (forall|k: int| 0 <= k < sizes.len() ==> (#[trigger] sizes[k]).0 != files[r].id)
                    ==> (#[trigger] after[r]).size_bytes == files[r].size_bytes
            &&& forall|r: int, k: int|
                0 <= r < files.len() && 0 <= k < sizes.len() && (#[trigger] sizes[k]).0 == files[r].id ==> (
                #[trigger] after[r]).size_bytes == (if only_missing && files[r].size_bytes is Some {
                    files[r].size_bytes
                } else {
                    Some(sizes[k].1)
                })
        }),
    decreases sizes.len(),
{
    if sizes.len() > 0 {
        let shorter = sizes.drop_last();
        assert forall|i: int, k: int| 0 <= i < k < shorter.len() implies (#[trigger] shorter[i]).0 != (
        #[trigger] shorter[k]).0 by {
            assert(sizes[i].0 != sizes[k].0);
        }
        set_sizes_stand_in_the_rows(files, shorter, only_missing);
        let before = sizes_set(files, shorter, only_missing);
        let after = sizes_set(files, sizes, only_missing);
        let (id, size) = sizes.last();
        assert(sizes[sizes.len() - 1] == (id, size));
        assert(file_ids(before) =~= file_ids(files));
        lemma_pos(file_ids(before), id);
        let at = pos(file_ids(before), id);
        if at < before.len() {
            assert(file_ids(before)[at] == before[at].id);
        }
        assert forall|r: int| 0 <= r < files.len() && (#[trigger] files[r]).id == id implies r == at by {
            assert(file_ids(before)[r] == id);
        }
        if at < files.len() {
            assert forall|k: int| 0 <= k < shorter.len() implies (#[trigger] shorter[k]).0 != files[at].id by {
                assert(sizes[k].0 != sizes[sizes.len() - 1].0);
            }
            assert(before[at].size_bytes == files[at].size_bytes);
        }
        assert forall|r: int|
            0 <= r < files.len() && (forall|k: int| 0 <= k < sizes.len() ==> (#[trigger] sizes[k]).0 != files[r].id) implies (
        #[trigger] after[r]).size_bytes == files[r].size_bytes by {
            assert(sizes[sizes.len() - 1].0 != files[r].id);
            assert(r != at);
            assert(after[r] == before[r]);
            assert forall|k: int| 0 <= k < shorter.len() implies (#[trigger] shorter[k]).0 != files[r].id by {
                assert(sizes[k].0 != files[r].id);
            }
        }
        assert forall|r: int, k: int|
            0 <= r < files.len() && 0 <= k < sizes.len() && (#[trigger] sizes[k]).0 == files[r].id implies (
        #[trigger] after[r]).size_bytes == (if only_missing && files[r].size_bytes is Some {
            files[r].size_bytes
        } else {
            Some(sizes[k].1)
        }) by {
            if k < shorter.len() {
                assert(shorter[k] == sizes[k]);
                assert(sizes[k].0 != sizes[sizes.len() - 1].0);
                assert(r != at);
                assert(after[r] == before[r]);
            } else {
                assert(r == at);
            }
        }
    }
}

/// A strayed file goes by the file that its contents hash to: where a row has that hash and its storage location is known,
/// to the place of the hash there, under the extension of the row, unless it is there already or something else is; else
/// to a place beside the default location.
pub proof fn strayed_files_go_where_their_hash_belongs(state: DbState, default: Seq<char>, path: Seq<char>, hash: Seq<char>)
    requires
        state.consistent(),
    ensures
        ({
            let decision = state.move_by_hash(default, path, hash);
            &&& forall|r: int, q: int|
                0 <= r < state.files.len() && (#[trigger] state.files[r]).hash == Some(hash) && 0 <= q < state.storage.len() && (
                #[trigger] state.storage[q]).id == state.files[r].storage_id ==> {
                    let target = extension_set(stored_path(state.storage[q].location, hash), state.files[r].extension);
                    &&& path == target ==> decision is Leave
                    &&& path != target ==> decision == MoveView::IfFree(target)
                }
            &&& (forall|r: int, q: int|
                0 <= r < state.files.len() && 0 <= q < state.storage.len() && (#[trigger] state.files[r]).hash == Some(hash)
                    ==> (#[trigger] state.storage[q]).id != state.files[r].storage_id) ==> decision == MoveView::Over(
                joined_path(sibling(default, "dumpster"@), path),
            )
        }),
{
    lemma_stored_file(state, hash);
}

/// A strayed file goes by its name: where a row has the hash that it is called by and its storage location is known, to
/// the place of the hash there, under its own name; where no row has it, to a place beside the default location; in either
/// case unless it is there already or something else is. Where the location is not known, or it has no name, it is left.
pub proof fn strayed_files_go_where_their_name_belongs(state: DbState, default: Seq<char>, path: Seq<char>)
    requires
        state.consistent(),
    ensures
        ({
            let decision = state.move_by_name(default, path);
            &&& file_name(path) is None ==> decision is Leave
            &&& file_name(path) matches Some(name) ==> {
                let stem = file_stem(name);
                &&& forall|r: int, q: int|
                    0 <= r < state.files.len() && (#[trigger] state.files[r]).hash == Some(stem) && 0 <= q < state.storage.len()
                        && (#[trigger] state.storage[q]).id == state.files[r].storage_id ==> {
                        let target = path_in_shard(state.storage[q].location, stem, name);
                        &&& path == target ==> decision is Leave
                        &&& path != target ==> decision == MoveView::IfFree(target)
                    }
                &&& forall|r: int|
                    0 <= r < state.files.len() && (#[trigger] state.files[r]).hash == Some(stem) && (forall|q: int|
                        0 <= q < state.storage.len() ==> (#[trigger] state.storage[q]).id != state.files[r].storage_id)
                        ==> decision is Leave
                &&& (forall|r: int| 0 <= r < state.files.len() ==> (#[trigger] state.files[r]).hash != Some(stem)) ==> {
                    let target = joined_path(sibling(default, "dumpster"@), name);
                    &&& path == target ==> decision is Leave
                    &&& path != target ==> decision == MoveView::IfFree(target)
                }
            }
        }),
{
    if let Some(name) = file_name(path) {
        let stem = file_stem(name);
        lemma_stored_file(state, stem);
        let keys = file_hashes(state.files);
        lemma_pos(keys, Some(stem));
        let at = pos(keys, Some(stem));
        if at < state.files.len() {
            assert(keys[at] == state.files[at].hash);
        }
        assert forall|r: int| 0 <= r < state.files.len() && (#[trigger] state.files[r]).hash == Some(stem) implies at
            < state.files.len() by {
            assert(keys[r] == Some(stem));
        }
    }
}

proof fn lemma_stored_file(state: DbState, hash: Seq<char>)
    requires
        state.consistent(),
    ensures
        forall|r: int, q: int|
            0 <= r < state.files.len() && (#[trigger] state.files[r]).hash == Some(hash) && 0 <= q < state.storage.len() && (
            #[trigger] state.storage[q]).id == state.files[r].storage_id ==> state.stored_file(hash) == Some(
                (state.files[r], state.storage[q].location),
            ),
        state.stored_file(hash) is Some ==> exists|r: int, q: int|
            0 <= r < state.files.len() && (#[trigger] state.files[r]).hash == Some(hash) && 0 <= q < state.storage.len() && (
            #[trigger] state.storage[q]).id == state.files[r].storage_id,
{
    let keys = file_hashes(state.files);
    lemma_pos(keys, Some(hash));
    let at = pos(keys, Some(hash));
    if at < state.files.len() {
        assert(keys[at] == state.files[at].hash);
        let ids = storage_ids(state.storage);
        let id = state.files[at].storage_id;
        lemma_pos(ids, id);
        let s = pos(ids, id);
        if s < state.storage.len() {
            assert(ids[s] == state.storage[s].id);
        }
        assert forall|q: int| 0 <= q < state.storage.len() && (#[trigger] state.storage[q]).id == id implies q == s by {
            assert(ids[q] == id);
        }
    }
    assert forall|r: int| 0 <= r < state.files.len() && (#[trigger] state.files[r]).hash == Some(hash) implies r == at by {
        assert(keys[r] == Some(hash));
    }
}

/// The job that downloads a missing file again is for the first site that handles the file's source URL, which it has as
/// its one parameter; it is due at once and does not recur, and its data tell the file. There is such a job exactly if the
/// file has an id and a source URL, plugins are there, and a site handles the URL.
pub proof fn missing_files_are_downloaded_from_their_source(
    state: DbState,
    file: FileView,
    sites: Seq<(Seq<char>, Seq<char>)>,
    now: u64,
)
    ensures
        state.redownload(file, sites, now) is Some <==> {
            &&& state.regex_tags is Some
            &&& file.id matches Some(id) && state.source_url_of(id) matches Some(url) && exists|s: int|
                0 <= s < sites.len() && (#[trigger] sites[s]).0 == url
        },
        state.redownload(file, sites, now) matches Some(job) ==> ({
            let url = state.source_url_of(file.id->0)->0;
            &&& exists|s: int|
                0 <= s < sites.len() && (#[trigger] sites[s]).0 == url && sites[s].1 == job.site && forall|k: int|
                    0 <= k < s ==> (#[trigger] sites[k]).0 != url
            &&& job.param == seq![ParamView::Url(url)]
            &&& job.time == now && job.reptime == 0 && job.recreation is None
            &&& job.user_data.contains(("INTSCRAPE_REDOWNLOAD"@, "true"@))
            &&& job.user_data.contains(("INTSCRAPE_REDOWNLOAD_FILE_ID"@, decimal(file.id->0 as nat)))
            &&& job.user_data.contains(("INTSCRAPE_REDOWNLOAD_HASH"@, file.hash))
            &&& job.user_data.contains(("INTSCRAPE_REDOWNLOAD_STORAGE_ID"@, decimal(file.storage_id as nat)))
        }),
{
    if file.id is Some && state.source_url_of(file.id->0) is Some {
        let url = state.source_url_of(file.id->0)->0;
        let keys = site_urls(sites);
        lemma_pos(keys, url);
        let at = pos(keys, url);
        if at < sites.len() {
            assert(keys[at] == sites[at].0);
            assert forall|k: int| 0 <= k < at implies (#[trigger] sites[k]).0 != url by {
                assert(keys[k] == sites[k].0);
            }
        }
        if exists|s: int| 0 <= s < sites.len() && (#[trigger] sites[s]).0 == url {
            let s = choose|s: int| 0 <= s < sites.len() && (#[trigger] sites[s]).0 == url;
            assert(keys[s] == url);
        }
        if let Some(job) = state.redownload(file, sites, now) {
            assert(job.user_data[0] == ("INTSCRAPE_REDOWNLOAD"@, "true"@));
            assert(job.user_data[1] == ("INTSCRAPE_REDOWNLOAD_FILE_ID"@, decimal(file.id->0 as nat)));
            assert(job.user_data[2] == ("INTSCRAPE_REDOWNLOAD_HASH"@, file.hash));
            assert(job.user_data[3] == ("INTSCRAPE_REDOWNLOAD_STORAGE_ID"@, decimal(file.storage_id as nat)));
        }
    }
}

/// The source URL of a file is the name of a tag that the file has in the namespace of source URLs; there is one exactly
/// if the file has such a tag.
pub proof fn source_urls_are_tags_of_the_file(state: DbState, file_id: u64)
    requires
        state.consistent(),
        crate::scrape_outcomes::files_in_memory_true(state),
    ensures
        state.source_url_of(file_id) is Some ==> exists|t: u64|
            has_tag(state, t, state.source_url_of(file_id)->0, "source_url"@) && #[trigger] state.relationships.contains(
                (file_id, t),
            ),
        state.source_url_of(file_id) is None ==> forall|t: u64, url: Seq<char>| #[trigger]
            has_tag(state, t, url, "source_url"@) ==> !state.relationships.contains((file_id, t)),
{
    let keep = |row: TagRec| state.is_source_of(row, file_id);
    let urls = state.tags.filter(keep);
    lemma_filter_members(state.tags, keep);
    assert forall|t: u64| state.tags_of_file(file_id).contains(t) <==> state.relationships.contains((file_id, t)) by {}
    let spaces = namespace_ids(state.namespaces);
    if urls.len() > 0 {
        assert(urls.contains(urls[0]));
        let i = choose|i: int| 0 <= i < state.tags.len() && state.tags[i] == urls[0];
        lemma_pos(spaces, urls[0].namespace);
        let j = pos(spaces, urls[0].namespace);
        assert(spaces[j] == state.namespaces[j].id);
        assert(state.tags[i].id == urls[0].id && state.namespaces[j].id == state.tags[i].namespace);
        assert(state.source_url_of(file_id)->0 == urls[0].name);
        assert(has_tag(state, urls[0].id, state.source_url_of(file_id)->0, "source_url"@));
        assert(state.tags_of_file(file_id).contains(urls[0].id));
        assert(state.relationships.contains((file_id, urls[0].id)));
    } else {
        assert forall|t: u64, url: Seq<char>| #[trigger] has_tag(state, t, url, "source_url"@) implies !state.relationships.contains(
            (file_id, t),
        ) by {
            let (i, j) = choose|i: int, j: int|
                0 <= i < state.tags.len() && 0 <= j < state.namespaces.len() && (#[trigger] state.tags[i]).id == t
                    && state.tags[i].name == url && (#[trigger] state.namespaces[j]).id == state.tags[i].namespace
                    && state.namespaces[j].name == "source_url"@;
            lemma_pos(spaces, state.tags[i].namespace);
            let n = pos(spaces, state.tags[i].namespace);
            assert(spaces[j] == state.tags[i].namespace);
            assert(spaces[n] == state.tags[i].namespace);
            assert(n == j);
            assert(!urls.contains(state.tags[i]));
            assert(state.tags.contains(state.tags[i]));
        }
    }
}

// Digests and sizes that are missing.

/// The files without digests are those of the file table that no digest is recorded for.
pub proof fn unhashed_files_have_no_digest(files: Seq<FileRec>, hashes: Seq<HashRec>, id: u64)
    ensures
        unhashed(files, hashes).contains(id) <==> (exists|r: int| 0 <= r < files.len() && (#[trigger] files[r]).id == id)
            && forall|k: int| 0 <= k < hashes.len() ==> (#[trigger] hashes[k]).file_id != id,
{
    let keep = |row: FileRec| !has_digest(hashes, row.id);
    let rows = files.filter(keep);
    let ids = unhashed(files, hashes);
    lemma_filter_members(files, keep);
    if ids.contains(id) {
        let i = choose|i: int| 0 <= i < ids.len() && ids[i] == id;
        assert(rows.contains(rows[i]));
        let r = choose|r: int| 0 <= r < files.len() && files[r] == rows[i];
        assert(files[r].id == id);
    }
    if (exists|r: int| 0 <= r < files.len() && (#[trigger] files[r]).id == id) && !has_digest(hashes, id) {
        let r = choose|r: int| 0 <= r < files.len() && (#[trigger] files[r]).id == id;
        assert(files.contains(files[r]));
        assert(rows.contains(files[r]));
        let i = choose|i: int| 0 <= i < rows.len() && rows[i] == files[r];
        assert(ids[i] == id);
    }
}

/// A page holds the items behind the offset, in order, as many as go in one statement.
pub proof fn pages_hold_what_is_behind_the_offset(ids: Seq<u64>, offset: nat)
    ensures
        page_from(ids, offset).len() <= 800,
        forall|k: int| 0 <= k < page_from(ids, offset).len() ==> offset + k < ids.len() && #[trigger] page_from(ids, offset)[k] == ids[
            offset + k],
        page_from(ids, offset).len() < 800 && offset <= ids.len() ==> offset + page_from(ids, offset).len() == ids.len(),
{
}

/// Of each file one digest of each of the seven kinds is wanted, and nothing else; what was computed of it is recorded
/// under the file and the kind.
pub proof fn wanted_digests_are_recorded_as_computed(
    ids: Seq<u64>,
    digests: Seq<Option<Seq<char>>>,
    file_id: u64,
    algorithm: Seq<char>,
    digest: Seq<char>,
)
    requires
        digests.len() == digests_wanted(ids).len(),
    ensures
        digests_wanted(ids).contains((file_id, algorithm)) <==> ids.contains(file_id) && (algorithm == "MD5"@ || algorithm
            == "SHA1"@ || algorithm == "SHA256"@ || algorithm == "SHA512"@ || algorithm == "IPFSCID"@ || algorithm
            == "IPFSCID1"@ || algorithm == "ImageHash"@),
        digests_known(digests_wanted(ids), digests).contains(HashRec { file_id, algorithm, digest }) <==> exists|k: int|
            0 <= k < digests.len() && #[trigger] digests_wanted(ids)[k] == (file_id, algorithm) && digests[k] == Some(digest),
{
    lemma_wanted(ids, file_id, algorithm);
    lemma_known(digests_wanted(ids), digests, HashRec { file_id, algorithm, digest });
}

proof fn lemma_wanted(ids: Seq<u64>, file_id: u64, algorithm: Seq<char>)
    ensures
        digests_wanted(ids).contains((file_id, algorithm)) <==> ids.contains(file_id) && (algorithm == "MD5"@ || algorithm
            == "SHA1"@ || algorithm == "SHA256"@ || algorithm == "SHA512"@ || algorithm == "IPFSCID"@ || algorithm
            == "IPFSCID1"@ || algorithm == "ImageHash"@),
    decreases ids.len(),
{
    if ids.len() > 0 {
        let shorter = ids.drop_last();
        lemma_wanted(shorter, file_id, algorithm);
        lemma_push_contains(shorter, ids.last());
        assert(shorter.push(ids.last()) =~= ids);
        let before = digests_wanted(shorter);
        let kinds = digests_of_each_kind(ids.last());
        let after = digests_wanted(ids);
        let names = algorithm_names();
        assert(kinds.contains((file_id, algorithm)) <==> file_id == ids.last() && names.contains(algorithm)) by {
            if kinds.contains((file_id, algorithm)) {
                let k = choose|k: int| 0 <= k < kinds.len() && kinds[k] == (file_id, algorithm);
                assert(names[k] == algorithm);
            }
            if file_id == ids.last() && names.contains(algorithm) {
                let k = choose|k: int| 0 <= k < names.len() && names[k] == algorithm;
                assert(kinds[k] == (file_id, algorithm));
            }
        }
        assert(names.contains(algorithm) <==> algorithm == "MD5"@ || algorithm == "SHA1"@ || algorithm == "SHA256"@ || algorithm
            == "SHA512"@ || algorithm == "IPFSCID"@ || algorithm == "IPFSCID1"@ || algorithm == "ImageHash"@) by {
            assert(names[0] == "MD5"@ && names[1] == "SHA1"@ && names[2] == "SHA256"@ && names[3] == "SHA512"@ && names[4]
                == "IPFSCID"@ && names[5] == "IPFSCID1"@ && names[6] == "ImageHash"@);
        }
        if after.contains((file_id, algorithm)) {
            let k = choose|k: int| 0 <= k < after.len() && after[k] == (file_id, algorithm);
            if k < before.len() {
                assert(before[k] == after[k]);
                assert(before.contains((file_id, algorithm)));
            } else {
                assert(kinds[k - before.len()] == after[k]);
            }
        }
        if before.contains((file_id, algorithm)) {
            let k = choose|k: int| 0 <= k < before.len() && before[k] == (file_id, algorithm);
            assert(after[k] == before[k]);
        }
        if kinds.contains((file_id, algorithm)) {
            let k = choose|k: int| 0 <= k < kinds.len() && kinds[k] == (file_id, algorithm);
            assert(after[before.len() + k] == kinds[k]);
        }
    }
}

proof fn lemma_known(wanted: Seq<(u64, Seq<char>)>, digests: Seq<Option<Seq<char>>>, row: HashRec)
    ensures
        digests_known(wanted, digests).contains(row) <==> exists|k: int|
            0 <= k < wanted.len() && #[trigger] wanted[k] == (row.file_id, row.algorithm) && digests[k] == Some(row.digest),
    decreases wanted.len(),
{
    if wanted.len() > 0 {
        let shorter = wanted.drop_last();
        lemma_known(shorter, digests, row);
        let before = digests_known(shorter, digests);
        let last = wanted.len() - 1;
        if let Some(digest) = digests[last] {
            lemma_push_contains(before, HashRec { file_id: wanted.last().0, algorithm: wanted.last().1, digest });
        }
        if exists|k: int|
            0 <= k < shorter.len() && #[trigger] shorter[k] == (row.file_id, row.algorithm) && digests[k] == Some(row.digest) {
            let k = choose|k: int|
                0 <= k < shorter.len() && #[trigger] shorter[k] == (row.file_id, row.algorithm) && digests[k] == Some(row.digest);
            assert(wanted[k] == shorter[k]);
        }
        if exists|k: int|
            0 <= k < wanted.len() && #[trigger] wanted[k] == (row.file_id, row.algorithm) && digests[k] == Some(row.digest) {
            let k = choose|k: int|
                0 <= k < wanted.len() && #[trigger] wanted[k] == (row.file_id, row.algorithm) && digests[k] == Some(row.digest);
            if k < shorter.len() {
                assert(shorter[k] == wanted[k]);
            }
        }
        if wanted.last() == (row.file_id, row.algorithm) && digests[last] == Some(row.digest) {
            assert(wanted[last] == (row.file_id, row.algorithm));
        }
    }
}

/// Of the files whose sizes were looked up, those of which one was found get it.
pub proof fn known_sizes_are_those_found(ids: Seq<u64>, sizes: Seq<Option<u64>>, id: u64, size: u64)
    requires
        ids.len() <= sizes.len(),
    ensures
        sizes_known(ids, sizes).contains((id, size)) <==> exists|k: int|
            0 <= k < ids.len() && #[trigger] ids[k] == id && sizes[k] == Some(size),
    decreases ids.len(),
{
    if ids.len() > 0 {
        let shorter = ids.drop_last();
        known_sizes_are_those_found(shorter, sizes, id, size);
        let before = sizes_known(shorter, sizes);
        let last = ids.len() - 1;
        if let Some(found) = sizes[last] {
            lemma_push_contains(before, (ids.last(), found));
        }
        if exists|k: int| 0 <= k < shorter.len() && #[trigger] shorter[k] == id && sizes[k] == Some(size) {
            let k = choose|k: int| 0 <= k < shorter.len() && #[trigger] shorter[k] == id && sizes[k] == Some(size);
            assert(ids[k] == id);
        }
        if exists|k: int| 0 <= k < ids.len() && #[trigger] ids[k] == id && sizes[k] == Some(size) {
            let k = choose|k: int| 0 <= k < ids.len() && #[trigger] ids[k] == id && sizes[k] == Some(size);
            if k < shorter.len() {
                assert(shorter[k] == id);
            }
        }
        if ids.last() == id && sizes[last] == Some(size) {
            assert(ids[last] == id);
        }
    }
}

/// The path of a file is the first that was found, and none exactly if none was.
pub proof fn paths_are_the_first_found(found: Seq<Option<Seq<char>>>)
    ensures
        first_found(found) is None <==> forall|i: int| 0 <= i < found.len() ==> (#[trigger] found[i]) is None,
        first_found(found) matches Some(path) ==> exists|i: int|
            0 <= i < found.len() && #[trigger] found[i] == Some(path) && forall|k: int| 0 <= k < i ==> (#[trigger] found[k]) is None,
    decreases found.len(),
{
    if found.len() > 0 {
        if found[0] is None {
            let rest = found.skip(1);
            paths_are_the_first_found(rest);
            assert forall|k: int| 1 <= k < found.len() implies #[trigger] found[k] == rest[k - 1] by {}
            if first_found(rest) is Some {
                let path = first_found(rest)->0;
                let i = choose|i: int|
                    0 <= i < rest.len() && #[trigger] rest[i] == Some(path) && forall|k: int|
                        0 <= k < i ==> (#[trigger] rest[k]) is None;
                assert(found[i + 1] == Some(path));
                assert forall|k: int| 0 <= k < i + 1 implies (#[trigger] found[k]) is None by {
                    if k > 0 {
                        assert(rest[k - 1] is None);
                    }
                }
            } else {
                assert forall|i: int| 0 <= i < found.len() implies (#[trigger] found[i]) is None by {
                    if i > 0 {
                        assert(rest[i - 1] is None);
                    }
                }
            }
        } else {
            assert(found[0] == first_found(found));
        }
    }
}

/// A file is looked for in its own storage location first, then in all the others.
pub proof fn files_are_looked_for_at_home_first(state: DbState, storage_id: u64, location: Seq<char>)
    requires
        state.consistent(),
    ensures
        state.bases_for(storage_id).contains(location) <==> exists|q: int|
            0 <= q < state.storage.len() && (#[trigger] state.storage[q]).location == location,
        forall|q: int|
            0 <= q < state.storage.len() && (#[trigger] state.storage[q]).id == storage_id ==> state.bases_for(storage_id).len()
                > 0 && state.bases_for(storage_id)[0] == state.storage[q].location,
{
    let ids = storage_ids(state.storage);
    lemma_pos(ids, storage_id);
    let at = pos(ids, storage_id);
    if at < state.storage.len() {
        assert(ids[at] == state.storage[at].id);
    }
    assert forall|q: int| 0 <= q < state.storage.len() && (#[trigger] state.storage[q]).id == storage_id implies q == at by {
        assert(ids[q] == storage_id);
    }
    let keep = |row: StorageRec| row.id != storage_id;
    let rows = state.storage.filter(keep);
    let others = other_bases(state.storage, storage_id);
    let bases = state.bases_for(storage_id);
    lemma_filter_members(state.storage, keep);
    if bases.contains(location) {
        let b = choose|b: int| 0 <= b < bases.len() && bases[b] == location;
        let home: int = if at < state.storage.len() {
            1
        } else {
            0
        };
        if b < home {
            assert(state.storage[at].location == location);
        } else {
            assert(others[b - home] == location);
            assert(rows.contains(rows[b - home]));
            let q = choose|q: int| 0 <= q < state.storage.len() && state.storage[q] == rows[b - home];
            assert(state.storage[q].location == location);
        }
    }
    if exists|q: int| 0 <= q < state.storage.len() && (#[trigger] state.storage[q]).location == location {
        let q = choose|q: int| 0 <= q < state.storage.len() && (#[trigger] state.storage[q]).location == location;
        if q == at {
            assert(bases[0] == location);
        } else {
            assert(state.storage.contains(state.storage[q]));
            assert(rows.contains(state.storage[q]));
            let i = choose|i: int| 0 <= i < rows.len() && rows[i] == state.storage[q];
            assert(others[i] == location);
            if at < state.storage.len() {
                assert(bases[i + 1] == location);
            } else {
                assert(bases[i] == location);
            }
        }
    }
}

/// A changed file keeps its id and its size and gets the new hash, extension and storage location; the other rows stay. It
/// is refused exactly if another row has the hash, or no storage location has the id; one that is not there changes
/// nothing.
pub proof fn changed_files_stand_as_given(state: DbState, file: FileView, at: int)
    requires
        state.consistent(),
        0 <= at < state.files.len(),
        file.id == Some(state.files[at].id),
    ensures
        ({
            let taken = exists|i: int| 0 <= i < state.files.len() && i != at && (#[trigger] state.files[i]).hash == Some(file.hash);
            let homeless = forall|q: int| 0 <= q < state.storage.len() ==> (#[trigger] state.storage[q]).id != file.storage_id;
            match file_changed(state.files, state.storage, file) {
                Ok(after) => {
                    &&& !taken && !homeless
                    &&& after.len() == state.files.len()
                    &&& forall|i: int| 0 <= i < after.len() && i != at ==> #[trigger] after[i] == state.files[i]
                    &&& after[at].id == state.files[at].id
                    &&& after[at].size_bytes == state.files[at].size_bytes
                    &&& after[at].hash == Some(file.hash)
                    &&& after[at].extension == file.extension
                    &&& after[at].storage_id == file.storage_id
                },
                Err(error) => {
                    &&& taken ==> error == crate::database::DbError::Unique
                    &&& !taken ==> homeless && error == crate::database::DbError::ForeignKey
                },
            }
        }),
{
    let ids = file_ids(state.files);
    lemma_pos(ids, state.files[at].id);
    let found = pos(ids, state.files[at].id);
    assert(ids[at] == state.files[at].id);
    assert(ids[found] == state.files[at].id);
    assert(found == at);
    let places = storage_ids(state.storage);
    lemma_pos(places, file.storage_id);
    let p = pos(places, file.storage_id);
    if p < state.storage.len() {
        assert(places[p] == state.storage[p].id);
    } else {
        assert forall|q: int| 0 <= q < state.storage.len() implies (#[trigger] state.storage[q]).id != file.storage_id by {
            assert(places[q] == state.storage[q].id);
        }
    }
}

} // verus!
