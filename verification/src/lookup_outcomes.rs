//! What lookups, lists and counts tell, told of the rows.
use crate::bitmap_cache::group_files;
use crate::consistency::{files_ok, hashes_ok, namespaces_ok, parents_ok, tags_ok};
use crate::database::DbState;
use crate::file::digests_of;
use crate::jobs::{job_added, job_sites};
use crate::namespace::{cached_id_of, first_forms, form_names};
use crate::parents::{relation_accepted, relation_id, relation_ids};
use crate::processing::{ScrapedView, entries_processed, entry_chunk, part_processed, processed_in_parts};
use crate::rows::{
    HashRec, ParentRow, TagRec, cached_ids, digest_keys, file_ids, job_key, job_keys, namespace_ids, parent_relations,
    tag_ids,
};
use crate::slurp::{SourceView, names_column, word_at};
use crate::storage_check::{MoveView, jobs_added};
use crate::tag_search::most_hits;
use crate::text::{lemma_filter_step, lemma_pos, lemma_push_contains, pos};
use crate::types::{DbJobView, DbSearchTypeEnum, DigestView, FileView, JobView, NamespaceView, TagParents, TagView};
use vstd::prelude::*;

verus! {

/// Whether the rows call the tag with an id so, and describe its namespace so.
pub open spec fn reads(state: DbState, id: u64, tag: TagView) -> bool {
    exists|i: int, j: int|
        0 <= i < state.tags.len() && 0 <= j < state.namespaces.len() && (#[trigger] state.tags[i]).id == id
            && state.tags[i].name == tag.name && (#[trigger] state.namespaces[j]).id == state.tags[i].namespace
            && state.namespaces[j].name == tag.namespace.name && state.namespaces[j].description
            == tag.namespace.description
}

/// Looking a tag up by its id tells what its row and that of its namespace say.
pub proof fn tags_read_as_their_rows_say(state: DbState, id: u64, tag: TagView)
    requires
        namespaces_ok(state.namespaces),
        tags_ok(state.tags, state.namespaces),
    ensures
        state.tag_of(id) == Some(tag) <==> reads(state, id, tag),
        state.tag_of(id) is None <==> forall|i: int| 0 <= i < state.tags.len() ==> (#[trigger] state.tags[i]).id != id,
{
    let ids = tag_ids(state.tags);
    let spaces = namespace_ids(state.namespaces);
    lemma_pos(ids, id);
    let at = pos(ids, id);
    if at < state.tags.len() {
        assert(ids[at] == state.tags[at].id);
        let namespace = state.tags[at].namespace;
        lemma_pos(spaces, namespace);
        let n = pos(spaces, namespace);
        assert(spaces.contains(namespace));
        assert(spaces[n] == state.namespaces[n].id);
        if state.tag_of(id) == Some(tag) {
            assert(state.tags[at].id == id && state.namespaces[n].id == state.tags[at].namespace);
        }
    } else {
        assert forall|i: int| 0 <= i < state.tags.len() implies (#[trigger] state.tags[i]).id != id by {
            assert(ids[i] == state.tags[i].id);
        }
    }
    if reads(state, id, tag) {
        let (i, j) = choose|i: int, j: int|
            0 <= i < state.tags.len() && 0 <= j < state.namespaces.len() && (#[trigger] state.tags[i]).id == id
                && state.tags[i].name == tag.name && (#[trigger] state.namespaces[j]).id == state.tags[i].namespace
                && state.namespaces[j].name == tag.namespace.name && state.namespaces[j].description
                == tag.namespace.description;
        assert(ids[i] == id && ids[at] == id);
        assert(spaces[j] == state.tags[at].namespace);
        assert(spaces[pos(spaces, state.tags[at].namespace)] == spaces[j]);
        assert(tag.namespace == (NamespaceView { name: tag.namespace.name, description: tag.namespace.description }));
    }
}

/// A file has a tag that reads like this if it has a relationship with one that the rows call so.
pub proof fn files_have_the_tags_that_read_so(state: DbState, file_id: u64, tag: TagView)
    requires
        namespaces_ok(state.namespaces),
        tags_ok(state.tags, state.namespaces),
    ensures
        state.file_has(file_id, tag) <==> exists|t: u64| #[trigger]
            state.relationships.contains((file_id, t)) && reads(state, t, tag),
{
    if state.file_has(file_id, tag) {
        let t = choose|t: u64| #[trigger]
            state.relationships.contains((file_id, t)) && state.tag_of(t) == Some(tag);
        tags_read_as_their_rows_say(state, t, tag);
        assert(state.relationships.contains((file_id, t)) && reads(state, t, tag));
    }
    if exists|t: u64| #[trigger] state.relationships.contains((file_id, t)) && reads(state, t, tag) {
        let t = choose|t: u64| #[trigger] state.relationships.contains((file_id, t)) && reads(state, t, tag);
        tags_read_as_their_rows_say(state, t, tag);
        assert(state.relationships.contains((file_id, t)) && state.tag_of(t) == Some(tag));
    }
}

/// The cache of tags tells the tag that stands in it with an id.
pub proof fn cached_tags_are_told_by_their_id(state: DbState, id: u64, tag: TagView)
    requires
        cached_ids(state.tag_cache).no_duplicates(),
    ensures
        state.cached_tag(id) == Some(tag) <==> state.tag_cache.contains((id, tag)),
{
    let ids = cached_ids(state.tag_cache);
    lemma_pos(ids, id);
    let at = pos(ids, id);
    if at < state.tag_cache.len() {
        assert(ids[at] == state.tag_cache[at].0);
    }
    if state.tag_cache.contains((id, tag)) {
        let k = choose|k: int| 0 <= k < state.tag_cache.len() && state.tag_cache[k] == (id, tag);
        assert(ids[k] == id);
        assert(ids[at] == ids[k]);
    }
}

/// Whether a digest stands in the rows as that of a file, and the file is the row with its id; its size
/// is not told.
pub open spec fn owns(state: DbState, digest: DigestView, file: FileView) -> bool {
    exists|k: int, i: int|
        0 <= k < state.hashes.len() && 0 <= i < state.files.len() && (#[trigger] state.hashes[k]).algorithm
            == digest.algorithm && state.hashes[k].digest == digest.digest && (#[trigger] state.files[i]).id
            == state.hashes[k].file_id && file.id == Some(state.files[i].id) && state.files[i].hash == Some(file.hash)
            && file.extension == state.files[i].extension && file.storage_id == state.files[i].storage_id
            && file.size_bytes is None
}

/// A digest leads to the file whose row it stands with.
pub proof fn digests_lead_to_their_files(state: DbState, digest: DigestView, file: FileView)
    requires
        files_ok(state.files),
        hashes_ok(state.hashes, state.files),
    ensures
        state.digest_owner(digest) == Some(file) <==> owns(state, digest, file),
{
    let keys = digest_keys(state.hashes);
    let ids = file_ids(state.files);
    let key = (digest.algorithm, digest.digest);
    lemma_pos(keys, key);
    let at = pos(keys, key);
    if at < state.hashes.len() {
        assert(keys[at] == (state.hashes[at].algorithm, state.hashes[at].digest));
        let id = state.hashes[at].file_id;
        lemma_pos(ids, id);
        let n = pos(ids, id);
        if n < state.files.len() {
            assert(ids[n] == state.files[n].id);
            if state.digest_owner(digest) == Some(file) {
                assert(state.hashes[at].digest == digest.digest && state.files[n].id == state.hashes[at].file_id);
            }
        }
    }
    if owns(state, digest, file) {
        let (k, i) = choose|k: int, i: int|
            0 <= k < state.hashes.len() && 0 <= i < state.files.len() && (#[trigger] state.hashes[k]).algorithm
                == digest.algorithm && state.hashes[k].digest == digest.digest && (#[trigger] state.files[i]).id
                == state.hashes[k].file_id && file.id == Some(state.files[i].id) && state.files[i].hash == Some(
                file.hash,
            ) && file.extension == state.files[i].extension && file.storage_id == state.files[i].storage_id
                && file.size_bytes is None;
        assert(keys[k] == key && keys[at] == key);
        assert(k == at);
        let id = state.hashes[at].file_id;
        assert(ids[i] == id);
        lemma_pos(ids, id);
        assert(ids[pos(ids, id)] == ids[i]);
    }
}

/// A list of digests leads to the files of those that are known, each with its digest.
pub proof fn lists_of_digests_lead_to_their_files(
    state: DbState,
    digests: Seq<DigestView>,
    digest: DigestView,
    file: FileView,
)
    requires
        files_ok(state.files),
        hashes_ok(state.hashes, state.files),
    ensures
        state.digest_owners(digests).contains((digest, file)) <==> digests.contains(digest) && owns(state, digest, file),
        state.digest_owners(digests).len() <= digests.len(),
    decreases digests.len(),
{
    digests_lead_to_their_files(state, digest, file);
    if digests.len() > 0 {
        let shorter = digests.drop_last();
        let last = digests.last();
        lists_of_digests_lead_to_their_files(state, shorter, digest, file);
        lemma_push_contains(shorter, last);
        assert(shorter.push(last) =~= digests);
        if let Some(found) = state.digest_owner(last) {
            lemma_push_contains(state.digest_owners(shorter), (last, found));
        }
    }
}

/// The digests of a file are those that stand in the rows with its id.
pub proof fn digests_of_a_file_stand_in_its_rows(
    rows: Seq<HashRec>,
    file_id: u64,
    algorithm: Seq<char>,
    digest: Seq<char>,
)
    ensures
        digests_of(rows, file_id).contains((algorithm, digest)) <==> rows.contains(
            HashRec { file_id, algorithm, digest },
        ),
    decreases rows.len(),
{
    if rows.len() > 0 {
        let shorter = rows.drop_last();
        let last = rows.last();
        digests_of_a_file_stand_in_its_rows(shorter, file_id, algorithm, digest);
        lemma_push_contains(shorter, last);
        assert(shorter.push(last) =~= rows);
        lemma_push_contains(digests_of(shorter, file_id), (last.algorithm, last.digest));
    }
}

/// The sites of the jobs are listed once each.
pub proof fn sites_are_those_of_the_jobs(rows: Seq<DbJobView>, site: Seq<char>)
    ensures
        job_sites(rows).contains(site) <==> exists|k: int| 0 <= k < rows.len() && (#[trigger] rows[k]).config.site == site,
        job_sites(rows).no_duplicates(),
    decreases rows.len(),
{
    if rows.len() > 0 {
        let shorter = rows.drop_last();
        let before = job_sites(shorter);
        let last = rows.last().config.site;
        sites_are_those_of_the_jobs(shorter, site);
        lemma_push_contains(before, last);
        if before.contains(site) {
            let k = choose|k: int| 0 <= k < shorter.len() && (#[trigger] shorter[k]).config.site == site;
            assert(rows[k].config.site == site);
        }
        if site == last {
            assert(rows[rows.len() - 1].config.site == site);
        }
        if exists|k: int| 0 <= k < rows.len() && (#[trigger] rows[k]).config.site == site {
            let k = choose|k: int| 0 <= k < rows.len() && (#[trigger] rows[k]).config.site == site;
            if k < shorter.len() {
                assert(shorter[k].config.site == site);
            }
        }
        if !before.contains(last) {
            let after = before.push(last);
            assert forall|i: int, j: int| 0 <= i < after.len() && 0 <= j < after.len() && i != j implies after[i]
                != after[j] by {
                if i < before.len() && j < before.len() {
                    assert(before[i] != before[j]);
                } else if i < before.len() {
                    assert(before.contains(before[i]));
                } else {
                    assert(before.contains(before[j]));
                }
            }
        }
    }
}

/// Of some relations, those whose tags exist come with the ids of their rows.
pub proof fn relations_come_with_the_ids_of_their_rows(
    rows: Seq<ParentRow>,
    tags: Seq<TagRec>,
    relations: Seq<TagParents>,
    relation: TagParents,
    id: u64,
)
    requires
        parents_ok(rows, tags),
        forall|i: int|
            0 <= i < relations.len() && relation_accepted(tags, #[trigger] relations[i]) ==> parent_relations(
                rows,
            ).contains(relations[i]),
    ensures
        relation_ids(rows, tags, relations).contains((relation, id)) <==> relations.contains(relation) && exists|k: int|
            0 <= k < rows.len() && (#[trigger] rows[k]).relation == relation && rows[k].id == id,
    decreases relations.len(),
{
    if relations.len() > 0 {
        let shorter = relations.drop_last();
        let last = relations.last();
        let before = relation_ids(rows, tags, shorter);
        assert forall|i: int| 0 <= i < shorter.len() && relation_accepted(tags, #[trigger] shorter[i])
            implies parent_relations(rows).contains(shorter[i]) by {
            assert(shorter[i] == relations[i]);
        }
        relations_come_with_the_ids_of_their_rows(rows, tags, shorter, relation, id);
        lemma_push_contains(shorter, last);
        assert(shorter.push(last) =~= relations);
        let keys = parent_relations(rows);
        lemma_pos(keys, last);
        let at = pos(keys, last);
        assert(relations[relations.len() - 1] == last);
        if relation_accepted(tags, last) {
            assert(keys.contains(last));
            assert(keys[at] == rows[at].relation);
            lemma_push_contains(before, (last, relation_id(rows, last)->0));
        }
        if relation == last && exists|k: int| 0 <= k < rows.len() && (#[trigger] rows[k]).relation == relation && rows[k].id == id {
            let k = choose|k: int| 0 <= k < rows.len() && (#[trigger] rows[k]).relation == relation && rows[k].id == id;
            assert(keys[k] == last && keys[at] == last);
            assert(relation_accepted(tags, rows[k].relation));
        }
    }
}

/// A group of tags finds the files that every tag of it in memory has, or one of them has; with no tag in
/// memory it finds nothing at all.
pub proof fn groups_find_what_memory_holds(sets: Map<u64, Set<u64>>, ids: Seq<u64>, file_id: u64)
    ensures
        (forall|i: int| 0 <= i < ids.len() ==> !sets.dom().contains(#[trigger] ids[i])) <==> group_files(
            sets,
            ids,
            DbSearchTypeEnum::And,
        ) is None,
        group_files(sets, ids, DbSearchTypeEnum::Or) is None <==> group_files(sets, ids, DbSearchTypeEnum::And) is None,
        group_files(sets, ids, DbSearchTypeEnum::And) is Some ==> (group_files(
            sets,
            ids,
            DbSearchTypeEnum::And,
        )->0.contains(file_id) <==> forall|i: int|
            0 <= i < ids.len() && sets.dom().contains(#[trigger] ids[i]) ==> sets[ids[i]].contains(file_id)),
        group_files(sets, ids, DbSearchTypeEnum::Or) is Some ==> (group_files(
            sets,
            ids,
            DbSearchTypeEnum::Or,
        )->0.contains(file_id) <==> exists|i: int|
            0 <= i < ids.len() && sets.dom().contains(#[trigger] ids[i]) && sets[ids[i]].contains(file_id)),
{
}

/// As many files of a source count as have a hash.
pub proof fn hashed_files_are_counted(source: SourceView, n: nat)
    requires
        n <= source.files.len(),
    ensures
        source.hashed(n) == source.files.take(n as int).filter(|row: crate::slurp::SourceFileRec| row.hash is Some).len(),
    decreases n,
{
    let keep = |row: crate::slurp::SourceFileRec| row.hash is Some;
    if n > 0 {
        hashed_files_are_counted(source, (n - 1) as nat);
        lemma_filter_step(source.files, n - 1, keep);
    } else {
        reveal(Seq::filter);
    }
}

/// As many tags of a source count as are here.
pub proof fn tags_that_are_here_are_counted(state: DbState, source: SourceView, n: nat)
    requires
        n <= source.tags.len(),
    ensures
        state.tags_here(source, n) == source.tags.take(n as int).filter(
            |row: TagRec| state.tag_here(source, row) is Some,
        ).len(),
    decreases n,
{
    let keep = |row: TagRec| state.tag_here(source, row) is Some;
    if n > 0 {
        tags_that_are_here_are_counted(state, source, (n - 1) as nat);
        lemma_filter_step(source.tags, n - 1, keep);
    } else {
        reveal(Seq::filter);
    }
}

/// Whether a job with the time, wait, site and parameters of another stands in the table.
pub open spec fn stands(rows: Seq<DbJobView>, job: JobView) -> bool {
    exists|k: int|
        0 <= k < rows.len() && (#[trigger] rows[k]).config.time == job.time && rows[k].config.reptime == job.reptime
            && rows[k].config.site == job.site && rows[k].config.param == job.param
}

proof fn lemma_job_stands(rows: Seq<DbJobView>, job: JobView)
    ensures
        stands(job_added(rows, job), job),
        rows.len() <= job_added(rows, job).len(),
        forall|k: int|
            0 <= k < rows.len() ==> (#[trigger] job_added(rows, job)[k]).id == rows[k].id && job_key(
                job_added(rows, job)[k].config,
            ) == job_key(rows[k].config) && job_added(rows, job)[k].isrunning == rows[k].isrunning,
        forall|other: JobView| #[trigger] stands(rows, other) ==> stands(job_added(rows, job), other),
{
    let after = job_added(rows, job);
    let keys = job_keys(rows);
    lemma_pos(keys, job_key(job));
    let at = pos(keys, job_key(job));
    if at < rows.len() {
        assert(keys[at] == job_key(rows[at].config));
        assert(after[at].config.site == job.site);
    } else {
        assert(after[rows.len() as int].config == job);
    }
    assert forall|other: JobView| #[trigger] stands(rows, other) implies stands(after, other) by {
        let k = choose|k: int|
            0 <= k < rows.len() && (#[trigger] rows[k]).config.time == other.time && rows[k].config.reptime
                == other.reptime && rows[k].config.site == other.site && rows[k].config.param == other.param;
        assert(after[k].config.site == other.site);
    }
}

/// Jobs that are added one after the other all stand in the table afterwards, and those that were there
/// stay.
pub proof fn all_added_jobs_stand(rows: Seq<DbJobView>, jobs: Seq<JobView>)
    ensures
        forall|i: int| 0 <= i < jobs.len() ==> stands(jobs_added(rows, jobs), #[trigger] jobs[i]),
        rows.len() <= jobs_added(rows, jobs).len(),
        forall|k: int|
            0 <= k < rows.len() ==> (#[trigger] jobs_added(rows, jobs)[k]).id == rows[k].id && jobs_added(
                rows,
                jobs,
            )[k].isrunning == rows[k].isrunning,
    decreases jobs.len(),
{
    if jobs.len() > 0 {
        let shorter = jobs.drop_last();
        let before = jobs_added(rows, shorter);
        all_added_jobs_stand(rows, shorter);
        lemma_job_stands(before, jobs.last());
        let after = jobs_added(rows, jobs);
        assert forall|i: int| 0 <= i < jobs.len() implies stands(after, #[trigger] jobs[i]) by {
            if i < shorter.len() {
                assert(shorter[i] == jobs[i]);
                assert(stands(before, shorter[i]));
            }
        }
        assert forall|k: int| 0 <= k < rows.len() implies (#[trigger] after[k]).id == rows[k].id && after[k].isrunning
            == rows[k].isrunning by {
            assert(before[k].id == rows[k].id);
        }
    }
}

/// A list of missing files gives the jobs that each of them gives.
pub proof fn every_missing_file_is_downloaded(
    state: DbState,
    files: Seq<FileView>,
    sites: Seq<(Seq<char>, Seq<char>)>,
    now: u64,
    job: JobView,
)
    ensures
        state.redownloads(files, sites, now).contains(job) <==> exists|i: int|
            0 <= i < files.len() && state.redownload(#[trigger] files[i], sites, now) == Some(job),
        state.redownloads(files, sites, now).len() <= files.len(),
    decreases files.len(),
{
    if files.len() > 0 {
        let shorter = files.drop_last();
        let before = state.redownloads(shorter, sites, now);
        every_missing_file_is_downloaded(state, shorter, sites, now, job);
        if let Some(last) = state.redownload(files.last(), sites, now) {
            lemma_push_contains(before, last);
        }
        if before.contains(job) {
            let i = choose|i: int|
                0 <= i < shorter.len() && state.redownload(#[trigger] shorter[i], sites, now) == Some(job);
            assert(shorter[i] == files[i]);
        }
        if state.redownload(files.last(), sites, now) == Some(job) {
            assert(state.redownload(files[files.len() - 1], sites, now) == Some(job));
        }
        if exists|i: int| 0 <= i < files.len() && state.redownload(#[trigger] files[i], sites, now) == Some(job) {
            let i = choose|i: int|
                0 <= i < files.len() && state.redownload(#[trigger] files[i], sites, now) == Some(job);
            if i < shorter.len() {
                assert(shorter[i] == files[i]);
            }
        }
    }
}

/// Each strayed file is moved by its own hash, and one that could not be read is left where it is.
pub proof fn strayed_files_are_moved_one_by_one(
    state: DbState,
    default: Seq<char>,
    paths: Seq<Seq<char>>,
    hashes: Seq<Option<Seq<char>>>,
    i: int,
    hash: Seq<char>,
)
    requires
        0 <= i < paths.len(),
        paths.len() == hashes.len(),
    ensures
        state.moves_by_hash(default, paths, hashes).len() == paths.len(),
        hashes[i] == Some(hash) ==> state.moves_by_hash(default, paths, hashes)[i] == state.move_by_hash(
            default,
            paths[i],
            hash,
        ),
        hashes[i] is None ==> state.moves_by_hash(default, paths, hashes)[i] == MoveView::Leave,
{
}

/// Whether an entry stands in one of the parts that are written.
pub open spec fn stands_in_part(states: Seq<DbState>, entries: Seq<ScrapedView>, e: int, n: int) -> bool {
    &&& 0 <= n < states.len() - 1
    &&& n * 100 <= e < (n + 1) * 100
    &&& e - n * 100 < entry_chunk(entries, n).len()
    &&& entry_chunk(entries, n)[e - n * 100] == entries[e]
}

/// Whether a part of some entries is written between two states: files, tags and relationships are those
/// that writing the part gives.
pub open spec fn written_between(before: DbState, part: Seq<ScrapedView>, after: DbState) -> bool {
    exists|written: DbState| #[trigger]
        entries_processed(before, part, written) && after.files == written.files && after.tags == written.tags
            && after.relationships == written.relationships && after.namespaces == written.namespaces
            && after.hashes == written.hashes && after.parents == written.parents
}

/// What a scraper brings is written in parts of a hundred entries: each entry stands in the part for its
/// place, and each part is written to the state that the one before it left.
pub proof fn every_entry_is_written_in_its_part(states: Seq<DbState>, entries: Seq<ScrapedView>, e: int, n: int)
    requires
        processed_in_parts(states, entries),
    ensures
        states.len() > 0,
        0 <= e < entries.len() ==> stands_in_part(states, entries, e, e / 100),
        0 <= n < states.len() - 1 ==> written_between(states[n], entry_chunk(entries, n), states[n + 1]),
        0 <= n < states.len() - 1 ==> 0 < entry_chunk(entries, n).len() <= 100,
{
    if 0 <= n < states.len() - 1 {
        assert(part_processed(states[n], entry_chunk(entries, n), states[n + 1]));
        let written = choose|written: DbState| #[trigger]
            entries_processed(states[n], entry_chunk(entries, n), written) && states[n + 1] == written.refreshed();
        assert(entries_processed(states[n], entry_chunk(entries, n), written));
    }
}

/// A namespace that no cache knows is added when it is asked for; asking for another changes nothing.
pub proof fn namespaces_asked_for_are_added(state: DbState, namespace: NamespaceView)
    ensures
        cached_id_of(state.namespace_cache, namespace.name) is None ==> exists|k: int|
            0 <= k < state.with_namespace_asked(namespace).namespaces.len() && (
            #[trigger] state.with_namespace_asked(namespace).namespaces[k]).name == namespace.name,
        cached_id_of(state.namespace_cache, namespace.name) is Some ==> state.with_namespace_asked(namespace) == state,
{
    let after = state.with_namespace_asked(namespace);
    if cached_id_of(state.namespace_cache, namespace.name) is None {
        crate::namespace::lemma_namespace_upserted(state.namespaces, namespace);
        let names = crate::rows::namespace_names(after.namespaces);
        lemma_pos(names, namespace.name);
        let k = pos(names, namespace.name);
        assert(names[k] == after.namespaces[k].name);
    }
}

/// A tag search shows as many hits as were asked for, ten where nothing was said.
pub proof fn searches_show_ten_hits_unless_told(most: u64)
    ensures
        most_hits(None) == 10,
        most_hits(Some(most)) == most,
{
}

/// Whether no namespace before a place is called like the one there.
pub open spec fn first_of_its_name(namespaces: Seq<NamespaceView>, k: int) -> bool {
    &&& 0 <= k < namespaces.len()
    &&& forall|j: int| 0 <= j < k ==> (#[trigger] namespaces[j]).name != namespaces[k].name
}

/// Whether a namespace is the first of some that is called so.
pub open spec fn comes_first(namespaces: Seq<NamespaceView>, namespace: NamespaceView) -> bool {
    exists|k: int| #[trigger] first_of_its_name(namespaces, k) && namespaces[k] == namespace
}

/// Of namespaces that are called the same, the first one counts.
pub proof fn the_first_form_of_a_namespace_counts(namespaces: Seq<NamespaceView>, namespace: NamespaceView)
    ensures
        first_forms(namespaces).contains(namespace) <==> comes_first(namespaces, namespace),
        form_names(first_forms(namespaces)).contains(namespace.name) <==> form_names(namespaces).contains(namespace.name),
    decreases namespaces.len(),
{
    let forms = first_forms(namespaces);
    if namespaces.len() > 0 {
        let shorter = namespaces.drop_last();
        let last = namespaces.last();
        let before = first_forms(shorter);
        the_first_form_of_a_namespace_counts(shorter, namespace);
        the_first_form_of_a_namespace_counts(shorter, last);
        assert(form_names(namespaces) =~= form_names(shorter).push(last.name));
        lemma_push_contains(form_names(shorter), last.name);
        lemma_pos(form_names(before), last.name);
        lemma_push_contains(before, last);
        assert(form_names(before.push(last)) =~= form_names(before).push(last.name));
        lemma_push_contains(form_names(before), last.name);
        if comes_first(shorter, namespace) {
            let k = choose|k: int| #[trigger] first_of_its_name(shorter, k) && shorter[k] == namespace;
            assert forall|j: int| 0 <= j < k implies (#[trigger] namespaces[j]).name != namespaces[k].name by {
                assert(shorter[j] == namespaces[j]);
            }
            assert(first_of_its_name(namespaces, k) && namespaces[k] == namespace);
        }
        let n = namespaces.len() - 1;
        if !form_names(shorter).contains(last.name) {
            assert forall|j: int| 0 <= j < n implies (#[trigger] namespaces[j]).name != namespaces[n].name by {
                assert(form_names(shorter)[j] == namespaces[j].name);
            }
            assert(first_of_its_name(namespaces, n) && namespaces[n] == last);
        }
        if comes_first(namespaces, namespace) {
            let k = choose|k: int| #[trigger] first_of_its_name(namespaces, k) && namespaces[k] == namespace;
            if k < n {
                assert forall|j: int| 0 <= j < k implies (#[trigger] shorter[j]).name != shorter[k].name by {
                    assert(shorter[j] == namespaces[j]);
                }
                assert(first_of_its_name(shorter, k) && shorter[k] == namespace);
            } else {
                if form_names(shorter).contains(last.name) {
                    let j = choose|j: int| 0 <= j < n && form_names(shorter)[j] == last.name;
                    assert(namespaces[j].name == namespaces[k].name);
                }
            }
        }
    } else {
        assert(form_names(forms) =~= form_names(namespaces));
    }
}

/// A declaration names a column if the name stands in it as a word, between spaces, brackets or commas; it
/// does not where the name is only the end of a longer word.
pub proof fn columns_are_named_by_words(before: Seq<char>, name: Seq<char>, after: Seq<char>, c: char)
    requires
        name.len() > 0,
    ensures
        (before.len() > 0 ==> before.last() == ' ' || before.last() == '(' || before.last() == ',') && (after.len() > 0
            ==> after[0] == ' ' || after[0] == ')' || after[0] == ',') ==> names_column(before + name + after, name),
        ('a' <= c <= 'z' || c == '_' || '0' <= c <= '9') && c != name[0] ==> !names_column(seq![c] + name, name),
        before.len() < name.len() ==> !names_column(before, name),
{
    let text = before + name + after;
    let at = before.len() as int;
    if (before.len() > 0 ==> before.last() == ' ' || before.last() == '(' || before.last() == ',') && (after.len() > 0
        ==> after[0] == ' ' || after[0] == ')' || after[0] == ',') {
        assert forall|k: int| 0 <= k < name.len() implies crate::slurp::same_letter(text[at + k], #[trigger] name[k]) by {
            assert(text[at + k] == name[k]);
        }
        if at > 0 {
            assert(text[at - 1] == before.last());
        }
        if at + name.len() < text.len() {
            assert(text[at + name.len()] == after[0]);
        }
        assert(word_at(text, name, at));
    }
    let longer = seq![c] + name;
    if ('a' <= c <= 'z' || c == '_' || '0' <= c <= '9') && names_column(longer, name) && c != name[0] {
        let p = choose|p: int| #[trigger] word_at(longer, name, p);
        assert(longer[0] == c);
        assert(crate::slurp::same_letter(longer[p + 0], name[0]));
        assert(c == name[0]);
    }
}

} // verus!
