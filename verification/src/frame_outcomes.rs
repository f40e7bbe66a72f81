//! What the larger operations leave as it was.
use crate::database::DbState;
use crate::parents::lemma_with_relations;
use crate::processing::{ScrapedView, entries_processed, lists};
use crate::relationship::{chunk, chunk_count};
use crate::slurp::SourceView;
use crate::tag::lemma_with_namespaces;
use crate::tag_outcomes::{lemma_plugin_tags_touch, lemma_relationships_touch};
use crate::types::{DigestView, PluginTagView};
use vstd::prelude::*;

verus! {

/// Whether the jobs, the settings, the dead URLs and the choice of a cache are the same in two states.
pub open spec fn leaves_the_rest(before: DbState, after: DbState) -> bool {
    &&& after.jobs == before.jobs
    &&& after.settings == before.settings
    &&& after.setting_cache == before.setting_cache
    &&& after.dead_urls == before.dead_urls
    &&& after.cache_type == before.cache_type
    &&& after.tag_search_cache == before.tag_search_cache
}

proof fn lemma_locations_leave(state: DbState, source: SourceView, n: nat)
    ensures
        leaves_the_rest(state, state.with_source_locations(source, n)),
    decreases n,
{
    if n > 0 {
        lemma_locations_leave(state, source, (n - 1) as nat);
    }
}

proof fn lemma_batches_leave(state: DbState, tags: Seq<PluginTagView>, n: nat)
    ensures
        leaves_the_rest(state, state.with_tag_batches(tags, n)),
    decreases n,
{
    if n > 0 {
        lemma_batches_leave(state, tags, (n - 1) as nat);
        lemma_plugin_tags_touch(state.with_tag_batches(tags, (n - 1) as nat), chunk(tags, (n - 1) as nat));
    }
}

proof fn lemma_files_leave(state: DbState, source: SourceView, n: nat)
    ensures
        leaves_the_rest(state, state.with_source_files(source, n)),
    decreases n,
{
    if n > 0 {
        lemma_files_leave(state, source, (n - 1) as nat);
    }
}

proof fn lemma_digests_leave(state: DbState, source: SourceView, rows: Seq<crate::rows::HashRec>, n: nat)
    ensures
        leaves_the_rest(state, state.with_source_digests(source, rows, n)),
    decreases n,
{
    if n > 0 {
        lemma_digests_leave(state, source, rows, (n - 1) as nat);
    }
}

proof fn lemma_relationship_batches_leave(state: DbState, rows: Seq<(u64, u64)>, n: nat)
    ensures
        leaves_the_rest(state, state.with_relationship_batches(rows, n)),
    decreases n,
{
    if n > 0 {
        let m = (n - 1) as nat;
        lemma_relationship_batches_leave(state, rows, m);
        lemma_relationships_touch(state.with_relationship_batches(rows, m), chunk(rows, m));
    }
}

proof fn lemma_source_relationships_leave(state: DbState, source: SourceView, n: nat)
    ensures
        leaves_the_rest(state, state.with_source_relationships(source, n)),
    decreases n,
{
    if n > 0 {
        let m = (n - 1) as nat;
        lemma_source_relationships_leave(state, source, m);
        let before = state.with_source_relationships(source, m);
        let namespace = source.namespaces[n - 1].id;
        let rows = source.rows_for(namespace);
        let here = before.relationships_here(source, namespace, rows, rows.len());
        lemma_relationship_batches_leave(before, here, chunk_count(here.len()));
    }
}

/// Taking over a database leaves the jobs, the settings, the dead URLs and the choice of a cache.
pub proof fn slurping_leaves_the_rest(state: DbState, source: SourceView)
    ensures
        leaves_the_rest(state, state.slurped(source)),
{
    let located = state.with_source_locations(source, source.storage.len());
    lemma_locations_leave(state, source, source.storage.len());
    lemma_with_namespaces(located, source.namespace_objects());
    let named = located.with_namespaces(source.namespace_objects());
    let tags = source.plugin_tags(source.tags.len());
    lemma_batches_leave(named, tags, chunk_count(tags.len()));
    let tagged = state.with_source_tags(source);
    lemma_files_leave(tagged, source, source.files.len());
    let filed = tagged.with_source_files(source, source.files.len());
    if let Some(rows) = source.hashes {
        lemma_digests_leave(filed, source, rows, rows.len());
    }
    let contents = tagged.with_source_contents(source);
    lemma_source_relationships_leave(contents, source, source.namespaces.len());
    let related = contents.with_source_relationships(source, source.namespaces.len());
    if let Some(rows) = source.parents {
        lemma_with_relations(related, related.relations_here(source, rows, rows.len()));
    }
}

proof fn lemma_file_digests_leave(state: DbState, file_id: u64, digests: Seq<DigestView>)
    ensures
        leaves_the_rest(state, state.with_digests(file_id, digests)),
        state.with_digests(file_id, digests).storage == state.storage,
    decreases digests.len(),
{
    if digests.len() > 0 {
        lemma_file_digests_leave(state, file_id, digests.drop_last());
    }
}

proof fn lemma_entry_digests_leave(state: DbState, entries: Seq<ScrapedView>)
    ensures
        leaves_the_rest(state, state.with_entry_digests(entries)),
        state.with_entry_digests(entries).storage == state.storage,
    decreases entries.len(),
{
    if entries.len() > 0 {
        lemma_entry_digests_leave(state, entries.drop_last());
        lemma_file_digests_leave(
            state.with_entry_digests(entries.drop_last()),
            crate::file::file_id_of(state.files, entries.last().manager.internal.hash)->0,
            entries.last().manager.identifying_hashes,
        );
    }
}

/// Writing what a scraper brings of files leaves the jobs, the settings, the dead URLs, the storage
/// locations and the choice of a cache.
pub proof fn scraped_files_leave_the_rest(before: DbState, entries: Seq<ScrapedView>, after: DbState)
    requires
        entries_processed(before, entries, after),
    ensures
        leaves_the_rest(before, after),
        after.storage == before.storage,
{
    if entries.len() > 0 {
        let known = before.with_entries_known(entries);
        let ids = before.entry_tag_ids(entries);
        let (removed, added) = choose|removed: Seq<(u64, u64)>, added: Seq<(u64, u64)>|
            lists(removed, known.removals(entries, ids)) && lists(added, known.additions(entries, ids)) && after
                == #[trigger] known.with_changes(removed, added);
        let filed = DbState {
            files: crate::file::files_upserted(before.files, crate::processing::scraped_files(entries)),
            ..before
        };
        lemma_entry_digests_leave(filed, entries);
        lemma_plugin_tags_touch(filed.with_entry_digests(entries), crate::processing::scraped_tags(entries));
        reveal(DbState::without_relationships);
        lemma_relationships_touch(known.without_relationships(removed), added);
    }
}

/// Removing tags, or namespaces with their tags, leaves the files, their digests, the jobs, the settings, the
/// dead URLs and the storage locations.
pub proof fn removals_leave_the_rest(state: DbState, ids: Seq<u64>, n: nat)
    ensures
        leaves_the_rest(state, state.with_namespaces_removed(ids)),
        state.with_namespaces_removed(ids).files == state.files,
        state.with_namespaces_removed(ids).hashes == state.hashes,
        state.with_namespaces_removed(ids).storage == state.storage,
        state.with_tag_lists_removed(ids, n) matches Some(after) ==> leaves_the_rest(state, after) && after.files
            == state.files && after.hashes == state.hashes && after.storage == state.storage && after.namespaces
            == state.namespaces,
    decreases n,
{
    if n > 0 {
        removals_leave_the_rest(state, ids, (n - 1) as nat);
    }
}

} // verus!
