//! What holds of the tables at all times: ids and keys stand for one row each, and a row that names
//! another names one that exists.
use crate::database::DbState;
use crate::dead_url::dead_url_added;
use crate::file::{digest_added, file_upserted, files_upserted};
use crate::jobs::{job_added, job_removed, job_updated};
use crate::namespace::{distinct_forms, namespace_id_of, namespace_upserted};
use crate::parents::{relation_accepted, relation_id, tag_exists};
use crate::relationship::{
    all_counted_up, chunk, chunk_count, counted_down, counted_up, file_exists, in_namespace, lemma_with_chunks,
};
use crate::rows::{
    FileRec, HashRec, NamespaceRec, ParentRow, StorageRec, TagRec, digest_keys, file_algorithms, file_hashes,
    file_ids, job_ids, job_keys, namespace_ids, namespace_names, next_id, next_id_is_fresh, parent_ids,
    parent_relations, setting_names, storage_ids, storage_locations, tag_ids, tag_keys,
};
use crate::settings::{setting_put, storage_added};
use crate::tag::{
    distinct_tags, forms_of, lemma_stored_tags_named, lemma_with_namespaces, namespaces_named, namespaces_of,
    stored_among, stored_tags_of, tag_upserted, tags_upserted,
};
use crate::text::{lemma_filter_members, lemma_pos, lemma_push_contains, pos};
use crate::types::{DbJobView, FileView, JobView, NamespaceView, PluginTagView, SettingView, TagParents, TagView};
use crate::upkeep::files_changed;
use vstd::prelude::*;

verus! {

/// Whether each namespace has an id and a name of its own.
pub open spec fn namespaces_ok(rows: Seq<NamespaceRec>) -> bool {
    namespace_ids(rows).no_duplicates() && namespace_names(rows).no_duplicates()
}

/// Whether each tag has an id and a key of its own, and a namespace that exists.
pub open spec fn tags_ok(rows: Seq<TagRec>, namespaces: Seq<NamespaceRec>) -> bool {
    &&& tag_ids(rows).no_duplicates()
    &&& tag_keys(rows).no_duplicates()
    &&& forall|i: int| 0 <= i < rows.len() ==> namespace_ids(namespaces).contains((#[trigger] rows[i]).namespace)
}

/// Whether the file and the tag of each relationship exist.
pub open spec fn relationships_ok(relationships: Set<(u64, u64)>, files: Seq<FileRec>, tags: Seq<TagRec>) -> bool {
    forall|r: (u64, u64)| #[trigger] relationships.contains(r) ==> file_exists(files, r.0) && tag_exists(tags, r.1)
}

/// Whether each structural relation has an id of its own, stands in the table once, and is one that the
/// table takes.
pub open spec fn parents_ok(rows: Seq<ParentRow>, tags: Seq<TagRec>) -> bool {
    &&& parent_ids(rows).no_duplicates()
    &&& parent_relations(rows).no_duplicates()
    &&& forall|i: int| 0 <= i < rows.len() ==> relation_accepted(tags, (#[trigger] rows[i]).relation)
}

/// Whether each storage location has an id and a place of its own.
pub open spec fn storage_ok(rows: Seq<StorageRec>) -> bool {
    storage_ids(rows).no_duplicates() && storage_locations(rows).no_duplicates()
}

/// Whether each file has an id of its own, and each that has a hash, a hash of its own.
pub open spec fn files_ok(rows: Seq<FileRec>) -> bool {
    &&& file_ids(rows).no_duplicates()
    &&& forall|i: int, j: int|
        0 <= i < rows.len() && 0 <= j < rows.len() && i != j && (#[trigger] rows[i]).hash is Some ==> rows[i].hash != (
        #[trigger] rows[j]).hash
}

/// Whether no file has two digests by one algorithm, no digest belongs to two files, and the file of each
/// exists.
pub open spec fn hashes_ok(rows: Seq<HashRec>, files: Seq<FileRec>) -> bool {
    &&& file_algorithms(rows).no_duplicates()
    &&& digest_keys(rows).no_duplicates()
    &&& forall|i: int| 0 <= i < rows.len() ==> file_exists(files, (#[trigger] rows[i]).file_id)
}

/// Whether each job has an id and a key of its own.
pub open spec fn jobs_ok(rows: Seq<DbJobView>) -> bool {
    job_ids(rows).no_duplicates() && job_keys(rows).no_duplicates()
}

impl DbState {
    /// Whether another state has the same rows, but for relationships and the counts of tags, in the tables
    /// that relationships hang on.
    pub open spec fn same_rows(self, other: DbState) -> bool {
        &&& tag_ids(other.tags) == tag_ids(self.tags)
        &&& tag_keys(other.tags) == tag_keys(self.tags)
        &&& other.namespaces == self.namespaces
        &&& other.files == self.files
        &&& other.parents == self.parents
    }

    /// Whether the tables are consistent.
    pub open spec fn consistent(self) -> bool {
        &&& namespaces_ok(self.namespaces)
        &&& tags_ok(self.tags, self.namespaces)
        &&& relationships_ok(self.relationships, self.files, self.tags)
        &&& parents_ok(self.parents, self.tags)
        &&& storage_ok(self.storage)
        &&& files_ok(self.files)
        &&& hashes_ok(self.hashes, self.files)
        &&& jobs_ok(self.jobs)
        &&& setting_names(self.settings).no_duplicates()
        &&& self.dead_urls.no_duplicates()
    }
}

proof fn lemma_push_distinct<T>(keys: Seq<T>, key: T)
    requires
        keys.no_duplicates(),
        !keys.contains(key),
    ensures
        keys.push(key).no_duplicates(),
{
    let more = keys.push(key);
    assert forall|i: int, k: int| 0 <= i < more.len() && 0 <= k < more.len() && i != k implies more[i] != more[k] by {
        if i == keys.len() {
            assert(keys.contains(keys[k]));
        } else if k == keys.len() {
            assert(keys.contains(keys[i]));
        }
    }
}

/// Where each pair of items is apart, so is each pair of those that are kept.
proof fn lemma_filter_pairs<T>(items: Seq<T>, keep: spec_fn(T) -> bool, apart: spec_fn(T, T) -> bool)
    requires
        forall|i: int, k: int| 0 <= i < k < items.len() ==> #[trigger] apart(items[i], items[k]),
    ensures
        forall|i: int, k: int|
            0 <= i < k < items.filter(keep).len() ==> #[trigger] apart(items.filter(keep)[i], items.filter(keep)[k]),
    decreases items.len(),
{
    reveal(Seq::filter);
    if items.len() > 0 {
        let shorter = items.drop_last();
        assert forall|i: int, k: int| 0 <= i < k < shorter.len() implies #[trigger] apart(shorter[i], shorter[k]) by {
            assert(apart(items[i], items[k]));
        }
        lemma_filter_pairs(shorter, keep, apart);
        lemma_filter_members(shorter, keep);
        let before = shorter.filter(keep);
        let after = items.filter(keep);
        assert forall|i: int, k: int| 0 <= i < k < after.len() implies #[trigger] apart(after[i], after[k]) by {
            if k < before.len() {
                assert(apart(before[i], before[k]));
            } else {
                assert(before.contains(before[i]));
                let j = choose|j: int| 0 <= j < shorter.len() && shorter[j] == before[i];
                assert(apart(items[j], items[items.len() - 1]));
            }
        }
    }
}

// Namespaces.

proof fn lemma_namespace_ok(rows: Seq<NamespaceRec>, namespace: NamespaceView)
    requires
        namespaces_ok(rows),
        rows.len() <= u64::MAX,
    ensures
        namespaces_ok(namespace_upserted(rows, namespace)),
        namespace_upserted(rows, namespace).len() <= rows.len() + 1,
        forall|id: u64| #[trigger]
            namespace_ids(rows).contains(id) ==> namespace_ids(namespace_upserted(rows, namespace)).contains(id),
{
    let after = namespace_upserted(rows, namespace);
    lemma_pos(namespace_names(rows), namespace.name);
    if pos(namespace_names(rows), namespace.name) < rows.len() {
        assert(namespace_ids(after) =~= namespace_ids(rows));
        assert(namespace_names(after) =~= namespace_names(rows));
    } else {
        let id = next_id(namespace_ids(rows));
        next_id_is_fresh(namespace_ids(rows));
        assert(namespace_ids(after) =~= namespace_ids(rows).push(id));
        assert(namespace_names(after) =~= namespace_names(rows).push(namespace.name));
        lemma_push_distinct(namespace_ids(rows), id);
        lemma_push_distinct(namespace_names(rows), namespace.name);
        lemma_push_contains(namespace_ids(rows), id);
    }
}

/// Adding namespaces keeps the tables consistent.
pub proof fn adding_namespaces_keeps_consistency(state: DbState, namespaces: Seq<NamespaceView>)
    requires
        state.consistent(),
        state.namespaces.len() + namespaces.len() <= u64::MAX,
    ensures
        state.with_namespaces(namespaces).consistent(),
        state.with_namespaces(namespaces).namespaces.len() <= state.namespaces.len() + namespaces.len(),
    decreases namespaces.len(),
{
    if namespaces.len() > 0 {
        adding_namespaces_keeps_consistency(state, namespaces.drop_last());
        let before = state.with_namespaces(namespaces.drop_last());
        lemma_namespace_ok(before.namespaces, namespaces.last());
    }
}

// Tags.

proof fn lemma_tag_ok(rows: Seq<TagRec>, namespaces: Seq<NamespaceRec>, name: Seq<char>, namespace: u64)
    requires
        tags_ok(rows, namespaces),
        namespace_ids(namespaces).contains(namespace),
        rows.len() <= u64::MAX,
    ensures
        tags_ok(tag_upserted(rows, name, namespace), namespaces),
        tag_upserted(rows, name, namespace).len() <= rows.len() + 1,
        forall|id: u64| #[trigger] tag_exists(rows, id) ==> tag_exists(tag_upserted(rows, name, namespace), id),
{
    let after = tag_upserted(rows, name, namespace);
    lemma_pos(tag_keys(rows), (name, namespace));
    if after != rows {
        let id = next_id(tag_ids(rows));
        next_id_is_fresh(tag_ids(rows));
        assert(tag_ids(after) =~= tag_ids(rows).push(id));
        assert(tag_keys(after) =~= tag_keys(rows).push((name, namespace)));
        lemma_push_distinct(tag_ids(rows), id);
        lemma_push_distinct(tag_keys(rows), (name, namespace));
        lemma_push_contains(tag_ids(rows), id);
        assert forall|t: u64| #[trigger] tag_exists(rows, t) implies tag_exists(after, t) by {
            lemma_pos(tag_ids(rows), t);
            lemma_pos(tag_ids(after), t);
        }
    }
}

proof fn lemma_tags_ok(rows: Seq<TagRec>, namespaces: Seq<NamespaceRec>, tags: Seq<TagView>)
    requires
        tags_ok(rows, namespaces),
        rows.len() + tags.len() <= u64::MAX,
        forall|i: int|
            0 <= i < tags.len() ==> namespace_id_of(namespaces, (#[trigger] tags[i]).namespace.name) is Some,
    ensures
        tags_ok(tags_upserted(rows, namespaces, tags), namespaces),
        tags_upserted(rows, namespaces, tags).len() <= rows.len() + tags.len(),
        forall|id: u64| #[trigger] tag_exists(rows, id) ==> tag_exists(tags_upserted(rows, namespaces, tags), id),
    decreases tags.len(),
{
    if tags.len() > 0 {
        let shorter = tags.drop_last();
        assert forall|i: int| 0 <= i < shorter.len() implies namespace_id_of(
            namespaces,
            (#[trigger] shorter[i]).namespace.name,
        ) is Some by {
            assert(shorter[i] == tags[i]);
        }
        lemma_tags_ok(rows, namespaces, shorter);
        let name = tags.last().namespace.name;
        assert(namespace_id_of(namespaces, tags[tags.len() - 1].namespace.name) is Some);
        let at = pos(namespace_names(namespaces), name);
        lemma_pos(namespace_names(namespaces), name);
        assert(namespace_ids(namespaces)[at] == namespaces[at].id);
        lemma_tag_ok(tags_upserted(rows, namespaces, shorter), namespaces, tags.last().name, namespaces[at].id);
    }
}

/// Tags that are there once more or once less are counted; that leaves their ids and keys.
proof fn lemma_counted_ok(rows: Seq<TagRec>, id: u64)
    ensures
        tag_ids(counted_up(rows, id)) == tag_ids(rows),
        tag_keys(counted_up(rows, id)) == tag_keys(rows),
        tag_ids(counted_down(rows, id)) == tag_ids(rows),
        tag_keys(counted_down(rows, id)) == tag_keys(rows),
{
    lemma_pos(tag_ids(rows), id);
    assert(tag_ids(counted_up(rows, id)) =~= tag_ids(rows));
    assert(tag_keys(counted_up(rows, id)) =~= tag_keys(rows));
    assert(tag_ids(counted_down(rows, id)) =~= tag_ids(rows));
    assert(tag_keys(counted_down(rows, id)) =~= tag_keys(rows));
}

/// What is asked of a tag table depends on its ids and keys alone.
proof fn lemma_same_tags(one: DbState, other: DbState)
    requires
        one.consistent(),
        tag_ids(other.tags) == tag_ids(one.tags),
        tag_keys(other.tags) == tag_keys(one.tags),
        other.namespaces == one.namespaces,
        other.parents == one.parents,
        other.storage == one.storage,
        other.files == one.files,
        other.hashes == one.hashes,
        other.jobs == one.jobs,
        other.settings == one.settings,
        other.dead_urls == one.dead_urls,
        forall|r: (u64, u64)| #[trigger]
            other.relationships.contains(r) ==> one.relationships.contains(r) || (file_exists(one.files, r.0)
                && tag_exists(one.tags, r.1)),
    ensures
        other.consistent(),
{
    assert(tag_ids(one.tags).len() == one.tags.len());
    assert(tag_ids(other.tags).len() == other.tags.len());
    assert forall|id: u64| #[trigger] tag_exists(other.tags, id) == tag_exists(one.tags, id) by {}
    assert forall|i: int| 0 <= i < other.tags.len() implies namespace_ids(other.namespaces).contains(
        (#[trigger] other.tags[i]).namespace,
    ) by {
        assert(tag_keys(other.tags)[i] == tag_keys(one.tags)[i]);
        assert(one.tags[i].namespace == other.tags[i].namespace);
    }
    assert forall|i: int| 0 <= i < other.parents.len() implies relation_accepted(
        other.tags,
        (#[trigger] other.parents[i]).relation,
    ) by {
        assert(relation_accepted(one.tags, one.parents[i].relation));
    }
}

// Relationships.

proof fn lemma_all_counted_ok(rows: Seq<TagRec>, list: Seq<(u64, u64)>)
    ensures
        tag_ids(all_counted_up(rows, list)) == tag_ids(rows),
        tag_keys(all_counted_up(rows, list)) == tag_keys(rows),
    decreases list.len(),
{
    if list.len() > 0 {
        lemma_all_counted_ok(rows, list.drop_last());
        lemma_counted_ok(all_counted_up(rows, list.drop_last()), list.last().1);
    }
}

proof fn lemma_chunks_ok(state: DbState, list: Seq<(u64, u64)>, n: nat)
    requires
        state.consistent(),
        forall|m: nat| m < n ==> state.insertable(#[trigger] chunk(list, m)),
        n <= chunk_count(list.len()),
    ensures
        state.with_chunks(list, n).consistent(),
        state.same_rows(state.with_chunks(list, n)),
    decreases n,
{
    if n > 0 {
        let m = (n - 1) as nat;
        lemma_chunks_ok(state, list, m);
        let before = state.with_chunks(list, m);
        let after = state.with_chunks(list, n);
        let part = chunk(list, m);
        lemma_with_chunks(state, list, m);
        lemma_all_counted_ok(before.tags, part);
        assert(state.insertable(part));
        assert(before.insertable(part));
        assert forall|r: (u64, u64)| #[trigger] after.relationships.contains(r) implies before.relationships.contains(r)
            || (file_exists(before.files, r.0) && tag_exists(before.tags, r.1)) by {
            if !before.relationships.contains(r) {
                assert(part.to_set().contains(r) == part.contains(r));
                let i = choose|i: int| 0 <= i < part.len() && part[i] == r;
                assert(file_exists(before.files, part[i].0));
            }
        }
        lemma_same_tags(before, after);
    }
}

proof fn lemma_inserted_are_insertable(state: DbState, list: Seq<(u64, u64)>, n: nat)
    requires
        n <= chunk_count(list.len()),
    ensures
        n <= state.chunks_inserted(list, n) <= chunk_count(list.len()),
        forall|m: nat| n <= m < state.chunks_inserted(list, n) ==> state.insertable(#[trigger] chunk(list, m)),
    decreases chunk_count(list.len()) - n,
{
    if n < chunk_count(list.len()) && state.insertable(chunk(list, n)) {
        lemma_inserted_are_insertable(state, list, n + 1);
    }
}

proof fn lemma_namespace_relationships_ok(state: DbState, list: Seq<(u64, u64)>)
    requires
        state.consistent(),
    ensures
        state.with_namespace_relationships(list).consistent(),
        state.same_rows(state.with_namespace_relationships(list)),
{
    let dirty = DbState { tag_search_dirty: true, ..state };
    let done = dirty.chunks_inserted(list, 0);
    lemma_inserted_are_insertable(dirty, list, 0);
    lemma_same_tags(state, dirty);
    lemma_chunks_ok(dirty, list, done);
    let written = dirty.with_chunks(list, done);
    lemma_same_tags(written, state.with_namespace_relationships(list));
}

proof fn lemma_grouped_ok(state: DbState, list: Seq<(u64, u64)>, namespaces: Seq<u64>)
    requires
        state.consistent(),
    ensures
        state.with_grouped_relationships(list, namespaces).consistent(),
        state.same_rows(state.with_grouped_relationships(list, namespaces)),
    decreases namespaces.len(),
{
    if namespaces.len() == 0 {
        lemma_same_tags(state, state.with_grouped_relationships(list, namespaces));
    } else {
        lemma_grouped_ok(state, list, namespaces.drop_last());
        lemma_namespace_relationships_ok(
            state.with_grouped_relationships(list, namespaces.drop_last()),
            in_namespace(state.tags, list, namespaces.last()),
        );
    }
}

/// Adding relationships keeps the tables consistent, whatever files and tags they name.
pub proof fn adding_relationships_keeps_consistency(state: DbState, relationships: Seq<(u64, u64)>)
    requires
        state.consistent(),
    ensures
        state.with_relationships(relationships).consistent(),
        state.same_rows(state.with_relationships(relationships)),
{
    reveal(DbState::with_relationships);
    lemma_grouped_ok(state, relationships, crate::relationship::namespaces_among(state.tags, relationships));
}

proof fn lemma_removal_counted_ok(state: DbState, all: Seq<(u64, u64)>, list: Seq<(u64, u64)>)
    ensures
        tag_ids(state.removal_counted(all, list)) == tag_ids(state.tags),
        tag_keys(state.removal_counted(all, list)) == tag_keys(state.tags),
    decreases list.len(),
{
    if list.len() > 0 {
        lemma_removal_counted_ok(state, all, list.drop_last());
        lemma_counted_ok(state.removal_counted(all, list.drop_last()), list.last().1);
    }
}

/// Removing relationships keeps the tables consistent.
pub proof fn removing_relationships_keeps_consistency(state: DbState, relationships: Seq<(u64, u64)>)
    requires
        state.consistent(),
    ensures
        state.without_relationships(relationships).consistent(),
        state.same_rows(state.without_relationships(relationships)),
{
    reveal(DbState::without_relationships);
    lemma_removal_counted_ok(state, relationships, relationships);
    lemma_same_tags(state, state.without_relationships(relationships));
}

// Structural relations.

proof fn lemma_relation_ok(state: DbState, relation: TagParents)
    requires
        state.consistent(),
        state.parents.len() < u64::MAX,
    ensures
        state.with_relation(relation).consistent(),
        state.with_relation(relation).parents.len() <= state.parents.len() + 1,
{
    let after = state.with_relation(relation);
    let rows = state.parents;
    lemma_pos(parent_relations(rows), relation);
    if relation_accepted(state.tags, relation) && relation_id(rows, relation) is None {
        let used = parent_ids(rows).push(state.parents_sequence);
        let id = next_id(used);
        next_id_is_fresh(used);
        lemma_push_contains(parent_ids(rows), state.parents_sequence);
        assert(parent_ids(after.parents) =~= parent_ids(rows).push(id));
        assert(parent_relations(after.parents) =~= parent_relations(rows).push(relation));
        lemma_push_distinct(parent_ids(rows), id);
        lemma_push_distinct(parent_relations(rows), relation);
    }
}

/// Adding structural relations keeps the tables consistent, whatever tags they name.
pub proof fn adding_relations_keeps_consistency(state: DbState, relations: Seq<TagParents>)
    requires
        state.consistent(),
        state.parents.len() + relations.len() <= u64::MAX,
    ensures
        state.with_relations(relations).consistent(),
        state.with_relations(relations).parents.len() <= state.parents.len() + relations.len(),
    decreases relations.len(),
{
    if relations.len() > 0 {
        adding_relations_keeps_consistency(state, relations.drop_last());
        lemma_relation_ok(state.with_relations(relations.drop_last()), relations.last());
    }
}

proof fn lemma_relations_len(state: DbState, forms: Seq<NamespaceView>, tags: Seq<PluginTagView>)
    ensures
        state.relations_among(forms, tags).len() <= tags.len(),
    decreases tags.len(),
{
    if tags.len() > 0 {
        lemma_relations_len(state, forms, tags.drop_last());
    }
}

/// Distinct tags are no more than the tags.
pub proof fn lemma_distinct_len(tags: Seq<TagView>)
    ensures
        distinct_tags(tags).len() <= tags.len(),
    decreases tags.len(),
{
    if tags.len() > 0 {
        lemma_distinct_len(tags.drop_last());
    }
}

/// Adding a plugin's tags, with their namespaces and relations, keeps the tables consistent.
pub proof fn adding_tags_keeps_consistency(state: DbState, tags: Seq<PluginTagView>)
    requires
        state.consistent(),
        state.namespaces.len() + namespaces_of(tags).len() <= u64::MAX,
        state.tags.len() + stored_tags_of(tags).len() <= u64::MAX,
        state.parents.len() + tags.len() <= u64::MAX,
    ensures
        state.with_plugin_tags(tags).consistent(),
        state.with_plugin_tags(tags).files == state.files,
        state.with_plugin_tags(tags).relationships == state.relationships,
        state.with_plugin_tags(tags).namespaces.len() <= state.namespaces.len() + namespaces_of(tags).len(),
        state.with_plugin_tags(tags).tags.len() <= state.tags.len() + stored_tags_of(tags).len(),
        state.with_plugin_tags(tags).parents.len() <= state.parents.len() + tags.len(),
{
    reveal(DbState::with_plugin_tags);
    let wanted = distinct_tags(stored_tags_of(tags));
    lemma_distinct_len(stored_tags_of(tags));
    let names = namespaces_of(tags);
    let spaced = state.with_namespaces(names);
    adding_namespaces_keeps_consistency(state, names);
    lemma_with_namespaces(state, names);
    let named = DbState { tag_search_dirty: true, ..spaced };
    assert(named.consistent());
    if wanted.len() > 0 {
        lemma_stored_tags_named(tags);
        assert forall|i: int| 0 <= i < wanted.len() implies namespace_id_of(
            named.namespaces,
            (#[trigger] wanted[i]).namespace.name,
        ) is Some by {
            assert(names.contains(wanted[i].namespace));
            let k = choose|k: int| 0 <= k < names.len() && names[k] == wanted[i].namespace;
            assert(namespace_id_of(named.namespaces, names[k].name) is Some);
        }
        lemma_tags_ok(named.tags, named.namespaces, wanted);
        let added = DbState { tags: tags_upserted(named.tags, named.namespaces, wanted), ..named };
        assert forall|i: int| 0 <= i < added.parents.len() implies relation_accepted(
            added.tags,
            (#[trigger] added.parents[i]).relation,
        ) by {
            let relation = named.parents[i].relation;
            assert(relation_accepted(named.tags, relation));
            assert(tag_exists(named.tags, relation.tag_id));
            assert(tag_exists(named.tags, relation.relate_tag_id));
            if let Some(limit) = relation.limit_to {
                assert(tag_exists(named.tags, limit));
            }
        }
        assert forall|r: (u64, u64)| #[trigger] added.relationships.contains(r) implies file_exists(added.files, r.0)
            && tag_exists(added.tags, r.1) by {
            assert(named.relationships.contains(r));
            assert(tag_exists(named.tags, r.1));
        }
        assert(added.consistent());
        let announced = DbState {
            regex_tags: match added.regex_tags {
                Some(waiting) => Some(
                    waiting + crate::tag::newer_tags(added.with_ids(wanted), crate::tag::tag_max_id(named.tags)),
                ),
                None => None,
            },
            ..added
        };
        assert(announced.consistent());
        lemma_relations_len(announced, forms_of(tags), tags);
        adding_relations_keeps_consistency(announced, announced.relations_of(tags));
        crate::parents::lemma_with_relations(announced, announced.relations_of(tags));
    }
}

// Storage locations and files.

/// Adding a storage location keeps the tables consistent.
pub proof fn adding_storage_keeps_consistency(state: DbState, location: Seq<char>)
    requires
        state.consistent(),
        state.storage.len() <= u64::MAX,
    ensures
        (DbState { storage: storage_added(state.storage, location), ..state }).consistent(),
        storage_added(state.storage, location).len() <= state.storage.len() + 1,
{
    let rows = state.storage;
    let after = storage_added(rows, location);
    lemma_pos(storage_locations(rows), location);
    if after != rows {
        let id = next_id(storage_ids(rows));
        next_id_is_fresh(storage_ids(rows));
        assert(storage_ids(after) =~= storage_ids(rows).push(id));
        assert(storage_locations(after) =~= storage_locations(rows).push(location));
        lemma_push_distinct(storage_ids(rows), id);
        lemma_push_distinct(storage_locations(rows), location);
    }
}

proof fn lemma_file_ok(rows: Seq<FileRec>, file: FileView)
    requires
        files_ok(rows),
        rows.len() <= u64::MAX,
    ensures
        files_ok(file_upserted(rows, file)),
        file_upserted(rows, file).len() <= rows.len() + 1,
        forall|id: u64| #[trigger] file_exists(rows, id) ==> file_exists(file_upserted(rows, file), id),
{
    let after = file_upserted(rows, file);
    lemma_pos(file_hashes(rows), Some(file.hash));
    if pos(file_hashes(rows), Some(file.hash)) < rows.len() {
        assert(file_ids(after) =~= file_ids(rows));
    } else {
        let id = next_id(file_ids(rows));
        next_id_is_fresh(file_ids(rows));
        assert(file_ids(after) =~= file_ids(rows).push(id));
        lemma_push_distinct(file_ids(rows), id);
        assert forall|k: int| 0 <= k < rows.len() implies (#[trigger] rows[k]).hash != Some(file.hash) by {
            assert(file_hashes(rows)[k] == rows[k].hash);
        }
        lemma_push_contains(file_ids(rows), id);
        assert forall|f: u64| #[trigger] file_exists(rows, f) implies file_exists(after, f) by {
            lemma_pos(file_ids(rows), f);
            lemma_pos(file_ids(after), f);
        }
    }
}

/// What is asked of the other tables holds with more files too.
proof fn lemma_more_files(state: DbState, files: Seq<FileRec>)
    requires
        state.consistent(),
        files_ok(files),
        forall|id: u64| #[trigger] file_exists(state.files, id) ==> file_exists(files, id),
    ensures
        (DbState { files, ..state }).consistent(),
{
    let after = DbState { files, ..state };
    assert forall|r: (u64, u64)| #[trigger] after.relationships.contains(r) implies file_exists(after.files, r.0)
        && tag_exists(after.tags, r.1) by {
        assert(state.relationships.contains(r));
        assert(file_exists(state.files, r.0));
    }
    assert forall|i: int| 0 <= i < after.hashes.len() implies file_exists(
        after.files,
        (#[trigger] after.hashes[i]).file_id,
    ) by {
        assert(file_exists(state.files, state.hashes[i].file_id));
    }
}

/// Adding files keeps the tables consistent.
pub proof fn adding_files_keeps_consistency(state: DbState, files: Seq<FileView>)
    requires
        state.consistent(),
        state.files.len() + files.len() <= u64::MAX,
    ensures
        (DbState { files: files_upserted(state.files, files), ..state }).consistent(),
        files_upserted(state.files, files).len() <= state.files.len() + files.len(),
    decreases files.len(),
{
    if files.len() > 0 {
        adding_files_keeps_consistency(state, files.drop_last());
        let before = DbState { files: files_upserted(state.files, files.drop_last()), ..state };
        lemma_file_ok(before.files, files.last());
        lemma_more_files(before, file_upserted(before.files, files.last()));
    }
}

proof fn lemma_digest_ok(state: DbState, row: HashRec)
    requires
        state.consistent(),
        file_exists(state.files, row.file_id),
    ensures
        (DbState { hashes: digest_added(state.hashes, row), ..state }).consistent(),
{
    let rows = state.hashes;
    let after = digest_added(rows, row);
    lemma_pos(file_algorithms(rows), (row.file_id, row.algorithm));
    lemma_pos(digest_keys(rows), (row.algorithm, row.digest));
    if after != rows {
        assert(file_algorithms(after) =~= file_algorithms(rows).push((row.file_id, row.algorithm)));
        assert(digest_keys(after) =~= digest_keys(rows).push((row.algorithm, row.digest)));
        lemma_push_distinct(file_algorithms(rows), (row.file_id, row.algorithm));
        lemma_push_distinct(digest_keys(rows), (row.algorithm, row.digest));
    }
}

/// Recording a digest keeps the tables consistent, whatever file it is for.
pub proof fn recording_digests_keeps_consistency(state: DbState, file_id: u64, algorithm: Seq<char>, digest: Seq<char>)
    requires
        state.consistent(),
    ensures
        state.with_digest(file_id, algorithm, digest).consistent(),
        state.with_digest(file_id, algorithm, digest).files == state.files,
{
    if file_exists(state.files, file_id) {
        lemma_digest_ok(state, HashRec { file_id, algorithm, digest });
    }
}

// Jobs, settings and dead URLs.

/// Adding a job keeps the tables consistent.
pub proof fn adding_jobs_keeps_consistency(state: DbState, job: JobView)
    requires
        state.consistent(),
        state.jobs.len() <= u64::MAX,
    ensures
        (DbState { jobs: job_added(state.jobs, job), ..state }).consistent(),
        job_added(state.jobs, job).len() <= state.jobs.len() + 1,
{
    let rows = state.jobs;
    let after = job_added(rows, job);
    let key = crate::rows::job_key(job);
    lemma_pos(job_keys(rows), key);
    if pos(job_keys(rows), key) < rows.len() {
        assert(job_ids(after) =~= job_ids(rows));
        assert(job_keys(after) =~= job_keys(rows));
    } else {
        let id = next_id(job_ids(rows));
        next_id_is_fresh(job_ids(rows));
        assert(job_ids(after) =~= job_ids(rows).push(id));
        assert(job_keys(after) =~= job_keys(rows).push(key));
        lemma_push_distinct(job_ids(rows), id);
        lemma_push_distinct(job_keys(rows), key);
    }
}

/// Changing a job keeps the tables consistent.
pub proof fn changing_jobs_keeps_consistency(state: DbState, job: DbJobView)
    requires
        state.consistent(),
    ensures
        (DbState { jobs: job_updated(state.jobs, job), ..state }).consistent(),
{
    let rows = state.jobs;
    let after = job_updated(rows, job);
    lemma_pos(job_ids(rows), job.id);
    let at = pos(job_ids(rows), job.id);
    if at < rows.len() && !crate::jobs::key_taken(rows, at, job.config) {
        assert(job_ids(after) =~= job_ids(rows));
        let keys = job_keys(after);
        assert forall|i: int, k: int| 0 <= i < keys.len() && 0 <= k < keys.len() && i != k implies keys[i] != keys[k] by {
            if i != at {
                assert(keys[i] == job_keys(rows)[i]);
            }
            if k != at {
                assert(keys[k] == job_keys(rows)[k]);
            }
        }
    }
}

/// Removing a job keeps the tables consistent.
pub proof fn removing_jobs_keeps_consistency(state: DbState, id: u64)
    requires
        state.consistent(),
    ensures
        (DbState { jobs: job_removed(state.jobs, id), ..state }).consistent(),
{
    let rows = state.jobs;
    let after = job_removed(rows, id);
    let keep = |row: DbJobView| row.id != id;
    let apart = |a: DbJobView, b: DbJobView|
        a.id != b.id && crate::rows::job_key(a.config) != crate::rows::job_key(b.config);
    assert forall|i: int, k: int| 0 <= i < k < rows.len() implies #[trigger] apart(rows[i], rows[k]) by {
        assert(job_ids(rows)[i] != job_ids(rows)[k]);
        assert(job_keys(rows)[i] != job_keys(rows)[k]);
    }
    lemma_filter_pairs(rows, keep, apart);
    assert forall|i: int, k: int| 0 <= i < after.len() && 0 <= k < after.len() && i != k implies job_ids(after)[i]
        != job_ids(after)[k] && job_keys(after)[i] != job_keys(after)[k] by {
        if i < k {
            assert(apart(after[i], after[k]));
        } else {
            assert(apart(after[k], after[i]));
        }
    }
}

/// Finishing a job keeps the tables consistent.
pub proof fn finishing_jobs_keeps_consistency(state: DbState, job: DbJobView, now: u64)
    requires
        state.consistent(),
    ensures
        state.with_job_finished(job, now).consistent(),
{
    match crate::jobs::next_run(job, now) {
        Some(next) => changing_jobs_keeps_consistency(state, next),
        None => removing_jobs_keeps_consistency(state, job.id),
    }
}

/// Making a setting keeps the tables consistent.
pub proof fn making_settings_keeps_consistency(state: DbState, setting: SettingView)
    requires
        state.consistent(),
    ensures
        state.with_setting(setting).consistent(),
{
    let rows = state.settings;
    let after = setting_put(rows, setting);
    lemma_pos(setting_names(rows), setting.name);
    if pos(setting_names(rows), setting.name) < rows.len() {
        assert(setting_names(after) =~= setting_names(rows));
    } else {
        assert(setting_names(after) =~= setting_names(rows).push(setting.name));
        lemma_push_distinct(setting_names(rows), setting.name);
    }
}

/// Marking a URL as dead keeps the tables consistent.
pub proof fn marking_urls_keeps_consistency(state: DbState, url: Seq<char>)
    requires
        state.consistent(),
    ensures
        (DbState { dead_urls: dead_url_added(state.dead_urls, url), ..state }).consistent(),
{
    if !state.dead_urls.contains(url) {
        lemma_push_distinct(state.dead_urls, url);
    }
}

/// A new database is consistent, and its cache can be relied on.
pub proof fn new_databases_are_consistent()
    ensures
        DbState::started().consistent(),
        DbState::started().caches_current(),
{
    let blank = DbState::blank();
    assert(blank.consistent());
    let file_setting = crate::settings::file_location_setting();
    making_settings_keeps_consistency(blank, file_setting);
    let placed = blank.with_default_location();
    let with_file_setting = blank.with_setting(file_setting);
    adding_storage_keeps_consistency(blank, "files"@);
    adding_storage_keeps_consistency(with_file_setting, "files"@);
    assert(placed.consistent());
    let agent = crate::startup::user_agent_setting();
    making_settings_keeps_consistency(placed, agent);
    let version = crate::startup::version_setting(crate::startup::DB_VERSION);
    making_settings_keeps_consistency(placed.with_setting(agent), version);
    let ready = blank.set_up();
    assert(ready.consistent());
    let mode = crate::cache::default_cache_setting();
    making_settings_keeps_consistency(ready, mode);
    let chosen = ready.with_cache_chosen();
    crate::startup::lemma_no_cache_mode();
    assert(chosen.consistent());
    assert(crate::coherence::mirrors(ready.bitmaps, ready.relationships)) by {
        assert forall|k: u64| crate::relationship::files_with(ready.relationships, k) == Set::<u64>::empty() by {
            assert(crate::relationship::files_with(ready.relationships, k) =~= Set::<u64>::empty());
        }
        assert forall|k: u64| crate::relationship::tags_with(ready.relationships, k) == Set::<u64>::empty() by {
            assert(crate::relationship::tags_with(ready.relationships, k) =~= Set::<u64>::empty());
        }
    }
    crate::coherence::chosen_cache_is_current(ready);
}

// Removal.

/// Whether a relation goes back to one of some rows: at most its limit has been cleared.
spec fn goes_back_to(row: ParentRow, rows: Seq<ParentRow>, from: int) -> bool {
    &&& 0 <= from < rows.len()
    &&& rows[from].id == row.id
    &&& rows[from].relation.tag_id == row.relation.tag_id
    &&& rows[from].relation.relate_tag_id == row.relation.relate_tag_id
    &&& row.relation.limit_to is Some ==> row.relation.limit_to == rows[from].relation.limit_to
}

spec fn has_origin(row: ParentRow, rows: Seq<ParentRow>) -> bool {
    exists|from: int| goes_back_to(row, rows, from)
}

proof fn lemma_without_tag(rows: Seq<ParentRow>, id: u64)
    requires
        parent_ids(rows).no_duplicates(),
    ensures
        parent_ids(crate::removal::without_tag(rows, id)).no_duplicates(),
        forall|i: int|
            0 <= i < crate::removal::without_tag(rows, id).len() ==> has_origin(
                #[trigger] crate::removal::without_tag(rows, id)[i],
                rows,
            ),
{
    let keep = |row: ParentRow| row.relation.tag_id != id && row.relation.relate_tag_id != id;
    let kept = rows.filter(keep);
    let after = crate::removal::without_tag(rows, id);
    let apart = |a: ParentRow, b: ParentRow| a.id != b.id;
    assert forall|i: int, k: int| 0 <= i < k < rows.len() implies #[trigger] apart(rows[i], rows[k]) by {
        assert(parent_ids(rows)[i] != parent_ids(rows)[k]);
    }
    lemma_filter_pairs(rows, keep, apart);
    lemma_filter_members(rows, keep);
    assert forall|i: int, k: int| 0 <= i < after.len() && 0 <= k < after.len() && i != k implies parent_ids(after)[i]
        != parent_ids(after)[k] by {
        if i < k {
            assert(apart(kept[i], kept[k]));
        } else {
            assert(apart(kept[k], kept[i]));
        }
    }
    assert forall|i: int| 0 <= i < after.len() implies has_origin(#[trigger] after[i], rows) by {
        assert(kept.contains(kept[i]));
        let from = choose|from: int| 0 <= from < rows.len() && rows[from] == kept[i];
        assert(goes_back_to(after[i], rows, from));
    }
}

proof fn lemma_without_tags_ok(rows: Seq<ParentRow>, ids: Seq<u64>)
    requires
        crate::removal::without_tags(rows, ids) is Some,
        parent_ids(rows).no_duplicates(),
        parent_relations(rows).no_duplicates(),
    ensures
        ({
            let after = crate::removal::without_tags(rows, ids)->0;
            &&& parent_ids(after).no_duplicates()
            &&& parent_relations(after).no_duplicates()
            &&& forall|i: int|
                0 <= i < after.len() ==> has_origin(#[trigger] after[i], rows)
        }),
    decreases ids.len(),
{
    let after = crate::removal::without_tags(rows, ids)->0;
    if ids.len() == 0 {
        assert forall|i: int| 0 <= i < after.len() implies has_origin(#[trigger] after[i], rows) by {
            assert(goes_back_to(after[i], rows, i));
        }
    } else {
        lemma_without_tags_ok(rows, ids.drop_last());
        let before = crate::removal::without_tags(rows, ids.drop_last())->0;
        lemma_without_tag(before, ids.last());
        assert forall|i: int| 0 <= i < after.len() implies has_origin(#[trigger] after[i], rows) by {
            assert(has_origin(after[i], before));
            let k = choose|k: int| goes_back_to(after[i], before, k);
            assert(has_origin(before[k], rows));
            let from = choose|from: int| goes_back_to(before[k], rows, from);
            assert(goes_back_to(after[i], rows, from));
        }
        assert forall|i: int, k: int| 0 <= i < after.len() && 0 <= k < after.len() && i != k implies parent_relations(
            after,
        )[i] != parent_relations(after)[k] by {
            if i < k {
                assert(after[i].relation != after[k].relation);
            } else {
                assert(after[k].relation != after[i].relation);
            }
        }
    }
}

/// Removing tags keeps the tables consistent.
pub proof fn removing_tags_keeps_consistency(state: DbState, ids: Seq<u64>)
    requires
        state.consistent(),
        crate::removal::without_tags(state.parents, ids) is Some,
    ensures
        state.with_tags_removed(ids).consistent(),
{
    let after = state.with_tags_removed(ids);
    let keep = |row: TagRec| !ids.contains(row.id);
    let apart = |a: TagRec, b: TagRec| a.id != b.id && (a.name, a.namespace) != (b.name, b.namespace);
    assert forall|i: int, k: int| 0 <= i < k < state.tags.len() implies #[trigger] apart(state.tags[i], state.tags[k]) by {
        assert(tag_ids(state.tags)[i] != tag_ids(state.tags)[k]);
        assert(tag_keys(state.tags)[i] != tag_keys(state.tags)[k]);
    }
    lemma_filter_pairs(state.tags, keep, apart);
    lemma_filter_members(state.tags, keep);
    assert forall|i: int, k: int| 0 <= i < after.tags.len() && 0 <= k < after.tags.len() && i != k implies tag_ids(
        after.tags,
    )[i] != tag_ids(after.tags)[k] && tag_keys(after.tags)[i] != tag_keys(after.tags)[k] by {
        if i < k {
            assert(apart(after.tags[i], after.tags[k]));
        } else {
            assert(apart(after.tags[k], after.tags[i]));
        }
    }
    assert forall|i: int| 0 <= i < after.tags.len() implies namespace_ids(after.namespaces).contains(
        (#[trigger] after.tags[i]).namespace,
    ) by {
        assert(state.tags.filter(keep).contains(after.tags[i]));
        let k = choose|k: int| 0 <= k < state.tags.len() && state.tags[k] == after.tags[i];
        assert(namespace_ids(state.namespaces).contains(state.tags[k].namespace));
    }
    assert forall|t: u64| tag_exists(state.tags, t) && !ids.contains(t) implies #[trigger] tag_exists(after.tags, t) by {
        lemma_pos(tag_ids(state.tags), t);
        lemma_pos(tag_ids(after.tags), t);
        let k = pos(tag_ids(state.tags), t);
        assert(state.tags[k].id == t);
        assert(state.tags.contains(state.tags[k]));
        assert(state.tags.filter(keep).contains(state.tags[k]));
        let j = choose|j: int| 0 <= j < after.tags.len() && after.tags[j] == state.tags[k];
        assert(tag_ids(after.tags)[j] == t);
    }
    lemma_without_tags_ok(state.parents, ids);
    crate::removal::lemma_without_tags(state.parents, ids);
    assert forall|i: int| 0 <= i < after.parents.len() implies relation_accepted(
        after.tags,
        (#[trigger] after.parents[i]).relation,
    ) by {
        let row = after.parents[i];
        assert(has_origin(row, state.parents));
        let from = choose|from: int| goes_back_to(row, state.parents, from);
        let origin = state.parents[from].relation;
        assert(relation_accepted(state.tags, origin));
        assert(ids.contains(origin.tag_id) ==> !crate::removal::names_tag(row.relation, origin.tag_id));
        assert(ids.contains(origin.relate_tag_id) ==> !crate::removal::names_tag(row.relation, origin.relate_tag_id));
        assert(tag_exists(after.tags, origin.tag_id));
        assert(tag_exists(after.tags, origin.relate_tag_id));
        if let Some(limit) = row.relation.limit_to {
            assert(ids.contains(limit) ==> !crate::removal::names_tag(row.relation, limit));
            assert(tag_exists(after.tags, limit));
        }
    }
    assert forall|r: (u64, u64)| #[trigger] after.relationships.contains(r) implies file_exists(after.files, r.0)
        && tag_exists(after.tags, r.1) by {
        assert(state.relationships.contains(r));
        assert(tag_exists(state.tags, r.1));
    }
}

/// Changing files keeps the tables consistent.
pub proof fn changing_files_keeps_consistency(state: DbState, changes: Seq<FileView>)
    requires
        state.consistent(),
        files_changed(state.files, state.storage, changes) is Ok,
    ensures
        ({
            let files = files_changed(state.files, state.storage, changes)->Ok_0;
            &&& (DbState { files, ..state }).consistent()
            &&& file_ids(files) == file_ids(state.files)
        }),
    decreases changes.len(),
{
    if changes.len() > 0 {
        changing_files_keeps_consistency(state, changes.drop_last());
        let before = files_changed(state.files, state.storage, changes.drop_last())->Ok_0;
        let after = files_changed(state.files, state.storage, changes)->Ok_0;
        if let Some(id) = changes.last().id {
            let at = pos(file_ids(before), id);
            lemma_pos(file_ids(before), id);
            if at < before.len() {
                assert forall|k: int| 0 <= k < before.len() && k != at implies (#[trigger] before[k]).hash != after[at].hash by {
                    assert(!crate::upkeep::hash_taken(before, changes.last().hash, at));
                }
            }
        }
        assert(file_ids(after) =~= file_ids(before));
        lemma_more_files(DbState { files: before, ..state }, after);
    }
}

/// Removing tags, statement by statement, keeps the tables consistent.
pub proof fn removing_tag_lists_keeps_consistency(state: DbState, ids: Seq<u64>, n: nat)
    requires
        state.consistent(),
        state.with_tag_lists_removed(ids, n) is Some,
    ensures
        state.with_tag_lists_removed(ids, n)->0.consistent(),
    decreases n,
{
    if n > 0 {
        let m = (n - 1) as nat;
        removing_tag_lists_keeps_consistency(state, ids, m);
        removing_tags_keeps_consistency(state.with_tag_lists_removed(ids, m)->0, chunk(ids, m));
    }
}

/// Removing namespaces keeps the tables consistent.
pub proof fn removing_namespaces_keeps_consistency(state: DbState, ids: Seq<u64>)
    requires
        state.consistent(),
        crate::removal::without_tags(state.parents, crate::removal::ids_in_namespaces(state.tags, ids)) is Some,
    ensures
        state.with_namespaces_removed(ids).consistent(),
{
    let tag_list = crate::removal::ids_in_namespaces(state.tags, ids);
    let after = state.with_namespaces_removed(ids);
    removing_tags_keeps_consistency(state, tag_list);
    let rows = state.namespaces;
    let keep = |row: NamespaceRec| !ids.contains(row.id);
    let apart = |a: NamespaceRec, b: NamespaceRec| a.id != b.id && a.name != b.name;
    assert forall|i: int, k: int| 0 <= i < k < rows.len() implies #[trigger] apart(rows[i], rows[k]) by {
        assert(namespace_ids(rows)[i] != namespace_ids(rows)[k]);
        assert(namespace_names(rows)[i] != namespace_names(rows)[k]);
    }
    lemma_filter_pairs(rows, keep, apart);
    lemma_filter_members(rows, keep);
    let rest = after.namespaces;
    assert forall|i: int, k: int| 0 <= i < rest.len() && 0 <= k < rest.len() && i != k implies namespace_ids(rest)[i]
        != namespace_ids(rest)[k] && namespace_names(rest)[i] != namespace_names(rest)[k] by {
        if i < k {
            assert(apart(rest[i], rest[k]));
        } else {
            assert(apart(rest[k], rest[i]));
        }
    }
    let hit = |row: TagRec| ids.contains(row.namespace);
    let kept = |row: TagRec| !tag_list.contains(row.id);
    lemma_filter_members(state.tags, hit);
    lemma_filter_members(state.tags, kept);
    assert forall|i: int| 0 <= i < after.tags.len() implies namespace_ids(rest).contains(
        (#[trigger] after.tags[i]).namespace,
    ) by {
        let row = after.tags[i];
        assert(state.tags.filter(kept).contains(row));
        let k = choose|k: int| 0 <= k < state.tags.len() && state.tags[k] == row;
        assert(namespace_ids(rows).contains(state.tags[k].namespace));
        if ids.contains(row.namespace) {
            assert(state.tags.filter(hit).contains(row));
            let j = choose|j: int| 0 <= j < state.tags.filter(hit).len() && state.tags.filter(hit)[j] == row;
            assert(tag_list[j] == row.id);
        }
        let n = choose|n: int| 0 <= n < namespace_ids(rows).len() && namespace_ids(rows)[n] == row.namespace;
        assert(rows.contains(rows[n]));
        assert(rows.filter(keep).contains(rows[n]));
        let m = choose|m: int| 0 <= m < rest.len() && rest[m] == rows[n];
        assert(namespace_ids(rest)[m] == row.namespace);
    }
}

// What scrapers bring, and what other databases hold.

proof fn lemma_digests_ok(state: DbState, file_id: u64, digests: Seq<crate::types::DigestView>)
    requires
        state.consistent(),
    ensures
        state.with_digests(file_id, digests).consistent(),
        ({
            let after = state.with_digests(file_id, digests);
            after == (DbState { hashes: after.hashes, ..state })
        }),
    decreases digests.len(),
{
    if digests.len() > 0 {
        lemma_digests_ok(state, file_id, digests.drop_last());
        recording_digests_keeps_consistency(
            state.with_digests(file_id, digests.drop_last()),
            file_id,
            digests.last().algorithm,
            digests.last().digest,
        );
    }
}

/// Recording digests keeps the tables consistent, and changes nothing else.
pub proof fn lemma_entry_digests_ok(state: DbState, entries: Seq<crate::processing::ScrapedView>)
    requires
        state.consistent(),
    ensures
        state.with_entry_digests(entries).consistent(),
        ({
            let after = state.with_entry_digests(entries);
            after == (DbState { hashes: after.hashes, ..state })
        }),
    decreases entries.len(),
{
    if entries.len() > 0 {
        lemma_entry_digests_ok(state, entries.drop_last());
        lemma_digests_ok(
            state.with_entry_digests(entries.drop_last()),
            crate::file::file_id_of(state.files, entries.last().manager.internal.hash)->0,
            entries.last().manager.identifying_hashes,
        );
    }
}

/// Writing scraped files keeps the tables consistent.
pub proof fn processing_keeps_consistency(
    before: DbState,
    entries: Seq<crate::processing::ScrapedView>,
    after: DbState,
)
    requires
        before.consistent(),
        crate::processing::entries_processed(before, entries, after),
        before.files.len() + entries.len() <= u64::MAX,
        before.namespaces.len() + namespaces_of(crate::processing::scraped_tags(entries)).len() <= u64::MAX,
        before.tags.len() + stored_tags_of(crate::processing::scraped_tags(entries)).len() <= u64::MAX,
        before.parents.len() + crate::processing::scraped_tags(entries).len() <= u64::MAX,
    ensures
        after.consistent(),
{
    if entries.len() > 0 {
        let files = crate::processing::scraped_files(entries);
        let filed = DbState { files: files_upserted(before.files, files), ..before };
        adding_files_keeps_consistency(before, files);
        lemma_entry_digests_ok(filed, entries);
        let known = before.with_entries_known(entries);
        adding_tags_keeps_consistency(filed.with_entry_digests(entries), crate::processing::scraped_tags(entries));
        let ids = before.entry_tag_ids(entries);
        let (removed, added) = choose|removed: Seq<(u64, u64)>, added: Seq<(u64, u64)>|
            crate::processing::lists(removed, known.removals(entries, ids)) && crate::processing::lists(
                added,
                known.additions(entries, ids),
            ) && after == #[trigger] known.with_changes(removed, added);
        removing_relationships_keeps_consistency(known, removed);
        if added.len() > 0 {
            adding_relationships_keeps_consistency(known.without_relationships(removed), added);
        }
    }
}

proof fn lemma_forms_len(namespaces: Seq<NamespaceView>)
    ensures
        distinct_forms(namespaces).len() <= namespaces.len(),
    decreases namespaces.len(),
{
    if namespaces.len() > 0 {
        lemma_forms_len(namespaces.drop_last());
    }
}

proof fn lemma_named_len(forms: Seq<NamespaceView>, tags: Seq<PluginTagView>)
    ensures
        namespaces_named(tags).len() <= 3 * tags.len(),
        stored_among(forms, tags).len() <= 3 * tags.len(),
    decreases tags.len(),
{
    if tags.len() > 0 {
        lemma_named_len(forms, tags.drop_last());
    }
}

/// No more namespaces and tags are named than three for each plugin's tag.
pub proof fn lemma_tag_lists_len(tags: Seq<PluginTagView>)
    ensures
        namespaces_of(tags).len() <= 3 * tags.len(),
        stored_tags_of(tags).len() <= 3 * tags.len(),
{
    lemma_named_len(forms_of(tags), tags);
    lemma_forms_len(namespaces_named(tags));
}

/// Adding the storage locations of a source keeps the tables consistent.
pub proof fn lemma_locations_ok(state: DbState, source: crate::slurp::SourceView, n: nat)
    requires
        state.consistent(),
        state.storage.len() + n <= u64::MAX,
        n <= source.storage.len(),
    ensures
        ({
            let after = state.with_source_locations(source, n);
            &&& after.consistent()
            &&& after == (DbState { storage: after.storage, ..state })
            &&& after.storage.len() <= state.storage.len() + n
        }),
    decreases n,
{
    if n > 0 {
        lemma_locations_ok(state, source, (n - 1) as nat);
        adding_storage_keeps_consistency(
            state.with_source_locations(source, (n - 1) as nat),
            source.storage[n - 1].location,
        );
    }
}

/// Adding tags in batches keeps the tables consistent.
pub proof fn lemma_tag_batches_ok(state: DbState, tags: Seq<PluginTagView>, n: nat)
    requires
        state.consistent(),
        n <= chunk_count(tags.len()),
        state.namespaces.len() + 2400 * n <= u64::MAX,
        state.tags.len() + 2400 * n <= u64::MAX,
        state.parents.len() + 2400 * n <= u64::MAX,
    ensures
        ({
            let after = state.with_tag_batches(tags, n);
            &&& after.consistent()
            &&& after.files == state.files
            &&& after.namespaces.len() <= state.namespaces.len() + 2400 * n
            &&& after.tags.len() <= state.tags.len() + 2400 * n
            &&& after.parents.len() <= state.parents.len() + 2400 * n
        }),
    decreases n,
{
    if n > 0 {
        let m = (n - 1) as nat;
        lemma_tag_batches_ok(state, tags, m);
        let part = chunk(tags, m);
        assert(part.len() <= 800);
        lemma_tag_lists_len(part);
        adding_tags_keeps_consistency(state.with_tag_batches(tags, m), part);
    }
}

/// Adding tags leaves storage locations, files, relationships and the relationship cache.
pub proof fn lemma_tag_batches_storage(state: DbState, tags: Seq<PluginTagView>, n: nat)
    ensures
        state.with_tag_batches(tags, n).storage == state.storage,
        state.with_tag_batches(tags, n).bitmaps == state.bitmaps,
        state.with_tag_batches(tags, n).memory == state.memory,
        state.with_tag_batches(tags, n).roaring_memory_dirty == state.roaring_memory_dirty,
        state.with_tag_batches(tags, n).relationships == state.relationships,
        state.with_tag_batches(tags, n).files == state.files,
    decreases n,
{
    if n > 0 {
        lemma_tag_batches_storage(state, tags, (n - 1) as nat);
        lemma_plugin_tags_storage(state.with_tag_batches(tags, (n - 1) as nat), chunk(tags, (n - 1) as nat));
    }
}

/// Adding tags leaves storage locations, files, relationships and the relationship cache.
pub proof fn lemma_plugin_tags_storage(state: DbState, tags: Seq<PluginTagView>)
    ensures
        state.with_plugin_tags(tags).storage == state.storage,
        state.with_plugin_tags(tags).bitmaps == state.bitmaps,
        state.with_plugin_tags(tags).memory == state.memory,
        state.with_plugin_tags(tags).roaring_memory_dirty == state.roaring_memory_dirty,
        state.with_plugin_tags(tags).relationships == state.relationships,
        state.with_plugin_tags(tags).files == state.files,
{
    reveal(DbState::with_plugin_tags);
    lemma_with_namespaces(state, namespaces_of(tags));
    let wanted = distinct_tags(stored_tags_of(tags));
    if wanted.len() > 0 {
        let named = DbState { tag_search_dirty: true, ..state.with_namespaces(namespaces_of(tags)) };
        let added = DbState { tags: tags_upserted(named.tags, named.namespaces, wanted), ..named };
        let announced = DbState {
            regex_tags: match added.regex_tags {
                Some(waiting) => Some(
                    waiting + crate::tag::newer_tags(added.with_ids(wanted), crate::tag::tag_max_id(named.tags)),
                ),
                None => None,
            },
            ..added
        };
        crate::parents::lemma_with_relations(announced, announced.relations_of(tags));
    }
}

/// Adding the files of a source keeps the tables consistent.
pub proof fn lemma_source_files_ok(state: DbState, source: crate::slurp::SourceView, n: nat)
    requires
        state.consistent(),
        n <= source.files.len(),
        state.files.len() + n <= u64::MAX,
        state.storage.len() + n <= u64::MAX,
    ensures
        ({
            let after = state.with_source_files(source, n);
            &&& after.consistent()
            &&& after == (DbState { files: after.files, storage: after.storage, ..state })
            &&& after.files.len() <= state.files.len() + n
            &&& after.storage.len() <= state.storage.len() + n
        }),
    decreases n,
{
    if n > 0 {
        let m = (n - 1) as nat;
        lemma_source_files_ok(state, source, m);
        let before = state.with_source_files(source, m);
        let after = state.with_source_files(source, n);
        let file = source.files[n - 1];
        if file.hash is Some && file.id > 0 {
            let stored = match source.location(file) {
                Some(location) => {
                    adding_storage_keeps_consistency(before, location);
                    DbState { storage: storage_added(before.storage, location), ..before }
                },
                None => before,
            };
            let added = FileView {
                id: None,
                hash: file.hash->0,
                extension: file.extension,
                storage_id: match source.location(file) {
                    Some(location) => crate::settings::storage_id_of(stored.storage, location)->0,
                    None => 0,
                },
                size_bytes: if source.has_sizes() {
                    file.size_bytes
                } else {
                    None
                },
            };
            lemma_file_ok(stored.files, added);
            lemma_more_files(stored, file_upserted(stored.files, added));
            assert(after == (DbState { files: file_upserted(stored.files, added), ..stored }));
        }
    }
}

proof fn lemma_source_digests_ok(state: DbState, source: crate::slurp::SourceView, rows: Seq<HashRec>, n: nat)
    requires
        state.consistent(),
        n <= rows.len(),
    ensures
        state.with_source_digests(source, rows, n).consistent(),
        ({
            let after = state.with_source_digests(source, rows, n);
            after == (DbState { hashes: after.hashes, ..state })
        }),
    decreases n,
{
    if n > 0 {
        let m = (n - 1) as nat;
        lemma_source_digests_ok(state, source, rows, m);
        let before = state.with_source_digests(source, rows, m);
        let row = rows[n - 1];
        if let Some(file_id) = before.file_id_here(source, row.file_id) {
            let hash = source.file(row.file_id)->0.hash->0;
            lemma_pos(file_hashes(before.files), Some(hash));
            let at = pos(file_hashes(before.files), Some(hash));
            assert(file_ids(before.files)[at] == file_id);
            lemma_pos(file_ids(before.files), file_id);
            lemma_digest_ok(before, HashRec { file_id, ..row });
        }
    }
}

proof fn lemma_relationship_batches_ok(state: DbState, rows: Seq<(u64, u64)>, n: nat)
    requires
        state.consistent(),
    ensures
        state.with_relationship_batches(rows, n).consistent(),
        state.same_rows(state.with_relationship_batches(rows, n)),
    decreases n,
{
    if n > 0 {
        lemma_relationship_batches_ok(state, rows, (n - 1) as nat);
        adding_relationships_keeps_consistency(
            state.with_relationship_batches(rows, (n - 1) as nat),
            chunk(rows, (n - 1) as nat),
        );
    }
}

/// Taking over relationships keeps the tables consistent.
pub proof fn lemma_source_relationships_ok(state: DbState, source: crate::slurp::SourceView, n: nat)
    requires
        state.consistent(),
        n <= source.namespaces.len(),
    ensures
        state.with_source_relationships(source, n).consistent(),
        state.same_rows(state.with_source_relationships(source, n)),
    decreases n,
{
    if n > 0 {
        let m = (n - 1) as nat;
        lemma_source_relationships_ok(state, source, m);
        let before = state.with_source_relationships(source, m);
        let namespace = source.namespaces[n - 1].id;
        let rows = source.rows_for(namespace);
        let here = before.relationships_here(source, namespace, rows, rows.len());
        lemma_relationship_batches_ok(before, here, chunk_count(here.len()));
    }
}

/// Taking over all but the structural relations keeps the tables consistent, and all relationships.
pub proof fn lemma_slurped_related_ok(state: DbState, source: crate::slurp::SourceView)
    requires
        state.consistent(),
        state.fits(source),
    ensures
        ({
            let related = state.with_source_tags(source).with_source_contents(source).with_source_relationships(
                source,
                source.namespaces.len(),
            );
            let contents = state.with_source_tags(source).with_source_contents(source);
            &&& contents.consistent()
            &&& contents.relationships == state.relationships
            &&& state.caches_current() ==> contents.caches_current()
            &&& state.stored_current() ==> contents.stored_current()
            &&& related.consistent()
            &&& related.parents.len() <= state.parents.len() + 2400 * chunk_count(source.tags.len())
        }),
{
    let tags = source.plugin_tags(source.tags.len());
    let placed = state.with_source_locations(source, source.storage.len());
    lemma_locations_ok(state, source, source.storage.len());
    let named = placed.with_namespaces(source.namespace_objects());
    adding_namespaces_keeps_consistency(placed, source.namespace_objects());
    lemma_with_namespaces(placed, source.namespace_objects());
    crate::slurp::lemma_plugin_tags_len(source, source.tags.len());
    let batches = chunk_count(tags.len());
    lemma_tag_batches_ok(named, tags, batches);
    lemma_tag_batches_storage(named, tags, batches);
    let tagged = state.with_source_tags(source);
    let filed = tagged.with_source_files(source, source.files.len());
    lemma_source_files_ok(tagged, source, source.files.len());
    if let Some(rows) = source.hashes {
        lemma_source_digests_ok(filed, source, rows, rows.len());
    }
    lemma_source_relationships_ok(tagged.with_source_contents(source), source, source.namespaces.len());
}

impl DbState {
    /// Whether there are numbers for all rows that a source can bring.
    pub open spec fn fits(self, source: crate::slurp::SourceView) -> bool {
        &&& self.storage.len() + source.storage.len() + source.files.len() <= u64::MAX
        &&& self.namespaces.len() + source.namespaces.len() + 2400 * chunk_count(source.tags.len()) <= u64::MAX
        &&& self.tags.len() + 2400 * chunk_count(source.tags.len()) <= u64::MAX
        &&& self.parents.len() + 2400 * chunk_count(source.tags.len()) + (match source.parents {
            Some(rows) => rows.len(),
            None => 0,
        }) <= u64::MAX
        &&& self.files.len() + source.files.len() <= u64::MAX
    }
}

/// Taking over what another database holds keeps the tables consistent.
pub proof fn slurping_keeps_consistency(state: DbState, source: crate::slurp::SourceView)
    requires
        state.consistent(),
        state.fits(source),
    ensures
        state.slurped(source).consistent(),
{
    lemma_slurped_related_ok(state, source);
    let related = state.with_source_tags(source).with_source_contents(source).with_source_relationships(
        source,
        source.namespaces.len(),
    );
    if let Some(rows) = source.parents {
        crate::slurp::lemma_relations_here_len(related, source, rows, rows.len());
        adding_relations_keeps_consistency(related, related.relations_here(source, rows, rows.len()));
    }
}

} // verus!
