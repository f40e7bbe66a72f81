//! What is here after another database has been taken over, told of the rows on both sides.
use crate::consistency::{files_ok, lemma_slurped_related_ok, lemma_source_relationships_ok, lemma_tag_batches_storage};
use crate::database::DbState;
use crate::file::file_upserted;
use crate::namespace::{described_once, lemma_distinct_forms};
use crate::parents::{lemma_with_relations, relation_accepted, tag_exists};
use crate::relationship::{chunk, chunk_count, file_exists, written_rows};
use crate::row_outcomes::{
    added_digests_stand_as_given, added_files_stand_as_given, added_locations_stand_as_given, lemma_added_ok,
    lemma_has_tag_row, stands_against,
};
use crate::rows::{FileRec, HashRec, StorageRec, namespace_ids, storage_ids, storage_locations, tag_ids, tag_keys};
use crate::scrape_outcomes::{is_file, lemma_is_file};
use crate::settings::{storage_added, storage_id_of};
use crate::slurp::{SourceFileRec, SourceView, names_column, partition_namespaces, source_file_ids};
use crate::tag::{
    distinct_tags, forms_of, lemma_with_namespaces, namespaces_named, namespaces_of, newer_tags, stored_tags_of,
    tag_max_id, tag_namespaces, tags_upserted,
};
use crate::tag_outcomes::{
    added_tags_are_here, any_brings, brings, has_relation, has_tag, lemma_has_tag, lemma_namespaces_rows,
    lemma_plugin_tags_shape, lemma_relations_rows, room_for,
};
use crate::text::{lemma_pos, lemma_push_contains, pos};
use crate::types::{FileView, NamespaceView, PluginTagView, TagParents, TagType, TagView};
use vstd::prelude::*;

verus! {

/// Whether the files of a source have hashes of their own, and its storage locations ids of their own.
pub open spec fn source_in_order(source: SourceView) -> bool {
    &&& forall|i: int, k: int|
        0 <= i < k < source.files.len() && (#[trigger] source.files[i]).hash is Some ==> source.files[i].hash != (
        #[trigger] source.files[k]).hash
    &&& forall|i: int, k: int|
        0 <= i < k < source.storage.len() ==> (#[trigger] source.storage[i]).id != (#[trigger] source.storage[k]).id
}

/// Whether a row has what a file of a source has: its hash and extension; the id of the row that has the place of the
/// file, or zero where the source names none; and its size where the source tells it, else the one that was known.
pub open spec fn taken_over(
    before: Seq<FileRec>,
    storage: Seq<StorageRec>,
    source: SourceView,
    file: SourceFileRec,
    row: FileRec,
) -> bool {
    let sized = names_column(source.file_schema->0, "size_bytes"@) && file.size_bytes is Some;
    &&& row.hash == file.hash
    &&& row.extension == file.extension
    &&& forall|s: int|
        0 <= s < source.storage.len() && file.storage_id == Some((#[trigger] source.storage[s]).id) ==> place_of(
            storage,
            row.storage_id,
            source.storage[s].location,
        )
    &&& (forall|s: int| 0 <= s < source.storage.len() ==> file.storage_id != Some((#[trigger] source.storage[s]).id))
        ==> row.storage_id == 0
    &&& sized ==> row.size_bytes == file.size_bytes
    &&& forall|b: int|
        0 <= b < before.len() && (#[trigger] before[b]).hash == file.hash ==> row.id == before[b].id && (!sized
            ==> row.size_bytes == before[b].size_bytes)
    &&& (forall|b: int| 0 <= b < before.len() ==> (#[trigger] before[b]).hash != file.hash) && !sized
        ==> row.size_bytes is None
}

/// Whether the storage location with an id is at a place.
pub open spec fn place_of(storage: Seq<StorageRec>, id: u64, location: Seq<char>) -> bool {
    exists|q: int| 0 <= q < storage.len() && (#[trigger] storage[q]).id == id && storage[q].location == location
}

/// Whether the file table has what a file of a source has.
pub open spec fn file_is_here(before: Seq<FileRec>, after: DbState, source: SourceView, file: SourceFileRec) -> bool {
    exists|r: int| 0 <= r < after.files.len() && taken_over(before, after.storage, source, file, #[trigger] after.files[r])
}

/// The place of a file in its source.
proof fn lemma_location(source: SourceView, file: SourceFileRec)
    requires
        source_in_order(source),
    ensures
        match source.location(file) {
            Some(location) => exists|s: int|
                0 <= s < source.storage.len() && file.storage_id == Some((#[trigger] source.storage[s]).id)
                    && source.storage[s].location == location,
            None => forall|s: int|
                0 <= s < source.storage.len() ==> file.storage_id != Some((#[trigger] source.storage[s]).id),
        },
        forall|s: int|
            0 <= s < source.storage.len() && file.storage_id == Some((#[trigger] source.storage[s]).id)
                ==> source.location(file) == Some(source.storage[s].location),
{
    if let Some(id) = file.storage_id {
        let keys = storage_ids(source.storage);
        lemma_pos(keys, id);
        let at = pos(keys, id);
        if at < source.storage.len() {
            assert(keys[at] == source.storage[at].id);
        }
        assert forall|s: int| 0 <= s < source.storage.len() && file.storage_id == Some((#[trigger] source.storage[s]).id) implies s
            == at by {
            assert(keys[s] == id);
        }
    }
}

/// A place that is added has an id, and the places of the others stay.
proof fn lemma_place_added(rows: Seq<StorageRec>, location: Seq<char>)
    requires
        rows.len() < u64::MAX,
    ensures
        place_of(storage_added(rows, location), storage_id_of(storage_added(rows, location), location)->0, location),
        forall|id: u64, other: Seq<char>| #[trigger]
            place_of(rows, id, other) ==> place_of(storage_added(rows, location), id, other),
{
    let after = storage_added(rows, location);
    added_locations_stand_as_given(rows, location);
    let keys = storage_locations(after);
    lemma_pos(keys, location);
    let at = pos(keys, location);
    if exists|i: int| 0 <= i < rows.len() && (#[trigger] rows[i]).location == location {
        let i = choose|i: int| 0 <= i < rows.len() && (#[trigger] rows[i]).location == location;
        assert(keys[i] == location);
    } else {
        assert(keys[rows.len() as int] == location);
    }
    assert(at < after.len());
    assert(keys[at] == after[at].location);
    assert forall|id: u64, other: Seq<char>| #[trigger] place_of(rows, id, other) implies place_of(after, id, other) by {
        let q = choose|q: int| 0 <= q < rows.len() && (#[trigger] rows[q]).id == id && rows[q].location == other;
        assert(after[q] == rows[q]);
    }
}

proof fn lemma_files_taken(state: DbState, source: SourceView, n: nat)
    requires
        source_in_order(source),
        files_ok(state.files),
        state.files.len() + source.files.len() <= u64::MAX,
        state.storage.len() + source.files.len() <= u64::MAX,
        n <= source.files.len(),
    ensures
        ({
            let after = state.with_source_files(source, n);
            &&& files_ok(after.files)
            &&& after.files.len() <= state.files.len() + n
            &&& after.storage.len() <= state.storage.len() + n
            &&& after == (DbState { files: after.files, storage: after.storage, ..state })
            &&& forall|id: u64, other: Seq<char>| #[trigger]
                place_of(state.storage, id, other) ==> place_of(after.storage, id, other)
            &&& forall|i: int|
                0 <= i < n && (#[trigger] source.files[i]).hash is Some && source.files[i].id > 0 ==> file_is_here(
                    state.files,
                    after,
                    source,
                    source.files[i],
                )
            &&& forall|b: int|
                0 <= b < state.files.len() ==> b < after.files.len() && (#[trigger] after.files[b]).id == state.files[b].id
                    && after.files[b].hash == state.files[b].hash
            &&& forall|r: int|
                0 <= r < after.files.len() && !from_source(source, n, (#[trigger] after.files[r]).hash) ==> r
                    < state.files.len() && after.files[r] == state.files[r]
        }),
    decreases n,
{
    if n > 0 {
        let m = (n - 1) as nat;
        lemma_files_taken(state, source, m);
        let before = state.with_source_files(source, m);
        let after = state.with_source_files(source, n);
        let file = source.files[n - 1];
        if file.hash is Some && file.id > 0 {
            lemma_location(source, file);
            let location = source.location(file);
            let storage = match location {
                Some(place) => {
                    lemma_place_added(before.storage, place);
                    added_locations_stand_as_given(before.storage, place);
                    storage_added(before.storage, place)
                },
                None => before.storage,
            };
            let added = FileView {
                id: None,
                hash: file.hash->0,
                extension: file.extension,
                storage_id: match location {
                    Some(place) => storage_id_of(storage, place)->0,
                    None => 0,
                },
                size_bytes: if source.has_sizes() {
                    file.size_bytes
                } else {
                    None
                },
            };
            added_files_stand_as_given(before.files, added);
            assert(after.files == file_upserted(before.files, added));
            assert(after.storage == storage);
            lemma_added_ok(before.files, added);
            // The row of this file.
            let r: int = if exists|i: int| 0 <= i < before.files.len() && (#[trigger] before.files[i]).hash == file.hash {
                choose|i: int| 0 <= i < before.files.len() && (#[trigger] before.files[i]).hash == file.hash
            } else {
                before.files.len() as int
            };
            let row = after.files[r];
            assert(row.hash == file.hash && row.extension == file.extension);
            assert forall|b: int| 0 <= b < state.files.len() && (#[trigger] state.files[b]).hash == file.hash implies b == r
                && before.files[r].size_bytes == state.files[b].size_bytes by {
                assert(before.files[b].hash == file.hash);
                if b != r {
                    assert(before.files[b].hash != before.files[r].hash);
                }
                if from_source(source, m, file.hash) {
                    let i = choose|i: int| 0 <= i < m && (#[trigger] source.files[i]).hash == file.hash && source.files[i].id > 0;
                    assert(source.files[i].hash != source.files[n - 1].hash);
                }
                assert(!from_source(source, m, before.files[r].hash));
            }
            if forall|b: int| 0 <= b < state.files.len() ==> (#[trigger] state.files[b]).hash != file.hash {
                if r < before.files.len() {
                    if from_source(source, m, file.hash) {
                        let i = choose|i: int|
                            0 <= i < m && (#[trigger] source.files[i]).hash == file.hash && source.files[i].id > 0;
                        assert(source.files[i].hash != source.files[n - 1].hash);
                    }
                    assert(!from_source(source, m, before.files[r].hash));
                    assert(before.files[r] == state.files[r]);
                    assert(state.files[r].hash == file.hash);
                }
            }
            assert(taken_over(state.files, after.storage, source, file, row));
            assert(file_is_here(state.files, after, source, file));
            // Those of the files before it.
            assert forall|i: int|
                0 <= i < n && (#[trigger] source.files[i]).hash is Some && source.files[i].id > 0 implies file_is_here(
                state.files,
                after,
                source,
                source.files[i],
            ) by {
                if i < m {
                    let other = source.files[i];
                    assert(file_is_here(state.files, before, source, other));
                    let q = choose|q: int|
                        0 <= q < before.files.len() && taken_over(
                            state.files,
                            before.storage,
                            source,
                            other,
                            #[trigger] before.files[q],
                        );
                    assert(other.hash != source.files[n - 1].hash);
                    assert(q != r || r == before.files.len());
                    assert(after.files[q] == before.files[q]);
                    assert(taken_over(state.files, after.storage, source, other, after.files[q]));
                }
            }
            assert forall|k: int|
                0 <= k < after.files.len() && !from_source(source, n, (#[trigger] after.files[k]).hash) implies k
                < state.files.len() && after.files[k] == state.files[k] by {
                if after.files[k].hash == file.hash {
                    assert(source.files[n - 1].hash == after.files[k].hash);
                    assert(from_source(source, n, after.files[k].hash));
                }
                assert(k != r);
                assert(after.files[k] == before.files[k]);
                if from_source(source, m, before.files[k].hash) {
                    let i = choose|i: int|
                        0 <= i < m && (#[trigger] source.files[i]).hash == before.files[k].hash && source.files[i].id > 0;
                    assert(from_source(source, n, after.files[k].hash));
                }
            }
            assert forall|b: int| 0 <= b < state.files.len() implies b < after.files.len() && (#[trigger] after.files[b]).id
                == state.files[b].id && after.files[b].hash == state.files[b].hash by {
                assert(before.files[b].id == state.files[b].id);
                if b != r {
                    assert(after.files[b] == before.files[b]);
                }
            }
        } else {
            assert(after == before);
            assert forall|k: int|
                0 <= k < after.files.len() && !from_source(source, n, (#[trigger] after.files[k]).hash) implies k
                < state.files.len() && after.files[k] == state.files[k] by {
                if from_source(source, m, before.files[k].hash) {
                    let i = choose|i: int|
                        0 <= i < m && (#[trigger] source.files[i]).hash == before.files[k].hash && source.files[i].id > 0;
                    assert(from_source(source, n, after.files[k].hash));
                }
            }
        }
    }
}

/// Whether a hash is that of one of the first `n` files of a source.
pub open spec fn from_source(source: SourceView, n: nat, hash: Option<Seq<char>>) -> bool {
    hash is Some && exists|i: int| 0 <= i < n && (#[trigger] source.files[i]).hash == hash && source.files[i].id > 0
}

/// After a source has been taken over, each of its files that has a hash is here, with its extension, at its place and
/// with its size where that is known; a file that was here keeps its id. Files that the source does not have stay as
/// they were, and no file is lost.
pub proof fn slurped_files_are_here(state: DbState, source: SourceView, i: int)
    requires
        state.consistent(),
        state.fits(source),
        source_in_order(source),
        0 <= i < source.files.len(),
    ensures
        ({
            let after = state.slurped(source);
            &&& source.files[i].hash is Some && source.files[i].id > 0 ==> file_is_here(
                state.files,
                after,
                source,
                source.files[i],
            )
            &&& forall|b: int|
                0 <= b < state.files.len() ==> b < after.files.len() && (#[trigger] after.files[b]).id == state.files[b].id
                    && after.files[b].hash == state.files[b].hash
            &&& forall|r: int|
                0 <= r < after.files.len() && !from_source(source, source.files.len(), (#[trigger] after.files[r]).hash) ==> r
                    < state.files.len() && after.files[r] == state.files[r]
        }),
{
    let tagged = state.with_source_tags(source);
    lemma_tagged(state, source);
    lemma_files_taken(tagged, source, source.files.len());
    let contents = tagged.with_source_contents(source);
    lemma_contents(tagged, source);
    lemma_after_contents(state, source);
}

/// What adding the tags of a source leaves of the files and the storage locations.
proof fn lemma_tagged(state: DbState, source: SourceView)
    requires
        state.consistent(),
        state.fits(source),
    ensures
        ({
            let tagged = state.with_source_tags(source);
            &&& tagged.files == state.files
            &&& tagged.relationships == state.relationships
            &&& tagged.hashes == state.hashes
            &&& tagged.storage == state.with_source_locations(source, source.storage.len()).storage
            &&& tagged.storage.len() <= state.storage.len() + source.storage.len()
        }),
{
    let placed = state.with_source_locations(source, source.storage.len());
    lemma_locations_taken(state, source, source.storage.len());
    let named = placed.with_namespaces(source.namespace_objects());
    lemma_with_namespaces(placed, source.namespace_objects());
    let tags = source.plugin_tags(source.tags.len());
    lemma_tag_batches_storage(named, tags, chunk_count(tags.len()));
    lemma_tag_batches_hashes(named, tags, chunk_count(tags.len()));
}

proof fn lemma_tag_batches_hashes(state: DbState, tags: Seq<crate::types::PluginTagView>, n: nat)
    ensures
        state.with_tag_batches(tags, n).hashes == state.hashes,
    decreases n,
{
    if n > 0 {
        let m = (n - 1) as nat;
        lemma_tag_batches_hashes(state, tags, m);
        let before = state.with_tag_batches(tags, m);
        crate::tag_outcomes::lemma_plugin_tags_touch(before, crate::relationship::chunk(tags, m));
    }
}

proof fn lemma_locations_taken(state: DbState, source: SourceView, n: nat)
    requires
        n <= source.storage.len(),
        state.storage.len() + source.storage.len() <= u64::MAX,
    ensures
        ({
            let after = state.with_source_locations(source, n);
            &&& after == (DbState { storage: after.storage, ..state })
            &&& after.storage.len() <= state.storage.len() + n
            &&& state.storage.len() <= after.storage.len()
            &&& forall|q: int| 0 <= q < state.storage.len() ==> #[trigger] after.storage[q] == state.storage[q]
            &&& forall|s: int| 0 <= s < n ==> has_place(after.storage, (#[trigger] source.storage[s]).location)
        }),
    decreases n,
{
    if n > 0 {
        let m = (n - 1) as nat;
        lemma_locations_taken(state, source, m);
        let before = state.with_source_locations(source, m);
        let after = state.with_source_locations(source, n);
        let location = source.storage[n - 1].location;
        added_locations_stand_as_given(before.storage, location);
        if exists|i: int| 0 <= i < before.storage.len() && (#[trigger] before.storage[i]).location == location {
        } else {
            assert(after.storage[before.storage.len() as int].location == location);
        }
        assert forall|q: int| 0 <= q < state.storage.len() implies #[trigger] after.storage[q] == state.storage[q] by {
            assert(before.storage[q] == state.storage[q]);
        }
        assert forall|s: int| 0 <= s < n implies has_place(after.storage, (#[trigger] source.storage[s]).location) by {
            if s < m {
                assert(has_place(before.storage, source.storage[s].location));
                let q = choose|q: int|
                    0 <= q < before.storage.len() && (#[trigger] before.storage[q]).location == source.storage[s].location;
                assert(after.storage[q] == before.storage[q]);
            } else {
                let q = choose|q: int| 0 <= q < after.storage.len() && (#[trigger] after.storage[q]).location == location;
            }
        }
    }
}

/// Whether a storage location is at a place.
pub open spec fn has_place(storage: Seq<StorageRec>, location: Seq<char>) -> bool {
    exists|q: int| 0 <= q < storage.len() && (#[trigger] storage[q]).location == location
}

/// Recording the digests of a source leaves the files and the storage locations.
proof fn lemma_contents(tagged: DbState, source: SourceView)
    ensures
        ({
            let filed = tagged.with_source_files(source, source.files.len());
            let contents = tagged.with_source_contents(source);
            contents == (DbState { hashes: contents.hashes, ..filed })
        }),
{
    let filed = tagged.with_source_files(source, source.files.len());
    if let Some(rows) = source.hashes {
        lemma_digests_touch(filed, source, rows, rows.len());
    }
}

proof fn lemma_digests_touch(state: DbState, source: SourceView, rows: Seq<crate::rows::HashRec>, n: nat)
    ensures
        state.with_source_digests(source, rows, n) == (DbState {
            hashes: state.with_source_digests(source, rows, n).hashes,
            ..state
        }),
    decreases n,
{
    if n > 0 {
        lemma_digests_touch(state, source, rows, (n - 1) as nat);
    }
}

/// Taking over relationships and structural relations leaves the other tables.
proof fn lemma_after_contents(state: DbState, source: SourceView)
    requires
        state.consistent(),
        state.fits(source),
    ensures
        ({
            let contents = state.with_source_tags(source).with_source_contents(source);
            let after = state.slurped(source);
            &&& contents.consistent()
            &&& after.files == contents.files
            &&& after.storage == contents.storage
            &&& after.hashes == contents.hashes
            &&& after.namespaces == contents.namespaces
            &&& crate::rows::tag_ids(after.tags) == crate::rows::tag_ids(contents.tags)
            &&& crate::rows::tag_keys(after.tags) == crate::rows::tag_keys(contents.tags)
        }),
{
    let contents = state.with_source_tags(source).with_source_contents(source);
    lemma_slurped_related_ok(state, source);
    let n = source.namespaces.len();
    lemma_source_relationships_ok(contents, source, n);
    lemma_relationships_touch(contents, source, n);
    let related = contents.with_source_relationships(source, n);
    if let Some(rows) = source.parents {
        lemma_with_relations(related, related.relations_here(source, rows, rows.len()));
    }
}

proof fn lemma_relationships_touch(state: DbState, source: SourceView, n: nat)
    ensures
        state.with_source_relationships(source, n).storage == state.storage,
        state.with_source_relationships(source, n).hashes == state.hashes,
    decreases n,
{
    if n > 0 {
        let m = (n - 1) as nat;
        lemma_relationships_touch(state, source, m);
        let before = state.with_source_relationships(source, m);
        let namespace = source.namespaces[n - 1].id;
        let rows = source.rows_for(namespace);
        let here = before.relationships_here(source, namespace, rows, rows.len());
        lemma_batches_touch(before, here, chunk_count(here.len()));
    }
}

proof fn lemma_batches_touch(state: DbState, rows: Seq<(u64, u64)>, n: nat)
    ensures
        state.with_relationship_batches(rows, n).storage == state.storage,
        state.with_relationship_batches(rows, n).hashes == state.hashes,
    decreases n,
{
    if n > 0 {
        let m = (n - 1) as nat;
        lemma_batches_touch(state, rows, m);
        crate::tag_outcomes::lemma_relationships_touch(
            state.with_relationship_batches(rows, m),
            crate::relationship::chunk(rows, m),
        );
    }
}

/// After a source has been taken over, each of its storage locations is here, and those that were here stay.
pub proof fn slurped_locations_are_here(state: DbState, source: SourceView, s: int)
    requires
        state.consistent(),
        state.fits(source),
        source_in_order(source),
        0 <= s < source.storage.len(),
    ensures
        ({
            let after = state.slurped(source);
            &&& exists|q: int|
                0 <= q < after.storage.len() && (#[trigger] after.storage[q]).location == source.storage[s].location
            &&& forall|id: u64, location: Seq<char>| #[trigger]
                place_of(state.storage, id, location) ==> place_of(after.storage, id, location)
        }),
{
    let tagged = state.with_source_tags(source);
    lemma_tagged(state, source);
    lemma_locations_taken(state, source, source.storage.len());
    lemma_files_taken(tagged, source, source.files.len());
    lemma_contents(tagged, source);
    lemma_after_contents(state, source);
    let after = state.slurped(source);
    assert(has_place(tagged.storage, source.storage[s].location));
    let q = choose|q: int|
        0 <= q < tagged.storage.len() && (#[trigger] tagged.storage[q]).location == source.storage[s].location;
    assert(place_of(tagged.storage, tagged.storage[q].id, source.storage[s].location));
    assert(place_of(after.storage, tagged.storage[q].id, source.storage[s].location));
    assert forall|id: u64, location: Seq<char>| #[trigger] place_of(state.storage, id, location) implies place_of(
        after.storage,
        id,
        location,
    ) by {
        let k = choose|k: int|
            0 <= k < state.storage.len() && (#[trigger] state.storage[k]).id == id && state.storage[k].location == location;
        assert(tagged.storage[k] == state.storage[k]);
        assert(place_of(tagged.storage, id, location));
    }
}

/// Whether the namespaces, tags, files and partitions of a source have ids of their own, and its namespaces names of
/// their own.
pub open spec fn source_distinct(source: SourceView) -> bool {
    &&& forall|i: int, k: int|
        0 <= i < k < source.namespaces.len() ==> (#[trigger] source.namespaces[i]).id != (#[trigger] source.namespaces[k]).id
            && source.namespaces[i].name != source.namespaces[k].name
    &&& forall|i: int, k: int|
        0 <= i < k < source.tags.len() ==> (#[trigger] source.tags[i]).id != (#[trigger] source.tags[k]).id
    &&& forall|i: int, k: int|
        0 <= i < k < source.files.len() ==> (#[trigger] source.files[i]).id != (#[trigger] source.files[k]).id
    &&& forall|i: int, k: int|
        0 <= i < k < source.partitions.len() ==> (#[trigger] source.partitions[i]).0 != (#[trigger] source.partitions[k]).0
}

/// Whether the `i`th tag of a source is in the `j`th namespace of it.
pub open spec fn in_space(source: SourceView, i: int, j: int) -> bool {
    0 <= i < source.tags.len() && 0 <= j < source.namespaces.len() && source.namespaces[j].id == source.tags[i].namespace
}

/// Whether a source has a tag that is called so, with a name and an id above zero.
pub open spec fn source_calls(source: SourceView, n: nat, name: Seq<char>, space: Seq<char>) -> bool {
    exists|i: int, j: int| #[trigger]
        in_space(source, i, j) && i < n && source.tags[i].id > 0 && source.tags[i].name == name && name.len() > 0
            && source.namespaces[j].name == space
}

proof fn lemma_source_namespace(source: SourceView, id: u64)
    requires
        source_distinct(source),
    ensures
        match source.namespace(id) {
            Some(found) => exists|j: int|
                0 <= j < source.namespaces.len() && (#[trigger] source.namespaces[j]).id == id && source.namespaces[j] == found,
            None => forall|j: int| 0 <= j < source.namespaces.len() ==> (#[trigger] source.namespaces[j]).id != id,
        },
        forall|j: int|
            0 <= j < source.namespaces.len() && (#[trigger] source.namespaces[j]).id == id ==> source.namespace(id) == Some(
                source.namespaces[j],
            ),
{
    let keys = namespace_ids(source.namespaces);
    lemma_pos(keys, id);
    let at = pos(keys, id);
    if at < source.namespaces.len() {
        assert(keys[at] == source.namespaces[at].id);
    }
    assert forall|j: int| 0 <= j < source.namespaces.len() && (#[trigger] source.namespaces[j]).id == id implies j == at by {
        assert(keys[j] == id);
    }
}

/// What is taken over of the tags of a source: those with an id above zero, in a namespace that the source has.
proof fn lemma_source_tags(source: SourceView, n: nat)
    requires
        source_distinct(source),
        n <= source.tags.len(),
    ensures
        forall|p: int|
            0 <= p < source.plugin_tags(n).len() ==> plain_tag_of(source, n, #[trigger] source.plugin_tags(n)[p]),
        forall|i: int, j: int| #[trigger]
            in_space(source, i, j) && i < n && source.tags[i].id > 0 ==> source.plugin_tags(n).contains(plain_tag(source, i, j)),
    decreases n,
{
    if n > 0 {
        let m = (n - 1) as nat;
        lemma_source_tags(source, m);
        let before = source.plugin_tags(m);
        let after = source.plugin_tags(n);
        let row = source.tags[n - 1];
        lemma_source_namespace(source, row.namespace);
        assert forall|p: int| 0 <= p < after.len() implies plain_tag_of(source, n, #[trigger] after[p]) by {
            if p < before.len() {
                assert(after[p] == before[p]);
                assert(plain_tag_of(source, m, before[p]));
                let (i, j) = choose|i: int, j: int| #[trigger]
                    in_space(source, i, j) && i < m && source.tags[i].id > 0 && before[p] == plain_tag(source, i, j);
                assert(in_space(source, i, j));
            } else {
                let j = choose|j: int|
                    0 <= j < source.namespaces.len() && (#[trigger] source.namespaces[j]).id == row.namespace
                        && source.namespaces[j] == source.namespace(row.namespace)->0;
                assert(in_space(source, n - 1, j));
                assert(after[p] == plain_tag(source, n - 1, j));
            }
        }
        assert forall|i: int, j: int| #[trigger] in_space(source, i, j) && i < n && source.tags[i].id > 0 implies after.contains(
            plain_tag(source, i, j),
        ) by {
            if i < m {
                assert(before.contains(plain_tag(source, i, j)));
                let p = choose|p: int| 0 <= p < before.len() && before[p] == plain_tag(source, i, j);
                assert(after[p] == plain_tag(source, i, j));
            } else {
                assert(source.namespace(row.namespace) == Some(source.namespaces[j]));
                assert(after[before.len() as int] == plain_tag(source, i, j));
            }
        }
    }
}

/// A tag of a source as a plugin would bring it.
pub open spec fn plain_tag(source: SourceView, i: int, j: int) -> PluginTagView {
    PluginTagView {
        tag: TagView {
            name: source.tags[i].name,
            namespace: NamespaceView {
                name: source.namespaces[j].name,
                description: source.namespaces[j].description,
            },
        },
        tag_type: TagType::NormalNoRegex,
        relates_to: None,
    }
}

/// Whether a plugin's tag is one of the first `n` tags of a source.
spec fn plain_tag_of(source: SourceView, n: nat, tag: PluginTagView) -> bool {
    exists|i: int, j: int| #[trigger]
        in_space(source, i, j) && i < n && source.tags[i].id > 0 && tag == plain_tag(source, i, j)
}

/// The namespaces of the tags of a source come with one description each.
proof fn lemma_source_described(source: SourceView, tags: Seq<PluginTagView>)
    requires
        source_distinct(source),
        forall|p: int| 0 <= p < tags.len() ==> plain_tag_of(source, source.tags.len(), #[trigger] tags[p]),
    ensures
        described_once(namespaces_of(tags)),
{
    let names = namespaces_of(tags);
    lemma_distinct_forms(namespaces_named(tags));
    assert forall|x: int| 0 <= x < names.len() implies exists|j: int|
        0 <= j < source.namespaces.len() && (#[trigger] source.namespaces[j]).name == (#[trigger] names[x]).name
            && source.namespaces[j].description == names[x].description by {
        assert(names.contains(names[x]));
        let n = choose|n: int| 0 <= n < namespaces_named(tags).len() && namespaces_named(tags)[n] == names[x];
        let (p, k) = lemma_named_place(tags, n);
        assert(plain_tag_of(source, source.tags.len(), tags[p]));
        let (i, j) = choose|i: int, j: int| #[trigger]
            in_space(source, i, j) && i < source.tags.len() && source.tags[i].id > 0 && tags[p] == plain_tag(source, i, j);
        assert(tag_namespaces(tags[p])[k] == tags[p].tag.namespace);
        assert(source.namespaces[j].name == names[x].name);
    }
    assert forall|x: int, y: int|
        0 <= x < names.len() && 0 <= y < names.len() && (#[trigger] names[x]).name == (#[trigger] names[y]).name implies names[x].description
        == names[y].description by {
        let a = choose|a: int|
            0 <= a < source.namespaces.len() && (#[trigger] source.namespaces[a]).name == names[x].name
                && source.namespaces[a].description == names[x].description;
        let b = choose|b: int|
            0 <= b < source.namespaces.len() && (#[trigger] source.namespaces[b]).name == names[y].name
                && source.namespaces[b].description == names[y].description;
        if a < b {
            assert(source.namespaces[a].name != source.namespaces[b].name);
        } else if b < a {
            assert(source.namespaces[b].name != source.namespaces[a].name);
        }
    }
}

proof fn lemma_named_place(tags: Seq<PluginTagView>, n: int) -> (place: (int, int))
    requires
        0 <= n < namespaces_named(tags).len(),
    ensures
        0 <= place.0 < tags.len(),
        0 <= place.1 < tag_namespaces(tags[place.0]).len(),
        namespaces_named(tags)[n] == tag_namespaces(tags[place.0])[place.1],
    decreases tags.len(),
{
    let shorter = tags.drop_last();
    let before = namespaces_named(shorter);
    if n < before.len() {
        let place = lemma_named_place(shorter, n);
        assert(shorter[place.0] == tags[place.0]);
        place
    } else {
        assert(tags[tags.len() - 1] == tags.last());
        (tags.len() - 1, n - before.len())
    }
}

/// Which tags there are after tags have been added in batches.
proof fn lemma_batches_called(state: DbState, source: SourceView, tags: Seq<PluginTagView>, n: nat, name: Seq<char>, space: Seq<char>)
    requires
        state.consistent(),
        source_distinct(source),
        n <= chunk_count(tags.len()),
        state.namespaces.len() + 2400 * chunk_count(tags.len()) <= u64::MAX,
        state.tags.len() + 2400 * chunk_count(tags.len()) <= u64::MAX,
        state.parents.len() + 2400 * chunk_count(tags.len()) <= u64::MAX,
        forall|p: int| 0 <= p < tags.len() ==> plain_tag_of(source, source.tags.len(), #[trigger] tags[p]),
    ensures
        ({
            let after = state.with_tag_batches(tags, n);
            &&& after.consistent()
            &&& (exists|t: u64| #[trigger] has_tag(after, t, name, space)) <==> (exists|t: u64| #[trigger]
                has_tag(state, t, name, space)) || (exists|p: int|
                0 <= p < written_rows(tags.len(), n) && brings(#[trigger] tags[p], name, space))
            &&& forall|t: u64| #[trigger] has_tag(state, t, name, space) ==> has_tag(after, t, name, space)
            &&& after.namespaces.len() <= state.namespaces.len() + 2400 * n
            &&& after.tags.len() <= state.tags.len() + 2400 * n
            &&& after.parents.len() <= state.parents.len() + 2400 * n
            &&& after.parents == state.parents
        }),
    decreases n,
{
    if n > 0 {
        let m = (n - 1) as nat;
        lemma_batches_called(state, source, tags, m, name, space);
        let before = state.with_tag_batches(tags, m);
        let after = state.with_tag_batches(tags, n);
        let part = chunk(tags, m);
        assert(part.len() <= 800);
        assert forall|p: int| 0 <= p < part.len() implies plain_tag_of(source, source.tags.len(), #[trigger] part[p]) by {
            assert(part[p] == tags[m * 800 + p]);
        }
        lemma_source_described(source, part);
        assert(n <= chunk_count(tags.len()));
        assert(room_for(before, part));
        added_tags_are_here(before, part, name, space);
        crate::consistency::lemma_tag_batches_ok(state, tags, n);
        lemma_no_relations(before, part, source);
        if any_brings(part, name, space) {
            let p = choose|p: int| 0 <= p < part.len() && brings(#[trigger] part[p], name, space);
            assert(part[p] == tags[m * 800 + p]);
            assert(brings(tags[m * 800 + p], name, space));
        }
        if exists|p: int| 0 <= p < written_rows(tags.len(), n) && brings(#[trigger] tags[p], name, space) {
            let p = choose|p: int| 0 <= p < written_rows(tags.len(), n) && brings(#[trigger] tags[p], name, space);
            if p >= written_rows(tags.len(), m) {
                assert(part[p - m * 800] == tags[p]);
                assert(any_brings(part, name, space));
            }
        }
        if exists|t: u64| #[trigger] has_tag(state, t, name, space) {
            let t = choose|t: u64| #[trigger] has_tag(state, t, name, space);
            assert(has_tag(before, t, name, space));
        }
        assert forall|t: u64| #[trigger] has_tag(state, t, name, space) implies has_tag(after, t, name, space) by {
            assert(has_tag(before, t, name, space));
        }
    }
}

/// The tags of a source ask for no structural relation.
proof fn lemma_no_relations(state: DbState, tags: Seq<PluginTagView>, source: SourceView)
    requires
        forall|p: int| 0 <= p < tags.len() ==> plain_tag_of(source, source.tags.len(), #[trigger] tags[p]),
    ensures
        state.with_plugin_tags(tags).parents == state.parents,
{
    reveal(DbState::with_plugin_tags);
    lemma_with_namespaces(state, namespaces_of(tags));
    let wanted = distinct_tags(stored_tags_of(tags));
    if wanted.len() > 0 {
        let named = DbState { tag_search_dirty: true, ..state.with_namespaces(namespaces_of(tags)) };
        let added = DbState { tags: tags_upserted(named.tags, named.namespaces, wanted), ..named };
        let announced = DbState {
            regex_tags: match added.regex_tags {
                Some(waiting) => Some(waiting + newer_tags(added.with_ids(wanted), tag_max_id(named.tags))),
                None => None,
            },
            ..added
        };
        lemma_none_related(announced, forms_of(tags), tags, source);
        assert(announced.relations_of(tags).len() == 0);
        assert(announced.with_relations(announced.relations_of(tags)) == announced);
    }
}

proof fn lemma_none_related(state: DbState, forms: Seq<NamespaceView>, tags: Seq<PluginTagView>, source: SourceView)
    requires
        forall|p: int| 0 <= p < tags.len() ==> plain_tag_of(source, source.tags.len(), #[trigger] tags[p]),
    ensures
        state.relations_among(forms, tags).len() == 0,
    decreases tags.len(),
{
    if tags.len() > 0 {
        let shorter = tags.drop_last();
        assert forall|p: int| 0 <= p < shorter.len() implies plain_tag_of(source, source.tags.len(), #[trigger] shorter[p]) by {
            assert(shorter[p] == tags[p]);
        }
        lemma_none_related(state, forms, shorter, source);
        assert(plain_tag_of(source, source.tags.len(), tags[tags.len() - 1]));
        assert(tags.last().relates_to is None);
    }
}

/// After a source has been taken over, there are the tags that were here, under their ids, and those of the source that
/// have a name, an id above zero and a namespace in it; and no others.
pub proof fn slurped_tags_are_here(state: DbState, source: SourceView, name: Seq<char>, space: Seq<char>)
    requires
        state.consistent(),
        state.fits(source),
        source_distinct(source),
    ensures
        ({
            let after = state.slurped(source);
            &&& (exists|t: u64| #[trigger] has_tag(after, t, name, space)) <==> (exists|t: u64| #[trigger]
                has_tag(state, t, name, space)) || source_calls(source, source.tags.len(), name, space)
            &&& forall|t: u64| #[trigger] has_tag(state, t, name, space) ==> has_tag(after, t, name, space)
        }),
{
    let after = state.slurped(source);
    let tagged = state.with_source_tags(source);
    let contents = tagged.with_source_contents(source);
    lemma_tagged_called(state, source, name, space);
    lemma_contents(tagged, source);
    lemma_files_touch(tagged, source, source.files.len());
    lemma_after_contents(state, source);
    assert forall|t: u64| #[trigger] has_tag(after, t, name, space) == has_tag(tagged, t, name, space) by {
        if has_tag(tagged, t, name, space) {
            lemma_alike_called(tagged, after, t, name, space);
        }
        if has_tag(after, t, name, space) {
            lemma_alike_called(after, tagged, t, name, space);
        }
    }
    if exists|t: u64| #[trigger] has_tag(after, t, name, space) {
        let t = choose|t: u64| #[trigger] has_tag(after, t, name, space);
        assert(has_tag(tagged, t, name, space));
    }
    if exists|t: u64| #[trigger] has_tag(tagged, t, name, space) {
        let t = choose|t: u64| #[trigger] has_tag(tagged, t, name, space);
        assert(has_tag(after, t, name, space));
    }
    assert forall|t: u64| #[trigger] has_tag(state, t, name, space) implies has_tag(after, t, name, space) by {
        assert(has_tag(tagged, t, name, space));
    }
}

/// Rows with the same ids and keys call the same tags.
proof fn lemma_alike_called(one: DbState, other: DbState, id: u64, name: Seq<char>, space: Seq<char>)
    requires
        tag_ids(one.tags) == tag_ids(other.tags),
        tag_keys(one.tags) == tag_keys(other.tags),
        one.namespaces == other.namespaces,
        has_tag(one, id, name, space),
    ensures
        has_tag(other, id, name, space),
{
    let (i, j) = choose|i: int, j: int|
        0 <= i < one.tags.len() && 0 <= j < one.namespaces.len() && (#[trigger] one.tags[i]).id == id && one.tags[i].name
            == name && (#[trigger] one.namespaces[j]).id == one.tags[i].namespace && one.namespaces[j].name == space;
    assert(tag_ids(one.tags).len() == one.tags.len() && tag_ids(other.tags).len() == other.tags.len());
    assert(tag_ids(other.tags)[i] == other.tags[i].id && tag_ids(one.tags)[i] == one.tags[i].id);
    assert(tag_keys(other.tags)[i] == (other.tags[i].name, other.tags[i].namespace));
    assert(tag_keys(one.tags)[i] == (one.tags[i].name, one.tags[i].namespace));
    assert(other.tags[i].id == id && other.namespaces[j].id == other.tags[i].namespace);
}

proof fn lemma_files_touch(state: DbState, source: SourceView, n: nat)
    ensures
        state.with_source_files(source, n) == (DbState {
            files: state.with_source_files(source, n).files,
            storage: state.with_source_files(source, n).storage,
            ..state
        }),
    decreases n,
{
    if n > 0 {
        lemma_files_touch(state, source, (n - 1) as nat);
    }
}

proof fn lemma_tagged_called(state: DbState, source: SourceView, name: Seq<char>, space: Seq<char>)
    requires
        state.consistent(),
        state.fits(source),
        source_distinct(source),
    ensures
        ({
            let tagged = state.with_source_tags(source);
            &&& tagged.consistent()
            &&& (exists|t: u64| #[trigger] has_tag(tagged, t, name, space)) <==> (exists|t: u64| #[trigger]
                has_tag(state, t, name, space)) || source_calls(source, source.tags.len(), name, space)
            &&& forall|t: u64| #[trigger] has_tag(state, t, name, space) ==> has_tag(tagged, t, name, space)
            &&& tagged.parents == state.parents
        }),
{
    let placed = state.with_source_locations(source, source.storage.len());
    crate::consistency::lemma_locations_ok(state, source, source.storage.len());
    let objects = source.namespace_objects();
    let named = placed.with_namespaces(objects);
    crate::consistency::adding_namespaces_keeps_consistency(placed, objects);
    lemma_with_namespaces(placed, objects);
    lemma_namespaces_rows(placed, objects);
    let tags = source.plugin_tags(source.tags.len());
    crate::slurp::lemma_plugin_tags_len(source, source.tags.len());
    lemma_source_tags(source, source.tags.len());
    let all = chunk_count(tags.len());
    lemma_batches_called(named, source, tags, all, name, space);
    assert(written_rows(tags.len(), all) == tags.len());
    // Adding the namespaces leaves the tags.
    assert forall|t: u64| #[trigger] has_tag(named, t, name, space) <==> has_tag(state, t, name, space) by {
        if has_tag(state, t, name, space) {
            let (i, j) = choose|i: int, j: int|
                0 <= i < state.tags.len() && 0 <= j < state.namespaces.len() && (#[trigger] state.tags[i]).id == t
                    && state.tags[i].name == name && (#[trigger] state.namespaces[j]).id == state.tags[i].namespace
                    && state.namespaces[j].name == space;
            assert(named.tags[i].id == t && named.namespaces[j].id == named.tags[i].namespace);
        }
        if has_tag(named, t, name, space) {
            let (i, j) = choose|i: int, j: int|
                0 <= i < named.tags.len() && 0 <= j < named.namespaces.len() && (#[trigger] named.tags[i]).id == t
                    && named.tags[i].name == name && (#[trigger] named.namespaces[j]).id == named.tags[i].namespace
                    && named.namespaces[j].name == space;
            assert(state.tags[i] == named.tags[i]);
            assert(namespace_ids(state.namespaces).contains(state.tags[i].namespace));
            let n = choose|n: int|
                0 <= n < namespace_ids(state.namespaces).len() && namespace_ids(state.namespaces)[n]
                    == state.tags[i].namespace;
            assert(named.namespaces[n].id == state.namespaces[n].id);
            assert(namespace_ids(named.namespaces)[n] == namespace_ids(named.namespaces)[j]);
            assert(n == j);
            assert(state.tags[i].id == t && state.namespaces[n].id == state.tags[i].namespace);
        }
    }
    if exists|t: u64| #[trigger] has_tag(named, t, name, space) {
        let t = choose|t: u64| #[trigger] has_tag(named, t, name, space);
        assert(has_tag(state, t, name, space));
    }
    if exists|t: u64| #[trigger] has_tag(state, t, name, space) {
        let t = choose|t: u64| #[trigger] has_tag(state, t, name, space);
        assert(has_tag(named, t, name, space));
    }
    assert((exists|p: int| 0 <= p < tags.len() && brings(#[trigger] tags[p], name, space)) <==> source_calls(
        source,
        source.tags.len(),
        name,
        space,
    )) by {
        if exists|p: int| 0 <= p < tags.len() && brings(#[trigger] tags[p], name, space) {
            let p = choose|p: int| 0 <= p < tags.len() && brings(#[trigger] tags[p], name, space);
            assert(plain_tag_of(source, source.tags.len(), tags[p]));
            let (i, j) = choose|i: int, j: int| #[trigger]
                in_space(source, i, j) && i < source.tags.len() && source.tags[i].id > 0 && tags[p] == plain_tag(source, i, j);
            assert(in_space(source, i, j) && source.tags[i].name == name);
        }
        if source_calls(source, source.tags.len(), name, space) {
            let (i, j) = choose|i: int, j: int| #[trigger]
                in_space(source, i, j) && i < source.tags.len() && source.tags[i].id > 0 && source.tags[i].name == name
                    && name.len() > 0 && source.namespaces[j].name == space;
            assert(tags.contains(plain_tag(source, i, j)));
            let p = choose|p: int| 0 <= p < tags.len() && tags[p] == plain_tag(source, i, j);
            assert(brings(tags[p], name, space));
        }
    }
    assert forall|t: u64| #[trigger] has_tag(state, t, name, space) implies has_tag(
        state.with_source_tags(source),
        t,
        name,
        space,
    ) by {
        assert(has_tag(named, t, name, space));
    }
}

/// Whether the tag with an id in a source is the tag with another id here.
pub open spec fn same_tag(state: DbState, source: SourceView, there: u64, here: u64) -> bool {
    exists|i: int, j: int| #[trigger]
        in_space(source, i, j) && source.tags[i].id == there && has_tag(
            state,
            here,
            source.tags[i].name,
            source.namespaces[j].name,
        )
}

/// Whether the file with an id in a source is the file with another id here: both have the same hash.
pub open spec fn same_file(state: DbState, source: SourceView, there: u64, here: u64) -> bool {
    exists|i: int|
        0 <= i < source.files.len() && (#[trigger] source.files[i]).id == there && (source.files[i].hash matches Some(hash)
            && is_file(state, here, hash))
}

proof fn lemma_same_tag(state: DbState, source: SourceView, there: u64, here: u64)
    requires
        state.consistent(),
        source_distinct(source),
    ensures
        state.tag_id_here(source, there) == Some(here) <==> same_tag(state, source, there, here),
        forall|i: int|
            0 <= i < source.tags.len() && (#[trigger] source.tags[i]).id == there ==> source.tag(there) == Some(source.tags[i]),
{
    let keys = tag_ids(source.tags);
    lemma_pos(keys, there);
    let at = pos(keys, there);
    if at < source.tags.len() {
        assert(keys[at] == source.tags[at].id);
        lemma_source_namespace(source, source.tags[at].namespace);
    }
    assert forall|i: int| 0 <= i < source.tags.len() && (#[trigger] source.tags[i]).id == there implies i == at by {
        assert(keys[i] == there);
    }
    if state.tag_id_here(source, there) == Some(here) {
        let row = source.tags[at];
        let j = choose|j: int|
            0 <= j < source.namespaces.len() && (#[trigger] source.namespaces[j]).id == row.namespace && source.namespaces[j]
                == source.namespace(row.namespace)->0;
        assert(in_space(source, at, j));
        let tag = plain_tag(source, at, j).tag;
        assert(state.tag_id(tag) == Some(here));
        lemma_has_tag(state, tag, here);
    }
    if same_tag(state, source, there, here) {
        let (i, j) = choose|i: int, j: int| #[trigger]
            in_space(source, i, j) && source.tags[i].id == there && has_tag(
                state,
                here,
                source.tags[i].name,
                source.namespaces[j].name,
            );
        assert(i == at);
        let tag = plain_tag(source, i, j).tag;
        lemma_has_tag(state, tag, here);
        assert(source.namespace(source.tags[at].namespace) == Some(source.namespaces[j]));
    }
}

proof fn lemma_same_file(state: DbState, source: SourceView, there: u64, here: u64)
    requires
        state.consistent(),
        source_distinct(source),
    ensures
        state.file_id_here(source, there) == Some(here) <==> same_file(state, source, there, here),
{
    let keys = source_file_ids(source.files);
    lemma_pos(keys, there);
    let at = pos(keys, there);
    if at < source.files.len() {
        assert(keys[at] == source.files[at].id);
        if let Some(hash) = source.files[at].hash {
            lemma_is_file(state, hash, here);
        }
    }
    if same_file(state, source, there, here) {
        let i = choose|i: int|
            0 <= i < source.files.len() && (#[trigger] source.files[i]).id == there && (source.files[i].hash matches Some(
                hash,
            ) && is_file(state, here, hash));
        assert(keys[i] == there);
        if i < at {
            assert(source.files[i].id != source.files[at].id);
        } else if at < i {
            assert(source.files[at].id != source.files[i].id);
        }
    }
}

/// Whether a source gives a tag to a file: the row stands in the partition of the tag's namespace or, where there is no
/// such partition, in the one table of relationships.
pub open spec fn source_relates(source: SourceView, file: u64, tag: u64) -> bool {
    exists|i: int, j: int| #[trigger]
        in_space(source, i, j) && source.tags[i].id == tag && kept_for(source, source.namespaces[j].id, (file, tag))
}

/// Whether a source keeps a relationship for a namespace.
pub open spec fn kept_for(source: SourceView, namespace: u64, row: (u64, u64)) -> bool {
    ||| exists|p: int|
        0 <= p < source.partitions.len() && (#[trigger] source.partitions[p]).0 == namespace && source.partitions[p].1.contains(
            row,
        )
    ||| (forall|p: int| 0 <= p < source.partitions.len() ==> (#[trigger] source.partitions[p]).0 != namespace)
        && (source.relationships matches Some(rows) && rows.contains(row))
}

proof fn lemma_kept_for(source: SourceView, namespace: u64, row: (u64, u64))
    requires
        source_distinct(source),
    ensures
        source.rows_for(namespace).contains(row) <==> kept_for(source, namespace, row),
{
    let keys = partition_namespaces(source.partitions);
    lemma_pos(keys, namespace);
    let at = pos(keys, namespace);
    if at < source.partitions.len() {
        assert(keys[at] == source.partitions[at].0);
    }
    assert forall|p: int| 0 <= p < source.partitions.len() && (#[trigger] source.partitions[p]).0 == namespace implies p == at by {
        assert(keys[p] == namespace);
        if p < at {
            assert(source.partitions[p].0 != source.partitions[at].0);
        } else if at < p {
            assert(source.partitions[at].0 != source.partitions[p].0);
        }
    }
}

/// What is added in batches is no more than what is given.
proof fn lemma_batches_bound(state: DbState, rows: Seq<(u64, u64)>, n: nat)
    requires
        state.consistent(),
        n <= chunk_count(rows.len()),
        forall|i: int|
            0 <= i < rows.len() ==> file_exists(state.files, (#[trigger] rows[i]).0) && tag_exists(state.tags, rows[i].1),
    ensures
        forall|r: (u64, u64)| #[trigger]
            state.with_relationship_batches(rows, n).relationships.contains(r) ==> state.relationships.contains(r)
                || rows.contains(r),
        state.with_relationship_batches(rows, n).consistent(),
        state.same_rows(state.with_relationship_batches(rows, n)),
    decreases n,
{
    if n > 0 {
        let m = (n - 1) as nat;
        lemma_batches_bound(state, rows, m);
        let before = state.with_relationship_batches(rows, m);
        let part = chunk(rows, m);
        assert(tag_ids(before.tags).len() == before.tags.len());
        assert(tag_ids(state.tags).len() == state.tags.len());
        assert forall|i: int| 0 <= i < part.len() implies file_exists(before.files, (#[trigger] part[i]).0) && tag_exists(
            before.tags,
            part[i].1,
        ) by {
            assert(part[i] == rows[m * 800 + i]);
        }
        crate::coherence::added_relationships_are_there(before, part);
        crate::consistency::adding_relationships_keeps_consistency(before, part);
        assert forall|r: (u64, u64)| #[trigger] state.with_relationship_batches(rows, n).relationships.contains(r) implies state.relationships.contains(
            r,
        ) || rows.contains(r) by {
            if !before.relationships.contains(r) {
                assert(part.to_set().contains(r));
                assert(part.contains(r));
                let i = choose|i: int| 0 <= i < part.len() && part[i] == r;
                assert(rows[m * 800 + i] == r);
            }
        }
    }
}

/// The relationships that are taken over come from the source.
proof fn lemma_relationships_bound(state: DbState, source: SourceView, n: nat)
    requires
        state.consistent(),
        n <= source.namespaces.len(),
    ensures
        ({
            let after = state.with_source_relationships(source, n);
            &&& after.consistent()
            &&& state.same_rows(after)
            &&& forall|r: (u64, u64)| #[trigger]
                after.relationships.contains(r) ==> state.relationships.contains(r) || comes_from(state, source, n, r)
        }),
    decreases n,
{
    if n > 0 {
        let m = (n - 1) as nat;
        lemma_relationships_bound(state, source, m);
        let before = state.with_source_relationships(source, m);
        let after = state.with_source_relationships(source, n);
        let namespace = source.namespaces[n - 1].id;
        let rows = source.rows_for(namespace);
        let here = before.relationships_here(source, namespace, rows, rows.len());
        crate::slurp::lemma_relationships_here(before, source, namespace, rows, rows.len());
        lemma_here_from(before, source, namespace, rows, rows.len());
        lemma_batches_bound(before, here, chunk_count(here.len()));
        assert forall|r: (u64, u64)| #[trigger] after.relationships.contains(r) implies state.relationships.contains(r)
            || comes_from(state, source, n, r) by {
            if before.relationships.contains(r) {
                if comes_from(state, source, m, r) {
                    let (j, k) = choose|j: int, k: int|
                        #![trigger source.rows_for(source.namespaces[j].id)[k]]
                        0 <= j < m && 0 <= k < source.rows_for(source.namespaces[j].id).len() && state.relationship_here(
                            source,
                            source.namespaces[j].id,
                            source.rows_for(source.namespaces[j].id)[k],
                        ) == Some(r);
                    let row = source.rows_for(source.namespaces[j].id)[k];
                    assert(comes_from(state, source, n, r));
                }
            } else {
                assert(here.contains(r));
                let k = choose|k: int|
                    0 <= k < rows.len() && before.relationship_here(source, namespace, #[trigger] rows[k]) == Some(r);
                crate::slurp::lemma_same_here(state, before, source, namespace, rows[k]);
                assert(source.rows_for(source.namespaces[n - 1].id)[k] == rows[k]);
                assert(comes_from(state, source, n, r));
            }
        }
    }
}

/// Whether a relationship is what one of the first `n` namespaces of a source keeps.
spec fn comes_from(state: DbState, source: SourceView, n: nat, r: (u64, u64)) -> bool {
    exists|j: int, k: int|
        #![trigger source.rows_for(source.namespaces[j].id)[k]]
        0 <= j < n && 0 <= k < source.rows_for(source.namespaces[j].id).len() && state.relationship_here(
            source,
            source.namespaces[j].id,
            source.rows_for(source.namespaces[j].id)[k],
        ) == Some(r)
}

proof fn lemma_here_from(state: DbState, source: SourceView, namespace: u64, rows: Seq<(u64, u64)>, n: nat)
    requires
        n <= rows.len(),
    ensures
        forall|r: (u64, u64)| #[trigger]
            state.relationships_here(source, namespace, rows, n).contains(r) ==> exists|k: int|
                0 <= k < n && state.relationship_here(source, namespace, #[trigger] rows[k]) == Some(r),
    decreases n,
{
    if n > 0 {
        let m = (n - 1) as nat;
        lemma_here_from(state, source, namespace, rows, m);
        let before = state.relationships_here(source, namespace, rows, m);
        let after = state.relationships_here(source, namespace, rows, n);
        assert forall|r: (u64, u64)| #[trigger] after.contains(r) implies exists|k: int|
            0 <= k < n && state.relationship_here(source, namespace, #[trigger] rows[k]) == Some(r) by {
            let q = choose|q: int| 0 <= q < after.len() && after[q] == r;
            if q < before.len() {
                assert(before[q] == r);
                assert(before.contains(r));
                let k = choose|k: int|
                    0 <= k < m && state.relationship_here(source, namespace, #[trigger] rows[k]) == Some(r);
                assert(state.relationship_here(source, namespace, rows[k]) == Some(r));
            } else {
                assert(state.relationship_here(source, namespace, rows[n - 1]) == Some(r));
            }
        }
    }
}

/// After a source has been taken over, a file has a tag exactly if it had it, or if the source gives the tag to the file
/// with the same hash; a row of the source that names neither a file nor a tag above zero is passed over.
pub proof fn slurped_files_have_their_tags(state: DbState, source: SourceView, file_id: u64, tag_id: u64)
    requires
        state.consistent(),
        state.fits(source),
        source_distinct(source),
    ensures
        ({
            let after = state.slurped(source);
            after.relationships.contains((file_id, tag_id)) <==> state.relationships.contains((file_id, tag_id)) || exists|
                file: u64,
                tag: u64,
            | #[trigger]
                source_relates(source, file, tag) && (file > 0 || tag > 0) && same_file(after, source, file, file_id)
                    && same_tag(after, source, tag, tag_id)
        }),
{
    let after = state.slurped(source);
    let contents = state.with_source_tags(source).with_source_contents(source);
    let n = source.namespaces.len();
    let r = (file_id, tag_id);
    lemma_slurped_related_ok(state, source);
    lemma_after_contents(state, source);
    lemma_relationships_bound(contents, source, n);
    let related = contents.with_source_relationships(source, n);
    if let Some(rows) = source.parents {
        lemma_with_relations(related, related.relations_here(source, rows, rows.len()));
    }
    assert(after.relationships == related.relationships);
    assert(after.consistent()) by {
        crate::consistency::slurping_keeps_consistency(state, source);
    }
    if after.relationships.contains(r) && !state.relationships.contains(r) {
        assert(comes_from(contents, source, n, r));
        let (j, k) = choose|j: int, k: int|
            #![trigger source.rows_for(source.namespaces[j].id)[k]]
            0 <= j < n && 0 <= k < source.rows_for(source.namespaces[j].id).len() && contents.relationship_here(
                source,
                source.namespaces[j].id,
                source.rows_for(source.namespaces[j].id)[k],
            ) == Some(r);
        let (file, tag) = source.rows_for(source.namespaces[j].id)[k];
        lemma_same_file(contents, source, file, file_id);
        lemma_same_tag(contents, source, tag, tag_id);
        let (i, space) = choose|i: int, space: int| #[trigger]
            in_space(source, i, space) && source.tags[i].id == tag && has_tag(
                contents,
                tag_id,
                source.tags[i].name,
                source.namespaces[space].name,
            );
        assert(source.tag(tag) == Some(source.tags[i]));
        if space < j {
            assert(source.namespaces[space].id != source.namespaces[j].id);
        } else if j < space {
            assert(source.namespaces[j].id != source.namespaces[space].id);
        }
        assert(source.rows_for(source.namespaces[j].id).contains((file, tag)));
        lemma_kept_for(source, source.namespaces[j].id, (file, tag));
        assert(in_space(source, i, j) && kept_for(source, source.namespaces[j].id, (file, tag)));
        assert(source_relates(source, file, tag));
        lemma_still_same(contents, after, source, file, file_id, tag, tag_id);
    }
    if exists|file: u64, tag: u64| #[trigger]
        source_relates(source, file, tag) && (file > 0 || tag > 0) && same_file(after, source, file, file_id) && same_tag(
            after,
            source,
            tag,
            tag_id,
        ) {
        let (file, tag) = choose|file: u64, tag: u64| #[trigger]
            source_relates(source, file, tag) && (file > 0 || tag > 0) && same_file(after, source, file, file_id) && same_tag(
                after,
                source,
                tag,
                tag_id,
            );
        lemma_still_same(after, contents, source, file, file_id, tag, tag_id);
        lemma_same_file(contents, source, file, file_id);
        lemma_same_tag(contents, source, tag, tag_id);
        let (i, j) = choose|i: int, j: int| #[trigger]
            in_space(source, i, j) && source.tags[i].id == tag && kept_for(source, source.namespaces[j].id, (file, tag));
        lemma_kept_for(source, source.namespaces[j].id, (file, tag));
        let rows = source.rows_for(source.namespaces[j].id);
        let k = choose|k: int| 0 <= k < rows.len() && rows[k] == (file, tag);
        assert(source.tag(tag) == Some(source.tags[i]));
        assert(contents.relationship_here(source, source.namespaces[j].id, rows[k]) == Some(r));
        crate::slurp::slurped_relationships_are_here(state, source, j, k);
    }
    if state.relationships.contains(r) && source.namespaces.len() > 0 {
        crate::slurp::lemma_source_relationships_added(contents, source, n);
    }
}

/// Rows with the same ids, keys and hashes are the same files and tags of a source.
proof fn lemma_still_same(one: DbState, other: DbState, source: SourceView, file: u64, file_id: u64, tag: u64, tag_id: u64)
    requires
        tag_ids(one.tags) == tag_ids(other.tags),
        tag_keys(one.tags) == tag_keys(other.tags),
        one.namespaces == other.namespaces,
        one.files == other.files,
    ensures
        same_file(one, source, file, file_id) ==> same_file(other, source, file, file_id),
        same_tag(one, source, tag, tag_id) ==> same_tag(other, source, tag, tag_id),
{
    if same_file(one, source, file, file_id) {
        let i = choose|i: int|
            0 <= i < source.files.len() && (#[trigger] source.files[i]).id == file && (source.files[i].hash matches Some(
                hash,
            ) && is_file(one, file_id, hash));
        let hash = source.files[i].hash->0;
        let k = choose|k: int|
            0 <= k < one.files.len() && (#[trigger] one.files[k]).id == file_id && one.files[k].hash == Some(hash);
        assert(other.files[k].id == file_id);
        assert(is_file(other, file_id, hash));
    }
    if same_tag(one, source, tag, tag_id) {
        let (i, j) = choose|i: int, j: int| #[trigger]
            in_space(source, i, j) && source.tags[i].id == tag && has_tag(
                one,
                tag_id,
                source.tags[i].name,
                source.namespaces[j].name,
            );
        lemma_alike_called(one, other, tag_id, source.tags[i].name, source.namespaces[j].name);
        assert(in_space(source, i, j));
    }
}

/// Whether a structural relation is what a row of a source is here: its tags are the tags here, and its limit is, where
/// the limiting tag of the row is here; else it has none.
pub open spec fn same_relation(state: DbState, source: SourceView, row: TagParents, relation: TagParents) -> bool {
    &&& same_tag(state, source, row.tag_id, relation.tag_id)
    &&& same_tag(state, source, row.relate_tag_id, relation.relate_tag_id)
    &&& match relation.limit_to {
        Some(limit) => row.limit_to matches Some(there) && same_tag(state, source, there, limit),
        None => row.limit_to matches Some(there) ==> forall|limit: u64| !#[trigger] same_tag(state, source, there, limit),
    }
}

proof fn lemma_relations_from(state: DbState, source: SourceView, rows: Seq<TagParents>, n: nat, relation: TagParents)
    requires
        state.consistent(),
        source_distinct(source),
        n <= rows.len(),
    ensures
        state.relations_here(source, rows, n).contains(relation) <==> exists|k: int|
            0 <= k < n && same_relation(state, source, #[trigger] rows[k], relation),
    decreases n,
{
    if n > 0 {
        let m = (n - 1) as nat;
        lemma_relations_from(state, source, rows, m, relation);
        let before = state.relations_here(source, rows, m);
        let after = state.relations_here(source, rows, n);
        let row = rows[n - 1];
        assert forall|there: u64, here: u64| #[trigger] same_tag(state, source, there, here) <==> state.tag_id_here(
            source,
            there,
        ) == Some(here) by {
            lemma_same_tag(state, source, there, here);
        }
        let from_last = match (state.tag_id_here(source, row.tag_id), state.tag_id_here(source, row.relate_tag_id)) {
            (Some(tag_id), Some(relate_tag_id)) => relation == (TagParents {
                tag_id,
                relate_tag_id,
                limit_to: match row.limit_to {
                    Some(limit) => state.tag_id_here(source, limit),
                    None => None,
                },
            }),
            _ => false,
        };
        assert(from_last <==> same_relation(state, source, row, relation)) by {
            if same_relation(state, source, row, relation) {
                assert(state.tag_id_here(source, row.tag_id) == Some(relation.tag_id));
                assert(state.tag_id_here(source, row.relate_tag_id) == Some(relation.relate_tag_id));
                if let Some(there) = row.limit_to {
                    if let Some(limit) = state.tag_id_here(source, there) {
                        assert(same_tag(state, source, there, limit));
                    }
                }
            }
            if from_last {
                if let Some(there) = row.limit_to {
                    if let Some(limit) = relation.limit_to {
                        assert(same_tag(state, source, there, limit));
                    }
                }
            }
        }
        if after != before {
            lemma_push_contains(before, after.last());
        }
        if exists|k: int| 0 <= k < n && same_relation(state, source, #[trigger] rows[k], relation) {
            let k = choose|k: int| 0 <= k < n && same_relation(state, source, #[trigger] rows[k], relation);
            assert(k < m || from_last);
        }
        if from_last {
            assert(same_relation(state, source, rows[n - 1], relation));
        }
    }
}

/// After a source has been taken over, there are the structural relations that were here, and those of the source whose
/// two tags are here, but for tags that would be their own parents; and no others.
pub proof fn slurped_relations_are_here(state: DbState, source: SourceView, relation: TagParents)
    requires
        state.consistent(),
        state.fits(source),
        source_distinct(source),
    ensures
        ({
            let after = state.slurped(source);
            has_relation(after.parents, relation) <==> has_relation(state.parents, relation) || (relation.tag_id
                != relation.relate_tag_id && (source.parents matches Some(rows) && exists|k: int|
                0 <= k < rows.len() && same_relation(after, source, #[trigger] rows[k], relation)))
        }),
{
    let after = state.slurped(source);
    let tagged = state.with_source_tags(source);
    let contents = tagged.with_source_contents(source);
    let n = source.namespaces.len();
    lemma_slurped_related_ok(state, source);
    lemma_after_contents(state, source);
    lemma_tagged_called(state, source, Seq::empty(), Seq::empty());
    lemma_contents(tagged, source);
    lemma_files_touch(tagged, source, source.files.len());
    lemma_relationships_bound(contents, source, n);
    let related = contents.with_source_relationships(source, n);
    assert(related.parents == state.parents);
    if let Some(rows) = source.parents {
        let relations = related.relations_here(source, rows, rows.len());
        lemma_with_relations(related, relations);
        lemma_relations_rows(related, relations, relation);
        lemma_relations_from(related, source, rows, rows.len(), relation);
        assert forall|there: u64, here: u64| #[trigger] same_tag(after, source, there, here) <==> same_tag(
            related,
            source,
            there,
            here,
        ) by {
            lemma_still_same(after, related, source, 0, 0, there, here);
            lemma_still_same(related, after, source, 0, 0, there, here);
        }
        assert forall|k: int| 0 <= k < rows.len() implies same_relation(after, source, #[trigger] rows[k], relation)
            == same_relation(related, source, rows[k], relation) by {
            if let Some(there) = rows[k].limit_to {
                if exists|limit: u64| same_tag(after, source, there, limit) {
                    let limit = choose|limit: u64| same_tag(after, source, there, limit);
                    assert(same_tag(related, source, there, limit));
                }
                if exists|limit: u64| same_tag(related, source, there, limit) {
                    let limit = choose|limit: u64| same_tag(related, source, there, limit);
                    assert(same_tag(after, source, there, limit));
                }
            }
        }
        if exists|k: int| 0 <= k < rows.len() && same_relation(related, source, #[trigger] rows[k], relation) {
            let k = choose|k: int| 0 <= k < rows.len() && same_relation(related, source, #[trigger] rows[k], relation);
            lemma_relation_fits(related, source, rows[k], relation);
            assert(same_relation(after, source, rows[k], relation));
        }
        if exists|k: int| 0 <= k < rows.len() && same_relation(after, source, #[trigger] rows[k], relation) {
            let k = choose|k: int| 0 <= k < rows.len() && same_relation(after, source, #[trigger] rows[k], relation);
            assert(same_relation(related, source, rows[k], relation));
        }
    }
}

proof fn lemma_relation_fits(state: DbState, source: SourceView, row: TagParents, relation: TagParents)
    requires
        state.consistent(),
        same_relation(state, source, row, relation),
    ensures
        relation_accepted(state.tags, relation) <==> relation.tag_id != relation.relate_tag_id,
{
    lemma_tag_is_here(state, source, row.tag_id, relation.tag_id);
    lemma_tag_is_here(state, source, row.relate_tag_id, relation.relate_tag_id);
    if let Some(limit) = relation.limit_to {
        lemma_tag_is_here(state, source, row.limit_to->0, limit);
    }
}

proof fn lemma_tag_is_here(state: DbState, source: SourceView, there: u64, here: u64)
    requires
        state.consistent(),
        same_tag(state, source, there, here),
    ensures
        tag_exists(state.tags, here),
{
    let (i, j) = choose|i: int, j: int| #[trigger]
        in_space(source, i, j) && source.tags[i].id == there && has_tag(
            state,
            here,
            source.tags[i].name,
            source.namespaces[j].name,
        );
    lemma_has_tag(state, plain_tag(source, i, j).tag, here);
    lemma_has_tag_row(state.tags, here);
}

/// After a source has been taken over, each of its namespaces is here with its description, and each that was here keeps
/// its id.
pub proof fn slurped_namespaces_are_here(state: DbState, source: SourceView, j: int)
    requires
        state.consistent(),
        state.fits(source),
        source_distinct(source),
        0 <= j < source.namespaces.len(),
    ensures
        ({
            let after = state.slurped(source).namespaces;
            &&& exists|n: int|
                0 <= n < after.len() && (#[trigger] after[n]).name == source.namespaces[j].name && after[n].description
                    == source.namespaces[j].description
            &&& forall|n: int|
                0 <= n < state.namespaces.len() ==> n < after.len() && (#[trigger] after[n]).id == state.namespaces[n].id
                    && after[n].name == state.namespaces[n].name
        }),
{
    let placed = state.with_source_locations(source, source.storage.len());
    crate::consistency::lemma_locations_ok(state, source, source.storage.len());
    let objects = source.namespace_objects();
    let named = placed.with_namespaces(objects);
    crate::consistency::adding_namespaces_keeps_consistency(placed, objects);
    lemma_with_namespaces(placed, objects);
    lemma_namespaces_rows(placed, objects);
    let tags = source.plugin_tags(source.tags.len());
    crate::slurp::lemma_plugin_tags_len(source, source.tags.len());
    lemma_source_tags(source, source.tags.len());
    let all = chunk_count(tags.len());
    // The namespace after the namespaces have been added.
    let space = objects[j];
    assert(crate::namespace::namespace_id_of(named.namespaces, objects[j].name) is Some);
    let keys = crate::rows::namespace_names(named.namespaces);
    lemma_pos(keys, space.name);
    let n = pos(keys, space.name);
    assert(keys[n] == named.namespaces[n].name);
    assert(crate::namespace::form_names(objects)[j] == space.name);
    assert(crate::namespace::form_names(objects).contains(named.namespaces[n].name));
    let q = choose|q: int|
        0 <= q < objects.len() && (#[trigger] objects[q]).name == named.namespaces[n].name && objects[q].description
            == named.namespaces[n].description;
    if q < j {
        assert(source.namespaces[q].name != source.namespaces[j].name);
    } else if j < q {
        assert(source.namespaces[j].name != source.namespaces[q].name);
    }
    lemma_batches_described(named, source, tags, all, n, j);
    let tagged = state.with_source_tags(source);
    lemma_contents(tagged, source);
    lemma_files_touch(tagged, source, source.files.len());
    lemma_after_contents(state, source);
    let after = state.slurped(source).namespaces;
    assert(after[n].name == source.namespaces[j].name);
    assert forall|k: int| 0 <= k < state.namespaces.len() implies k < after.len() && (#[trigger] after[k]).id
        == state.namespaces[k].id && after[k].name == state.namespaces[k].name by {
        assert(named.namespaces[k].id == state.namespaces[k].id);
    }
}

/// Adding the tags of a source leaves the names and ids of the namespaces, and the descriptions that they have there.
proof fn lemma_batches_described(state: DbState, source: SourceView, tags: Seq<PluginTagView>, n: nat, at: int, j: int)
    requires
        state.consistent(),
        source_distinct(source),
        n <= chunk_count(tags.len()),
        state.namespaces.len() + 2400 * chunk_count(tags.len()) <= u64::MAX,
        state.tags.len() + 2400 * chunk_count(tags.len()) <= u64::MAX,
        state.parents.len() + 2400 * chunk_count(tags.len()) <= u64::MAX,
        forall|p: int| 0 <= p < tags.len() ==> plain_tag_of(source, source.tags.len(), #[trigger] tags[p]),
        0 <= j < source.namespaces.len(),
        0 <= at < state.namespaces.len(),
        state.namespaces[at].name == source.namespaces[j].name,
        state.namespaces[at].description == source.namespaces[j].description,
    ensures
        ({
            let after = state.with_tag_batches(tags, n).namespaces;
            &&& state.namespaces.len() <= after.len()
            &&& forall|k: int|
                0 <= k < state.namespaces.len() ==> (#[trigger] after[k]).id == state.namespaces[k].id && after[k].name
                    == state.namespaces[k].name
            &&& after[at].description == source.namespaces[j].description
        }),
    decreases n,
{
    if n > 0 {
        let m = (n - 1) as nat;
        lemma_batches_described(state, source, tags, m, at, j);
        crate::consistency::lemma_tag_batches_ok(state, tags, m);
        let before = state.with_tag_batches(tags, m);
        let after = state.with_tag_batches(tags, n);
        let part = chunk(tags, m);
        let names = namespaces_of(part);
        assert(part.len() <= 800);
        assert forall|p: int| 0 <= p < part.len() implies plain_tag_of(source, source.tags.len(), #[trigger] part[p]) by {
            assert(part[p] == tags[m * 800 + p]);
        }
        lemma_source_described(source, part);
        crate::consistency::lemma_tag_lists_len(part);
        lemma_plugin_tags_shape(before, part);
        lemma_namespaces_rows(before, names);
        assert(before.namespaces[at].name == state.namespaces[at].name);
        assert(after.namespaces[at].name == before.namespaces[at].name);
        if crate::namespace::form_names(names).contains(after.namespaces[at].name) {
            let q = choose|q: int|
                0 <= q < names.len() && (#[trigger] names[q]).name == after.namespaces[at].name && names[q].description
                    == after.namespaces[at].description;
            lemma_distinct_forms(namespaces_named(part));
            assert(names.contains(names[q]));
            let x = choose|x: int| 0 <= x < namespaces_named(part).len() && namespaces_named(part)[x] == names[q];
            let (p, k) = lemma_named_place(part, x);
            assert(plain_tag_of(source, source.tags.len(), part[p]));
            let (i, b) = choose|i: int, b: int| #[trigger]
                in_space(source, i, b) && i < source.tags.len() && source.tags[i].id > 0 && part[p] == plain_tag(source, i, b);
            assert(tag_namespaces(part[p])[k] == part[p].tag.namespace);
            if b < j {
                assert(source.namespaces[b].name != source.namespaces[j].name);
            } else if j < b {
                assert(source.namespaces[j].name != source.namespaces[b].name);
            }
        } else {
            assert(after.namespaces[at] == before.namespaces[at]);
        }
        assert forall|k: int| 0 <= k < state.namespaces.len() implies (#[trigger] after.namespaces[k]).id
            == state.namespaces[k].id && after.namespaces[k].name == state.namespaces[k].name by {
            assert(before.namespaces[k].id == state.namespaces[k].id);
        }
    }
}

/// After a source has been taken over, each digest of its files that are here stands in the table of digests, unless a
/// row stands against it; and digests that were here stay.
pub proof fn slurped_digests_are_here(state: DbState, source: SourceView, i: int, file_id: u64)
    requires
        state.consistent(),
        state.fits(source),
        source_distinct(source),
        source.hashes matches Some(rows) && 0 <= i < rows.len(),
    ensures
        ({
            let after = state.slurped(source);
            let row = source.hashes->0[i];
            &&& same_file(after, source, row.file_id, file_id) ==> answered(after.hashes, row, file_id)
            &&& state.hashes.len() <= after.hashes.len()
            &&& forall|k: int| 0 <= k < state.hashes.len() ==> #[trigger] after.hashes[k] == state.hashes[k]
            &&& forall|k: int|
                state.hashes.len() <= k < after.hashes.len() ==> digest_from(after, source, #[trigger] after.hashes[k])
        }),
{
    let after = state.slurped(source);
    let tagged = state.with_source_tags(source);
    let filed = tagged.with_source_files(source, source.files.len());
    let contents = tagged.with_source_contents(source);
    let rows = source.hashes->0;
    lemma_slurped_related_ok(state, source);
    lemma_tagged(state, source);
    lemma_tagged_called(state, source, Seq::empty(), Seq::empty());
    lemma_contents(tagged, source);
    lemma_files_touch(tagged, source, source.files.len());
    lemma_after_contents(state, source);
    crate::consistency::lemma_source_files_ok(tagged, source, source.files.len());
    lemma_digests_taken(filed, source, rows, rows.len());
    assert forall|file: u64, here: u64| #[trigger] same_file(after, source, file, here) <==> same_file(
        filed,
        source,
        file,
        here,
    ) by {
        if same_file(after, source, file, here) {
            lemma_same_files(after, filed, source, file, here);
        }
        if same_file(filed, source, file, here) {
            lemma_same_files(filed, after, source, file, here);
        }
    }
    if same_file(after, source, rows[i].file_id, file_id) {
        assert(same_file(filed, source, rows[i].file_id, file_id));
        lemma_same_file(filed, source, rows[i].file_id, file_id);
    }
    assert forall|k: int| state.hashes.len() <= k < after.hashes.len() implies digest_from(
        after,
        source,
        #[trigger] after.hashes[k],
    ) by {
        assert(digest_from(filed, source, contents.hashes[k]));
        let q = choose|q: int|
            0 <= q < rows.len() && (#[trigger] rows[q]).algorithm == after.hashes[k].algorithm && rows[q].digest
                == after.hashes[k].digest && same_file(filed, source, rows[q].file_id, after.hashes[k].file_id);
        assert(same_file(after, source, rows[q].file_id, after.hashes[k].file_id));
        assert(rows[q].algorithm == after.hashes[k].algorithm);
    }
}

/// Whether a digest of a file stands in the table, or a row stands against it: one of the file by the same algorithm, or
/// one of the same digest.
pub open spec fn answered(rows: Seq<HashRec>, digest: HashRec, file_id: u64) -> bool {
    exists|k: int|
        0 <= k < rows.len() && (#[trigger] rows[k]).algorithm == digest.algorithm && (rows[k].file_id == file_id
            || rows[k].digest == digest.digest)
}

/// Whether a digest is one that a source has for the same file.
pub open spec fn digest_from(state: DbState, source: SourceView, digest: HashRec) -> bool {
    source.hashes matches Some(rows) && exists|q: int|
        0 <= q < rows.len() && (#[trigger] rows[q]).algorithm == digest.algorithm && rows[q].digest == digest.digest
            && same_file(state, source, rows[q].file_id, digest.file_id)
}

proof fn lemma_same_files(one: DbState, other: DbState, source: SourceView, file: u64, here: u64)
    requires
        one.files == other.files,
        same_file(one, source, file, here),
    ensures
        same_file(other, source, file, here),
{
    let i = choose|i: int|
        0 <= i < source.files.len() && (#[trigger] source.files[i]).id == file && (source.files[i].hash matches Some(hash)
            && is_file(one, here, hash));
    let hash = source.files[i].hash->0;
    let k = choose|k: int| 0 <= k < one.files.len() && (#[trigger] one.files[k]).id == here && one.files[k].hash == Some(hash);
    assert(other.files[k].id == here);
    assert(is_file(other, here, hash));
}

proof fn lemma_digests_taken(state: DbState, source: SourceView, rows: Seq<HashRec>, n: nat)
    requires
        state.consistent(),
        source_distinct(source),
        source.hashes == Some(rows),
        n <= rows.len(),
    ensures
        ({
            let after = state.with_source_digests(source, rows, n);
            &&& after == (DbState { hashes: after.hashes, ..state })
            &&& state.hashes.len() <= after.hashes.len()
            &&& forall|k: int| 0 <= k < state.hashes.len() ==> #[trigger] after.hashes[k] == state.hashes[k]
            &&& forall|i: int|
                0 <= i < n && state.file_id_here(source, (#[trigger] rows[i]).file_id) is Some ==> answered(
                    after.hashes,
                    rows[i],
                    state.file_id_here(source, rows[i].file_id)->0,
                )
            &&& forall|k: int|
                state.hashes.len() <= k < after.hashes.len() ==> digest_from(state, source, #[trigger] after.hashes[k])
        }),
    decreases n,
{
    if n > 0 {
        let m = (n - 1) as nat;
        lemma_digests_taken(state, source, rows, m);
        let before = state.with_source_digests(source, rows, m);
        let after = state.with_source_digests(source, rows, n);
        let row = rows[n - 1];
        assert(before.file_id_here(source, row.file_id) == state.file_id_here(source, row.file_id));
        if let Some(here) = state.file_id_here(source, row.file_id) {
            let digest = HashRec { file_id: here, ..row };
            added_digests_stand_as_given(before.hashes, digest);
            lemma_same_file(state, source, row.file_id, here);
            if exists|k: int| 0 <= k < before.hashes.len() && stands_against(#[trigger] before.hashes[k], digest) {
                let k = choose|k: int| 0 <= k < before.hashes.len() && stands_against(#[trigger] before.hashes[k], digest);
                assert(after.hashes[k].algorithm == row.algorithm);
            } else {
                assert(after.hashes[before.hashes.len() as int] == digest);
                let q: int = n - 1;
                let all = source.hashes->0;
                assert(0 <= q < all.len());
                assert(all[q] == row);
                assert(same_file(state, source, all[q].file_id, digest.file_id));
                assert(all[q].algorithm == digest.algorithm && all[q].digest == digest.digest);
                assert(digest_from(state, source, digest));
            }
        }
        assert forall|k: int| 0 <= k < state.hashes.len() implies #[trigger] after.hashes[k] == state.hashes[k] by {
            assert(before.hashes[k] == state.hashes[k]);
        }
        assert forall|i: int| 0 <= i < n && state.file_id_here(source, (#[trigger] rows[i]).file_id) is Some implies answered(
            after.hashes,
            rows[i],
            state.file_id_here(source, rows[i].file_id)->0,
        ) by {
            let file_id = state.file_id_here(source, rows[i].file_id)->0;
            if i < m {
                assert(answered(before.hashes, rows[i], file_id));
                let k = choose|k: int|
                    0 <= k < before.hashes.len() && (#[trigger] before.hashes[k]).algorithm == rows[i].algorithm && (
                    before.hashes[k].file_id == file_id || before.hashes[k].digest == rows[i].digest);
                assert(after.hashes[k] == before.hashes[k]);
            }
        }
        assert forall|k: int| state.hashes.len() <= k < after.hashes.len() implies digest_from(
            state,
            source,
            #[trigger] after.hashes[k],
        ) by {
            if k < before.hashes.len() {
                assert(after.hashes[k] == before.hashes[k]);
            }
        }
    }
}

} // verus!
