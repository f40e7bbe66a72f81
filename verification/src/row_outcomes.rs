//! What adding one row does to a table, told of its rows.
use crate::consistency::{files_ok, namespaces_ok};
use crate::database::DbState;
use crate::file::{digest_added, file_upserted, files_upserted};
use crate::namespace::namespace_upserted;
use crate::relationship::{counted_down, counted_up};
use crate::rows::{
    FileRec, HashRec, NamespaceRec, StorageRec, TagRec, digest_keys, file_algorithms, file_hashes, file_ids,
    namespace_ids, namespace_names, next_id_is_fresh, parent_ids, parent_relations, setting_names, storage_ids,
    storage_locations, tag_ids, tag_keys,
};
use crate::settings::{setting_put, storage_added};
use crate::tag::tag_upserted;
use crate::text::{lemma_pos, pos};
use crate::types::{FileView, NamespaceView, SettingView, TagParents};
use vstd::prelude::*;

verus! {

/// Whether a table is another with one more row behind the others.
pub open spec fn one_more<T>(before: Seq<T>, after: Seq<T>) -> bool {
    after.len() == before.len() + 1 && forall|i: int| 0 <= i < before.len() ==> #[trigger] after[i] == before[i]
}

/// Whether a table is another with the row at a place changed.
pub open spec fn one_changed<T>(before: Seq<T>, after: Seq<T>, at: int) -> bool {
    after.len() == before.len() && forall|i: int| 0 <= i < before.len() && i != at ==> #[trigger] after[i] == before[i]
}

/// A file that is added and whose hash no row has stands behind the others as it was given, under an id of its own.
/// Where a row has the hash, that row keeps its id and gets the new extension and storage location, and the new size
/// if it is known; the other rows stay.
pub proof fn added_files_stand_as_given(rows: Seq<FileRec>, file: FileView)
    requires
        files_ok(rows),
        rows.len() < u64::MAX,
    ensures
        ({
            let after = file_upserted(rows, file);
            &&& (forall|i: int| 0 <= i < rows.len() ==> (#[trigger] rows[i]).hash != Some(file.hash)) ==> {
                &&& one_more(rows, after)
                &&& after.last().hash == Some(file.hash)
                &&& after.last().extension == file.extension
                &&& after.last().storage_id == file.storage_id
                &&& after.last().size_bytes == file.size_bytes
                &&& forall|i: int| 0 <= i < rows.len() ==> (#[trigger] rows[i]).id != after.last().id
            }
            &&& forall|i: int|
                0 <= i < rows.len() && (#[trigger] rows[i]).hash == Some(file.hash) ==> {
                    &&& one_changed(rows, after, i)
                    &&& after[i].id == rows[i].id
                    &&& after[i].hash == Some(file.hash)
                    &&& after[i].extension == file.extension
                    &&& after[i].storage_id == file.storage_id
                    &&& file.size_bytes is Some ==> after[i].size_bytes == file.size_bytes
                    &&& file.size_bytes is None ==> after[i].size_bytes == rows[i].size_bytes
                }
        }),
{
    let after = file_upserted(rows, file);
    let keys = file_hashes(rows);
    lemma_pos(keys, Some(file.hash));
    let at = pos(keys, Some(file.hash));
    if forall|i: int| 0 <= i < rows.len() ==> (#[trigger] rows[i]).hash != Some(file.hash) {
        if at < rows.len() {
            assert(rows[at].hash == keys[at]);
        }
        next_id_is_fresh(file_ids(rows));
        assert forall|i: int| 0 <= i < rows.len() implies (#[trigger] rows[i]).id != after.last().id by {
            assert(file_ids(rows)[i] == rows[i].id);
            assert(file_ids(rows).contains(rows[i].id));
        }
    }
    assert forall|i: int| 0 <= i < rows.len() && (#[trigger] rows[i]).hash == Some(file.hash) implies i == at by {
        assert(keys[i] == Some(file.hash));
        assert(keys[at] == rows[at].hash);
    }
}

/// A namespace that is added and whose name no row has stands behind the others, under an id of its own. Where a row
/// has the name, it keeps its id and gets the new description; the other rows stay.
pub proof fn added_namespaces_stand_as_given(rows: Seq<NamespaceRec>, namespace: NamespaceView)
    requires
        namespaces_ok(rows),
        rows.len() < u64::MAX,
    ensures
        ({
            let after = namespace_upserted(rows, namespace);
            &&& (forall|i: int| 0 <= i < rows.len() ==> (#[trigger] rows[i]).name != namespace.name) ==> {
                &&& one_more(rows, after)
                &&& after.last().name == namespace.name
                &&& after.last().description == namespace.description
                &&& forall|i: int| 0 <= i < rows.len() ==> (#[trigger] rows[i]).id != after.last().id
            }
            &&& forall|i: int|
                0 <= i < rows.len() && (#[trigger] rows[i]).name == namespace.name ==> {
                    &&& one_changed(rows, after, i)
                    &&& after[i].id == rows[i].id
                    &&& after[i].name == namespace.name
                    &&& after[i].description == namespace.description
                }
        }),
{
    let after = namespace_upserted(rows, namespace);
    let keys = namespace_names(rows);
    lemma_pos(keys, namespace.name);
    let at = pos(keys, namespace.name);
    if forall|i: int| 0 <= i < rows.len() ==> (#[trigger] rows[i]).name != namespace.name {
        if at < rows.len() {
            assert(rows[at].name == keys[at]);
        }
        next_id_is_fresh(namespace_ids(rows));
        assert forall|i: int| 0 <= i < rows.len() implies (#[trigger] rows[i]).id != after.last().id by {
            assert(namespace_ids(rows)[i] == rows[i].id);
            assert(namespace_ids(rows).contains(rows[i].id));
        }
    }
    assert forall|i: int| 0 <= i < rows.len() && (#[trigger] rows[i]).name == namespace.name implies i == at by {
        assert(keys[i] == namespace.name);
        assert(keys[at] == rows[at].name);
    }
}

/// A tag that is added and that no row of its namespace is called stands behind the others, under an id of its own
/// and with no file counted. Where a row has the name and the namespace, the table stays.
pub proof fn added_tags_stand_as_given(rows: Seq<TagRec>, name: Seq<char>, namespace: u64)
    requires
        rows.len() < u64::MAX,
    ensures
        ({
            let after = tag_upserted(rows, name, namespace);
            &&& (forall|i: int|
                0 <= i < rows.len() ==> !((#[trigger] rows[i]).name == name && rows[i].namespace == namespace)) ==> {
                &&& one_more(rows, after)
                &&& after.last().name == name
                &&& after.last().namespace == namespace
                &&& after.last().count == 0
                &&& forall|i: int| 0 <= i < rows.len() ==> (#[trigger] rows[i]).id != after.last().id
            }
            &&& (exists|i: int| 0 <= i < rows.len() && (#[trigger] rows[i]).name == name && rows[i].namespace == namespace)
                ==> after == rows
        }),
{
    let after = tag_upserted(rows, name, namespace);
    let keys = tag_keys(rows);
    lemma_pos(keys, (name, namespace));
    let at = pos(keys, (name, namespace));
    if at < rows.len() {
        assert(keys[at] == (rows[at].name, rows[at].namespace));
        assert(rows[at].name == name && rows[at].namespace == namespace);
    }
    if exists|i: int| 0 <= i < rows.len() && (#[trigger] rows[i]).name == name && rows[i].namespace == namespace {
        let i = choose|i: int| 0 <= i < rows.len() && (#[trigger] rows[i]).name == name && rows[i].namespace == namespace;
        assert(keys[i] == (name, namespace));
    }
    next_id_is_fresh(tag_ids(rows));
    if at == rows.len() {
        assert forall|i: int| 0 <= i < rows.len() implies (#[trigger] rows[i]).id != after.last().id by {
            assert(tag_ids(rows)[i] == rows[i].id);
            assert(tag_ids(rows).contains(rows[i].id));
        }
    }
}

/// A storage location that is added and that no row has stands behind the others, under an id of its own; one that a
/// row has leaves the table as it is.
pub proof fn added_locations_stand_as_given(rows: Seq<StorageRec>, location: Seq<char>)
    requires
        rows.len() < u64::MAX,
    ensures
        ({
            let after = storage_added(rows, location);
            &&& (forall|i: int| 0 <= i < rows.len() ==> (#[trigger] rows[i]).location != location) ==> {
                &&& one_more(rows, after)
                &&& after.last().location == location
                &&& forall|i: int| 0 <= i < rows.len() ==> (#[trigger] rows[i]).id != after.last().id
            }
            &&& (exists|i: int| 0 <= i < rows.len() && (#[trigger] rows[i]).location == location) ==> after == rows
        }),
{
    let after = storage_added(rows, location);
    let keys = storage_locations(rows);
    lemma_pos(keys, location);
    let at = pos(keys, location);
    if at < rows.len() {
        assert(keys[at] == rows[at].location);
    }
    if exists|i: int| 0 <= i < rows.len() && (#[trigger] rows[i]).location == location {
        let i = choose|i: int| 0 <= i < rows.len() && (#[trigger] rows[i]).location == location;
        assert(keys[i] == location);
    }
    next_id_is_fresh(storage_ids(rows));
    if at == rows.len() {
        assert forall|i: int| 0 <= i < rows.len() implies (#[trigger] rows[i]).id != after.last().id by {
            assert(storage_ids(rows)[i] == rows[i].id);
            assert(storage_ids(rows).contains(rows[i].id));
        }
    }
}

/// Whether a row of the digest table stands against a new one: the file has a digest by the same algorithm, or the
/// digest is known by that algorithm.
pub open spec fn stands_against(row: HashRec, digest: HashRec) -> bool {
    row.algorithm == digest.algorithm && (row.file_id == digest.file_id || row.digest == digest.digest)
}

/// A digest that is added stands behind the others as it was given, unless a row stands against it; then the table
/// stays.
pub proof fn added_digests_stand_as_given(rows: Seq<HashRec>, digest: HashRec)
    ensures
        (forall|i: int| 0 <= i < rows.len() ==> !stands_against(#[trigger] rows[i], digest)) ==> one_more(
            rows,
            digest_added(rows, digest),
        ) && digest_added(rows, digest).last() == digest,
        (exists|i: int| 0 <= i < rows.len() && stands_against(#[trigger] rows[i], digest)) ==> digest_added(rows, digest)
            == rows,
{
    lemma_pos(file_algorithms(rows), (digest.file_id, digest.algorithm));
    lemma_pos(digest_keys(rows), (digest.algorithm, digest.digest));
    let a = pos(file_algorithms(rows), (digest.file_id, digest.algorithm));
    let d = pos(digest_keys(rows), (digest.algorithm, digest.digest));
    if a < rows.len() {
        assert(file_algorithms(rows)[a] == (rows[a].file_id, rows[a].algorithm));
        assert(stands_against(rows[a], digest));
    }
    if d < rows.len() {
        assert(digest_keys(rows)[d] == (rows[d].algorithm, rows[d].digest));
        assert(stands_against(rows[d], digest));
    }
    if exists|i: int| 0 <= i < rows.len() && stands_against(#[trigger] rows[i], digest) {
        let i = choose|i: int| 0 <= i < rows.len() && stands_against(#[trigger] rows[i], digest);
        assert(file_algorithms(rows)[i] == (rows[i].file_id, rows[i].algorithm));
        assert(digest_keys(rows)[i] == (rows[i].algorithm, rows[i].digest));
    }
}

/// Whether the tag table has a row with an id.
pub open spec fn has_tag_row(tags: Seq<TagRec>, id: u64) -> bool {
    exists|i: int| 0 <= i < tags.len() && (#[trigger] tags[i]).id == id
}

/// The tag table has a row with an id where the tag is found.
pub proof fn lemma_has_tag_row(tags: Seq<TagRec>, id: u64)
    ensures
        crate::parents::tag_exists(tags, id) <==> has_tag_row(tags, id),
{
    lemma_pos(tag_ids(tags), id);
    let at = pos(tag_ids(tags), id);
    if at < tags.len() {
        assert(tag_ids(tags)[at] == tags[at].id);
    }
    if has_tag_row(tags, id) {
        let i = choose|i: int| 0 <= i < tags.len() && (#[trigger] tags[i]).id == id;
        assert(tag_ids(tags)[i] == id);
    }
}

/// A structural relation that is added stands behind the others as it was given, if no tag is its own parent, all its
/// tags have rows and no row has it; else the relations stay. Nothing else changes.
pub proof fn added_relations_stand_as_given(state: DbState, relation: TagParents)
    requires
        state.parents.len() < u64::MAX - 1,
    ensures
        ({
            let after = state.with_relation(relation);
            let fits = relation.tag_id != relation.relate_tag_id && has_tag_row(state.tags, relation.tag_id) && has_tag_row(
                state.tags,
                relation.relate_tag_id,
            ) && (relation.limit_to matches Some(limit) ==> has_tag_row(state.tags, limit));
            let there = exists|i: int| 0 <= i < state.parents.len() && (#[trigger] state.parents[i]).relation == relation;
            &&& fits && !there ==> {
                &&& one_more(state.parents, after.parents)
                &&& after.parents.last().relation == relation
                &&& forall|i: int| 0 <= i < state.parents.len() ==> (#[trigger] state.parents[i]).id != after.parents.last().id
            }
            &&& !fits || there ==> after == state
            &&& after == (DbState { parents: after.parents, parents_sequence: after.parents_sequence, ..state })
        }),
{
    let rows = state.parents;
    let after = state.with_relation(relation);
    lemma_has_tag_row(state.tags, relation.tag_id);
    lemma_has_tag_row(state.tags, relation.relate_tag_id);
    if let Some(limit) = relation.limit_to {
        lemma_has_tag_row(state.tags, limit);
    }
    let keys = parent_relations(rows);
    lemma_pos(keys, relation);
    let at = pos(keys, relation);
    if at < rows.len() {
        assert(keys[at] == rows[at].relation);
    }
    if exists|i: int| 0 <= i < rows.len() && (#[trigger] rows[i]).relation == relation {
        let i = choose|i: int| 0 <= i < rows.len() && (#[trigger] rows[i]).relation == relation;
        assert(keys[i] == relation);
    }
    let ids = parent_ids(rows).push(state.parents_sequence);
    next_id_is_fresh(ids);
    if after.parents != rows {
        assert forall|i: int| 0 <= i < rows.len() implies (#[trigger] rows[i]).id != after.parents.last().id by {
            assert(ids[i] == rows[i].id);
            assert(ids.contains(rows[i].id));
        }
    }
}

/// A setting that is made stands in the table as it was given, in place of the one of its name or behind the others;
/// the other settings stay.
pub proof fn made_settings_stand_as_given(rows: Seq<SettingView>, setting: SettingView)
    requires
        setting_names(rows).no_duplicates(),
    ensures
        ({
            let after = setting_put(rows, setting);
            &&& (forall|i: int| 0 <= i < rows.len() ==> (#[trigger] rows[i]).name != setting.name) ==> one_more(rows, after)
                && after.last() == setting
            &&& forall|i: int|
                0 <= i < rows.len() && (#[trigger] rows[i]).name == setting.name ==> one_changed(rows, after, i) && after[i]
                    == setting
        }),
{
    let keys = setting_names(rows);
    lemma_pos(keys, setting.name);
    let at = pos(keys, setting.name);
    if at < rows.len() {
        assert(keys[at] == rows[at].name);
    }
    assert forall|i: int| 0 <= i < rows.len() && (#[trigger] rows[i]).name == setting.name implies i == at by {
        assert(keys[i] == setting.name);
    }
}

/// Counting a tag up or down changes its count by one, where the number allows, and nothing else.
pub proof fn counts_change_by_one(tags: Seq<TagRec>, id: u64)
    requires
        tag_ids(tags).no_duplicates(),
    ensures
        counted_up(tags, id).len() == tags.len(),
        counted_down(tags, id).len() == tags.len(),
        forall|i: int|
            0 <= i < tags.len() ==> (#[trigger] counted_up(tags, id)[i]) == (TagRec {
                count: if tags[i].id == id && tags[i].count < u64::MAX {
                    (tags[i].count + 1) as u64
                } else {
                    tags[i].count
                },
                ..tags[i]
            }),
        forall|i: int|
            0 <= i < tags.len() ==> (#[trigger] counted_down(tags, id)[i]) == (TagRec {
                count: if tags[i].id == id && tags[i].count > 0 {
                    (tags[i].count - 1) as u64
                } else {
                    tags[i].count
                },
                ..tags[i]
            }),
{
    lemma_pos(tag_ids(tags), id);
    let at = pos(tag_ids(tags), id);
    if at < tags.len() {
        assert(tag_ids(tags)[at] == tags[at].id);
    }
    assert forall|i: int| 0 <= i < tags.len() && (#[trigger] tags[i]).id == id implies i == at by {
        assert(tag_ids(tags)[i] == id);
    }
    assert forall|i: int| 0 <= i < tags.len() implies (#[trigger] counted_up(tags, id)[i]) == (TagRec {
        count: if tags[i].id == id && tags[i].count < u64::MAX {
            (tags[i].count + 1) as u64
        } else {
            tags[i].count
        },
        ..tags[i]
    }) by {
        assert(tags[i].id == id ==> i == at);
    }
    assert forall|i: int| 0 <= i < tags.len() implies (#[trigger] counted_down(tags, id)[i]) == (TagRec {
        count: if tags[i].id == id && tags[i].count > 0 {
            (tags[i].count - 1) as u64
        } else {
            tags[i].count
        },
        ..tags[i]
    }) by {
        assert(tags[i].id == id ==> i == at);
    }
}

/// Whether a row has what a file was given with: its hash, extension and storage location; its size where that was given,
/// else the one that was known; and the id that was known.
pub open spec fn row_as_given(before: Seq<FileRec>, file: FileView, row: FileRec) -> bool {
    &&& row.hash == Some(file.hash)
    &&& row.extension == file.extension
    &&& row.storage_id == file.storage_id
    &&& file.size_bytes is Some ==> row.size_bytes == file.size_bytes
    &&& forall|b: int|
        0 <= b < before.len() && (#[trigger] before[b]).hash == Some(file.hash) ==> row.id == before[b].id && (
        file.size_bytes is None ==> row.size_bytes == before[b].size_bytes)
    &&& (forall|b: int| 0 <= b < before.len() ==> (#[trigger] before[b]).hash != Some(file.hash)) && file.size_bytes is None
        ==> row.size_bytes is None
}

/// Whether a file stands in a file table as it was given.
pub open spec fn stands_as_given(before: Seq<FileRec>, after: Seq<FileRec>, file: FileView) -> bool {
    exists|r: int| 0 <= r < after.len() && row_as_given(before, file, #[trigger] after[r])
}

/// Files with different hashes that are added stand in the table as they were given; those that were there and are not
/// among them stay as they are, and none is lost.
pub proof fn added_file_lists_stand_as_given(rows: Seq<FileRec>, files: Seq<FileView>)
    requires
        files_ok(rows),
        rows.len() + files.len() <= u64::MAX,
        forall|i: int, k: int| 0 <= i < k < files.len() ==> (#[trigger] files[i]).hash != (#[trigger] files[k]).hash,
    ensures
        ({
            let after = files_upserted(rows, files);
            &&& files_ok(after)
            &&& rows.len() <= after.len() <= rows.len() + files.len()
            &&& forall|i: int| 0 <= i < files.len() ==> stands_as_given(rows, after, #[trigger] files[i])
            &&& forall|b: int|
                0 <= b < rows.len() ==> (#[trigger] after[b]).id == rows[b].id && after[b].hash == rows[b].hash
            &&& forall|r: int|
                0 <= r < after.len() && (forall|i: int|
                    0 <= i < files.len() ==> Some((#[trigger] files[i]).hash) != after[r].hash) ==> r < rows.len()
                    && #[trigger] after[r] == rows[r]
        }),
    decreases files.len(),
{
    if files.len() > 0 {
        let shorter = files.drop_last();
        assert forall|i: int, k: int| 0 <= i < k < shorter.len() implies (#[trigger] shorter[i]).hash != (
        #[trigger] shorter[k]).hash by {
            assert(shorter[i] == files[i] && shorter[k] == files[k]);
        }
        added_file_lists_stand_as_given(rows, shorter);
        let before = files_upserted(rows, shorter);
        let after = files_upserted(rows, files);
        let file = files.last();
        assert(files[files.len() - 1] == file);
        added_files_stand_as_given(before, file);
        lemma_added_ok(before, file);
        assert forall|i: int| 0 <= i < shorter.len() implies Some((#[trigger] shorter[i]).hash) != Some(file.hash) by {
            assert(files[i].hash != files[files.len() - 1].hash);
        }
        let r: int = if exists|i: int| 0 <= i < before.len() && (#[trigger] before[i]).hash == Some(file.hash) {
            choose|i: int| 0 <= i < before.len() && (#[trigger] before[i]).hash == Some(file.hash)
        } else {
            before.len() as int
        };
        if r < before.len() {
            assert(before[r].hash == Some(file.hash));
            assert(r < rows.len() && before[r] == rows[r]);
        }
        assert forall|b: int| 0 <= b < rows.len() && (#[trigger] rows[b]).hash == Some(file.hash) implies b == r by {
            assert(before[b].hash == Some(file.hash));
        }
        assert(row_as_given(rows, file, after[r]));
        assert forall|i: int| 0 <= i < files.len() implies stands_as_given(rows, after, #[trigger] files[i]) by {
            if i < shorter.len() {
                assert(shorter[i] == files[i]);
                assert(stands_as_given(rows, before, shorter[i]));
                let q = choose|q: int| 0 <= q < before.len() && row_as_given(rows, shorter[i], #[trigger] before[q]);
                assert(files[i].hash != files[files.len() - 1].hash);
                assert(after[q] == before[q]);
            }
        }
        assert forall|b: int| 0 <= b < rows.len() implies (#[trigger] after[b]).id == rows[b].id && after[b].hash
            == rows[b].hash by {
            assert(before[b].id == rows[b].id);
            if b != r {
                assert(after[b] == before[b]);
            }
        }
        assert forall|k: int|
            0 <= k < after.len() && (forall|i: int| 0 <= i < files.len() ==> Some((#[trigger] files[i]).hash) != after[k].hash) implies k
            < rows.len() && #[trigger] after[k] == rows[k] by {
            assert(Some(files[files.len() - 1].hash) != after[k].hash);
            assert(k != r);
            assert(after[k] == before[k]);
            assert forall|i: int| 0 <= i < shorter.len() implies Some((#[trigger] shorter[i]).hash) != before[k].hash by {
                assert(files[i] == shorter[i]);
            }
        }
    }
}

/// Adding a file keeps ids and hashes apart.
pub proof fn lemma_added_ok(rows: Seq<FileRec>, file: FileView)
    requires
        files_ok(rows),
        rows.len() < u64::MAX,
    ensures
        files_ok(file_upserted(rows, file)),
{
    let after = file_upserted(rows, file);
    added_files_stand_as_given(rows, file);
    let ids = file_ids(after);
    assert forall|i: int, j: int| 0 <= i < ids.len() && 0 <= j < ids.len() && i != j implies ids[i] != ids[j] by {
        assert(i < rows.len() ==> after[i].id == rows[i].id && file_ids(rows)[i] == rows[i].id);
        assert(j < rows.len() ==> after[j].id == rows[j].id && file_ids(rows)[j] == rows[j].id);
    }
}

} // verus!
