//! Doing the same once more changes nothing.
use crate::database::DbState;
use crate::dead_url::dead_url_added;
use crate::file::{digest_added, file_upserted};
use crate::jobs::job_added;
use crate::namespace::{described_once, namespace_id_of, namespace_upserted};
use crate::parents::{lemma_with_relations, relation_accepted, relation_id};
use crate::rows::{
    FileRec, HashRec, NamespaceRec, StorageRec, TagRec, digest_keys, file_hashes, job_key, job_keys, namespace_names,
    parent_relations, setting_names,
};
use crate::settings::{setting_put, storage_added, storage_added_is_found};
use crate::tag::{
    distinct_tags, forms_of, lemma_stored_tags_named, lemma_tags_upserted, lemma_with_namespaces, namespaces_of,
    newer_tags, stored_tags_of, tag_id_of, tag_max_id, tags_upserted,
};
use crate::text::{lemma_pos, lemma_push_contains, pos};
use crate::types::{DbJobView, FileView, JobView, NamespaceView, PluginTagView, SettingView, TagParents, TagView};
use vstd::prelude::*;

verus! {

/// Adding a namespace twice is adding it once.
pub proof fn namespace_added_twice(rows: Seq<NamespaceRec>, namespace: NamespaceView)
    ensures
        namespace_upserted(namespace_upserted(rows, namespace), namespace) == namespace_upserted(rows, namespace),
{
    let once = namespace_upserted(rows, namespace);
    lemma_pos(namespace_names(rows), namespace.name);
    lemma_pos(namespace_names(once), namespace.name);
    let at = pos(namespace_names(rows), namespace.name);
    if at < rows.len() {
        assert(namespace_names(once) =~= namespace_names(rows));
    } else {
        assert(namespace_names(once) =~= namespace_names(rows).push(namespace.name));
        assert(namespace_names(once)[rows.len() as int] == namespace.name);
        let k = pos(namespace_names(once), namespace.name);
        if k < rows.len() {
            assert(namespace_names(once)[k] == namespace_names(rows)[k]);
        }
    }
    assert(namespace_upserted(once, namespace) =~= once);
}

/// Adding a file twice is adding it once.
pub proof fn file_added_twice(rows: Seq<FileRec>, file: FileView)
    ensures
        file_upserted(file_upserted(rows, file), file) == file_upserted(rows, file),
{
    let once = file_upserted(rows, file);
    lemma_pos(file_hashes(rows), Some(file.hash));
    lemma_pos(file_hashes(once), Some(file.hash));
    let at = pos(file_hashes(rows), Some(file.hash));
    if at < rows.len() {
        assert(file_hashes(once) =~= file_hashes(rows));
    } else {
        assert(file_hashes(once) =~= file_hashes(rows).push(Some(file.hash)));
        assert(file_hashes(once)[rows.len() as int] == Some(file.hash));
        let k = pos(file_hashes(once), Some(file.hash));
        if k < rows.len() {
            assert(file_hashes(once)[k] == file_hashes(rows)[k]);
        }
    }
    assert(file_upserted(once, file) =~= once);
}

/// Recording a digest twice is recording it once.
pub proof fn digest_added_twice(rows: Seq<HashRec>, digest: HashRec)
    ensures
        digest_added(digest_added(rows, digest), digest) == digest_added(rows, digest),
{
    let once = digest_added(rows, digest);
    if once != rows {
        let key = (digest.algorithm, digest.digest);
        assert(digest_keys(once) =~= digest_keys(rows).push(key));
        lemma_push_contains(digest_keys(rows), key);
        lemma_pos(digest_keys(once), key);
    }
}

/// Adding a storage location twice is adding it once.
pub proof fn storage_added_twice(rows: Seq<StorageRec>, location: Seq<char>)
    ensures
        storage_added(storage_added(rows, location), location) == storage_added(rows, location),
{
    storage_added_is_found(rows, location, location);
}

/// Adding a job twice is adding it once.
pub proof fn job_added_twice(rows: Seq<DbJobView>, job: JobView)
    ensures
        job_added(job_added(rows, job), job) == job_added(rows, job),
{
    let once = job_added(rows, job);
    let key = job_key(job);
    lemma_pos(job_keys(rows), key);
    lemma_pos(job_keys(once), key);
    let at = pos(job_keys(rows), key);
    if at < rows.len() {
        assert(job_keys(once) =~= job_keys(rows));
    } else {
        assert(job_keys(once) =~= job_keys(rows).push(key));
        assert(job_keys(once)[rows.len() as int] == key);
        let k = pos(job_keys(once), key);
        if k < rows.len() {
            assert(job_keys(once)[k] == job_keys(rows)[k]);
        }
    }
    assert(job_added(once, job) =~= once);
}

/// Making a setting twice is making it once.
pub proof fn setting_made_twice(rows: Seq<SettingView>, setting: SettingView)
    ensures
        setting_put(setting_put(rows, setting), setting) == setting_put(rows, setting),
{
    let once = setting_put(rows, setting);
    lemma_pos(setting_names(rows), setting.name);
    lemma_pos(setting_names(once), setting.name);
    let at = pos(setting_names(rows), setting.name);
    if at < rows.len() {
        assert(setting_names(once) =~= setting_names(rows));
    } else {
        assert(setting_names(once) =~= setting_names(rows).push(setting.name));
        assert(setting_names(once)[rows.len() as int] == setting.name);
        let k = pos(setting_names(once), setting.name);
        if k < rows.len() {
            assert(setting_names(once)[k] == setting_names(rows)[k]);
        }
    }
    assert(setting_put(once, setting) =~= once);
}

/// Marking a URL as dead twice is marking it once.
pub proof fn url_marked_twice(urls: Seq<Seq<char>>, url: Seq<char>)
    ensures
        dead_url_added(dead_url_added(urls, url), url) == dead_url_added(urls, url),
{
    lemma_push_contains(urls, url);
}

/// Adding a structural relation twice is adding it once.
pub proof fn relation_added_twice(state: DbState, relation: TagParents)
    ensures
        state.with_relation(relation).with_relation(relation) == state.with_relation(relation),
{
    let once = state.with_relation(relation);
    let rows = state.parents;
    if relation_accepted(state.tags, relation) && relation_id(rows, relation) is None {
        assert(parent_relations(once.parents) =~= parent_relations(rows).push(relation));
        lemma_push_contains(parent_relations(rows), relation);
        lemma_pos(parent_relations(once.parents), relation);
    }
}

proof fn lemma_all_found(rows: Seq<TagRec>, namespaces: Seq<NamespaceRec>, tags: Seq<TagView>)
    requires
        forall|i: int|
            0 <= i < tags.len() ==> tag_id_of(
                rows,
                (#[trigger] tags[i]).name,
                namespace_id_of(namespaces, tags[i].namespace.name)->0,
            ) is Some,
    ensures
        tags_upserted(rows, namespaces, tags) == rows,
    decreases tags.len(),
{
    if tags.len() > 0 {
        let shorter = tags.drop_last();
        assert forall|i: int| 0 <= i < shorter.len() implies tag_id_of(
            rows,
            (#[trigger] shorter[i]).name,
            namespace_id_of(namespaces, shorter[i].namespace.name)->0,
        ) is Some by {
            assert(shorter[i] == tags[i]);
        }
        lemma_all_found(rows, namespaces, shorter);
        assert(tag_id_of(
            rows,
            tags[tags.len() - 1].name,
            namespace_id_of(namespaces, tags[tags.len() - 1].namespace.name)->0,
        ) is Some);
    }
}

/// What adding a plugin's tags does to the tag table, and to the ids of the namespaces.
proof fn lemma_plugin_tags(state: DbState, tags: Seq<PluginTagView>)
    ensures
        ({
            let after = state.with_plugin_tags(tags);
            let wanted = distinct_tags(stored_tags_of(tags));
            let named = state.with_namespaces(namespaces_of(tags));
            &&& after.namespaces == named.namespaces
            &&& after.tags == tags_upserted(state.tags, named.namespaces, wanted)
            &&& forall|i: int|
                0 <= i < wanted.len() ==> namespace_id_of(named.namespaces, (#[trigger] wanted[i]).namespace.name) is Some
        }),
{
    reveal(DbState::with_plugin_tags);
    let names = namespaces_of(tags);
    let wanted = distinct_tags(stored_tags_of(tags));
    lemma_with_namespaces(state, names);
    lemma_stored_tags_named(tags);
    let named = DbState { tag_search_dirty: true, ..state.with_namespaces(names) };
    assert forall|i: int| 0 <= i < wanted.len() implies namespace_id_of(
        named.namespaces,
        (#[trigger] wanted[i]).namespace.name,
    ) is Some by {
        let k = choose|k: int| 0 <= k < names.len() && names[k] == wanted[i].namespace;
        assert(namespace_id_of(named.namespaces, names[k].name) is Some);
    }
    if wanted.len() > 0 {
        let added = DbState { tags: tags_upserted(named.tags, named.namespaces, wanted), ..named };
        let announced = DbState {
            regex_tags: match added.regex_tags {
                Some(waiting) => Some(waiting + newer_tags(added.with_ids(wanted), tag_max_id(named.tags))),
                None => None,
            },
            ..added
        };
        lemma_with_relations(announced, announced.relations_of(tags));
    }
}

/// Whether a namespace stands in the table with its description.
spec fn stands_described(rows: Seq<NamespaceRec>, namespace: NamespaceView) -> bool {
    let at = pos(namespace_names(rows), namespace.name);
    at < rows.len() && rows[at].description == namespace.description
}

/// Adding a namespace leaves those with other names as they stand.
proof fn lemma_stays_described(rows: Seq<NamespaceRec>, added: NamespaceView, namespace: NamespaceView)
    requires
        stands_described(rows, namespace) || namespace == added,
        namespace.name == added.name ==> namespace.description == added.description,
    ensures
        stands_described(namespace_upserted(rows, added), namespace),
{
    let after = namespace_upserted(rows, added);
    lemma_pos(namespace_names(rows), added.name);
    lemma_pos(namespace_names(rows), namespace.name);
    lemma_pos(namespace_names(after), namespace.name);
    let at = pos(namespace_names(rows), added.name);
    if at < rows.len() {
        assert(namespace_names(after) =~= namespace_names(rows));
    } else {
        assert(namespace_names(after) =~= namespace_names(rows).push(added.name));
        let i = pos(namespace_names(rows), namespace.name);
        let k = pos(namespace_names(after), namespace.name);
        if i < rows.len() {
            assert(namespace_names(after)[i] == namespace_names(rows)[i]);
            if k < i {
                assert(namespace_names(after)[k] == namespace_names(rows)[k]);
            }
        } else {
            assert(namespace_names(after)[rows.len() as int] == added.name);
            if k < rows.len() {
                assert(namespace_names(after)[k] == namespace_names(rows)[k]);
            }
        }
    }
}

/// Namespaces that were added stand in the table with their descriptions.
proof fn lemma_added_are_described(state: DbState, namespaces: Seq<NamespaceView>)
    requires
        described_once(namespaces),
    ensures
        forall|i: int|
            0 <= i < namespaces.len() ==> stands_described(
                state.with_namespaces(namespaces).namespaces,
                #[trigger] namespaces[i],
            ),
    decreases namespaces.len(),
{
    if namespaces.len() > 0 {
        let shorter = namespaces.drop_last();
        assert(described_once(shorter)) by {
            assert forall|i: int, k: int|
                0 <= i < shorter.len() && 0 <= k < shorter.len() && (#[trigger] shorter[i]).name == (
                #[trigger] shorter[k]).name implies shorter[i].description == shorter[k].description by {
                assert(namespaces[i].name == namespaces[k].name);
            }
        }
        lemma_added_are_described(state, shorter);
        let before = state.with_namespaces(shorter);
        assert forall|i: int| 0 <= i < namespaces.len() implies stands_described(
            state.with_namespaces(namespaces).namespaces,
            #[trigger] namespaces[i],
        ) by {
            if i < shorter.len() {
                assert(shorter[i] == namespaces[i]);
                assert(stands_described(before.namespaces, shorter[i]));
            }
            assert(namespaces[i].name == namespaces[namespaces.len() - 1].name ==> namespaces[i].description
                == namespaces[namespaces.len() - 1].description);
            lemma_stays_described(before.namespaces, namespaces.last(), namespaces[i]);
        }
    }
}

/// Adding namespaces that stand in the table changes no row.
proof fn lemma_described_stay(state: DbState, namespaces: Seq<NamespaceView>)
    requires
        forall|i: int| 0 <= i < namespaces.len() ==> stands_described(state.namespaces, #[trigger] namespaces[i]),
    ensures
        state.with_namespaces(namespaces).namespaces == state.namespaces,
    decreases namespaces.len(),
{
    if namespaces.len() > 0 {
        let shorter = namespaces.drop_last();
        assert forall|i: int| 0 <= i < shorter.len() implies stands_described(
            state.namespaces,
            #[trigger] shorter[i],
        ) by {
            assert(shorter[i] == namespaces[i]);
        }
        lemma_described_stay(state, shorter);
        let last = namespaces[namespaces.len() - 1];
        assert(stands_described(state.namespaces, last));
        lemma_pos(namespace_names(state.namespaces), last.name);
        assert(namespace_upserted(state.namespaces, last) =~= state.namespaces);
    }
}

/// Adding relations that are there, or that the table does not take, changes nothing.
proof fn lemma_relations_stay(state: DbState, relations: Seq<TagParents>)
    requires
        forall|i: int|
            0 <= i < relations.len() && relation_accepted(state.tags, relations[i]) ==> relation_id(
                state.parents,
                #[trigger] relations[i],
            ) is Some,
    ensures
        state.with_relations(relations) == state,
    decreases relations.len(),
{
    if relations.len() > 0 {
        let shorter = relations.drop_last();
        assert forall|i: int| 0 <= i < shorter.len() && relation_accepted(state.tags, shorter[i]) implies relation_id(
            state.parents,
            #[trigger] shorter[i],
        ) is Some by {
            assert(shorter[i] == relations[i]);
        }
        lemma_relations_stay(state, shorter);
        assert(relation_accepted(state.tags, relations[relations.len() - 1]) ==> relation_id(
            state.parents,
            relations[relations.len() - 1],
        ) is Some);
    }
}

/// What is asked of relations depends on the tags and namespaces alone.
proof fn lemma_same_relations(one: DbState, other: DbState, forms: Seq<NamespaceView>, tags: Seq<PluginTagView>)
    requires
        one.tags == other.tags,
        forall|tag: TagView| #[trigger] one.tag_id(tag) == other.tag_id(tag),
    ensures
        one.relations_among(forms, tags) == other.relations_among(forms, tags),
    decreases tags.len(),
{
    if tags.len() > 0 {
        lemma_same_relations(one, other, forms, tags.drop_last());
        assert(one.relation_of(forms, tags.last()) == other.relation_of(forms, tags.last()));
    }
}

/// What adding a plugin's tags does to the structural relations.
proof fn lemma_plugin_tag_relations(state: DbState, tags: Seq<PluginTagView>)
    ensures
        ({
            let after = state.with_plugin_tags(tags);
            let related = DbState { tags: after.tags, namespaces: after.namespaces, ..state };
            &&& distinct_tags(stored_tags_of(tags)).len() > 0 ==> after.parents == related.with_relations(
                after.relations_of(tags),
            ).parents
            &&& distinct_tags(stored_tags_of(tags)).len() == 0 ==> after.parents == state.parents
        }),
{
    reveal(DbState::with_plugin_tags);
    let names = namespaces_of(tags);
    let wanted = distinct_tags(stored_tags_of(tags));
    lemma_with_namespaces(state, names);
    let named = DbState { tag_search_dirty: true, ..state.with_namespaces(names) };
    if wanted.len() > 0 {
        let added = DbState { tags: tags_upserted(named.tags, named.namespaces, wanted), ..named };
        let announced = DbState {
            regex_tags: match added.regex_tags {
                Some(waiting) => Some(waiting + newer_tags(added.with_ids(wanted), tag_max_id(named.tags))),
                None => None,
            },
            ..added
        };
        let after = state.with_plugin_tags(tags);
        lemma_with_relations(announced, announced.relations_of(tags));
        lemma_same_relations(announced, after, forms_of(tags), tags);
        let related = DbState { tags: after.tags, namespaces: after.namespaces, ..state };
        lemma_parents_alone(announced, related, after.relations_of(tags));
    }
}

/// What adding relations does to the table of relations depends on that table and the tags alone.
proof fn lemma_parents_alone(one: DbState, other: DbState, relations: Seq<TagParents>)
    requires
        one.tags == other.tags,
        one.parents == other.parents,
        one.parents_sequence == other.parents_sequence,
    ensures
        one.with_relations(relations).parents == other.with_relations(relations).parents,
        one.with_relations(relations).parents_sequence == other.with_relations(relations).parents_sequence,
        one.with_relations(relations).tags == one.tags,
        other.with_relations(relations).tags == other.tags,
    decreases relations.len(),
{
    if relations.len() > 0 {
        lemma_parents_alone(one, other, relations.drop_last());
    }
}

/// Adding a plugin's tags a second time changes no row of the namespaces, the tags and the structural
/// relations, and gives the same ids; as long as no namespace comes with two descriptions.
pub proof fn tags_added_twice(state: DbState, tags: Seq<PluginTagView>)
    requires
        described_once(namespaces_of(tags)),
    ensures
        ({
            let once = state.with_plugin_tags(tags);
            let twice = once.with_plugin_tags(tags);
            &&& twice.namespaces == once.namespaces
            &&& twice.tags == once.tags
            &&& twice.parents == once.parents
            &&& once.plugin_tag_ids(tags) == state.plugin_tag_ids(tags)
        }),
{
    let once = state.with_plugin_tags(tags);
    let twice = once.with_plugin_tags(tags);
    let names = namespaces_of(tags);
    let wanted = distinct_tags(stored_tags_of(tags));
    lemma_plugin_tags(state, tags);
    lemma_plugin_tags(once, tags);
    lemma_added_are_described(state, names);
    lemma_described_stay(once, names);
    assert(twice.namespaces == once.namespaces);
    lemma_tags_upserted(state.tags, once.namespaces, wanted);
    assert forall|i: int| 0 <= i < wanted.len() implies tag_id_of(
        once.tags,
        (#[trigger] wanted[i]).name,
        namespace_id_of(twice.namespaces, wanted[i].namespace.name)->0,
    ) is Some by {
        assert(namespace_id_of(once.namespaces, wanted[i].namespace.name) is Some);
    }
    lemma_all_found(once.tags, twice.namespaces, wanted);
    assert(twice.tags == once.tags);
    assert forall|tag: TagView| #[trigger] twice.tag_id(tag) == once.tag_id(tag) by {}
    assert(once.plugin_tag_ids(tags) =~= state.plugin_tag_ids(tags));
    lemma_plugin_tag_relations(state, tags);
    lemma_plugin_tag_relations(once, tags);
    if wanted.len() > 0 {
        lemma_same_relations(once, twice, forms_of(tags), tags);
        let relations = once.relations_of(tags);
        let before = DbState { tags: once.tags, namespaces: once.namespaces, ..state };
        lemma_with_relations(before, relations);
        let again = DbState { tags: twice.tags, namespaces: twice.namespaces, ..once };
        lemma_relations_stay(again, relations);
    }
}

} // verus!
