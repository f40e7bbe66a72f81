//! What adding tags, and tagging files, comes to, told of the rows.
use crate::consistency::{namespaces_ok, tags_ok};
use crate::database::DbState;
use crate::namespace::{described_once, form_names, lemma_distinct_forms, namespace_id_of};
use crate::parents::{lemma_with_relations, relation_accepted};
use crate::relationship::namespaces_among;
use crate::row_outcomes::{
    added_namespaces_stand_as_given, added_tags_stand_as_given, has_tag_row, lemma_has_tag_row, one_changed, one_more,
};
use crate::rows::{
    MAX_ROWID, NamespaceRec, ParentRow, TagRec, max_id, namespace_ids, namespace_names, parent_relations, tag_ids,
    tag_keys,
};
use crate::tag::{
    distinct_tags, forms_of, lemma_distinct_complete, lemma_named, lemma_with_namespaces, named_tags_are_stored,
    namespaces_named, namespaces_of, newer_tags, stored_among, stored_tags, stored_tags_of, tag_max_id,
    tag_namespaces, tags_keep_their_ids, tags_upserted,
};
use crate::text::{lemma_pos, lemma_push_contains, pos};
use crate::types::{NamespaceView, PluginTagView, TagParents, TagView};
use vstd::prelude::*;

verus! {

/// Adding a plugin's tags touches the namespaces, the tags, the structural relations and what is held of them in
/// memory, and nothing else.
pub proof fn lemma_plugin_tags_touch(state: DbState, tags: Seq<PluginTagView>)
    ensures
        ({
            let after = state.with_plugin_tags(tags);
            after == (DbState {
                namespaces: after.namespaces,
                namespace_cache: after.namespace_cache,
                tags: after.tags,
                tag_cache: after.tag_cache,
                parents: after.parents,
                parents_sequence: after.parents_sequence,
                regex_tags: after.regex_tags,
                tag_search_dirty: true,
                ..state
            })
        }),
{
    reveal(DbState::with_plugin_tags);
    lemma_with_namespaces(state, namespaces_of(tags));
    let wanted = distinct_tags(stored_tags_of(tags));
    if wanted.len() > 0 {
        let named = DbState { tag_search_dirty: true, ..state.with_namespaces(namespaces_of(tags)) };
        let added = DbState { tags: tags_upserted(named.tags, named.namespaces, wanted), ..named };
        let announced = DbState {
            regex_tags: match added.regex_tags {
                Some(waiting) => Some(waiting + newer_tags(added.with_ids(wanted), tag_max_id(named.tags))),
                None => None,
            },
            ..added
        };
        lemma_with_relations(announced, announced.relations_of(tags));
    }
}

/// Adding relationships touches these, the counts of the tags and the caches, and nothing else.
pub proof fn lemma_relationships_touch(state: DbState, relationships: Seq<(u64, u64)>)
    ensures
        ({
            let after = state.with_relationships(relationships);
            after == (DbState {
                relationships: after.relationships,
                tags: after.tags,
                bitmaps: after.bitmaps,
                memory: after.memory,
                roaring_memory_dirty: after.roaring_memory_dirty,
                tag_search_dirty: true,
                ..state
            })
        }),
{
    reveal(DbState::with_relationships);
    lemma_grouped_touch(state, relationships, namespaces_among(state.tags, relationships));
}

proof fn lemma_grouped_touch(state: DbState, relationships: Seq<(u64, u64)>, namespaces: Seq<u64>)
    ensures
        ({
            let after = state.with_grouped_relationships(relationships, namespaces);
            after == (DbState {
                relationships: after.relationships,
                tags: after.tags,
                bitmaps: after.bitmaps,
                memory: after.memory,
                roaring_memory_dirty: after.roaring_memory_dirty,
                tag_search_dirty: true,
                ..state
            })
        }),
    decreases namespaces.len(),
{
    if namespaces.len() > 0 {
        lemma_grouped_touch(state, relationships, namespaces.drop_last());
        let before = state.with_grouped_relationships(relationships, namespaces.drop_last());
        let part = crate::relationship::in_namespace(state.tags, relationships, namespaces.last());
        let dirty = DbState { tag_search_dirty: true, ..before };
        lemma_chunks_touch(dirty, part, dirty.chunks_inserted(part, 0));
    }
}

proof fn lemma_chunks_touch(state: DbState, list: Seq<(u64, u64)>, n: nat)
    ensures
        ({
            let after = state.with_chunks(list, n);
            after == (DbState { relationships: after.relationships, tags: after.tags, ..state })
        }),
    decreases n,
{
    if n > 0 {
        lemma_chunks_touch(state, list, (n - 1) as nat);
    }
}

/// Whether the row with an id is a tag called so, in a namespace called so.
pub open spec fn has_tag(state: DbState, id: u64, name: Seq<char>, space: Seq<char>) -> bool {
    exists|i: int, j: int|
        0 <= i < state.tags.len() && 0 <= j < state.namespaces.len() && (#[trigger] state.tags[i]).id == id
            && state.tags[i].name == name && (#[trigger] state.namespaces[j]).id == state.tags[i].namespace
            && state.namespaces[j].name == space
}

/// Looking a tag up gives the id of the row that is called so.
pub proof fn lemma_has_tag(state: DbState, tag: TagView, id: u64)
    requires
        namespaces_ok(state.namespaces),
        tags_ok(state.tags, state.namespaces),
    ensures
        state.tag_id(tag) == Some(id) <==> has_tag(state, id, tag.name, tag.namespace.name),
        has_tag(state, id, tag.name, tag.namespace.name) ==> has_tag_row(state.tags, id),
{
    let names = namespace_names(state.namespaces);
    let space = tag.namespace.name;
    lemma_pos(names, space);
    let n = pos(names, space);
    let namespace = state.namespaces[n].id;
    let keys = tag_keys(state.tags);
    lemma_pos(keys, (tag.name, namespace));
    let at = pos(keys, (tag.name, namespace));
    if state.tag_id(tag) == Some(id) {
        assert(names[n] == state.namespaces[n].name);
        assert(keys[at] == (state.tags[at].name, state.tags[at].namespace));
        assert(state.tags[at].id == id && state.namespaces[n].id == state.tags[at].namespace);
    }
    if has_tag(state, id, tag.name, space) {
        let (i, j) = choose|i: int, j: int|
            0 <= i < state.tags.len() && 0 <= j < state.namespaces.len() && (#[trigger] state.tags[i]).id == id
                && state.tags[i].name == tag.name && (#[trigger] state.namespaces[j]).id == state.tags[i].namespace
                && state.namespaces[j].name == space;
        assert(names[j] == space);
        assert(names[n] == space);
        assert(n == j);
        assert(keys[i] == (tag.name, namespace));
        assert(keys[at] == (tag.name, namespace));
        assert(at == i);
    }
}

/// Whether a tag is called so, in a namespace called so.
pub open spec fn called(tag: TagView, name: Seq<char>, space: Seq<char>) -> bool {
    tag.name == name && tag.namespace.name == space
}

/// Whether a plugin's tag brings the tag that is called so: it is of a kind that is stored, and is it, or relates to it,
/// or is limited to it. A tag without a name brings nothing, nor does what hangs on it.
pub open spec fn brings(tag: PluginTagView, name: Seq<char>, space: Seq<char>) -> bool {
    &&& tag.tag_type is Normal || tag.tag_type is NormalNoRegex
    &&& tag.tag.name.len() > 0
    &&& {
        ||| called(tag.tag, name, space)
        ||| tag.relates_to matches Some(relation) && relation.tag.name.len() > 0 && {
            ||| called(relation.tag, name, space)
            ||| relation.limit_to matches Some(limit) && limit.name.len() > 0 && called(limit, name, space)
        }
    }
}

/// Whether one of some plugin's tags brings the tag that is called so.
pub open spec fn any_brings(tags: Seq<PluginTagView>, name: Seq<char>, space: Seq<char>) -> bool {
    exists|i: int| 0 <= i < tags.len() && brings(#[trigger] tags[i], name, space)
}

/// Whether there are numbers for all rows that some plugin's tags can bring.
pub open spec fn room_for(state: DbState, tags: Seq<PluginTagView>) -> bool {
    &&& state.namespaces.len() + 3 * tags.len() <= u64::MAX
    &&& state.tags.len() + 3 * tags.len() <= u64::MAX
    &&& state.parents.len() + tags.len() <= u64::MAX
}

/// What a plugin's tag brings is what is stored for it.
pub proof fn lemma_brings(forms: Seq<NamespaceView>, tag: PluginTagView, name: Seq<char>, space: Seq<char>)
    requires
        forall|k: int| 0 <= k < tag_namespaces(tag).len() ==> forms.contains(#[trigger] tag_namespaces(tag)[k]),
    ensures
        brings(tag, name, space) <==> exists|k: int|
            0 <= k < stored_tags(forms, tag).len() && called(#[trigger] stored_tags(forms, tag)[k], name, space),
        stored_tags(forms, tag).len() > 0 <==> (tag.tag_type is Normal || tag.tag_type is NormalNoRegex) && tag.tag.name.len()
            > 0,
{
    let stored = stored_tags(forms, tag);
    let spaces = tag_namespaces(tag);
    assert(spaces[0] == tag.tag.namespace);
    if let Some(relation) = tag.relates_to {
        assert(spaces[1] == relation.tag.namespace);
        if let Some(limit) = relation.limit_to {
            assert(spaces[2] == limit.namespace);
        }
    }
    if brings(tag, name, space) {
        if called(tag.tag, name, space) {
            assert(called(stored[0], name, space));
        } else if called(tag.relates_to->0.tag, name, space) {
            assert(called(stored[1], name, space));
        } else {
            assert(called(stored[2], name, space));
        }
    }
}

/// The tag table after tags have been added: the rows that were there stay, and each new one is called like one of
/// the added ones and counts no file.
proof fn lemma_tags_upserted_rows(rows: Seq<TagRec>, namespaces: Seq<NamespaceRec>, tags: Seq<TagView>)
    requires
        rows.len() + tags.len() <= u64::MAX,
    ensures
        ({
            let after = tags_upserted(rows, namespaces, tags);
            &&& rows.len() <= after.len() <= rows.len() + tags.len()
            &&& forall|i: int| 0 <= i < rows.len() ==> #[trigger] after[i] == rows[i]
            &&& forall|i: int|
                rows.len() <= i < after.len() ==> (#[trigger] after[i]).count == 0 && exists|k: int|
                    0 <= k < tags.len() && (#[trigger] tags[k]).name == after[i].name && namespace_id_of(
                        namespaces,
                        tags[k].namespace.name,
                    )->0 == after[i].namespace
        }),
    decreases tags.len(),
{
    if tags.len() > 0 {
        let shorter = tags.drop_last();
        lemma_tags_upserted_rows(rows, namespaces, shorter);
        let before = tags_upserted(rows, namespaces, shorter);
        let after = tags_upserted(rows, namespaces, tags);
        let namespace = namespace_id_of(namespaces, tags.last().namespace.name)->0;
        added_tags_stand_as_given(before, tags.last().name, namespace);
        assert(after == before || one_more(before, after));
        assert forall|i: int| rows.len() <= i < after.len() implies (#[trigger] after[i]).count == 0 && exists|k: int|
            0 <= k < tags.len() && (#[trigger] tags[k]).name == after[i].name && namespace_id_of(
                namespaces,
                tags[k].namespace.name,
            )->0 == after[i].namespace by {
            if i < before.len() {
                assert(before[i] == after[i]);
                let k = choose|k: int|
                    0 <= k < shorter.len() && (#[trigger] shorter[k]).name == before[i].name && namespace_id_of(
                        namespaces,
                        shorter[k].namespace.name,
                    )->0 == before[i].namespace;
                assert(tags[k] == shorter[k]);
            } else {
                assert(tags[tags.len() - 1] == tags.last());
            }
        }
    }
}

/// The namespace table after namespaces have been added: rows keep their place, id and name, and each new one has one
/// of the added names.
pub proof fn lemma_namespaces_rows(state: DbState, namespaces: Seq<NamespaceView>)
    requires
        state.consistent(),
        state.namespaces.len() + namespaces.len() <= u64::MAX,
    ensures
        ({
            let after = state.with_namespaces(namespaces).namespaces;
            &&& state.namespaces.len() <= after.len()
            &&& forall|i: int|
                0 <= i < state.namespaces.len() ==> (#[trigger] after[i]).id == state.namespaces[i].id && after[i].name
                    == state.namespaces[i].name
            &&& forall|i: int|
                state.namespaces.len() <= i < after.len() ==> form_names(namespaces).contains((#[trigger] after[i]).name)
            &&& forall|i: int|
                0 <= i < after.len() && !form_names(namespaces).contains((#[trigger] after[i]).name) ==> after[i]
                    == state.namespaces[i]
            &&& forall|i: int|
                0 <= i < after.len() && form_names(namespaces).contains((#[trigger] after[i]).name) ==> exists|k: int|
                    0 <= k < namespaces.len() && (#[trigger] namespaces[k]).name == after[i].name
                        && namespaces[k].description == after[i].description
        }),
    decreases namespaces.len(),
{
    if namespaces.len() > 0 {
        let shorter = namespaces.drop_last();
        lemma_namespaces_rows(state, shorter);
        crate::consistency::adding_namespaces_keeps_consistency(state, shorter);
        let before = state.with_namespaces(shorter).namespaces;
        let after = state.with_namespaces(namespaces).namespaces;
        let last = namespaces.last();
        added_namespaces_stand_as_given(before, last);
        assert(form_names(shorter).push(last.name) =~= form_names(namespaces));
        lemma_push_contains(form_names(shorter), last.name);
        let new = forall|i: int| 0 <= i < before.len() ==> (#[trigger] before[i]).name != last.name;
        let at: int = if new {
            before.len() as int
        } else {
            choose|i: int| 0 <= i < before.len() && (#[trigger] before[i]).name == last.name
        };
        assert(namespaces[namespaces.len() - 1] == last);
        assert forall|i: int| 0 <= i < after.len() && i != at implies i < before.len() && #[trigger] after[i] == before[i] && after[i].name
            != last.name by {
            if !new {
                assert(one_changed(before, after, at));
                assert(namespace_names(before)[i] == before[i].name);
                assert(namespace_names(before)[at] == before[at].name);
            }
        }
        assert(after[at].name == last.name && after[at].description == last.description);
        assert forall|i: int|
            0 <= i < after.len() && form_names(namespaces).contains((#[trigger] after[i]).name) implies exists|k: int|
            0 <= k < namespaces.len() && (#[trigger] namespaces[k]).name == after[i].name && namespaces[k].description
                == after[i].description by {
            if i == at {
                assert(namespaces[namespaces.len() - 1].name == after[i].name);
            } else {
                assert(before[i] == after[i]);
                assert(form_names(shorter).contains(before[i].name));
                let k = choose|k: int|
                    0 <= k < shorter.len() && (#[trigger] shorter[k]).name == before[i].name && shorter[k].description
                        == before[i].description;
                assert(namespaces[k] == shorter[k]);
            }
        }
    }
}

/// What the tables are made of after a plugin's tags have been added.
pub proof fn lemma_plugin_tags_shape(state: DbState, tags: Seq<PluginTagView>)
    requires
        state.consistent(),
        room_for(state, tags),
    ensures
        ({
            let after = state.with_plugin_tags(tags);
            let named = state.with_namespaces(namespaces_of(tags));
            &&& after.consistent()
            &&& after.namespaces == named.namespaces
            &&& after.tags == tags_upserted(state.tags, named.namespaces, distinct_tags(stored_tags_of(tags)))
            &&& namespaces_of(tags).len() <= 3 * tags.len()
            &&& distinct_tags(stored_tags_of(tags)).len() <= 3 * tags.len()
        }),
{
    crate::consistency::lemma_tag_lists_len(tags);
    crate::consistency::adding_tags_keeps_consistency(state, tags);
    crate::consistency::lemma_distinct_len(stored_tags_of(tags));
    reveal(DbState::with_plugin_tags);
    lemma_with_namespaces(state, namespaces_of(tags));
    let wanted = distinct_tags(stored_tags_of(tags));
    if wanted.len() > 0 {
        let named = DbState { tag_search_dirty: true, ..state.with_namespaces(namespaces_of(tags)) };
        let added = DbState { tags: tags_upserted(named.tags, named.namespaces, wanted), ..named };
        let announced = DbState {
            regex_tags: match added.regex_tags {
                Some(waiting) => Some(waiting + newer_tags(added.with_ids(wanted), tag_max_id(named.tags))),
                None => None,
            },
            ..added
        };
        lemma_with_relations(announced, announced.relations_of(tags));
    }
}

/// After a plugin's tags have been added, there are the tags that were there, under their ids, and those that the
/// plugin's tags bring, and no others. A row that was there stays as it is; a new one counts no file.
pub proof fn added_tags_are_here(state: DbState, tags: Seq<PluginTagView>, name: Seq<char>, space: Seq<char>)
    requires
        state.consistent(),
        room_for(state, tags),
        described_once(namespaces_of(tags)),
    ensures
        ({
            let after = state.with_plugin_tags(tags);
            &&& (exists|t: u64| #[trigger] has_tag(after, t, name, space)) <==> (exists|t: u64| #[trigger]
                has_tag(state, t, name, space)) || any_brings(tags, name, space)
            &&& forall|t: u64| #[trigger] has_tag(state, t, name, space) ==> has_tag(after, t, name, space)
            &&& state.tags.len() <= after.tags.len()
            &&& forall|i: int| 0 <= i < state.tags.len() ==> #[trigger] after.tags[i] == state.tags[i]
            &&& forall|i: int| state.tags.len() <= i < after.tags.len() ==> (#[trigger] after.tags[i]).count == 0
        }),
{
    let after = state.with_plugin_tags(tags);
    let forms = forms_of(tags);
    let stored = stored_tags_of(tags);
    let wanted = distinct_tags(stored);
    let named = state.with_namespaces(namespaces_of(tags));
    lemma_plugin_tags_shape(state, tags);
    lemma_tags_upserted_rows(state.tags, named.namespaces, wanted);
    lemma_namespaces_rows(state, namespaces_of(tags));
    tags_keep_their_ids(state, tags);
    named_tags_are_stored(tags);
    assert forall|t: u64| #[trigger] has_tag(state, t, name, space) implies has_tag(after, t, name, space) by {
        let (i, j) = choose|i: int, j: int|
            0 <= i < state.tags.len() && 0 <= j < state.namespaces.len() && (#[trigger] state.tags[i]).id == t
                && state.tags[i].name == name && (#[trigger] state.namespaces[j]).id == state.tags[i].namespace
                && state.namespaces[j].name == space;
        assert(after.tags[i].id == t && after.namespaces[j].id == after.tags[i].namespace);
    }
    if any_brings(tags, name, space) {
        let i = choose|i: int| 0 <= i < tags.len() && brings(#[trigger] tags[i], name, space);
        lemma_spaces_count(tags, i);
        lemma_brings(forms, tags[i], name, space);
        let k = choose|k: int|
            0 <= k < stored_tags(forms, tags[i]).len() && called(#[trigger] stored_tags(forms, tags[i])[k], name, space);
        let tag = stored_tags(forms, tags[i])[k];
        assert(after.tag_id(tag) is Some);
        lemma_has_tag(after, tag, after.tag_id(tag)->0);
        assert(has_tag(after, after.tag_id(tag)->0, name, space));
    }
    if exists|t: u64| #[trigger] has_tag(after, t, name, space) {
        let t = choose|t: u64| #[trigger] has_tag(after, t, name, space);
        let (i, j) = choose|i: int, j: int|
            0 <= i < after.tags.len() && 0 <= j < after.namespaces.len() && (#[trigger] after.tags[i]).id == t
                && after.tags[i].name == name && (#[trigger] after.namespaces[j]).id == after.tags[i].namespace
                && after.namespaces[j].name == space;
        if i < state.tags.len() {
            assert(after.tags[i] == state.tags[i]);
            assert(namespace_ids(state.namespaces).contains(state.tags[i].namespace));
            let n = choose|n: int|
                0 <= n < namespace_ids(state.namespaces).len() && namespace_ids(state.namespaces)[n] == state.tags[i].namespace;
            assert(after.namespaces[n].id == state.namespaces[n].id);
            assert(namespace_ids(after.namespaces)[n] == namespace_ids(after.namespaces)[j]);
            assert(n == j);
            assert(state.tags[i].id == t && state.namespaces[n].id == state.tags[i].namespace);
            assert(has_tag(state, t, name, space));
        } else {
            let k = choose|k: int|
                0 <= k < wanted.len() && (#[trigger] wanted[k]).name == after.tags[i].name && namespace_id_of(
                    named.namespaces,
                    wanted[k].namespace.name,
                )->0 == after.tags[i].namespace;
            let tag = wanted[k];
            lemma_wanted_brought(tags, k);
            assert(any_brings(tags, tag.name, tag.namespace.name));
            let b = choose|b: int| 0 <= b < tags.len() && brings(#[trigger] tags[b], tag.name, tag.namespace.name);
            // The namespace that it was stored under is the one that it names.
            lemma_spaces_count(tags, b);
            lemma_brings(forms, tags[b], tag.name, tag.namespace.name);
            let q = choose|q: int|
                0 <= q < stored_tags(forms, tags[b]).len() && called(
                    #[trigger] stored_tags(forms, tags[b])[q],
                    tag.name,
                    tag.namespace.name,
                );
            assert(after.tag_id(stored_tags(forms, tags[b])[q]) is Some);
            let names = namespace_names(after.namespaces);
            lemma_pos(names, tag.namespace.name);
            let at = pos(names, tag.namespace.name);
            assert(at < after.namespaces.len());
            assert(after.namespaces[at].id == after.tags[i].namespace);
            assert(namespace_ids(after.namespaces)[at] == namespace_ids(after.namespaces)[j]);
            assert(at == j);
            assert(names[at] == after.namespaces[at].name);
            assert(tag.namespace.name == space);
        }
    }
}

pub proof fn lemma_spaces_count(tags: Seq<PluginTagView>, i: int)
    requires
        described_once(namespaces_of(tags)),
        0 <= i < tags.len(),
    ensures
        forall|k: int|
            0 <= k < tag_namespaces(tags[i]).len() ==> forms_of(tags).contains(#[trigger] tag_namespaces(tags[i])[k]),
{
    named_tags_are_stored(tags);
    assert forall|k: int| 0 <= k < tag_namespaces(tags[i]).len() implies forms_of(tags).contains(
        #[trigger] tag_namespaces(tags[i])[k],
    ) by {}
}

/// What is to be stored is brought by one of the tags.
pub proof fn lemma_wanted_brought(tags: Seq<PluginTagView>, k: int)
    requires
        described_once(namespaces_of(tags)),
        0 <= k < distinct_tags(stored_tags_of(tags)).len(),
    ensures
        ({
            let tag = distinct_tags(stored_tags_of(tags))[k];
            any_brings(tags, tag.name, tag.namespace.name)
        }),
{
    let forms = forms_of(tags);
    let stored = stored_tags_of(tags);
    let tag = distinct_tags(stored)[k];
    lemma_distinct_member(stored, k);
    let n = choose|n: int| 0 <= n < stored.len() && stored[n] == tag;
    let (i, q) = lemma_stored_place(forms, tags, n);
    lemma_spaces_count(tags, i);
    lemma_brings(forms, tags[i], tag.name, tag.namespace.name);
    assert(called(stored_tags(forms, tags[i])[q], tag.name, tag.namespace.name));
    assert(brings(tags[i], tag.name, tag.namespace.name));
}

pub proof fn lemma_distinct_member(tags: Seq<TagView>, k: int)
    requires
        0 <= k < distinct_tags(tags).len(),
    ensures
        tags.contains(distinct_tags(tags)[k]),
    decreases tags.len(),
{
    let shorter = tags.drop_last();
    let before = distinct_tags(shorter);
    if k < before.len() {
        lemma_distinct_member(shorter, k);
        let n = choose|n: int| 0 <= n < shorter.len() && shorter[n] == before[k];
        assert(tags[n] == before[k]);
    } else {
        assert(tags[tags.len() - 1] == distinct_tags(tags)[k]);
    }
}

pub proof fn lemma_stored_place(forms: Seq<NamespaceView>, tags: Seq<PluginTagView>, n: int) -> (place: (int, int))
    requires
        0 <= n < stored_among(forms, tags).len(),
    ensures
        0 <= place.0 < tags.len(),
        0 <= place.1 < stored_tags(forms, tags[place.0]).len(),
        stored_among(forms, tags)[n] == stored_tags(forms, tags[place.0])[place.1],
    decreases tags.len(),
{
    let shorter = tags.drop_last();
    let before = stored_among(forms, shorter);
    if n < before.len() {
        let place = lemma_stored_place(forms, shorter, n);
        assert(shorter[place.0] == tags[place.0]);
        place
    } else {
        assert(tags[tags.len() - 1] == tags.last());
        (tags.len() - 1, n - before.len())
    }
}

/// Whether a structural relation stands in a table.
pub open spec fn has_relation(rows: Seq<ParentRow>, relation: TagParents) -> bool {
    exists|k: int| 0 <= k < rows.len() && (#[trigger] rows[k]).relation == relation
}

/// Whether a plugin's tag asks for a structural relation: it is of a kind that is stored, the relation leads from it to
/// the tag that it relates to, and is limited to the tag that it is limited to, or to none where it is not limited.
pub open spec fn asks_for(state: DbState, tag: PluginTagView, relation: TagParents) -> bool {
    &&& tag.tag_type is Normal || tag.tag_type is NormalNoRegex
    &&& tag.tag.name.len() > 0
    &&& has_tag(state, relation.tag_id, tag.tag.name, tag.tag.namespace.name)
    &&& tag.relates_to matches Some(related) && related.tag.name.len() > 0 && has_tag(
        state,
        relation.relate_tag_id,
        related.tag.name,
        related.tag.namespace.name,
    ) && match related.limit_to {
        None => relation.limit_to is None,
        Some(limit) => relation.limit_to matches Some(id) && limit.name.len() > 0 && has_tag(
            state,
            id,
            limit.name,
            limit.namespace.name,
        ),
    }
}

/// What adding structural relations makes of the table of them.
pub proof fn lemma_relations_rows(state: DbState, relations: Seq<TagParents>, relation: TagParents)
    ensures
        has_relation(state.with_relations(relations).parents, relation) <==> has_relation(state.parents, relation) || (
        relations.contains(relation) && relation_accepted(state.tags, relation)),
        state.with_relations(relations).tags == state.tags,
        state.parents.len() <= state.with_relations(relations).parents.len(),
        forall|k: int|
            0 <= k < state.parents.len() ==> #[trigger] state.with_relations(relations).parents[k] == state.parents[k],
    decreases relations.len(),
{
    if relations.len() > 0 {
        let shorter = relations.drop_last();
        lemma_relations_rows(state, shorter, relation);
        let before = state.with_relations(shorter);
        let after = state.with_relations(relations);
        let last = relations.last();
        lemma_push_contains(shorter, last);
        assert(shorter.push(last) =~= relations);
        let keys = parent_relations(before.parents);
        lemma_pos(keys, last);
        let at = pos(keys, last);
        if at < before.parents.len() {
            assert(keys[at] == before.parents[at].relation);
            assert(has_relation(before.parents, last));
        }
        if has_relation(before.parents, relation) {
            let k = choose|k: int| 0 <= k < before.parents.len() && (#[trigger] before.parents[k]).relation == relation;
            assert(after.parents[k].relation == relation);
        }
        if has_relation(after.parents, relation) {
            let k = choose|k: int| 0 <= k < after.parents.len() && (#[trigger] after.parents[k]).relation == relation;
            if k < before.parents.len() {
                assert(before.parents[k].relation == relation);
            }
        }
        if after.parents != before.parents {
            assert(after.parents[before.parents.len() as int].relation == last);
        }
        assert forall|k: int| 0 <= k < state.parents.len() implies #[trigger] after.parents[k] == state.parents[k] by {
            assert(before.parents[k] == state.parents[k]);
        }
    }
}

proof fn lemma_relations_among(state: DbState, forms: Seq<NamespaceView>, tags: Seq<PluginTagView>, relation: TagParents)
    ensures
        state.relations_among(forms, tags).contains(relation) <==> exists|i: int|
            0 <= i < tags.len() && state.relation_of(forms, #[trigger] tags[i]) == Some(relation),
    decreases tags.len(),
{
    if tags.len() > 0 {
        let shorter = tags.drop_last();
        lemma_relations_among(state, forms, shorter, relation);
        let before = state.relations_among(forms, shorter);
        if let Some(last) = state.relation_of(forms, tags.last()) {
            lemma_push_contains(before, last);
        }
        if exists|i: int| 0 <= i < shorter.len() && state.relation_of(forms, #[trigger] shorter[i]) == Some(relation) {
            let i = choose|i: int| 0 <= i < shorter.len() && state.relation_of(forms, #[trigger] shorter[i]) == Some(relation);
            assert(tags[i] == shorter[i]);
        }
        if exists|i: int| 0 <= i < tags.len() && state.relation_of(forms, #[trigger] tags[i]) == Some(relation) {
            let i = choose|i: int| 0 <= i < tags.len() && state.relation_of(forms, #[trigger] tags[i]) == Some(relation);
            if i < shorter.len() {
                assert(shorter[i] == tags[i]);
            }
        }
        if state.relation_of(forms, tags.last()) == Some(relation) {
            assert(state.relation_of(forms, tags[tags.len() - 1]) == Some(relation));
        }
    }
}

/// After a plugin's tags have been added, there are the structural relations that were there, and those that the
/// plugin's tags ask for, but for tags that would be their own parents; and no others. Rows that were there stay.
pub proof fn added_tags_are_related(state: DbState, tags: Seq<PluginTagView>, relation: TagParents)
    requires
        state.consistent(),
        room_for(state, tags),
        described_once(namespaces_of(tags)),
    ensures
        ({
            let after = state.with_plugin_tags(tags);
            &&& has_relation(after.parents, relation) <==> has_relation(state.parents, relation) || (relation.tag_id
                != relation.relate_tag_id && exists|i: int|
                0 <= i < tags.len() && asks_for(after, #[trigger] tags[i], relation))
            &&& state.parents.len() <= after.parents.len()
            &&& forall|k: int| 0 <= k < state.parents.len() ==> #[trigger] after.parents[k] == state.parents[k]
        }),
{
    let after = state.with_plugin_tags(tags);
    let forms = forms_of(tags);
    let wanted = distinct_tags(stored_tags_of(tags));
    lemma_plugin_tags_shape(state, tags);
    tags_keep_their_ids(state, tags);
    reveal(DbState::with_plugin_tags);
    lemma_with_namespaces(state, namespaces_of(tags));
    let named = DbState { tag_search_dirty: true, ..state.with_namespaces(namespaces_of(tags)) };
    if wanted.len() > 0 {
        let added = DbState { tags: tags_upserted(named.tags, named.namespaces, wanted), ..named };
        let announced = DbState {
            regex_tags: match added.regex_tags {
                Some(waiting) => Some(waiting + newer_tags(added.with_ids(wanted), tag_max_id(named.tags))),
                None => None,
            },
            ..added
        };
        lemma_with_relations(announced, announced.relations_of(tags));
        lemma_relations_rows(announced, announced.relations_of(tags), relation);
        lemma_relations_among(announced, forms, tags, relation);
        assert forall|tag: TagView| #[trigger] announced.tag_id(tag) == after.tag_id(tag) by {}
        assert forall|i: int| 0 <= i < tags.len() implies (announced.relation_of(forms, #[trigger] tags[i]) == Some(relation)
            && relation_accepted(announced.tags, relation) <==> asks_for(after, tags[i], relation) && relation.tag_id
            != relation.relate_tag_id) by {
            lemma_asks_for(after, tags, i, relation);
            assert(announced.relation_of(forms, tags[i]) == after.relation_of(forms, tags[i]));
        }
        if has_relation(after.parents, relation) && !has_relation(state.parents, relation) {
            let i = choose|i: int| 0 <= i < tags.len() && announced.relation_of(forms, #[trigger] tags[i]) == Some(relation);
            assert(asks_for(after, tags[i], relation));
        }
        if relation.tag_id != relation.relate_tag_id && exists|i: int|
            0 <= i < tags.len() && asks_for(after, #[trigger] tags[i], relation) {
            let i = choose|i: int| 0 <= i < tags.len() && asks_for(after, #[trigger] tags[i], relation);
            assert(announced.relation_of(forms, tags[i]) == Some(relation));
        }
    } else {
        assert(after.parents == state.parents);
        assert forall|i: int| 0 <= i < tags.len() implies !asks_for(after, #[trigger] tags[i], relation) by {
            lemma_spaces_count(tags, i);
            lemma_brings(forms, tags[i], tags[i].tag.name, tags[i].tag.namespace.name);
            if stored_tags(forms, tags[i]).len() > 0 {
                lemma_stored_some(forms, tags, i);
                lemma_distinct_complete(stored_tags_of(tags), 0);
            }
        }
    }
}

proof fn lemma_stored_some(forms: Seq<NamespaceView>, tags: Seq<PluginTagView>, i: int)
    requires
        0 <= i < tags.len(),
        stored_tags(forms, tags[i]).len() > 0,
    ensures
        stored_among(forms, tags).len() > 0,
    decreases tags.len(),
{
    if i < tags.len() - 1 {
        assert(tags.drop_last()[i] == tags[i]);
        lemma_stored_some(forms, tags.drop_last(), i);
    }
}

/// What a plugin's tag asks for is the relation that is made of it, where the table takes it.
proof fn lemma_asks_for(state: DbState, tags: Seq<PluginTagView>, i: int, relation: TagParents)
    requires
        state.consistent(),
        described_once(namespaces_of(tags)),
        0 <= i < tags.len(),
        forall|k: int|
            0 <= k < stored_tags(forms_of(tags), tags[i]).len() ==> state.tag_id(
                #[trigger] stored_tags(forms_of(tags), tags[i])[k],
            ) is Some,
    ensures
        state.relation_of(forms_of(tags), tags[i]) == Some(relation) && relation_accepted(state.tags, relation) <==> asks_for(
            state,
            tags[i],
            relation,
        ) && relation.tag_id != relation.relate_tag_id,
{
    let forms = forms_of(tags);
    let tag = tags[i];
    let stored = stored_tags(forms, tag);
    lemma_spaces_count(tags, i);
    let spaces = tag_namespaces(tag);
    assert(spaces[0] == tag.tag.namespace);
    lemma_has_tag_row(state.tags, relation.tag_id);
    lemma_has_tag_row(state.tags, relation.relate_tag_id);
    lemma_has_tag(state, tag.tag, relation.tag_id);
    if stored.len() > 0 {
        assert(stored[0] == tag.tag);
        assert(state.tag_id(stored[0]) is Some);
    }
    if let Some(related) = tag.relates_to {
        assert(spaces[1] == related.tag.namespace);
        lemma_has_tag(state, related.tag, relation.relate_tag_id);
        if stored.len() > 1 {
            assert(stored[1] == related.tag);
            assert(state.tag_id(stored[1]) is Some);
        }
        if let Some(limit) = related.limit_to {
            assert(spaces[2] == limit.namespace);
            if stored.len() > 2 {
                assert(stored[2] == limit);
                assert(state.tag_id(stored[2]) is Some);
            }
            if let Some(id) = relation.limit_to {
                lemma_has_tag(state, limit, id);
                lemma_has_tag_row(state.tags, id);
            }
        }
    }
}

/// After a plugin's tags have been added, each namespace that they name is there with the description that they give,
/// whatever the kind of the tag; the others stay, and each that was there keeps its id.
pub proof fn added_tags_bring_their_namespaces(state: DbState, tags: Seq<PluginTagView>, i: int, k: int)
    requires
        state.consistent(),
        room_for(state, tags),
        described_once(namespaces_of(tags)),
        0 <= i < tags.len(),
        0 <= k < tag_namespaces(tags[i]).len(),
    ensures
        ({
            let after = state.with_plugin_tags(tags).namespaces;
            &&& exists|n: int|
                0 <= n < after.len() && (#[trigger] after[n]).name == tag_namespaces(tags[i])[k].name
                    && after[n].description == tag_namespaces(tags[i])[k].description
            &&& state.namespaces.len() <= after.len()
            &&& forall|n: int|
                0 <= n < state.namespaces.len() ==> (#[trigger] after[n]).id == state.namespaces[n].id && after[n].name
                    == state.namespaces[n].name
        }),
{
    let names = namespaces_of(tags);
    let after = state.with_plugin_tags(tags).namespaces;
    let space = tag_namespaces(tags[i])[k];
    lemma_plugin_tags_shape(state, tags);
    lemma_namespaces_rows(state, names);
    lemma_with_namespaces(state, names);
    lemma_named(tags, i, k);
    lemma_distinct_forms(namespaces_named(tags));
    assert(names.contains(space));
    let m = choose|m: int| 0 <= m < names.len() && names[m] == space;
    assert(namespace_id_of(after, names[m].name) is Some);
    let keys = namespace_names(after);
    lemma_pos(keys, space.name);
    let n = pos(keys, space.name);
    assert(keys[n] == after[n].name);
    assert(form_names(names)[m] == space.name);
    assert(form_names(names).contains(after[n].name));
    let q = choose|q: int|
        0 <= q < names.len() && (#[trigger] names[q]).name == after[n].name && names[q].description == after[n].description;
    assert(names[q].name == names[m].name);
}

/// New tags get ids above all that were given out, and as many as there are tags at most.
proof fn lemma_new_ids(rows: Seq<TagRec>, namespaces: Seq<NamespaceRec>, tags: Seq<TagView>)
    requires
        max_id(tag_ids(rows)) + tags.len() <= MAX_ROWID,
    ensures
        ({
            let after = tags_upserted(rows, namespaces, tags);
            &&& max_id(tag_ids(after)) <= max_id(tag_ids(rows)) + tags.len()
            &&& max_id(tag_ids(rows)) <= max_id(tag_ids(after))
            &&& rows.len() <= after.len()
            &&& forall|i: int| rows.len() <= i < after.len() ==> (#[trigger] after[i]).id > max_id(tag_ids(rows))
        }),
    decreases tags.len(),
{
    if tags.len() > 0 {
        let shorter = tags.drop_last();
        lemma_new_ids(rows, namespaces, shorter);
        let before = tags_upserted(rows, namespaces, shorter);
        let after = tags_upserted(rows, namespaces, tags);
        if after.len() > before.len() {
            assert(tag_ids(after) =~= tag_ids(before).push(after.last().id));
            assert(tag_ids(after).drop_last() =~= tag_ids(before));
        }
    }
}

proof fn lemma_max_is_one(ids: Seq<u64>)
    ensures
        max_id(ids) == 0 || ids.contains(max_id(ids)),
    decreases ids.len(),
{
    if ids.len() > 0 {
        let shorter = ids.drop_last();
        lemma_max_is_one(shorter);
        if max_id(ids) == ids.last() {
            assert(ids[ids.len() - 1] == max_id(ids));
        } else if max_id(shorter) != 0 {
            let k = choose|k: int| 0 <= k < shorter.len() && shorter[k] == max_id(shorter);
            assert(ids[k] == max_id(ids));
        }
    }
}

/// Where plugins wait for tags, they are told of each tag that gets a row, with its id, behind what they
/// were told before, and of no tag that had one. The first id of an empty table is not told.
pub proof fn new_tags_are_announced(state: DbState, tags: Seq<PluginTagView>, tag: TagView, id: u64)
    requires
        state.consistent(),
        room_for(state, tags),
        described_once(namespaces_of(tags)),
        state.regex_tags is Some,
        3 * tags.len() < MAX_ROWID,
        forall|i: int| 0 <= i < state.tags.len() ==> (#[trigger] state.tags[i]).id + 3 * tags.len() <= MAX_ROWID,
    ensures
        ({
            let waiting = state.regex_tags->0;
            let after = state.with_plugin_tags(tags);
            let told = after.regex_tags->0;
            &&& after.regex_tags is Some
            &&& waiting.is_prefix_of(told)
            &&& told.skip(waiting.len() as int).contains((tag, id)) ==> has_tag(after, id, tag.name, tag.namespace.name)
                && !has_tag_row(state.tags, id)
            &&& has_tag_row(after.tags, id) && !has_tag_row(state.tags, id) && (state.tags.len() > 0 || id > 1)
                ==> exists|k: int| waiting.len() <= k < told.len() && (#[trigger] told[k]).1 == id
        }),
{
    let after = state.with_plugin_tags(tags);
    let waiting = state.regex_tags->0;
    let told = after.regex_tags->0;
    let wanted = distinct_tags(stored_tags_of(tags));
    let ids = state.plugin_tag_ids(tags);
    lemma_plugin_tags_shape(state, tags);
    crate::tag::added_tags_have_their_ids(state, tags);
    lemma_tags_upserted_rows(state.tags, after.namespaces, wanted);
    lemma_max_is_one(tag_ids(state.tags));
    let most = max_id(tag_ids(state.tags));
    if most != 0 {
        let i = choose|i: int| 0 <= i < state.tags.len() && tag_ids(state.tags)[i] == most;
        assert(state.tags[i].id == most);
    }
    lemma_new_ids(state.tags, after.namespaces, wanted);
    crate::rows::lemma_max_id(tag_ids(state.tags));
    let threshold = tag_max_id(state.tags);
    let keep = |entry: (TagView, u64)| entry.1 > threshold;
    let news = newer_tags(ids, threshold);
    lemma_told(state, tags);
    assert(waiting.is_prefix_of(told));
    assert(told.skip(waiting.len() as int) =~= news);
    crate::text::lemma_filter_members(ids, keep);
    if news.contains((tag, id)) {
        assert(ids.filter(keep).contains((tag, id)));
        assert(ids.contains((tag, id)));
        let k = choose|k: int| 0 <= k < ids.len() && ids[k] == (tag, id);
        assert(after.tag_id(ids[k].0) == Some(id));
        lemma_has_tag(after, tag, id);
        if has_tag_row(state.tags, id) {
            let i = choose|i: int| 0 <= i < state.tags.len() && (#[trigger] state.tags[i]).id == id;
            assert(tag_ids(state.tags)[i] == id);
        }
    }
    if has_tag_row(after.tags, id) && !has_tag_row(state.tags, id) && (state.tags.len() > 0 || id > 1) {
        let i = choose|i: int| 0 <= i < after.tags.len() && (#[trigger] after.tags[i]).id == id;
        if i < state.tags.len() {
            assert(after.tags[i] == state.tags[i]);
            assert(has_tag_row(state.tags, id));
        }
        let k = choose|k: int|
            0 <= k < wanted.len() && (#[trigger] wanted[k]).name == after.tags[i].name && namespace_id_of(
                after.namespaces,
                wanted[k].namespace.name,
            )->0 == after.tags[i].namespace;
        assert(ids[k].0 == wanted[k]);
        assert(after.tag_id(ids[k].0) == Some(ids[k].1));
        let keys = tag_keys(after.tags);
        lemma_pos(keys, (wanted[k].name, after.tags[i].namespace));
        let at = pos(keys, (wanted[k].name, after.tags[i].namespace));
        assert(keys[i] == (wanted[k].name, after.tags[i].namespace));
        assert(keys[at] == keys[i]);
        assert(ids[k].1 == id);
        assert(ids.contains(ids[k]));
        assert(ids.filter(keep).contains(ids[k]));
        let q = choose|q: int| 0 <= q < news.len() && news[q] == ids[k];
        assert(told[waiting.len() + q].1 == id);
    }
}

proof fn lemma_told(state: DbState, tags: Seq<PluginTagView>)
    requires
        state.regex_tags is Some,
    ensures
        state.with_plugin_tags(tags).regex_tags == Some(
            state.regex_tags->0 + newer_tags(state.plugin_tag_ids(tags), tag_max_id(state.tags)),
        ),
{
    reveal(DbState::with_plugin_tags);
    lemma_with_namespaces(state, namespaces_of(tags));
    let wanted = distinct_tags(stored_tags_of(tags));
    let after = state.with_plugin_tags(tags);
    let ids = state.plugin_tag_ids(tags);
    if wanted.len() > 0 {
        let named = DbState { tag_search_dirty: true, ..state.with_namespaces(namespaces_of(tags)) };
        let added = DbState { tags: tags_upserted(named.tags, named.namespaces, wanted), ..named };
        let announced = DbState {
            regex_tags: match added.regex_tags {
                Some(waiting) => Some(waiting + newer_tags(added.with_ids(wanted), tag_max_id(named.tags))),
                None => None,
            },
            ..added
        };
        lemma_with_relations(announced, announced.relations_of(tags));
        assert(after.tags == added.tags && after.namespaces == added.namespaces);
        assert(added.with_ids(wanted) =~= ids);
    } else {
        assert(ids =~= Seq::empty());
        let keep = |entry: (TagView, u64)| entry.1 > tag_max_id(state.tags);
        assert(ids.filter(keep) =~= Seq::empty()) by {
            reveal(Seq::filter);
        }
        assert(state.regex_tags->0 + newer_tags(ids, tag_max_id(state.tags)) =~= state.regex_tags->0);
    }
}

} // verus!
