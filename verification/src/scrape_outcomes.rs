//! What is in the tables after what a scraper brings has been written, told of the actions and the rows.
use crate::consistency::{
    adding_files_keeps_consistency, adding_relationships_keeps_consistency, adding_tags_keeps_consistency,
    lemma_entry_digests_ok, lemma_tag_lists_len, removing_relationships_keeps_consistency,
};
use crate::database::DbState;
use crate::file::{file_id_of, files_upserted};
use crate::namespace::described_once;
use crate::processing::{
    ScrapedView, acted_on, action_tags, effective, entries_processed, entry_adds, id_among, ids_stand, lists,
    replaced, replaces, scraped_files, scraped_files_get_their_tags, scraped_tags, tags_among, targets,
};
use crate::relationship::file_exists;
use crate::row_outcomes::{
    added_digests_stand_as_given, added_file_lists_stand_as_given, stands_against, stands_as_given,
};
use crate::rows::{HashRec, file_hashes, tag_ids, tag_keys};
use crate::tag::{
    added_tags_have_their_ids, all_plugin_tags, distinct_tags, forms_of, lemma_distinct_complete, namespaces_of,
    stored_among, stored_tags, stored_tags_of, tag_key, tag_namespaces,
};
use crate::tag_outcomes::{
    brings, called, has_tag, lemma_brings, lemma_has_tag, lemma_plugin_tags_touch, lemma_relationships_touch,
    lemma_spaces_count, lemma_wanted_brought, room_for,
};
use crate::text::{lemma_pos, pos};
use crate::types::{ActionView, DigestView, PluginTagView, TagOperation, TagView};
use vstd::prelude::*;

verus! {

/// Whether the row with an id is the file with a hash.
pub open spec fn is_file(state: DbState, id: u64, hash: Seq<char>) -> bool {
    exists|i: int| 0 <= i < state.files.len() && (#[trigger] state.files[i]).id == id && state.files[i].hash == Some(hash)
}

/// Whether a tag that an action names counts: it is of a kind that is stored and has a name; where the action replaces,
/// its namespace has a name too and is not that of source URLs.
pub open spec fn counts(action: ActionView, k: int) -> bool {
    let tag = action.tags[k];
    &&& tag.tag_type is Normal || tag.tag_type is NormalNoRegex
    &&& tag.tag.name.len() > 0
    &&& action.operation is Replace ==> tag.tag.namespace.name.len() > 0 && tag.tag.namespace.name != "source_url"@
}

/// Whether an action names the tag with an id.
pub open spec fn names_tag(state: DbState, action: ActionView, id: u64) -> bool {
    exists|k: int|
        0 <= k < action.tags.len() && counts(action, k) && has_tag(
            state,
            id,
            (#[trigger] action.tags[k]).tag.name,
            action.tags[k].tag.namespace.name,
        )
}

/// Whether an action names a tag of the namespace that the tag with an id is in.
pub open spec fn names_namespace_of(state: DbState, action: ActionView, id: u64) -> bool {
    exists|k: int, name: Seq<char>|
        0 <= k < action.tags.len() && counts(action, k) && #[trigger] has_tag(
            state,
            id,
            name,
            (#[trigger] action.tags[k]).tag.namespace.name,
        )
}

/// Whether an entry has an action of a kind that names the tag with an id.
pub open spec fn does(state: DbState, entry: ScrapedView, operation: TagOperation, id: u64) -> bool {
    exists|a: int|
        0 <= a < entry.actions.len() && (#[trigger] entry.actions[a]).operation == operation && names_tag(
            state,
            entry.actions[a],
            id,
        )
}

/// Whether the tag with an id is among those that some entries bring.
pub open spec fn is_brought(state: DbState, entries: Seq<ScrapedView>, id: u64) -> bool {
    exists|e: int, a: int, k: int|
        #![trigger entries[e].actions[a].tags[k]]
        0 <= e < entries.len() && 0 <= a < entries[e].actions.len() && 0 <= k < entries[e].actions[a].tags.len() && brings_id(
            state,
            entries[e].actions[a].tags[k],
            id,
        )
}

/// Whether a plugin's tag brings the tag with an id.
pub open spec fn brings_id(state: DbState, tag: PluginTagView, id: u64) -> bool {
    exists|name: Seq<char>, space: Seq<char>| #[trigger] has_tag(state, id, name, space) && brings(tag, name, space)
}

/// Whether an entry has an action that puts other tags in the place of the tag with an id: it replaces, names a tag of
/// the same namespace, and does not name this one; and this one is among the tags that the entries bring.
pub open spec fn puts_aside(state: DbState, entries: Seq<ScrapedView>, entry: ScrapedView, id: u64) -> bool {
    is_brought(state, entries, id) && exists|a: int|
        0 <= a < entry.actions.len() && (#[trigger] entry.actions[a]).operation is Replace && names_namespace_of(
            state,
            entry.actions[a],
            id,
        ) && !names_tag(state, entry.actions[a], id)
}

/// Whether an entry of a file takes a tag from it: it says so, or it puts other tags in the place of one that the file
/// had, and does not add it.
pub open spec fn takes(before: DbState, state: DbState, entries: Seq<ScrapedView>, e: int, file_id: u64, tag_id: u64) -> bool {
    is_file(state, file_id, entries[e].manager.internal.hash) && {
        ||| does(state, entries[e], TagOperation::Del, tag_id)
        ||| before.relationships.contains((file_id, tag_id)) && puts_aside(state, entries, entries[e], tag_id) && !does(
            state,
            entries[e],
            TagOperation::Add,
            tag_id,
        )
    }
}

/// Whether an entry of a file gives a tag to it.
pub open spec fn gives(state: DbState, entries: Seq<ScrapedView>, e: int, file_id: u64, tag_id: u64) -> bool {
    is_file(state, file_id, entries[e].manager.internal.hash) && (does(state, entries[e], TagOperation::Add, tag_id)
        || does(state, entries[e], TagOperation::Replace, tag_id))
}

/// Whether there are numbers for all rows that some entries can bring.
pub open spec fn room_for_entries(state: DbState, entries: Seq<ScrapedView>) -> bool {
    state.files.len() + entries.len() <= u64::MAX && room_for(state, scraped_tags(entries))
}

/// Whether what memory holds of the tags of a file is what the relationships say.
pub open spec fn files_in_memory_true(state: DbState) -> bool {
    state.memory matches Some(memory) ==> forall|f: u64| #[trigger]
        memory.file_id.dom().contains(f) ==> forall|t: u64| #[trigger]
            memory.file_id[f].contains(t) <==> state.relationships.contains((f, t))
}

/// What the tables hold once the files, digests and tags of some entries are known.
proof fn lemma_known(before: DbState, entries: Seq<ScrapedView>)
    requires
        before.consistent(),
        room_for_entries(before, entries),
    ensures
        ({
            let known = before.with_entries_known(entries);
            &&& known.consistent()
            &&& known.relationships == before.relationships
            &&& known.memory == before.memory
            &&& known.files == files_upserted(before.files, scraped_files(entries))
            &&& ids_stand(known, before.entry_tag_ids(entries))
            &&& before.entry_tag_ids(entries).len() == distinct_tags(stored_tags_of(scraped_tags(entries))).len()
            &&& forall|k: int|
                0 <= k < before.entry_tag_ids(entries).len() ==> (#[trigger] before.entry_tag_ids(entries)[k]).0
                    == distinct_tags(stored_tags_of(scraped_tags(entries)))[k]
        }),
{
    let filed = DbState { files: files_upserted(before.files, scraped_files(entries)), ..before };
    let tags = scraped_tags(entries);
    adding_files_keeps_consistency(before, scraped_files(entries));
    lemma_entry_digests_ok(filed, entries);
    lemma_tag_lists_len(tags);
    let digested = filed.with_entry_digests(entries);
    adding_tags_keeps_consistency(digested, tags);
    lemma_plugin_tags_touch(digested, tags);
    added_tags_have_their_ids(digested, tags);
}

/// A tag of an entry is among those that are added.
proof fn lemma_scraped(entries: Seq<ScrapedView>, e: int, a: int, k: int)
    requires
        0 <= e < entries.len(),
        0 <= a < entries[e].actions.len(),
        0 <= k < entries[e].actions[a].tags.len(),
    ensures
        scraped_tags(entries).contains(entries[e].actions[a].tags[k]),
    decreases entries.len(),
{
    let shorter = entries.drop_last();
    let before = scraped_tags(shorter);
    let more = all_plugin_tags(entries.last().actions);
    let tag = entries[e].actions[a].tags[k];
    if e < shorter.len() {
        assert(shorter[e] == entries[e]);
        lemma_scraped(shorter, e, a, k);
        let n = choose|n: int| 0 <= n < before.len() && before[n] == tag;
        assert(scraped_tags(entries)[n] == tag);
    } else {
        lemma_all_tags(entries.last().actions, a, k);
        let n = choose|n: int| 0 <= n < more.len() && more[n] == tag;
        assert(scraped_tags(entries)[before.len() + n] == tag);
    }
}

/// A tag of an action is among those of all.
pub proof fn lemma_all_tags(actions: Seq<ActionView>, a: int, k: int)
    requires
        0 <= a < actions.len(),
        0 <= k < actions[a].tags.len(),
    ensures
        all_plugin_tags(actions).contains(actions[a].tags[k]),
    decreases actions.len(),
{
    let shorter = actions.drop_last();
    let before = all_plugin_tags(shorter);
    if a < shorter.len() {
        lemma_all_tags(shorter, a, k);
        let n = choose|n: int| 0 <= n < before.len() && before[n] == actions[a].tags[k];
        assert(all_plugin_tags(actions)[n] == actions[a].tags[k]);
    } else {
        assert(all_plugin_tags(actions)[before.len() + k] == actions[a].tags[k]);
    }
}

/// What is added comes from a tag of an entry.
proof fn lemma_scraped_place(entries: Seq<ScrapedView>, n: int) -> (place: (int, int, int))
    requires
        0 <= n < scraped_tags(entries).len(),
    ensures
        0 <= place.0 < entries.len(),
        0 <= place.1 < entries[place.0].actions.len(),
        0 <= place.2 < entries[place.0].actions[place.1].tags.len(),
        entries[place.0].actions[place.1].tags[place.2] == scraped_tags(entries)[n],
    decreases entries.len(),
{
    let shorter = entries.drop_last();
    let before = scraped_tags(shorter);
    if n < before.len() {
        let place = lemma_scraped_place(shorter, n);
        assert(shorter[place.0] == entries[place.0]);
        place
    } else {
        let (a, k) = lemma_all_tags_place(entries.last().actions, n - before.len());
        assert(entries[entries.len() - 1] == entries.last());
        (entries.len() - 1, a, k)
    }
}

/// A tag among those of all is one of an action.
pub proof fn lemma_all_tags_place(actions: Seq<ActionView>, n: int) -> (place: (int, int))
    requires
        0 <= n < all_plugin_tags(actions).len(),
    ensures
        0 <= place.0 < actions.len(),
        0 <= place.1 < actions[place.0].tags.len(),
        actions[place.0].tags[place.1] == all_plugin_tags(actions)[n],
    decreases actions.len(),
{
    let shorter = actions.drop_last();
    let before = all_plugin_tags(shorter);
    if n < before.len() {
        let place = lemma_all_tags_place(shorter, n);
        assert(shorter[place.0] == actions[place.0]);
        place
    } else {
        assert(actions[actions.len() - 1] == actions.last());
        (actions.len() - 1, n - before.len())
    }
}

/// A tag that is brought is in the list of the added ones, as it was given.
pub proof fn lemma_brought_listed(tags: Seq<PluginTagView>, i: int, k: int)
    requires
        described_once(namespaces_of(tags)),
        0 <= i < tags.len(),
        0 <= k < stored_tags(forms_of(tags), tags[i]).len(),
    ensures
        distinct_tags(stored_tags_of(tags)).contains(stored_tags(forms_of(tags), tags[i])[k]),
{
    let forms = forms_of(tags);
    let stored = stored_tags_of(tags);
    let wanted = distinct_tags(stored);
    let tag = stored_tags(forms, tags[i])[k];
    lemma_stored_at(forms, tags, i, k);
    let n = choose|n: int| 0 <= n < stored.len() && stored[n] == tag;
    lemma_distinct_complete(stored, n);
    let m = choose|m: int| 0 <= m < wanted.len() && tag_key(#[trigger] wanted[m]) == tag_key(stored[n]);
    crate::tag::lemma_stored_tags_named(tags);
    let names = namespaces_of(tags);
    assert(names.contains(wanted[m].namespace));
    assert(names.contains(stored[n].namespace));
    let p = choose|p: int| 0 <= p < names.len() && names[p] == wanted[m].namespace;
    let q = choose|q: int| 0 <= q < names.len() && names[q] == stored[n].namespace;
    assert(names[p].name == names[q].name);
    assert(wanted[m] == tag);
}

proof fn lemma_stored_at(forms: Seq<crate::types::NamespaceView>, tags: Seq<PluginTagView>, i: int, k: int)
    requires
        0 <= i < tags.len(),
        0 <= k < stored_tags(forms, tags[i]).len(),
    ensures
        stored_among(forms, tags).contains(stored_tags(forms, tags[i])[k]),
    decreases tags.len(),
{
    let shorter = tags.drop_last();
    let before = stored_among(forms, shorter);
    let tag = stored_tags(forms, tags[i])[k];
    if i < shorter.len() {
        lemma_stored_at(forms, shorter, i, k);
        let n = choose|n: int| 0 <= n < before.len() && before[n] == tag;
        assert(stored_among(forms, tags)[n] == tag);
    } else {
        assert(stored_among(forms, tags)[before.len() + k] == tag);
    }
}

/// The id that the list of added tags gives a tag is that of the row that is called so, where the tag was added.
proof fn lemma_id_among(known: DbState, ids: Seq<(TagView, u64)>, tag: TagView, id: u64)
    requires
        known.consistent(),
        ids_stand(known, ids),
    ensures
        id_among(ids, tag) == Some(id) ==> has_tag(known, id, tag.name, tag.namespace.name),
        has_tag(known, id, tag.name, tag.namespace.name) && tags_among(ids).contains(tag) ==> id_among(ids, tag) == Some(id),
{
    lemma_pos(tags_among(ids), tag);
    let at = pos(tags_among(ids), tag);
    lemma_has_tag(known, tag, id);
    if at < ids.len() {
        assert(tags_among(ids)[at] == ids[at].0);
        assert(known.tag_id(ids[at].0) == Some(ids[at].1));
    }
}

/// What the lists say of an action is what the rows say.
proof fn lemma_action(before: DbState, entries: Seq<ScrapedView>, e: int, a: int, id: u64)
    requires
        before.consistent(),
        room_for_entries(before, entries),
        described_once(namespaces_of(scraped_tags(entries))),
        0 <= e < entries.len(),
        0 <= a < entries[e].actions.len(),
    ensures
        ({
            let known = before.with_entries_known(entries);
            let ids = before.entry_tag_ids(entries);
            let action = entries[e].actions[a];
            &&& action_tags(action, ids).contains(id) <==> names_tag(known, action, id)
            &&& (exists|k: int| 0 <= k < ids.len() && (#[trigger] ids[k]).1 == id && targets(action, ids, ids[k].0.namespace.name))
                <==> is_brought(known, entries, id) && names_namespace_of(known, action, id)
        }),
{
    let known = before.with_entries_known(entries);
    let ids = before.entry_tag_ids(entries);
    let action = entries[e].actions[a];
    let tags = scraped_tags(entries);
    let forms = forms_of(tags);
    let wanted = distinct_tags(stored_tags_of(tags));
    lemma_known(before, entries);
    assert forall|k: int| 0 <= k < action.tags.len() implies effective(action.operation, #[trigger] action.tags[k]) == counts(
        action,
        k,
    ) by {}
    assert forall|k: int| 0 <= k < action.tags.len() && counts(action, k) implies tags_among(ids).contains(
        (#[trigger] action.tags[k]).tag,
    ) by {
        lemma_scraped(entries, e, a, k);
        let i = choose|i: int| 0 <= i < tags.len() && tags[i] == action.tags[k];
        lemma_spaces_count(tags, i);
        assert(tag_namespaces(tags[i])[0] == tags[i].tag.namespace);
        assert(stored_tags(forms, tags[i])[0] == tags[i].tag);
        lemma_brought_listed(tags, i, 0);
        let m = choose|m: int| 0 <= m < wanted.len() && wanted[m] == tags[i].tag;
        assert(tags_among(ids)[m] == ids[m].0);
    }
    if action_tags(action, ids).contains(id) {
        let k = choose|k: int|
            0 <= k < action.tags.len() && effective(action.operation, #[trigger] action.tags[k]) && id_among(
                ids,
                action.tags[k].tag,
            ) == Some(id);
        lemma_id_among(known, ids, action.tags[k].tag, id);
        assert(names_tag(known, action, id));
    }
    if names_tag(known, action, id) {
        let k = choose|k: int|
            0 <= k < action.tags.len() && counts(action, k) && has_tag(
                known,
                id,
                (#[trigger] action.tags[k]).tag.name,
                action.tags[k].tag.namespace.name,
            );
        lemma_id_among(known, ids, action.tags[k].tag, id);
        assert(effective(action.operation, action.tags[k]));
    }
    if exists|k: int| 0 <= k < ids.len() && (#[trigger] ids[k]).1 == id && targets(action, ids, ids[k].0.namespace.name) {
        let k = choose|k: int|
            0 <= k < ids.len() && (#[trigger] ids[k]).1 == id && targets(action, ids, ids[k].0.namespace.name);
        let tag = ids[k].0;
        assert(known.tag_id(tag) == Some(id));
        lemma_has_tag(known, tag, id);
        lemma_wanted_brought(tags, k);
        let b = choose|b: int| 0 <= b < tags.len() && brings(#[trigger] tags[b], tag.name, tag.namespace.name);
        let (pe, pa, pk) = lemma_scraped_place(entries, b);
        assert(has_tag(known, id, tag.name, tag.namespace.name) && brings(tags[b], tag.name, tag.namespace.name));
        assert(brings_id(known, entries[pe].actions[pa].tags[pk], id));
        let q = choose|q: int|
            0 <= q < action.tags.len() && effective(action.operation, #[trigger] action.tags[q]) && id_among(
                ids,
                action.tags[q].tag,
            ) is Some && action.tags[q].tag.namespace.name == tag.namespace.name;
        assert(has_tag(known, id, tag.name, action.tags[q].tag.namespace.name));
        assert(names_namespace_of(known, action, id));
    }
    if is_brought(known, entries, id) && names_namespace_of(known, action, id) {
        let (pe, pa, pk) = choose|pe: int, pa: int, pk: int|
            #![trigger entries[pe].actions[pa].tags[pk]]
            0 <= pe < entries.len() && 0 <= pa < entries[pe].actions.len() && 0 <= pk < entries[pe].actions[pa].tags.len()
                && brings_id(known, entries[pe].actions[pa].tags[pk], id);
        let bringer = entries[pe].actions[pa].tags[pk];
        let (name, space) = choose|name: Seq<char>, space: Seq<char>| #[trigger]
            has_tag(known, id, name, space) && brings(bringer, name, space);
        lemma_scraped(entries, pe, pa, pk);
        let i = choose|i: int| 0 <= i < tags.len() && tags[i] == bringer;
        lemma_spaces_count(tags, i);
        lemma_brings(forms, tags[i], name, space);
        let s = choose|s: int|
            0 <= s < stored_tags(forms, tags[i]).len() && called(#[trigger] stored_tags(forms, tags[i])[s], name, space);
        let tag = stored_tags(forms, tags[i])[s];
        lemma_brought_listed(tags, i, s);
        let m = choose|m: int| 0 <= m < wanted.len() && wanted[m] == tag;
        assert(ids[m].0 == tag);
        assert(known.tag_id(ids[m].0) == Some(ids[m].1));
        lemma_has_tag(known, tag, id);
        assert(ids[m].1 == id);
        let (q, other) = choose|q: int, other: Seq<char>|
            0 <= q < action.tags.len() && counts(action, q) && #[trigger] has_tag(
                known,
                id,
                other,
                (#[trigger] action.tags[q]).tag.namespace.name,
            );
        lemma_one_name(known, id, name, space, other, action.tags[q].tag.namespace.name);
        assert(effective(action.operation, action.tags[q]));
        lemma_pos(tags_among(ids), action.tags[q].tag);
        assert(id_among(ids, action.tags[q].tag) is Some);
        assert(targets(action, ids, ids[m].0.namespace.name));
    }
}

/// A row is called by one name, in one namespace.
proof fn lemma_one_name(state: DbState, id: u64, name: Seq<char>, space: Seq<char>, other: Seq<char>, elsewhere: Seq<char>)
    requires
        state.consistent(),
        has_tag(state, id, name, space),
        has_tag(state, id, other, elsewhere),
    ensures
        name == other,
        space == elsewhere,
{
    let (i, j) = choose|i: int, j: int|
        0 <= i < state.tags.len() && 0 <= j < state.namespaces.len() && (#[trigger] state.tags[i]).id == id
            && state.tags[i].name == name && (#[trigger] state.namespaces[j]).id == state.tags[i].namespace
            && state.namespaces[j].name == space;
    let (k, n) = choose|k: int, n: int|
        0 <= k < state.tags.len() && 0 <= n < state.namespaces.len() && (#[trigger] state.tags[k]).id == id
            && state.tags[k].name == other && (#[trigger] state.namespaces[n]).id == state.tags[k].namespace
            && state.namespaces[n].name == elsewhere;
    assert(tag_ids(state.tags)[i] == tag_ids(state.tags)[k]);
    let spaces = crate::rows::namespace_ids(state.namespaces);
    assert(spaces[j] == spaces[n]);
}

/// Which file a hash stands for.
pub proof fn lemma_is_file(state: DbState, hash: Seq<char>, id: u64)
    requires
        state.consistent(),
    ensures
        file_id_of(state.files, hash) == Some(id) <==> is_file(state, id, hash),
{
    let keys = file_hashes(state.files);
    lemma_pos(keys, Some(hash));
    let at = pos(keys, Some(hash));
    if at < state.files.len() {
        assert(keys[at] == state.files[at].hash);
    }
    if is_file(state, id, hash) {
        let i = choose|i: int|
            0 <= i < state.files.len() && (#[trigger] state.files[i]).id == id && state.files[i].hash == Some(hash);
        assert(keys[i] == Some(hash));
        assert(at == i);
    }
}

/// What an entry does, by the lists, is what it does by the rows.
proof fn lemma_entry(before: DbState, entries: Seq<ScrapedView>, e: int, id: u64)
    requires
        before.consistent(),
        room_for_entries(before, entries),
        described_once(namespaces_of(scraped_tags(entries))),
        0 <= e < entries.len(),
    ensures
        ({
            let known = before.with_entries_known(entries);
            let ids = before.entry_tag_ids(entries);
            let entry = entries[e];
            &&& forall|op: TagOperation| #[trigger] acted_on(entry.actions, ids, op, id) <==> does(known, entry, op, id)
            &&& replaced(entry.actions, ids, id) <==> puts_aside(known, entries, entry, id)
        }),
{
    let known = before.with_entries_known(entries);
    let ids = before.entry_tag_ids(entries);
    let entry = entries[e];
    assert forall|a: int| 0 <= a < entry.actions.len() implies {
        &&& action_tags(#[trigger] entry.actions[a], ids).contains(id) <==> names_tag(known, entry.actions[a], id)
        &&& replaces(entry.actions[a], ids, id) <==> entry.actions[a].operation is Replace && is_brought(known, entries, id)
            && names_namespace_of(known, entry.actions[a], id) && !names_tag(known, entry.actions[a], id)
    } by {
        lemma_action(before, entries, e, a, id);
    }
    assert forall|op: TagOperation| #[trigger] acted_on(entry.actions, ids, op, id) <==> does(known, entry, op, id) by {
        if acted_on(entry.actions, ids, op, id) {
            let a = choose|a: int|
                0 <= a < entry.actions.len() && (#[trigger] entry.actions[a]).operation == op && action_tags(
                    entry.actions[a],
                    ids,
                ).contains(id);
            assert(names_tag(known, entry.actions[a], id));
        }
        if does(known, entry, op, id) {
            let a = choose|a: int|
                0 <= a < entry.actions.len() && (#[trigger] entry.actions[a]).operation == op && names_tag(
                    known,
                    entry.actions[a],
                    id,
                );
            assert(action_tags(entry.actions[a], ids).contains(id));
        }
    }
    if replaced(entry.actions, ids, id) {
        let a = choose|a: int| 0 <= a < entry.actions.len() && replaces(#[trigger] entry.actions[a], ids, id);
        assert(names_namespace_of(known, entry.actions[a], id));
    }
    if puts_aside(known, entries, entry, id) {
        let a = choose|a: int|
            0 <= a < entry.actions.len() && (#[trigger] entry.actions[a]).operation is Replace && names_namespace_of(
                known,
                entry.actions[a],
                id,
            ) && !names_tag(known, entry.actions[a], id);
        assert(replaces(entry.actions[a], ids, id));
    }
}

/// After what a scraper brings has been written, a file has a tag exactly if no entry of the file takes it away, and the
/// file had it or an entry of the file gives it. Adding and replacing give the tags that they name; deleting takes away
/// those that it names; and replacing takes away the tags that the file had in the namespaces that it names, of those
/// that the entries bring, unless it names them or the entry adds them.
pub proof fn scraped_files_have_the_tags_that_the_actions_say(
    before: DbState,
    entries: Seq<ScrapedView>,
    after: DbState,
    file_id: u64,
    tag_id: u64,
)
    requires
        entries.len() > 0,
        entries_processed(before, entries, after),
        before.consistent(),
        room_for_entries(before, entries),
        described_once(namespaces_of(scraped_tags(entries))),
        files_in_memory_true(before),
    ensures
        after.relationships.contains((file_id, tag_id)) <==> {
            &&& !exists|e: int| 0 <= e < entries.len() && #[trigger] takes(before, after, entries, e, file_id, tag_id)
            &&& before.relationships.contains((file_id, tag_id)) || exists|e: int|
                0 <= e < entries.len() && #[trigger] gives(after, entries, e, file_id, tag_id)
        },
{
    let known = before.with_entries_known(entries);
    let ids = before.entry_tag_ids(entries);
    let r = (file_id, tag_id);
    lemma_known(before, entries);
    scraped_files_get_their_tags(before, entries, after);
    lemma_same_rows_after(before, entries, after);
    assert(known.tags_of_file(file_id).contains(tag_id) <==> before.relationships.contains(r));
    assert forall|e: int| 0 <= e < entries.len() implies {
        &&& file_id_of(known.files, (#[trigger] entries[e]).manager.internal.hash) == Some(file_id) && known.entry_removes(
            entries[e],
            ids,
            tag_id,
        ) <==> takes(before, after, entries, e, file_id, tag_id)
        &&& file_id_of(known.files, entries[e].manager.internal.hash) == Some(file_id) && entry_adds(entries[e], ids, tag_id)
            <==> gives(after, entries, e, file_id, tag_id)
    } by {
        lemma_is_file(known, entries[e].manager.internal.hash, file_id);
        lemma_entry(before, entries, e, tag_id);
        lemma_rows_tell(known, after, entries, e, file_id, tag_id);
        assert(acted_on(entries[e].actions, ids, TagOperation::Del, tag_id) == does(
            known,
            entries[e],
            TagOperation::Del,
            tag_id,
        ));
        assert(acted_on(entries[e].actions, ids, TagOperation::Add, tag_id) == does(
            known,
            entries[e],
            TagOperation::Add,
            tag_id,
        ));
        assert(acted_on(entries[e].actions, ids, TagOperation::Replace, tag_id) == does(
            known,
            entries[e],
            TagOperation::Replace,
            tag_id,
        ));
    }
    if known.removed_by(entries, ids, r) {
        let e = choose|e: int|
            0 <= e < entries.len() && file_id_of(known.files, (#[trigger] entries[e]).manager.internal.hash) == Some(r.0)
                && known.entry_removes(entries[e], ids, r.1);
        assert(takes(before, after, entries, e, file_id, tag_id));
    }
    if exists|e: int| 0 <= e < entries.len() && #[trigger] takes(before, after, entries, e, file_id, tag_id) {
        let e = choose|e: int| 0 <= e < entries.len() && #[trigger] takes(before, after, entries, e, file_id, tag_id);
        assert(known.entry_removes(entries[e], ids, tag_id));
    }
    if known.added_by(entries, ids, r) {
        let e = choose|e: int|
            0 <= e < entries.len() && file_id_of(known.files, (#[trigger] entries[e]).manager.internal.hash) == Some(r.0)
                && entry_adds(entries[e], ids, r.1);
        assert(gives(after, entries, e, file_id, tag_id));
    }
    if exists|e: int| 0 <= e < entries.len() && #[trigger] gives(after, entries, e, file_id, tag_id) {
        let e = choose|e: int| 0 <= e < entries.len() && #[trigger] gives(after, entries, e, file_id, tag_id);
        assert(entry_adds(entries[e], ids, tag_id));
    }
    assert(known.removals(entries, ids).contains(r) <==> known.removed_by(entries, ids, r));
    assert(known.additions(entries, ids).contains(r) <==> known.added_by(entries, ids, r) && !known.removed_by(
        entries,
        ids,
        r,
    ));
}

/// Writing relationships leaves the rows that they hang on.
proof fn lemma_same_rows_after(before: DbState, entries: Seq<ScrapedView>, after: DbState)
    requires
        entries.len() > 0,
        entries_processed(before, entries, after),
        before.consistent(),
        room_for_entries(before, entries),
    ensures
        before.with_entries_known(entries).same_rows(after),
        after.consistent(),
{
    let known = before.with_entries_known(entries);
    let ids = before.entry_tag_ids(entries);
    lemma_known(before, entries);
    let (removed, added) = choose|removed: Seq<(u64, u64)>, added: Seq<(u64, u64)>|
        lists(removed, known.removals(entries, ids)) && lists(added, known.additions(entries, ids)) && after
            == #[trigger] known.with_changes(removed, added);
    removing_relationships_keeps_consistency(known, removed);
    if added.len() > 0 {
        adding_relationships_keeps_consistency(known.without_relationships(removed), added);
    }
}

/// The same rows call the same tags.
pub proof fn lemma_same_called(one: DbState, other: DbState, id: u64, name: Seq<char>, space: Seq<char>)
    requires
        one.same_rows(other),
        has_tag(one, id, name, space),
    ensures
        has_tag(other, id, name, space),
{
    let (i, j) = choose|i: int, j: int|
        0 <= i < one.tags.len() && 0 <= j < one.namespaces.len() && (#[trigger] one.tags[i]).id == id && one.tags[i].name
            == name && (#[trigger] one.namespaces[j]).id == one.tags[i].namespace && one.namespaces[j].name == space;
    assert(tag_ids(one.tags).len() == one.tags.len() && tag_ids(other.tags).len() == other.tags.len());
    assert(tag_ids(other.tags)[i] == tag_ids(one.tags)[i]);
    assert(tag_keys(other.tags)[i] == tag_keys(one.tags)[i]);
    assert(other.tags[i].id == id && other.namespaces[j].id == other.tags[i].namespace);
}

/// What the rows say of an entry is the same by the same rows.
proof fn lemma_rows_tell(known: DbState, after: DbState, entries: Seq<ScrapedView>, e: int, file_id: u64, id: u64)
    requires
        known.same_rows(after),
        0 <= e < entries.len(),
    ensures
        is_file(after, file_id, entries[e].manager.internal.hash) == is_file(
            known,
            file_id,
            entries[e].manager.internal.hash,
        ),
        forall|op: TagOperation| #[trigger] does(after, entries[e], op, id) == does(known, entries[e], op, id),
        puts_aside(after, entries, entries[e], id) == puts_aside(known, entries, entries[e], id),
{
    lemma_rows_tell_one(known, after, entries, e, file_id, id);
    assert(after.same_rows(known));
    lemma_rows_tell_one(after, known, entries, e, file_id, id);
    assert forall|a: int| 0 <= a < entries[e].actions.len() implies names_tag(after, #[trigger] entries[e].actions[a], id)
        == names_tag(known, entries[e].actions[a], id) by {
        lemma_names_tell(known, after, entries[e].actions[a], id);
        lemma_names_tell(after, known, entries[e].actions[a], id);
    }
    if puts_aside(after, entries, entries[e], id) {
        let a = choose|a: int|
            0 <= a < entries[e].actions.len() && (#[trigger] entries[e].actions[a]).operation is Replace
                && names_namespace_of(after, entries[e].actions[a], id) && !names_tag(after, entries[e].actions[a], id);
        lemma_names_tell(after, known, entries[e].actions[a], id);
        assert(names_namespace_of(known, entries[e].actions[a], id));
    }
    if puts_aside(known, entries, entries[e], id) {
        let a = choose|a: int|
            0 <= a < entries[e].actions.len() && (#[trigger] entries[e].actions[a]).operation is Replace
                && names_namespace_of(known, entries[e].actions[a], id) && !names_tag(known, entries[e].actions[a], id);
        lemma_names_tell(known, after, entries[e].actions[a], id);
        assert(names_namespace_of(after, entries[e].actions[a], id));
    }
}

proof fn lemma_names_tell(one: DbState, other: DbState, action: ActionView, id: u64)
    requires
        one.same_rows(other),
    ensures
        names_tag(one, action, id) ==> names_tag(other, action, id),
        names_namespace_of(one, action, id) ==> names_namespace_of(other, action, id),
{
    if names_tag(one, action, id) {
        let k = choose|k: int|
            0 <= k < action.tags.len() && counts(action, k) && has_tag(
                one,
                id,
                (#[trigger] action.tags[k]).tag.name,
                action.tags[k].tag.namespace.name,
            );
        lemma_same_called(one, other, id, action.tags[k].tag.name, action.tags[k].tag.namespace.name);
    }
    if names_namespace_of(one, action, id) {
        let (k, name) = choose|k: int, name: Seq<char>|
            0 <= k < action.tags.len() && counts(action, k) && #[trigger] has_tag(
                one,
                id,
                name,
                (#[trigger] action.tags[k]).tag.namespace.name,
            );
        lemma_same_called(one, other, id, name, action.tags[k].tag.namespace.name);
    }
}

proof fn lemma_rows_tell_one(one: DbState, other: DbState, entries: Seq<ScrapedView>, e: int, file_id: u64, id: u64)
    requires
        one.same_rows(other),
        0 <= e < entries.len(),
    ensures
        is_file(one, file_id, entries[e].manager.internal.hash) ==> is_file(
            other,
            file_id,
            entries[e].manager.internal.hash,
        ),
        forall|op: TagOperation| #[trigger] does(one, entries[e], op, id) ==> does(other, entries[e], op, id),
        is_brought(one, entries, id) ==> is_brought(other, entries, id),
{
    let entry = entries[e];
    let hash = entry.manager.internal.hash;
    if is_file(one, file_id, hash) {
        let i = choose|i: int|
            0 <= i < one.files.len() && (#[trigger] one.files[i]).id == file_id && one.files[i].hash == Some(hash);
        assert(other.files[i].id == file_id);
    }
    assert forall|op: TagOperation| #[trigger] does(one, entry, op, id) implies does(other, entry, op, id) by {
        let a = choose|a: int|
            0 <= a < entry.actions.len() && (#[trigger] entry.actions[a]).operation == op && names_tag(
                one,
                entry.actions[a],
                id,
            );
        lemma_names_tell(one, other, entry.actions[a], id);
    }
    if is_brought(one, entries, id) {
        let (pe, pa, pk) = choose|pe: int, pa: int, pk: int|
            #![trigger entries[pe].actions[pa].tags[pk]]
            0 <= pe < entries.len() && 0 <= pa < entries[pe].actions.len() && 0 <= pk < entries[pe].actions[pa].tags.len()
                && brings_id(one, entries[pe].actions[pa].tags[pk], id);
        let bringer = entries[pe].actions[pa].tags[pk];
        let (name, space) = choose|name: Seq<char>, space: Seq<char>| #[trigger]
            has_tag(one, id, name, space) && brings(bringer, name, space);
        lemma_same_called(one, other, id, name, space);
        assert(has_tag(other, id, name, space) && brings(bringer, name, space));
        assert(brings_id(other, entries[pe].actions[pa].tags[pk], id));
    }
}

/// After what a scraper brings has been written, each of its files, where their hashes differ, stands in the file table
/// as it was given; the other files stay.
pub proof fn scraped_files_stand_as_given(before: DbState, entries: Seq<ScrapedView>, after: DbState, e: int)
    requires
        entries_processed(before, entries, after),
        before.consistent(),
        room_for_entries(before, entries),
        forall|i: int, k: int|
            0 <= i < k < entries.len() ==> (#[trigger] entries[i]).manager.internal.hash != (
            #[trigger] entries[k]).manager.internal.hash,
        0 <= e < entries.len(),
    ensures
        stands_as_given(before.files, after.files, entries[e].manager.internal),
        before.files.len() <= after.files.len(),
        forall|b: int|
            0 <= b < before.files.len() ==> (#[trigger] after.files[b]).id == before.files[b].id && after.files[b].hash
                == before.files[b].hash,
        forall|r: int|
            0 <= r < after.files.len() && (forall|i: int|
                0 <= i < entries.len() ==> Some((#[trigger] entries[i]).manager.internal.hash) != after.files[r].hash) ==> r
                < before.files.len() && #[trigger] after.files[r] == before.files[r],
{
    let files = scraped_files(entries);
    lemma_known(before, entries);
    lemma_same_rows_after(before, entries, after);
    assert forall|i: int, k: int| 0 <= i < k < files.len() implies (#[trigger] files[i]).hash != (#[trigger] files[k]).hash by {
        assert(entries[i].manager.internal.hash != entries[k].manager.internal.hash);
    }
    added_file_lists_stand_as_given(before.files, files);
    assert(files[e] == entries[e].manager.internal);
    assert forall|r: int|
        0 <= r < after.files.len() && (forall|i: int|
            0 <= i < entries.len() ==> Some((#[trigger] entries[i]).manager.internal.hash) != after.files[r].hash) implies r
        < before.files.len() && #[trigger] after.files[r] == before.files[r] by {
        assert forall|i: int| 0 <= i < files.len() implies Some((#[trigger] files[i]).hash) != after.files[r].hash by {
            assert(Some(entries[i].manager.internal.hash) != after.files[r].hash);
        }
    }
}

/// What recording digests of a file makes of the table of digests.
proof fn lemma_digests_recorded(state: DbState, file_id: u64, digests: Seq<DigestView>)
    ensures
        ({
            let after = state.with_digests(file_id, digests);
            &&& after == (DbState { hashes: after.hashes, ..state })
            &&& state.hashes.len() <= after.hashes.len()
            &&& forall|k: int| 0 <= k < state.hashes.len() ==> #[trigger] after.hashes[k] == state.hashes[k]
            &&& forall|d: int|
                0 <= d < digests.len() && (#[trigger] digests[d]).algorithm.len() > 0 && digests[d].digest.len() > 0
                    && file_exists(state.files, file_id) ==> digest_answered(after.hashes, digests[d], file_id)
            &&& forall|k: int|
                state.hashes.len() <= k < after.hashes.len() ==> (#[trigger] after.hashes[k]).file_id == file_id && exists|
                    d: int,
                |
                    0 <= d < digests.len() && (#[trigger] digests[d]).algorithm == after.hashes[k].algorithm && digests[d].digest
                        == after.hashes[k].digest
        }),
    decreases digests.len(),
{
    if digests.len() > 0 {
        let shorter = digests.drop_last();
        lemma_digests_recorded(state, file_id, shorter);
        let before = state.with_digests(file_id, shorter);
        let after = state.with_digests(file_id, digests);
        let last = digests.last();
        let row = HashRec { file_id, algorithm: last.algorithm, digest: last.digest };
        assert(digests[digests.len() - 1] == last);
        added_digests_stand_as_given(before.hashes, row);
        let taken = last.algorithm.len() > 0 && last.digest.len() > 0 && file_exists(state.files, file_id);
        if taken {
            if exists|k: int| 0 <= k < before.hashes.len() && stands_against(#[trigger] before.hashes[k], row) {
                let k = choose|k: int| 0 <= k < before.hashes.len() && stands_against(#[trigger] before.hashes[k], row);
                assert(after.hashes[k].algorithm == last.algorithm);
            } else {
                assert(after.hashes[before.hashes.len() as int] == row);
            }
            assert(digest_answered(after.hashes, last, file_id));
        }
        assert forall|k: int| 0 <= k < state.hashes.len() implies #[trigger] after.hashes[k] == state.hashes[k] by {
            assert(before.hashes[k] == state.hashes[k]);
        }
        assert forall|d: int|
            0 <= d < digests.len() && (#[trigger] digests[d]).algorithm.len() > 0 && digests[d].digest.len() > 0
                && file_exists(state.files, file_id) implies digest_answered(after.hashes, digests[d], file_id) by {
            if d < shorter.len() {
                assert(shorter[d] == digests[d]);
                assert(digest_answered(before.hashes, shorter[d], file_id));
                let k = choose|k: int|
                    0 <= k < before.hashes.len() && (#[trigger] before.hashes[k]).algorithm == digests[d].algorithm && (
                    before.hashes[k].file_id == file_id || before.hashes[k].digest == digests[d].digest);
                assert(after.hashes[k] == before.hashes[k]);
            }
        }
        assert forall|k: int| state.hashes.len() <= k < after.hashes.len() implies (#[trigger] after.hashes[k]).file_id
            == file_id && exists|d: int|
            0 <= d < digests.len() && (#[trigger] digests[d]).algorithm == after.hashes[k].algorithm && digests[d].digest
                == after.hashes[k].digest by {
            if k < before.hashes.len() {
                assert(after.hashes[k] == before.hashes[k]);
                let d = choose|d: int|
                    0 <= d < shorter.len() && (#[trigger] shorter[d]).algorithm == before.hashes[k].algorithm
                        && shorter[d].digest == before.hashes[k].digest;
                assert(digests[d] == shorter[d]);
            } else {
                assert(digests[digests.len() - 1].algorithm == after.hashes[k].algorithm);
            }
        }
    }
}

/// Whether a digest of a file stands in the table, or a row stands against it: one of the file by the same algorithm, or
/// one of the same digest.
pub open spec fn digest_answered(rows: Seq<HashRec>, digest: DigestView, file_id: u64) -> bool {
    exists|k: int|
        0 <= k < rows.len() && (#[trigger] rows[k]).algorithm == digest.algorithm && (rows[k].file_id == file_id
            || rows[k].digest == digest.digest)
}

proof fn lemma_entry_digests(state: DbState, entries: Seq<ScrapedView>)
    requires
        state.consistent(),
        forall|e: int|
            0 <= e < entries.len() ==> file_id_of(state.files, (#[trigger] entries[e]).manager.internal.hash) is Some,
    ensures
        ({
            let after = state.with_entry_digests(entries);
            &&& after == (DbState { hashes: after.hashes, ..state })
            &&& state.hashes.len() <= after.hashes.len()
            &&& forall|k: int| 0 <= k < state.hashes.len() ==> #[trigger] after.hashes[k] == state.hashes[k]
            &&& forall|e: int, d: int|
                #![trigger entries[e].manager.identifying_hashes[d]]
                0 <= e < entries.len() && 0 <= d < entries[e].manager.identifying_hashes.len()
                    && entries[e].manager.identifying_hashes[d].algorithm.len() > 0
                    && entries[e].manager.identifying_hashes[d].digest.len() > 0 ==> digest_answered(
                    after.hashes,
                    entries[e].manager.identifying_hashes[d],
                    file_id_of(state.files, entries[e].manager.internal.hash)->0,
                )
            &&& forall|k: int|
                state.hashes.len() <= k < after.hashes.len() ==> digest_brought(
                    state,
                    entries,
                    #[trigger] after.hashes[k],
                )
        }),
    decreases entries.len(),
{
    if entries.len() > 0 {
        let shorter = entries.drop_last();
        assert forall|e: int| 0 <= e < shorter.len() implies file_id_of(
            state.files,
            (#[trigger] shorter[e]).manager.internal.hash,
        ) is Some by {
            assert(shorter[e] == entries[e]);
        }
        lemma_entry_digests(state, shorter);
        let before = state.with_entry_digests(shorter);
        let after = state.with_entry_digests(entries);
        let last = entries.last();
        assert(entries[entries.len() - 1] == last);
        let file_id = file_id_of(state.files, last.manager.internal.hash)->0;
        assert(file_id_of(state.files, entries[entries.len() - 1].manager.internal.hash) is Some);
        crate::processing::lemma_hashed_file_exists(state, last.manager.internal.hash, file_id);
        lemma_digests_recorded(before, file_id, last.manager.identifying_hashes);
        assert forall|k: int| 0 <= k < state.hashes.len() implies #[trigger] after.hashes[k] == state.hashes[k] by {
            assert(before.hashes[k] == state.hashes[k]);
        }
        assert forall|e: int, d: int|
            #![trigger entries[e].manager.identifying_hashes[d]]
            0 <= e < entries.len() && 0 <= d < entries[e].manager.identifying_hashes.len()
                && entries[e].manager.identifying_hashes[d].algorithm.len() > 0
                && entries[e].manager.identifying_hashes[d].digest.len() > 0 implies digest_answered(
            after.hashes,
            entries[e].manager.identifying_hashes[d],
            file_id_of(state.files, entries[e].manager.internal.hash)->0,
        ) by {
            if e < shorter.len() {
                let digest = shorter[e].manager.identifying_hashes[d];
                let owner = file_id_of(state.files, shorter[e].manager.internal.hash)->0;
                assert(digest_answered(before.hashes, digest, owner));
                let k = choose|k: int|
                    0 <= k < before.hashes.len() && (#[trigger] before.hashes[k]).algorithm == digest.algorithm && (
                    before.hashes[k].file_id == owner || before.hashes[k].digest == digest.digest);
                assert(after.hashes[k] == before.hashes[k]);
            }
        }
        assert forall|k: int| state.hashes.len() <= k < after.hashes.len() implies digest_brought(
            state,
            entries,
            #[trigger] after.hashes[k],
        ) by {
            let row = after.hashes[k];
            if k < before.hashes.len() {
                assert(row == before.hashes[k]);
                let (e, d) = choose|e: int, d: int|
                    #![trigger shorter[e].manager.identifying_hashes[d]]
                    0 <= e < shorter.len() && 0 <= d < shorter[e].manager.identifying_hashes.len()
                        && shorter[e].manager.identifying_hashes[d].algorithm == row.algorithm
                        && shorter[e].manager.identifying_hashes[d].digest == row.digest && is_file(
                        state,
                        row.file_id,
                        shorter[e].manager.internal.hash,
                    );
                assert(entries[e].manager.identifying_hashes[d].algorithm == row.algorithm);
            } else {
                let digests = last.manager.identifying_hashes;
                let d = choose|d: int|
                    0 <= d < digests.len() && (#[trigger] digests[d]).algorithm == row.algorithm && digests[d].digest
                        == row.digest;
                lemma_is_file(state, last.manager.internal.hash, file_id);
                assert(entries[entries.len() - 1].manager.identifying_hashes[d].algorithm == row.algorithm);
            }
        }
    }
}

/// Whether a digest is one that an entry brings for its file.
pub open spec fn digest_brought(state: DbState, entries: Seq<ScrapedView>, row: HashRec) -> bool {
    exists|e: int, d: int|
        #![trigger entries[e].manager.identifying_hashes[d]]
        0 <= e < entries.len() && 0 <= d < entries[e].manager.identifying_hashes.len()
            && entries[e].manager.identifying_hashes[d].algorithm == row.algorithm
            && entries[e].manager.identifying_hashes[d].digest == row.digest && is_file(
            state,
            row.file_id,
            entries[e].manager.internal.hash,
        )
}

/// After what a scraper brings has been written, each digest that it brings for a file stands in the table of digests,
/// unless its texts are empty or a row stands against it; digests that were there stay, and others do not come up.
pub proof fn scraped_digests_are_recorded(before: DbState, entries: Seq<ScrapedView>, after: DbState, e: int, d: int, file_id: u64)
    requires
        entries_processed(before, entries, after),
        before.consistent(),
        room_for_entries(before, entries),
        0 <= e < entries.len(),
        0 <= d < entries[e].manager.identifying_hashes.len(),
        is_file(after, file_id, entries[e].manager.internal.hash),
    ensures
        ({
            let digest = entries[e].manager.identifying_hashes[d];
            digest.algorithm.len() > 0 && digest.digest.len() > 0 ==> digest_answered(after.hashes, digest, file_id)
        }),
        before.hashes.len() <= after.hashes.len(),
        forall|k: int| 0 <= k < before.hashes.len() ==> #[trigger] after.hashes[k] == before.hashes[k],
        forall|k: int|
            before.hashes.len() <= k < after.hashes.len() ==> digest_brought(after, entries, #[trigger] after.hashes[k]),
{
    let known = before.with_entries_known(entries);
    let filed = DbState { files: files_upserted(before.files, scraped_files(entries)), ..before };
    lemma_known(before, entries);
    lemma_same_rows_after(before, entries, after);
    lemma_hashes_after(before, entries, after);
    adding_files_keeps_consistency(before, scraped_files(entries));
    crate::file::files_keep_their_ids(before.files, scraped_files(entries));
    assert forall|i: int| 0 <= i < entries.len() implies file_id_of(
        filed.files,
        (#[trigger] entries[i]).manager.internal.hash,
    ) is Some by {
        assert(scraped_files(entries)[i].hash == entries[i].manager.internal.hash);
    }
    lemma_entry_digests(filed, entries);
    lemma_plugin_tags_touch(filed.with_entry_digests(entries), scraped_tags(entries));
    lemma_is_file(known, entries[e].manager.internal.hash, file_id);
    lemma_rows_tell(known, after, entries, e, file_id, 0);
    assert(digest_answered(after.hashes, entries[e].manager.identifying_hashes[d], file_id)
        || entries[e].manager.identifying_hashes[d].algorithm.len() == 0
        || entries[e].manager.identifying_hashes[d].digest.len() == 0);
    assert forall|k: int| before.hashes.len() <= k < after.hashes.len() implies digest_brought(
        after,
        entries,
        #[trigger] after.hashes[k],
    ) by {
        let row = after.hashes[k];
        assert(digest_brought(filed, entries, row));
        let (i, n) = choose|i: int, n: int|
            #![trigger entries[i].manager.identifying_hashes[n]]
            0 <= i < entries.len() && 0 <= n < entries[i].manager.identifying_hashes.len()
                && entries[i].manager.identifying_hashes[n].algorithm == row.algorithm
                && entries[i].manager.identifying_hashes[n].digest == row.digest && is_file(
                filed,
                row.file_id,
                entries[i].manager.internal.hash,
            );
        let q = choose|q: int|
            0 <= q < filed.files.len() && (#[trigger] filed.files[q]).id == row.file_id && filed.files[q].hash == Some(
                entries[i].manager.internal.hash,
            );
        assert(after.files[q].id == row.file_id);
        assert(is_file(after, row.file_id, entries[i].manager.internal.hash));
        assert(entries[i].manager.identifying_hashes[n].algorithm == row.algorithm);
    }
}

/// Writing relationships leaves the digests.
proof fn lemma_hashes_after(before: DbState, entries: Seq<ScrapedView>, after: DbState)
    requires
        entries.len() > 0,
        entries_processed(before, entries, after),
    ensures
        after.hashes == before.with_entries_known(entries).hashes,
{
    let known = before.with_entries_known(entries);
    let ids = before.entry_tag_ids(entries);
    let (removed, added) = choose|removed: Seq<(u64, u64)>, added: Seq<(u64, u64)>|
        lists(removed, known.removals(entries, ids)) && lists(added, known.additions(entries, ids)) && after
            == #[trigger] known.with_changes(removed, added);
    reveal(DbState::without_relationships);
    lemma_relationships_touch(known.without_relationships(removed), added);
}

} // verus!
