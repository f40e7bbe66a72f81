//! What files are tagged with, told of the actions and the rows.
use crate::coherence::added_relationships_are_there;
use crate::consistency::{adding_relationships_keeps_consistency, adding_tags_keeps_consistency, lemma_tag_lists_len};
use crate::database::DbState;
use crate::namespace::described_once;
use crate::parents::tag_exists;
use crate::relationship::file_exists;
use crate::rows::{cached_ids, tag_ids, tag_keys};
use crate::scrape_outcomes::{brings_id, lemma_all_tags, lemma_all_tags_place, lemma_brought_listed};
use crate::tag::{
    added_tags_have_their_ids, all_plugin_tags, distinct_tags, forms_of, namespaces_of, newer_tags, stored_tags,
    stored_tags_of, tag_cached, tag_max_id, tags_cached, tags_upserted,
};
use crate::tag_actions::related;
use crate::tag_outcomes::{
    added_tags_are_here, any_brings, brings, called, has_tag, lemma_brings, lemma_has_tag, lemma_spaces_count,
    lemma_wanted_brought, room_for,
};
use crate::text::{lemma_pos, lemma_push_contains, pos};
use crate::types::{ActionView, PluginTagView, TagView};
use vstd::prelude::*;

verus! {

/// Whether actions bring the tag with an id.
pub open spec fn actions_bring(state: DbState, actions: Seq<ActionView>, id: u64) -> bool {
    exists|a: int, k: int|
        #![trigger actions[a].tags[k]]
        0 <= a < actions.len() && 0 <= k < actions[a].tags.len() && brings_id(state, actions[a].tags[k], id)
}

/// Whether a file comes with actions that bring the tag with an id.
pub open spec fn comes_with(state: DbState, files: Seq<(u64, Seq<ActionView>)>, file_id: u64, tag_id: u64) -> bool {
    exists|i: int|
        0 <= i < files.len() && (#[trigger] files[i]).0 == file_id && actions_bring(state, files[i].1, tag_id)
}

/// How many tags the actions on some files name.
pub open spec fn tags_named(files: Seq<(u64, Seq<ActionView>)>) -> nat
    decreases files.len(),
{
    if files.len() == 0 {
        0
    } else {
        tags_named(files.drop_last()) + all_plugin_tags(files.last().1).len()
    }
}

/// Whether there are numbers for all rows that tagging some files can bring.
pub open spec fn room_for_tagging(state: DbState, files: Seq<(u64, Seq<ActionView>)>) -> bool {
    &&& state.namespaces.len() + 3 * tags_named(files) <= u64::MAX
    &&& state.tags.len() + 3 * tags_named(files) <= u64::MAX
    &&& state.parents.len() + tags_named(files) <= u64::MAX
}

/// Whether the actions on each file give each namespace with one description.
pub open spec fn each_described_once(files: Seq<(u64, Seq<ActionView>)>) -> bool {
    forall|i: int| 0 <= i < files.len() ==> described_once(namespaces_of(all_plugin_tags((#[trigger] files[i]).1)))
}

/// A tag that actions bring is one that their list of tags brings.
proof fn lemma_actions_bring(state: DbState, actions: Seq<ActionView>, id: u64)
    ensures
        actions_bring(state, actions, id) <==> exists|n: int|
            0 <= n < all_plugin_tags(actions).len() && brings_id(state, #[trigger] all_plugin_tags(actions)[n], id),
{
    let tags = all_plugin_tags(actions);
    if actions_bring(state, actions, id) {
        let (a, k) = choose|a: int, k: int|
            #![trigger actions[a].tags[k]]
            0 <= a < actions.len() && 0 <= k < actions[a].tags.len() && brings_id(state, actions[a].tags[k], id);
        lemma_all_tags(actions, a, k);
        let n = choose|n: int| 0 <= n < tags.len() && tags[n] == actions[a].tags[k];
        assert(brings_id(state, tags[n], id));
    }
    if exists|n: int| 0 <= n < tags.len() && brings_id(state, #[trigger] tags[n], id) {
        let n = choose|n: int| 0 <= n < tags.len() && brings_id(state, #[trigger] tags[n], id);
        let (a, k) = lemma_all_tags_place(actions, n);
        assert(brings_id(state, actions[a].tags[k], id));
    }
}

proof fn lemma_related(list: Seq<(u64, u64)>, file_id: u64, ids: Seq<(TagView, u64)>, r: (u64, u64))
    ensures
        related(list, file_id, ids).contains(r) <==> list.contains(r) || (r.0 == file_id && exists|k: int|
            0 <= k < ids.len() && (#[trigger] ids[k]).1 == r.1),
    decreases ids.len(),
{
    if ids.len() > 0 {
        let shorter = ids.drop_last();
        lemma_related(list, file_id, shorter, r);
        let before = related(list, file_id, shorter);
        lemma_push_contains(before, (file_id, ids.last().1));
        if r.0 == file_id && exists|k: int| 0 <= k < shorter.len() && (#[trigger] shorter[k]).1 == r.1 {
            let k = choose|k: int| 0 <= k < shorter.len() && (#[trigger] shorter[k]).1 == r.1;
            assert(ids[k].1 == r.1);
        }
        if r == (file_id, ids.last().1) {
            assert(ids[ids.len() - 1].1 == r.1);
        }
        if exists|k: int| 0 <= k < ids.len() && (#[trigger] ids[k]).1 == r.1 {
            let k = choose|k: int| 0 <= k < ids.len() && (#[trigger] ids[k]).1 == r.1;
            if k < shorter.len() {
                assert(shorter[k].1 == r.1);
            }
        }
    }
}

/// The ids that adding tags gives out are those of the rows that the tags bring.
proof fn lemma_ids_brought(state: DbState, tags: Seq<PluginTagView>, id: u64)
    requires
        state.consistent(),
        room_for(state, tags),
        described_once(namespaces_of(tags)),
    ensures
        ({
            let after = state.with_plugin_tags(tags);
            let ids = state.plugin_tag_ids(tags);
            (exists|k: int| 0 <= k < ids.len() && (#[trigger] ids[k]).1 == id) <==> exists|n: int|
                0 <= n < tags.len() && brings_id(after, #[trigger] tags[n], id)
        }),
{
    let after = state.with_plugin_tags(tags);
    let ids = state.plugin_tag_ids(tags);
    let forms = forms_of(tags);
    let wanted = distinct_tags(stored_tags_of(tags));
    lemma_tag_lists_len(tags);
    adding_tags_keeps_consistency(state, tags);
    added_tags_have_their_ids(state, tags);
    if exists|k: int| 0 <= k < ids.len() && (#[trigger] ids[k]).1 == id {
        let k = choose|k: int| 0 <= k < ids.len() && (#[trigger] ids[k]).1 == id;
        let tag = ids[k].0;
        assert(after.tag_id(ids[k].0) == Some(id));
        lemma_has_tag(after, tag, id);
        lemma_wanted_brought(tags, k);
        let n = choose|n: int| 0 <= n < tags.len() && brings(#[trigger] tags[n], tag.name, tag.namespace.name);
        assert(has_tag(after, id, tag.name, tag.namespace.name) && brings(tags[n], tag.name, tag.namespace.name));
        assert(brings_id(after, tags[n], id));
    }
    if exists|n: int| 0 <= n < tags.len() && brings_id(after, #[trigger] tags[n], id) {
        let n = choose|n: int| 0 <= n < tags.len() && brings_id(after, #[trigger] tags[n], id);
        let (name, space) = choose|name: Seq<char>, space: Seq<char>| #[trigger]
            has_tag(after, id, name, space) && brings(tags[n], name, space);
        lemma_spaces_count(tags, n);
        lemma_brings(forms, tags[n], name, space);
        let s = choose|s: int|
            0 <= s < stored_tags(forms, tags[n]).len() && called(#[trigger] stored_tags(forms, tags[n])[s], name, space);
        let tag = stored_tags(forms, tags[n])[s];
        lemma_brought_listed(tags, n, s);
        let m = choose|m: int| 0 <= m < wanted.len() && wanted[m] == tag;
        assert(ids[m].0 == tag);
        assert(after.tag_id(ids[m].0) == Some(ids[m].1));
        lemma_has_tag(after, tag, id);
        assert(ids[m].1 == id);
    }
}

/// A tag that was brought before keeps its id when others are added.
proof fn lemma_brought_before(state: DbState, tags: Seq<PluginTagView>, tag: PluginTagView, id: u64)
    requires
        state.consistent(),
        room_for(state, tags),
        described_once(namespaces_of(tags)),
        forall|name: Seq<char>, space: Seq<char>| #[trigger]
            brings(tag, name, space) ==> exists|t: u64| #[trigger] has_tag(state, t, name, space),
    ensures
        brings_id(state.with_plugin_tags(tags), tag, id) <==> brings_id(state, tag, id),
{
    let after = state.with_plugin_tags(tags);
    lemma_tag_lists_len(tags);
    adding_tags_keeps_consistency(state, tags);
    if brings_id(state, tag, id) {
        let (name, space) = choose|name: Seq<char>, space: Seq<char>| #[trigger]
            has_tag(state, id, name, space) && brings(tag, name, space);
        added_tags_are_here(state, tags, name, space);
        assert(has_tag(after, id, name, space) && brings(tag, name, space));
    }
    if brings_id(after, tag, id) {
        let (name, space) = choose|name: Seq<char>, space: Seq<char>| #[trigger]
            has_tag(after, id, name, space) && brings(tag, name, space);
        added_tags_are_here(state, tags, name, space);
        let t = choose|t: u64| #[trigger] has_tag(state, t, name, space);
        assert(has_tag(after, t, name, space));
        lemma_one_id(after, name, space, t, id);
        assert(has_tag(state, id, name, space) && brings(tag, name, space));
    }
}

proof fn lemma_one_id(state: DbState, name: Seq<char>, space: Seq<char>, one: u64, other: u64)
    requires
        state.consistent(),
        has_tag(state, one, name, space),
        has_tag(state, other, name, space),
    ensures
        one == other,
{
    let tag = TagView { name, namespace: crate::types::NamespaceView { name: space, description: None } };
    lemma_has_tag(state, tag, one);
    lemma_has_tag(state, tag, other);
}

/// Whether all that the actions on some files bring is there.
spec fn all_here(state: DbState, files: Seq<(u64, Seq<ActionView>)>) -> bool {
    forall|i: int, a: int, k: int, name: Seq<char>, space: Seq<char>|
        #![trigger brings(files[i].1[a].tags[k], name, space)]
        0 <= i < files.len() && 0 <= a < files[i].1.len() && 0 <= k < files[i].1[a].tags.len() && brings(
            files[i].1[a].tags[k],
            name,
            space,
        ) ==> exists|t: u64| #[trigger] has_tag(state, t, name, space)
}

proof fn lemma_file_tags(state: DbState, files: Seq<(u64, Seq<ActionView>)>)
    requires
        state.consistent(),
        room_for_tagging(state, files),
        each_described_once(files),
    ensures
        ({
            let (after, list) = state.with_file_tags(files);
            &&& after.consistent()
            &&& after.files == state.files
            &&& after.relationships == state.relationships
            &&& after.namespaces.len() <= state.namespaces.len() + 3 * tags_named(files)
            &&& after.tags.len() <= state.tags.len() + 3 * tags_named(files)
            &&& after.parents.len() <= state.parents.len() + tags_named(files)
            &&& all_here(after, files)
            &&& forall|f: u64, t: u64| #[trigger] list.contains((f, t)) <==> comes_with(after, files, f, t)
        }),
    decreases files.len(),
{
    if files.len() > 0 {
        let shorter = files.drop_last();
        assert forall|i: int| 0 <= i < shorter.len() implies described_once(
            namespaces_of(all_plugin_tags((#[trigger] shorter[i]).1)),
        ) by {
            assert(shorter[i] == files[i]);
        }
        lemma_file_tags(state, shorter);
        let (before, earlier) = state.with_file_tags(shorter);
        let (after, list) = state.with_file_tags(files);
        let (file_id, actions) = files.last();
        let tags = all_plugin_tags(actions);
        let last = files.len() - 1;
        assert(files[last].1 == actions);
        lemma_tag_lists_len(tags);
        adding_tags_keeps_consistency(before, tags);
        assert forall|i: int, a: int, k: int, name: Seq<char>, space: Seq<char>|
            #![trigger brings(files[i].1[a].tags[k], name, space)]
            0 <= i < files.len() && 0 <= a < files[i].1.len() && 0 <= k < files[i].1[a].tags.len() && brings(
                files[i].1[a].tags[k],
                name,
                space,
            ) implies exists|t: u64| #[trigger] has_tag(after, t, name, space) by {
            added_tags_are_here(before, tags, name, space);
            if i < shorter.len() {
                assert(shorter[i] == files[i]);
                assert(brings(shorter[i].1[a].tags[k], name, space));
                let t = choose|t: u64| #[trigger] has_tag(before, t, name, space);
                assert(has_tag(after, t, name, space));
            } else {
                lemma_all_tags(actions, a, k);
                let n = choose|n: int| 0 <= n < tags.len() && tags[n] == actions[a].tags[k];
                assert(brings(tags[n], name, space));
                assert(any_brings(tags, name, space));
            }
        }
        assert forall|f: u64, t: u64| #[trigger] list.contains((f, t)) <==> comes_with(after, files, f, t) by {
            lemma_related(earlier, file_id, before.plugin_tag_ids(tags), (f, t));
            lemma_ids_brought(before, tags, t);
            lemma_actions_bring(after, actions, t);
            assert(earlier.contains((f, t)) <==> comes_with(before, shorter, f, t));
            if comes_with(before, shorter, f, t) {
                let i = choose|i: int|
                    0 <= i < shorter.len() && (#[trigger] shorter[i]).0 == f && actions_bring(before, shorter[i].1, t);
                assert(shorter[i] == files[i]);
                let (a, k) = choose|a: int, k: int|
                    #![trigger shorter[i].1[a].tags[k]]
                    0 <= a < shorter[i].1.len() && 0 <= k < shorter[i].1[a].tags.len() && brings_id(
                        before,
                        shorter[i].1[a].tags[k],
                        t,
                    );
                lemma_known_brought(before, shorter, i, a, k);
                lemma_brought_before(before, tags, shorter[i].1[a].tags[k], t);
                assert(brings_id(after, files[i].1[a].tags[k], t));
                assert(actions_bring(after, files[i].1, t));
            }
            if actions_bring(after, actions, t) && f == file_id {
                assert(files[last].0 == f && actions_bring(after, files[last].1, t));
            }
            if comes_with(after, files, f, t) {
                let i = choose|i: int|
                    0 <= i < files.len() && (#[trigger] files[i]).0 == f && actions_bring(after, files[i].1, t);
                if i < shorter.len() {
                    assert(shorter[i] == files[i]);
                    let (a, k) = choose|a: int, k: int|
                        #![trigger shorter[i].1[a].tags[k]]
                        0 <= a < shorter[i].1.len() && 0 <= k < shorter[i].1[a].tags.len() && brings_id(
                            after,
                            shorter[i].1[a].tags[k],
                            t,
                        );
                    lemma_known_brought(before, shorter, i, a, k);
                    lemma_brought_before(before, tags, shorter[i].1[a].tags[k], t);
                    assert(actions_bring(before, shorter[i].1, t));
                }
            }
        }
    }
}

proof fn lemma_known_brought(state: DbState, files: Seq<(u64, Seq<ActionView>)>, i: int, a: int, k: int)
    requires
        all_here(state, files),
        0 <= i < files.len(),
        0 <= a < files[i].1.len(),
        0 <= k < files[i].1[a].tags.len(),
    ensures
        forall|name: Seq<char>, space: Seq<char>| #[trigger]
            brings(files[i].1[a].tags[k], name, space) ==> exists|t: u64| #[trigger] has_tag(state, t, name, space),
{
}

/// The rows say the same of a tag before and after relationships have been added.
proof fn lemma_same_tags(one: DbState, other: DbState, id: u64, name: Seq<char>, space: Seq<char>)
    requires
        one.namespaces == other.namespaces,
        tag_ids(one.tags) == tag_ids(other.tags),
        tag_keys(one.tags) == tag_keys(other.tags),
    ensures
        has_tag(one, id, name, space) ==> has_tag(other, id, name, space),
{
    if has_tag(one, id, name, space) {
        let (i, j) = choose|i: int, j: int|
            0 <= i < one.tags.len() && 0 <= j < one.namespaces.len() && (#[trigger] one.tags[i]).id == id
                && one.tags[i].name == name && (#[trigger] one.namespaces[j]).id == one.tags[i].namespace
                && one.namespaces[j].name == space;
        assert(one.tags.len() == tag_ids(one.tags).len() && other.tags.len() == tag_ids(other.tags).len());
        assert(tag_ids(one.tags)[i] == id);
        assert(tag_keys(one.tags)[i] == (name, one.tags[i].namespace));
        assert(tag_ids(other.tags)[i] == other.tags[i].id);
        assert(tag_keys(other.tags)[i] == (other.tags[i].name, other.tags[i].namespace));
        assert(other.namespaces[j].name == space);
    }
}

/// Tagging files gives each the tags that its actions bring, whatever they say is to be done with
/// them, and leaves it those that it had; no other file gets a tag.
pub proof fn tagged_files_have_the_tags_that_they_come_with(
    state: DbState,
    files: Seq<(u64, Seq<ActionView>)>,
    file_id: u64,
    tag_id: u64,
)
    requires
        state.consistent(),
        room_for_tagging(state, files),
        each_described_once(files),
        forall|i: int| 0 <= i < files.len() ==> file_exists(state.files, (#[trigger] files[i]).0),
    ensures
        state.with_tagged_files(files).relationships.contains((file_id, tag_id)) <==> state.relationships.contains(
            (file_id, tag_id),
        ) || comes_with(state.with_tagged_files(files), files, file_id, tag_id),
        state.with_tagged_files(files).files == state.files,
{
    let (tagged, list) = state.with_file_tags(files);
    lemma_file_tags(state, files);
    if files.len() > 0 {
        let after = state.with_tagged_files(files);
        assert forall|n: int| 0 <= n < list.len() implies file_exists(tagged.files, (#[trigger] list[n]).0) by {
            let (f, t) = list[n];
            assert(list.contains((f, t)));
            assert(comes_with(tagged, files, f, t));
        }
        added_relationships_are_there(tagged, list);
        adding_relationships_keeps_consistency(tagged, list);
        assert(list.to_set().contains((file_id, tag_id)) == list.contains((file_id, tag_id)));
        if comes_with(tagged, files, file_id, tag_id) {
            let i = choose|i: int|
                0 <= i < files.len() && (#[trigger] files[i]).0 == file_id && actions_bring(tagged, files[i].1, tag_id);
            lemma_same_bring(tagged, after, files[i].1, tag_id);
            let (a, k) = choose|a: int, k: int|
                #![trigger files[i].1[a].tags[k]]
                0 <= a < files[i].1.len() && 0 <= k < files[i].1[a].tags.len() && brings_id(
                    tagged,
                    files[i].1[a].tags[k],
                    tag_id,
                );
            let (name, space) = choose|name: Seq<char>, space: Seq<char>| #[trigger]
                has_tag(tagged, tag_id, name, space) && brings(files[i].1[a].tags[k], name, space);
            lemma_exists(tagged, tag_id, name, space);
        }
        if comes_with(after, files, file_id, tag_id) {
            let i = choose|i: int|
                0 <= i < files.len() && (#[trigger] files[i]).0 == file_id && actions_bring(after, files[i].1, tag_id);
            lemma_same_bring(after, tagged, files[i].1, tag_id);
            assert(comes_with(tagged, files, file_id, tag_id));
        }
    }
}

proof fn lemma_same_bring(one: DbState, other: DbState, actions: Seq<ActionView>, id: u64)
    requires
        one.namespaces == other.namespaces,
        tag_ids(one.tags) == tag_ids(other.tags),
        tag_keys(one.tags) == tag_keys(other.tags),
        actions_bring(one, actions, id),
    ensures
        actions_bring(other, actions, id),
{
    let (a, k) = choose|a: int, k: int|
        #![trigger actions[a].tags[k]]
        0 <= a < actions.len() && 0 <= k < actions[a].tags.len() && brings_id(one, actions[a].tags[k], id);
    let (name, space) = choose|name: Seq<char>, space: Seq<char>| #[trigger]
        has_tag(one, id, name, space) && brings(actions[a].tags[k], name, space);
    lemma_same_tags(one, other, id, name, space);
    assert(has_tag(other, id, name, space) && brings(actions[a].tags[k], name, space));
    assert(brings_id(other, actions[a].tags[k], id));
}

proof fn lemma_exists(state: DbState, id: u64, name: Seq<char>, space: Seq<char>)
    requires
        has_tag(state, id, name, space),
    ensures
        tag_exists(state.tags, id),
{
    let (i, j) = choose|i: int, j: int|
        0 <= i < state.tags.len() && 0 <= j < state.namespaces.len() && (#[trigger] state.tags[i]).id == id
            && state.tags[i].name == name && (#[trigger] state.namespaces[j]).id == state.tags[i].namespace
            && state.namespaces[j].name == space;
    lemma_pos(tag_ids(state.tags), id);
    assert(tag_ids(state.tags)[i] == id);
}

/// Tagging one file is tagging a list of one file.
pub proof fn tagging_one_file_is_tagging_a_list_of_one(state: DbState, file_id: u64, actions: Seq<ActionView>)
    ensures
        state.with_tag_actions(actions).with_relationships(
            related(Seq::empty(), file_id, state.tag_action_ids(actions)),
        ) == state.with_tagged_files(seq![(file_id, actions)]),
{
    let files = seq![(file_id, actions)];
    assert(files.drop_last() =~= Seq::empty());
    reveal_with_fuel(DbState::with_file_tags, 2);
}

/// The tag that a cache holds under an id.
spec fn held(cache: Seq<(u64, TagView)>, id: u64) -> Option<TagView> {
    let at = pos(cached_ids(cache), id);
    if at < cache.len() {
        Some(cache[at].1)
    } else {
        None
    }
}

proof fn lemma_tag_cached(cache: Seq<(u64, TagView)>, id: u64, tag: TagView, other: u64)
    ensures
        held(tag_cached(cache, id, tag), other) == (if other == id {
            Some(tag)
        } else {
            held(cache, other)
        }),
{
    let after = tag_cached(cache, id, tag);
    let ids = cached_ids(cache);
    let new_ids = cached_ids(after);
    lemma_pos(ids, id);
    lemma_pos(ids, other);
    lemma_pos(new_ids, other);
    let at = pos(ids, id);
    if at < cache.len() {
        assert(new_ids =~= ids);
    } else {
        assert(new_ids =~= ids.push(id));
        let i = pos(ids, other);
        let j = pos(new_ids, other);
        if i < cache.len() {
            assert(new_ids[i] == other);
            assert(j <= i);
            assert(ids[j] == other);
        } else if other == id {
            assert(new_ids[cache.len() as int] == other);
            if j < cache.len() {
                assert(ids[j] == other);
            }
        } else if j < after.len() {
            if j < cache.len() {
                assert(ids[j] == other);
            }
        }
    }
}

proof fn lemma_tags_cached(cache: Seq<(u64, TagView)>, ids: Seq<(TagView, u64)>, id: u64)
    ensures
        (exists|k: int| 0 <= k < ids.len() && (#[trigger] ids[k]).1 == id) ==> exists|k: int|
            0 <= k < ids.len() && (#[trigger] ids[k]).1 == id && held(tags_cached(cache, ids), id) == Some(ids[k].0),
        (forall|k: int| 0 <= k < ids.len() ==> (#[trigger] ids[k]).1 != id) ==> held(tags_cached(cache, ids), id) == held(
            cache,
            id,
        ),
    decreases ids.len(),
{
    if ids.len() > 0 {
        let shorter = ids.drop_last();
        let last = ids.last();
        lemma_tags_cached(cache, shorter, id);
        lemma_tag_cached(tags_cached(cache, shorter), last.1, last.0, id);
        assert(ids[ids.len() - 1] == last);
        if last.1 != id {
            if exists|k: int| 0 <= k < ids.len() && (#[trigger] ids[k]).1 == id {
                let k = choose|k: int| 0 <= k < ids.len() && (#[trigger] ids[k]).1 == id;
                assert(shorter[k].1 == id);
                let q = choose|q: int|
                    0 <= q < shorter.len() && (#[trigger] shorter[q]).1 == id && held(tags_cached(cache, shorter), id)
                        == Some(shorter[q].0);
                assert(ids[q].1 == id);
            } else {
                assert forall|k: int| 0 <= k < shorter.len() implies (#[trigger] shorter[k]).1 != id by {
                    assert(ids[k].1 == shorter[k].1);
                }
            }
        }
    }
}

/// A tag that was added is held in the cache under its id as the rows call it, and what the cache holds
/// under another id stays.
pub proof fn added_tags_are_cached(state: DbState, tags: Seq<PluginTagView>, id: u64)
    requires
        state.consistent(),
        room_for(state, tags),
        described_once(namespaces_of(tags)),
    ensures
        ({
            let after = state.with_plugin_tags(tags);
            let brought = exists|n: int| 0 <= n < tags.len() && brings_id(after, #[trigger] tags[n], id);
            &&& brought ==> after.cached_tag(id) is Some && has_tag(
                after,
                id,
                after.cached_tag(id)->0.name,
                after.cached_tag(id)->0.namespace.name,
            )
            &&& !brought ==> after.cached_tag(id) == state.cached_tag(id)
        }),
{
    let after = state.with_plugin_tags(tags);
    let ids = state.plugin_tag_ids(tags);
    lemma_tag_lists_len(tags);
    adding_tags_keeps_consistency(state, tags);
    added_tags_have_their_ids(state, tags);
    lemma_ids_brought(state, tags, id);
    lemma_cache_after(state, tags);
    lemma_tags_cached(state.tag_cache, ids, id);
    if exists|k: int| 0 <= k < ids.len() && (#[trigger] ids[k]).1 == id {
        let k = choose|k: int|
            0 <= k < ids.len() && (#[trigger] ids[k]).1 == id && held(tags_cached(state.tag_cache, ids), id) == Some(
                ids[k].0,
            );
        lemma_has_tag(after, ids[k].0, id);
    } else {
        assert forall|k: int| 0 <= k < ids.len() implies (#[trigger] ids[k]).1 != id by {}
    }
}

proof fn lemma_cache_after(state: DbState, tags: Seq<PluginTagView>)
    ensures
        state.with_plugin_tags(tags).tag_cache == tags_cached(state.tag_cache, state.plugin_tag_ids(tags)),
{
    reveal(DbState::with_plugin_tags);
    crate::tag::lemma_with_namespaces(state, namespaces_of(tags));
    let wanted = distinct_tags(stored_tags_of(tags));
    let after = state.with_plugin_tags(tags);
    let ids = state.plugin_tag_ids(tags);
    if wanted.len() > 0 {
        let named = DbState { tag_search_dirty: true, ..state.with_namespaces(namespaces_of(tags)) };
        let added = DbState { tags: tags_upserted(named.tags, named.namespaces, wanted), ..named };
        let announced = DbState {
            regex_tags: match added.regex_tags {
                Some(waiting) => Some(waiting + newer_tags(added.with_ids(wanted), tag_max_id(named.tags))),
                None => None,
            },
            ..added
        };
        crate::parents::lemma_with_relations(announced, announced.relations_of(tags));
        assert(after.tags == added.tags && after.namespaces == added.namespaces);
        assert(added.with_ids(wanted) =~= ids);
    } else {
        assert(ids =~= Seq::empty());
    }
}

} // verus!
