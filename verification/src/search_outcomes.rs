//! What searches give, told of the rows of the tables and of the groups that are asked for.
use crate::bitmap::descending_listing;
use crate::bitmap_cache::{all_have, any_has, page};
use crate::database::DbState;
use crate::parents::tag_exists;
use crate::relationship::files_with;
use crate::rows::{cached_ids, file_ids, tag_ids};
use crate::search::{
    all_sets, and_tags, any_active, any_positive, found_files, meets, newest_first, search_does_not_depend_on_memory,
    tagged_search_does_not_depend_on_memory,
};
use crate::tag_search::{flattened, grouped_search};
use crate::text::{lemma_pos, pos};
use crate::types::HolderView;
use vstd::prelude::*;

verus! {

/// Whether the tag table has a row with an id.
pub open spec fn tag_row(state: DbState, id: u64) -> bool {
    exists|i: int| 0 <= i < state.tags.len() && (#[trigger] state.tags[i]).id == id
}

/// Whether a tag is known: the tag table has it, or the cache of tags.
pub open spec fn tag_known(state: DbState, id: u64) -> bool {
    tag_row(state, id) || exists|i: int| 0 <= i < state.tag_cache.len() && (#[trigger] state.tag_cache[i]).0 == id
}

/// Whether the file table has a row with an id.
pub open spec fn file_row(state: DbState, id: u64) -> bool {
    exists|i: int| 0 <= i < state.files.len() && (#[trigger] state.files[i]).id == id
}

/// The tags that a group names.
pub open spec fn named(group: HolderView) -> Seq<u64> {
    match group {
        HolderView::And(ids) => ids,
        HolderView::Or(ids) => ids,
        HolderView::Not(ids) => ids,
    }
}

/// Whether memory, where there is one, holds of each tag the files that have it, and of known tags alone.
pub open spec fn memory_true(state: DbState) -> bool {
    state.memory matches Some(memory) ==> forall|t: u64| #[trigger]
        memory.tag_id.dom().contains(t) ==> tag_known(state, t) && forall|f: u64| #[trigger]
            memory.tag_id[t].contains(f) <==> state.relationships.contains((f, t))
}

/// Whether a file is right for a group, as far as its tags are known; a group without a known tag is passed over.
pub open spec fn right_for(state: DbState, group: HolderView, file_id: u64) -> bool {
    match group {
        HolderView::And(ids) => forall|k: int|
            0 <= k < ids.len() && tag_known(state, #[trigger] ids[k]) ==> state.relationships.contains((file_id, ids[k])),
        HolderView::Or(ids) => (forall|k: int| 0 <= k < ids.len() ==> !tag_known(state, #[trigger] ids[k])) || exists|k: int|
            0 <= k < ids.len() && tag_known(state, #[trigger] ids[k]) && state.relationships.contains((file_id, ids[k])),
        HolderView::Not(ids) => forall|k: int|
            0 <= k < ids.len() && tag_known(state, #[trigger] ids[k]) ==> !state.relationships.contains((file_id, ids[k])),
    }
}

/// Whether a group names a tag that is known.
pub open spec fn names_known(state: DbState, group: HolderView) -> bool {
    exists|k: int| 0 <= k < named(group).len() && tag_known(state, #[trigger] named(group)[k])
}

proof fn lemma_tag_row(state: DbState, id: u64)
    ensures
        tag_exists(state.tags, id) <==> tag_row(state, id),
        state.known_sets().dom().contains(id) <==> tag_known(state, id),
{
    lemma_pos(tag_ids(state.tags), id);
    lemma_pos(cached_ids(state.tag_cache), id);
    let at = pos(tag_ids(state.tags), id);
    if at < state.tags.len() {
        assert(tag_ids(state.tags)[at] == state.tags[at].id);
    }
    if tag_row(state, id) {
        let i = choose|i: int| 0 <= i < state.tags.len() && (#[trigger] state.tags[i]).id == id;
        assert(tag_ids(state.tags)[i] == id);
    }
    let c = pos(cached_ids(state.tag_cache), id);
    if c < state.tag_cache.len() {
        assert(cached_ids(state.tag_cache)[c] == state.tag_cache[c].0);
    }
    if exists|i: int| 0 <= i < state.tag_cache.len() && (#[trigger] state.tag_cache[i]).0 == id {
        let i = choose|i: int| 0 <= i < state.tag_cache.len() && (#[trigger] state.tag_cache[i]).0 == id;
        assert(cached_ids(state.tag_cache)[i] == id);
    }
}

proof fn lemma_file_row(state: DbState, id: u64)
    ensures
        state.all_files().contains(id) <==> file_row(state, id),
{
    let ids = file_ids(state.files);
    if ids.contains(id) {
        let i = choose|i: int| 0 <= i < ids.len() && ids[i] == id;
        assert(state.files[i].id == id);
    }
    if file_row(state, id) {
        let i = choose|i: int| 0 <= i < state.files.len() && (#[trigger] state.files[i]).id == id;
        assert(ids[i] == id);
    }
    assert(ids.to_set().contains(id) == ids.contains(id));
}

proof fn lemma_memory_true(state: DbState)
    requires
        memory_true(state),
    ensures
        state.memory_coherent(),
{
    if let Some(memory) = state.memory {
        assert forall|t: u64| #[trigger] memory.tag_id.dom().contains(t) implies memory.tag_id[t] == files_with(
            state.relationships,
            t,
        ) && state.known_sets().dom().contains(t) by {
            lemma_tag_row(state, t);
            assert(memory.tag_id[t] =~= files_with(state.relationships, t));
        }
    }
}

/// A group's condition by the sets of the known tags is what the relationships say.
proof fn lemma_right_for(state: DbState, group: HolderView, file_id: u64)
    ensures
        group.active(state.known_sets()) <==> names_known(state, group),
        (group.active(state.known_sets()) ==> group.allows(state.known_sets(), file_id)) <==> right_for(
            state,
            group,
            file_id,
        ),
{
    let sets = state.known_sets();
    let ids = named(group);
    assert(group.ids() == ids);
    assert forall|t: u64| #[trigger] sets.dom().contains(t) <==> tag_known(state, t) by {
        lemma_tag_row(state, t);
    }
    assert forall|t: u64| #[trigger] sets.dom().contains(t) implies sets[t].contains(file_id)
        == state.relationships.contains((file_id, t)) by {}
    if group.active(sets) {
        let k = choose|k: int| 0 <= k < group.ids().len() && sets.dom().contains(#[trigger] group.ids()[k]);
        assert(tag_known(state, named(group)[k]));
    }
    if names_known(state, group) {
        let k = choose|k: int| 0 <= k < named(group).len() && tag_known(state, #[trigger] named(group)[k]);
        assert(sets.dom().contains(group.ids()[k]));
    }
    match group {
        HolderView::And(list) => {
            assert(list == ids);
            if group.active(sets) && all_have(sets, ids, file_id) {
                assert forall|k: int| 0 <= k < list.len() && tag_known(state, #[trigger] list[k]) implies state.relationships.contains(
                    (file_id, list[k]),
                ) by {
                    assert(sets.dom().contains(ids[k]));
                }
            }
            if right_for(state, group, file_id) {
                assert forall|k: int| 0 <= k < ids.len() && sets.dom().contains(#[trigger] ids[k]) implies sets[ids[k]].contains(
                    file_id,
                ) by {
                    assert(tag_known(state, list[k]));
                }
            }
            if !group.active(sets) {
                assert forall|k: int| 0 <= k < list.len() && tag_known(state, #[trigger] list[k]) implies state.relationships.contains(
                    (file_id, list[k]),
                ) by {
                    assert(tag_known(state, named(group)[k]));
                }
            }
        },
        _ => {
            if any_has(sets, ids, file_id) {
                let k = choose|k: int|
                    0 <= k < ids.len() && sets.dom().contains(#[trigger] ids[k]) && sets[ids[k]].contains(file_id);
                assert(tag_known(state, ids[k]));
                assert(state.relationships.contains((file_id, ids[k])));
            }
            if exists|k: int|
                0 <= k < ids.len() && tag_known(state, #[trigger] ids[k]) && state.relationships.contains((file_id, ids[k])) {
                let k = choose|k: int|
                    0 <= k < ids.len() && tag_known(state, #[trigger] ids[k]) && state.relationships.contains(
                        (file_id, ids[k]),
                    );
                assert(sets.dom().contains(ids[k]));
                assert(any_has(sets, ids, file_id));
            }
            if !(forall|k: int| 0 <= k < ids.len() ==> !tag_known(state, #[trigger] ids[k])) {
                let k = choose|k: int| 0 <= k < ids.len() && tag_known(state, #[trigger] ids[k]);
                assert(tag_known(state, named(group)[k]));
            }
        },
    }
}

/// A search finds a file exactly if it is right for every group. Groups whose tags are all unknown are passed over.
/// Where every group that counts asks against tags, the files of the file table are looked at; where no group
/// counts, nothing is found.
pub proof fn searches_find_the_files_that_are_right(
    state: DbState,
    searches: Seq<HolderView>,
    result: Seq<u64>,
    file_id: u64,
)
    requires
        memory_true(state),
        newest_first(result, state.search_files(searches), None),
    ensures
        result.contains(file_id) <==> {
            &&& exists|i: int| 0 <= i < searches.len() && names_known(state, #[trigger] searches[i])
            &&& forall|i: int| 0 <= i < searches.len() ==> right_for(state, #[trigger] searches[i], file_id)
            &&& (forall|i: int|
                0 <= i < searches.len() && names_known(state, #[trigger] searches[i]) ==> searches[i] is Not) ==> file_row(
                state,
                file_id,
            )
        },
{
    lemma_memory_true(state);
    search_does_not_depend_on_memory(state, searches);
    let bare = DbState { memory: None, ..state };
    let sets = state.known_sets();
    assert(bare.known_sets() =~= sets);
    lemma_file_row(state, file_id);
    lemma_listed(result, state.search_files(searches), None);
    assert forall|i: int| 0 <= i < searches.len() implies {
        &&& (#[trigger] searches[i]).active(sets) <==> names_known(state, searches[i])
        &&& (searches[i].active(sets) ==> searches[i].allows(sets, file_id)) <==> right_for(state, searches[i], file_id)
    } by {
        lemma_right_for(state, searches[i], file_id);
    }
    if any_active(sets, searches) {
        let i = choose|i: int| 0 <= i < searches.len() && (#[trigger] searches[i]).active(sets);
        assert(names_known(state, searches[i]));
    }
    if exists|i: int| 0 <= i < searches.len() && names_known(state, #[trigger] searches[i]) {
        let i = choose|i: int| 0 <= i < searches.len() && names_known(state, #[trigger] searches[i]);
        assert(searches[i].active(sets));
    }
    if any_positive(sets, searches) {
        let i = choose|i: int| 0 <= i < searches.len() && (#[trigger] searches[i]).active(sets) && !(searches[i] is Not);
        assert(names_known(state, searches[i]));
    }
    if !(forall|i: int| 0 <= i < searches.len() && names_known(state, #[trigger] searches[i]) ==> searches[i] is Not) {
        let i = choose|i: int|
            0 <= i < searches.len() && names_known(state, #[trigger] searches[i]) && !(searches[i] is Not);
        assert(searches[i].active(sets));
        assert(any_positive(sets, searches));
    }
    assert(meets(sets, searches, file_id) <==> forall|i: int|
        0 <= i < searches.len() ==> right_for(state, #[trigger] searches[i], file_id)) by {
        if meets(sets, searches, file_id) {
            assert forall|i: int| 0 <= i < searches.len() implies right_for(state, #[trigger] searches[i], file_id) by {
                assert(searches[i].active(sets) ==> searches[i].allows(sets, file_id));
            }
        }
        if forall|i: int| 0 <= i < searches.len() ==> right_for(state, #[trigger] searches[i], file_id) {
            assert forall|i: int| 0 <= i < searches.len() && (#[trigger] searches[i]).active(sets) implies searches[i].allows(
                sets,
                file_id,
            ) by {
                assert(right_for(state, searches[i], file_id));
            }
        }
    }
    let found = found_files(sets, searches, state.all_files());
    assert(state.search_files(searches) == found);
    assert(result.contains(file_id) <==> found.contains(file_id));
    let positive = exists|i: int|
        0 <= i < searches.len() && names_known(state, #[trigger] searches[i]) && !(searches[i] is Not);
    let counts = exists|i: int| 0 <= i < searches.len() && names_known(state, #[trigger] searches[i]);
    assert(positive <==> any_positive(sets, searches));
    assert(counts <==> any_active(sets, searches));
    if positive {
        let i = choose|i: int|
            0 <= i < searches.len() && names_known(state, #[trigger] searches[i]) && !(searches[i] is Not);
        assert(counts);
    }
}

/// Where all tags that a search names exist, at least one is named and all groups ask against tags, it finds the
/// files of the file table that have none of the named tags.
pub proof fn searches_against_tags_leave_the_other_files(
    state: DbState,
    searches: Seq<HolderView>,
    result: Seq<u64>,
    file_id: u64,
)
    requires
        memory_true(state),
        newest_first(result, state.search_files(searches), None),
        forall|i: int| 0 <= i < searches.len() ==> (#[trigger] searches[i]) is Not,
        forall|i: int, k: int|
            #![trigger named(searches[i])[k]]
            0 <= i < searches.len() && 0 <= k < named(searches[i]).len() ==> tag_row(state, named(searches[i])[k]),
        exists|i: int| 0 <= i < searches.len() && named(#[trigger] searches[i]).len() > 0,
    ensures
        result.contains(file_id) <==> file_row(state, file_id) && forall|i: int, k: int|
            #![trigger named(searches[i])[k]]
            0 <= i < searches.len() && 0 <= k < named(searches[i]).len() ==> !state.relationships.contains(
                (file_id, named(searches[i])[k]),
            ),
{
    searches_find_the_files_that_are_right(state, searches, result, file_id);
    let p = choose|p: int| 0 <= p < searches.len() && named(#[trigger] searches[p]).len() > 0;
    assert(tag_row(state, named(searches[p])[0]));
    assert(tag_known(state, named(searches[p])[0]));
    assert(names_known(state, searches[p]));
    if result.contains(file_id) {
        assert forall|i: int, k: int|
            #![trigger named(searches[i])[k]]
            0 <= i < searches.len() && 0 <= k < named(searches[i]).len() implies !state.relationships.contains(
            (file_id, named(searches[i])[k]),
        ) by {
            assert(right_for(state, searches[i], file_id));
            assert(tag_row(state, named(searches[i])[k]));
            match searches[i] {
                HolderView::Not(ids) => {
                    assert(tag_known(state, ids[k]));
                },
                _ => {},
            }
        }
    }
    if file_row(state, file_id) && forall|i: int, k: int|
        #![trigger named(searches[i])[k]]
        0 <= i < searches.len() && 0 <= k < named(searches[i]).len() ==> !state.relationships.contains(
            (file_id, named(searches[i])[k]),
        ) {
        assert forall|i: int| 0 <= i < searches.len() implies right_for(state, #[trigger] searches[i], file_id) by {
            match searches[i] {
                HolderView::Not(ids) => {
                    assert forall|k: int| 0 <= k < ids.len() && tag_known(state, #[trigger] ids[k]) implies !state.relationships.contains(
                        (file_id, ids[k]),
                    ) by {
                        assert(named(searches[i])[k] == ids[k]);
                    }
                },
                _ => {},
            }
        }
    }
}

/// What is listed newest first falls from file to file, so that none comes twice, and holds files that were found;
/// without a limit all of them. A limit keeps as many as it says, or all where there are fewer, and what it leaves
/// out is older than what it keeps.
pub proof fn lists_are_newest_first(result: Seq<u64>, files: Set<u64>, limit: Option<u64>)
    requires
        newest_first(result, files, limit),
    ensures
        forall|i: int, k: int| 0 <= i < k < result.len() ==> #[trigger] result[i] > #[trigger] result[k],
        forall|i: int| 0 <= i < result.len() ==> files.contains(#[trigger] result[i]),
        limit is None ==> forall|f: u64| #[trigger] files.contains(f) ==> result.contains(f),
        limit matches Some(most) ==> result.len() <= most && forall|f: u64| #[trigger]
            files.contains(f) && !result.contains(f) ==> result.len() == most && forall|i: int|
                0 <= i < result.len() ==> #[trigger] result[i] > f,
{
    lemma_listed(result, files, limit);
}

proof fn lemma_listed(result: Seq<u64>, files: Set<u64>, limit: Option<u64>)
    requires
        newest_first(result, files, limit),
    ensures
        forall|i: int, k: int| 0 <= i < k < result.len() ==> #[trigger] result[i] > #[trigger] result[k],
        forall|i: int| 0 <= i < result.len() ==> files.contains(#[trigger] result[i]),
        forall|f: u64| #[trigger] result.contains(f) ==> files.contains(f),
        limit is None ==> forall|f: u64| #[trigger] files.contains(f) ==> result.contains(f),
        limit matches Some(most) ==> result.len() <= most && forall|f: u64| #[trigger]
            files.contains(f) && !result.contains(f) ==> result.len() == most && forall|i: int|
                0 <= i < result.len() ==> #[trigger] result[i] > f,
{
    let all = choose|all: Seq<u64>| #[trigger] descending_listing(all, files) && result == page(all, None, limit);
    assert(all.skip(0) =~= all);
    assert forall|i: int| 0 <= i < result.len() implies files.contains(#[trigger] result[i]) by {
        assert(result[i] == all[i]);
        assert(all.contains(all[i]));
    }
    assert forall|f: u64| #[trigger] files.contains(f) && !result.contains(f) implies limit is Some && result.len()
        == limit->0 && forall|i: int| 0 <= i < result.len() ==> #[trigger] result[i] > f by {
        assert(all.contains(f));
        let k = choose|k: int| 0 <= k < all.len() && all[k] == f;
        if k < result.len() {
            assert(result[k] == f);
        }
        assert forall|i: int| 0 <= i < result.len() implies #[trigger] result[i] > f by {
            assert(all[i] > all[k]);
        }
    }
}

// Searches by names and ids.

/// Whether a file has one of some tags.
pub open spec fn has_one(state: DbState, file_id: u64, ids: Seq<u64>) -> bool {
    exists|k: int| 0 <= k < ids.len() && state.relationships.contains((file_id, #[trigger] ids[k]))
}

/// Whether a file has a tag of one of some lists.
pub open spec fn has_one_listed(state: DbState, file_id: u64, lists: Seq<Seq<u64>>) -> bool {
    exists|i: int| 0 <= i < lists.len() && has_one(state, file_id, #[trigger] lists[i])
}

/// Whether all tags of some lists have rows.
pub open spec fn all_rows(state: DbState, lists: Seq<Seq<u64>>) -> bool {
    forall|i: int, k: int|
        #![trigger lists[i][k]]
        0 <= i < lists.len() && 0 <= k < lists[i].len() ==> tag_row(state, lists[i][k])
}

proof fn lemma_flattened(lists: Seq<Seq<u64>>)
    ensures
        forall|t: u64| #[trigger] flattened(lists).contains(t) <==> exists|i: int|
            0 <= i < lists.len() && (#[trigger] lists[i]).contains(t),
    decreases lists.len(),
{
    if lists.len() > 0 {
        let shorter = lists.drop_last();
        lemma_flattened(shorter);
        let before = flattened(shorter);
        let after = flattened(lists);
        assert forall|t: u64| #[trigger] after.contains(t) <==> exists|i: int|
            0 <= i < lists.len() && (#[trigger] lists[i]).contains(t) by {
            if after.contains(t) {
                let n = choose|n: int| 0 <= n < after.len() && after[n] == t;
                if n < before.len() {
                    assert(before[n] == t);
                    assert(before.contains(t));
                    let i = choose|i: int| 0 <= i < shorter.len() && (#[trigger] shorter[i]).contains(t);
                    assert(lists[i].contains(t));
                } else {
                    assert(lists.last()[n - before.len()] == t);
                    assert(lists[lists.len() - 1].contains(t));
                }
            }
            if exists|i: int| 0 <= i < lists.len() && (#[trigger] lists[i]).contains(t) {
                let i = choose|i: int| 0 <= i < lists.len() && (#[trigger] lists[i]).contains(t);
                if i < shorter.len() {
                    assert(shorter[i].contains(t));
                    assert(before.contains(t));
                    let n = choose|n: int| 0 <= n < before.len() && before[n] == t;
                    assert(after[n] == t);
                } else {
                    let k = choose|k: int| 0 <= k < lists[i].len() && lists[i][k] == t;
                    assert(after[before.len() + k] == t);
                }
            }
        }
    }
}

/// What a list of ids and flattened lists have, their parts have.
proof fn lemma_one_of_both(state: DbState, file_id: u64, ids: Seq<u64>, lists: Seq<Seq<u64>>)
    ensures
        has_one(state, file_id, ids + flattened(lists)) <==> has_one(state, file_id, ids) || has_one_listed(
            state,
            file_id,
            lists,
        ),
        (ids + flattened(lists)).len() > 0 <==> ids.len() > 0 || exists|i: int|
            0 <= i < lists.len() && (#[trigger] lists[i]).len() > 0,
{
    let flat = flattened(lists);
    let both = ids + flat;
    lemma_flattened(lists);
    if has_one(state, file_id, both) {
        let k = choose|k: int| 0 <= k < both.len() && state.relationships.contains((file_id, #[trigger] both[k]));
        if k < ids.len() {
            assert(state.relationships.contains((file_id, ids[k])));
        } else {
            assert(flat[k - ids.len()] == both[k]);
            assert(flat.contains(both[k]));
            let i = choose|i: int| 0 <= i < lists.len() && (#[trigger] lists[i]).contains(both[k]);
            let j = choose|j: int| 0 <= j < lists[i].len() && lists[i][j] == both[k];
            assert(state.relationships.contains((file_id, lists[i][j])));
            assert(has_one(state, file_id, lists[i]));
        }
    }
    if has_one(state, file_id, ids) {
        let k = choose|k: int| 0 <= k < ids.len() && state.relationships.contains((file_id, #[trigger] ids[k]));
        assert(both[k] == ids[k]);
    }
    if has_one_listed(state, file_id, lists) {
        let i = choose|i: int| 0 <= i < lists.len() && has_one(state, file_id, #[trigger] lists[i]);
        let j = choose|j: int| 0 <= j < lists[i].len() && state.relationships.contains((file_id, #[trigger] lists[i][j]));
        assert(lists[i].contains(lists[i][j]));
        assert(flat.contains(lists[i][j]));
        let n = choose|n: int| 0 <= n < flat.len() && flat[n] == lists[i][j];
        assert(both[ids.len() + n] == lists[i][j]);
    }
    if flat.len() > 0 {
        assert(flat.contains(flat[0]));
        let i = choose|i: int| 0 <= i < lists.len() && (#[trigger] lists[i]).contains(flat[0]);
        assert(lists[i].len() > 0);
    }
    if exists|i: int| 0 <= i < lists.len() && (#[trigger] lists[i]).len() > 0 {
        let i = choose|i: int| 0 <= i < lists.len() && (#[trigger] lists[i]).len() > 0;
        assert(lists[i].contains(lists[i][0]));
        assert(flat.contains(lists[i][0]));
    }
}

proof fn lemma_rows_of_both(state: DbState, ids: Seq<u64>, lists: Seq<Seq<u64>>)
    requires
        forall|k: int| 0 <= k < ids.len() ==> tag_row(state, #[trigger] ids[k]),
        all_rows(state, lists),
    ensures
        forall|k: int| 0 <= k < (ids + flattened(lists)).len() ==> tag_row(state, #[trigger] (ids + flattened(lists))[k]),
{
    let flat = flattened(lists);
    let both = ids + flat;
    lemma_flattened(lists);
    assert forall|k: int| 0 <= k < both.len() implies tag_row(state, #[trigger] both[k]) by {
        if k < ids.len() {
            assert(both[k] == ids[k]);
        } else {
            assert(flat[k - ids.len()] == both[k]);
            assert(flat.contains(both[k]));
            let i = choose|i: int| 0 <= i < lists.len() && (#[trigger] lists[i]).contains(both[k]);
            let j = choose|j: int| 0 <= j < lists[i].len() && lists[i][j] == both[k];
            assert(tag_row(state, lists[i][j]));
        }
    }
}

/// What a group of tags that all have rows asks of a file.
proof fn lemma_right_rows(state: DbState, group: HolderView, file_id: u64)
    requires
        forall|k: int| 0 <= k < named(group).len() ==> tag_row(state, #[trigger] named(group)[k]),
        named(group).len() > 0,
    ensures
        names_known(state, group),
        group is And && named(group).len() == 1 ==> (right_for(state, group, file_id) <==> state.relationships.contains(
            (file_id, named(group)[0]),
        )),
        group is Or ==> (right_for(state, group, file_id) <==> has_one(state, file_id, named(group))),
        group is Not ==> (right_for(state, group, file_id) <==> !has_one(state, file_id, named(group))),
{
    let ids = named(group);
    assert forall|k: int| 0 <= k < ids.len() implies tag_known(state, #[trigger] ids[k]) by {
        assert(tag_row(state, named(group)[k]));
    }
    assert(tag_known(state, named(group)[0]));
    match group {
        HolderView::And(list) => {
            assert(list == ids);
            assert(tag_known(state, list[0]));
        },
        HolderView::Or(list) => {
            assert(list == ids);
            assert(tag_known(state, list[0]));
            if right_for(state, group, file_id) {
                let k = choose|k: int|
                    0 <= k < list.len() && tag_known(state, #[trigger] list[k]) && state.relationships.contains(
                        (file_id, list[k]),
                    );
                assert(state.relationships.contains((file_id, ids[k])));
            }
            if has_one(state, file_id, ids) {
                let k = choose|k: int| 0 <= k < ids.len() && state.relationships.contains((file_id, #[trigger] ids[k]));
                assert(tag_known(state, list[k]));
            }
        },
        HolderView::Not(list) => {
            assert(list == ids);
            if has_one(state, file_id, ids) {
                let k = choose|k: int| 0 <= k < ids.len() && state.relationships.contains((file_id, #[trigger] ids[k]));
                assert(tag_known(state, list[k]));
            }
            if !right_for(state, group, file_id) {
                let k = choose|k: int|
                    0 <= k < list.len() && tag_known(state, #[trigger] list[k]) && state.relationships.contains(
                        (file_id, list[k]),
                    );
                assert(state.relationships.contains((file_id, ids[k])));
            }
        },
    }
}

/// A search by names and ids, where all tags exist, finds a file exactly if it has every required tag, for each
/// required name one of the tags that answer to it, one of those of which one must be there, where any is given, and
/// none of those that are excluded by their id or by a name. Where nothing is required, excluded tags are taken from
/// the files of the file table; where nothing at all is given, nothing is found.
pub proof fn grouped_searches_find_what_the_groups_say(
    state: DbState,
    and_ids: Seq<u64>,
    and_names: Seq<Seq<u64>>,
    or_ids: Seq<u64>,
    or_names: Seq<Seq<u64>>,
    not_ids: Seq<u64>,
    not_names: Seq<Seq<u64>>,
    result: Seq<u64>,
    file_id: u64,
)
    requires
        memory_true(state),
        forall|k: int| 0 <= k < and_ids.len() ==> tag_row(state, #[trigger] and_ids[k]),
        forall|k: int| 0 <= k < or_ids.len() ==> tag_row(state, #[trigger] or_ids[k]),
        forall|k: int| 0 <= k < not_ids.len() ==> tag_row(state, #[trigger] not_ids[k]),
        all_rows(state, and_names),
        all_rows(state, or_names),
        all_rows(state, not_names),
        grouped_search(and_ids, and_names, or_ids, or_names, not_ids, not_names) matches Some(searches) && newest_first(
            result,
            state.search_files(searches),
            None,
        ),
    ensures
        ({
            let either = or_ids.len() > 0 || exists|i: int| 0 <= i < or_names.len() && (#[trigger] or_names[i]).len() > 0;
            let against = not_ids.len() > 0 || exists|i: int| 0 <= i < not_names.len() && (#[trigger] not_names[i]).len() > 0;
            let required = and_ids.len() > 0 || and_names.len() > 0 || either;
            result.contains(file_id) <==> {
                &&& required || against
                &&& forall|k: int| 0 <= k < and_ids.len() ==> state.relationships.contains((file_id, #[trigger] and_ids[k]))
                &&& forall|i: int| 0 <= i < and_names.len() ==> has_one(state, file_id, #[trigger] and_names[i])
                &&& either ==> has_one(state, file_id, or_ids) || has_one_listed(state, file_id, or_names)
                &&& !has_one(state, file_id, not_ids)
                &&& !has_one_listed(state, file_id, not_names)
                &&& required || file_row(state, file_id)
            }
        }),
{
    let searches = grouped_search(and_ids, and_names, or_ids, or_names, not_ids, not_names)->0;
    searches_find_the_files_that_are_right(state, searches, result, file_id);
    let e = or_ids + flattened(or_names);
    let n = not_ids + flattened(not_names);
    lemma_one_of_both(state, file_id, or_ids, or_names);
    lemma_one_of_both(state, file_id, not_ids, not_names);
    lemma_rows_of_both(state, or_ids, or_names);
    lemma_rows_of_both(state, not_ids, not_names);
    let a = and_ids.len() as int;
    let b = a + and_names.len();
    let c = b + if e.len() > 0 {
        1int
    } else {
        0
    };
    assert(searches.len() == c + if n.len() > 0 {
        1int
    } else {
        0
    });
    assert forall|i: int| 0 <= i < a implies (#[trigger] searches[i]) == HolderView::And(seq![and_ids[i]]) by {}
    assert forall|i: int| a <= i < b implies (#[trigger] searches[i]) == HolderView::Or(and_names[i - a]) by {}
    if e.len() > 0 {
        assert(searches[b] == HolderView::Or(e));
    }
    if n.len() > 0 {
        assert(searches[c] == HolderView::Not(n));
    }
    assert forall|i: int| 0 <= i < a implies names_known(state, #[trigger] searches[i]) && (right_for(
        state,
        searches[i],
        file_id,
    ) <==> state.relationships.contains((file_id, and_ids[i]))) by {
        assert(named(searches[i]) == seq![and_ids[i]]);
        assert(tag_row(state, and_ids[i]));
        lemma_right_rows(state, searches[i], file_id);
    }
    assert forall|i: int| a <= i < b implies names_known(state, #[trigger] searches[i]) && (right_for(
        state,
        searches[i],
        file_id,
    ) <==> has_one(state, file_id, and_names[i - a])) by {
        assert(named(searches[i]) == and_names[i - a]);
        assert(and_names[i - a].len() > 0);
        assert forall|k: int| 0 <= k < named(searches[i]).len() implies tag_row(state, #[trigger] named(searches[i])[k]) by {
            assert(tag_row(state, and_names[i - a][k]));
        }
        lemma_right_rows(state, searches[i], file_id);
    }
    if e.len() > 0 {
        assert(named(searches[b]) == e);
        lemma_right_rows(state, searches[b], file_id);
    }
    if n.len() > 0 {
        assert(named(searches[c]) == n);
        lemma_right_rows(state, searches[c], file_id);
    }
    let all = forall|i: int| 0 <= i < searches.len() ==> right_for(state, #[trigger] searches[i], file_id);
    let ands = forall|k: int| 0 <= k < and_ids.len() ==> state.relationships.contains((file_id, #[trigger] and_ids[k]));
    let names = forall|i: int| 0 <= i < and_names.len() ==> has_one(state, file_id, #[trigger] and_names[i]);
    if all {
        assert forall|k: int| 0 <= k < and_ids.len() implies state.relationships.contains((file_id, #[trigger] and_ids[k])) by {
            assert(right_for(state, searches[k], file_id));
        }
        assert forall|i: int| 0 <= i < and_names.len() implies has_one(state, file_id, #[trigger] and_names[i]) by {
            assert(right_for(state, searches[a + i], file_id));
        }
    }
    assert(all <==> ands && names && (e.len() > 0 ==> has_one(state, file_id, e)) && (n.len() > 0 ==> !has_one(
        state,
        file_id,
        n,
    ))) by {
        if ands && names && (e.len() > 0 ==> has_one(state, file_id, e)) && (n.len() > 0 ==> !has_one(state, file_id, n)) {
            assert forall|i: int| 0 <= i < searches.len() implies right_for(state, #[trigger] searches[i], file_id) by {
                if i < a {
                    assert(state.relationships.contains((file_id, and_ids[i])));
                } else if i < b {
                    assert(has_one(state, file_id, and_names[i - a]));
                } else if e.len() > 0 && i == b {
                } else {
                    assert(i == c);
                }
            }
        }
    }
    if b > 0 {
        assert(names_known(state, searches[0]) && !(searches[0] is Not));
    }
    if e.len() > 0 {
        assert(names_known(state, searches[b]) && !(searches[b] is Not));
    }
    if n.len() > 0 {
        assert(names_known(state, searches[c]));
    }
    if n.len() == 0 {
        assert(!has_one(state, file_id, n));
    }
}

/// A search by names and ids is put off, and finds nothing, exactly if a required name answers to no tag, or if
/// names are given of which one must be there and neither they nor ids answer to a tag.
pub proof fn unanswered_names_find_nothing(
    and_ids: Seq<u64>,
    and_names: Seq<Seq<u64>>,
    or_ids: Seq<u64>,
    or_names: Seq<Seq<u64>>,
    not_ids: Seq<u64>,
    not_names: Seq<Seq<u64>>,
)
    ensures
        grouped_search(and_ids, and_names, or_ids, or_names, not_ids, not_names) is None <==> {
            ||| exists|i: int| 0 <= i < and_names.len() && (#[trigger] and_names[i]).len() == 0
            ||| or_names.len() > 0 && or_ids.len() == 0 && forall|i: int|
                0 <= i < or_names.len() ==> (#[trigger] or_names[i]).len() == 0
        },
{
    lemma_flattened(or_names);
    let flat = flattened(or_names);
    if flat.len() > 0 {
        assert(flat.contains(flat[0]));
        let i = choose|i: int| 0 <= i < or_names.len() && (#[trigger] or_names[i]).contains(flat[0]);
        assert(or_names[i].len() > 0);
    }
    if exists|i: int| 0 <= i < or_names.len() && (#[trigger] or_names[i]).len() > 0 {
        let i = choose|i: int| 0 <= i < or_names.len() && (#[trigger] or_names[i]).len() > 0;
        assert(or_names[i].contains(or_names[i][0]));
        assert(flat.contains(or_names[i][0]));
    }
}

// Searches over the tagged files.

/// Whether the `k`th tag of the `g`th group is one that every file must have.
pub open spec fn must_have(searches: Seq<HolderView>, g: int, k: int) -> bool {
    0 <= g < searches.len() && searches[g] is And && 0 <= k < named(searches[g]).len()
}

proof fn lemma_and_place(searches: Seq<HolderView>, g: int, k: int)
    requires
        must_have(searches, g, k),
    ensures
        ({
            let at = and_tags(searches.take(g)).len() + k;
            &&& at < and_tags(searches).len()
            &&& and_tags(searches)[at as int] == named(searches[g])[k]
            &&& at < and_tags(searches.take(g + 1)).len()
        }),
    decreases searches.len(),
{
    let shorter = searches.drop_last();
    if g < searches.len() - 1 {
        assert(must_have(shorter, g, k));
        lemma_and_place(shorter, g, k);
        assert(shorter.take(g) =~= searches.take(g));
        assert(shorter.take(g + 1) =~= searches.take(g + 1));
        let at = and_tags(searches.take(g)).len() + k;
        assert(and_tags(searches)[at as int] == and_tags(shorter)[at as int]);
    } else {
        assert(searches.take(g) =~= shorter);
        assert(searches.take(g + 1) =~= searches);
    }
}

proof fn lemma_place_of(searches: Seq<HolderView>, n: int) -> (place: (int, int))
    requires
        0 <= n < and_tags(searches).len(),
    ensures
        must_have(searches, place.0, place.1),
        n == and_tags(searches.take(place.0)).len() + place.1,
        and_tags(searches)[n] == named(searches[place.0])[place.1],
    decreases searches.len(),
{
    let shorter = searches.drop_last();
    let before = and_tags(shorter);
    if n < before.len() {
        let place = lemma_place_of(shorter, n);
        assert(shorter.take(place.0) =~= searches.take(place.0));
        assert(shorter[place.0] == searches[place.0]);
        place
    } else {
        assert(searches.take(searches.len() - 1) =~= shorter);
        assert(searches[searches.len() - 1] == searches.last());
        (searches.len() - 1, n - before.len())
    }
}

proof fn lemma_and_growing(searches: Seq<HolderView>, a: int, b: int)
    requires
        0 <= a <= b <= searches.len(),
    ensures
        and_tags(searches.take(a)).len() <= and_tags(searches.take(b)).len(),
    decreases b,
{
    if a < b {
        lemma_and_growing(searches, a, b - 1);
        assert(searches.take(b).drop_last() =~= searches.take(b - 1));
    }
}

/// Different places among the tags that every file must have are different places of the list of them.
proof fn lemma_places_differ(searches: Seq<HolderView>, g: int, k: int, h: int, j: int)
    requires
        must_have(searches, g, k),
        must_have(searches, h, j),
        g != h || k != j,
    ensures
        and_tags(searches.take(g)).len() + k != and_tags(searches.take(h)).len() + j,
{
    lemma_and_place(searches, g, k);
    lemma_and_place(searches, h, j);
    if g < h {
        lemma_and_growing(searches, g + 1, h);
    } else if h < g {
        lemma_and_growing(searches, h + 1, g);
    }
}

/// Whether a tag that every file must have is passed over: it has no row, and another that every file must have
/// has one.
pub open spec fn passed_over(state: DbState, searches: Seq<HolderView>, g: int, k: int) -> bool {
    &&& !tag_row(state, named(searches[g])[k])
    &&& exists|h: int, j: int| #[trigger] must_have(searches, h, j) && tag_row(state, named(searches[h])[j])
}

proof fn lemma_required(state: DbState, searches: Seq<HolderView>, g: int, k: int)
    requires
        must_have(searches, g, k),
    ensures
        state.required(and_tags(searches), named(searches[g])[k]) <==> !passed_over(state, searches, g, k),
{
    let ands = and_tags(searches);
    let id = named(searches[g])[k];
    lemma_tag_row(state, id);
    lemma_and_place(searches, g, k);
    if exists|i: int| 0 <= i < ands.len() && tag_exists(state.tags, #[trigger] ands[i]) {
        let i = choose|i: int| 0 <= i < ands.len() && tag_exists(state.tags, #[trigger] ands[i]);
        let place = lemma_place_of(searches, i);
        lemma_tag_row(state, ands[i]);
        assert(must_have(searches, place.0, place.1) && tag_row(state, named(searches[place.0])[place.1]));
    }
    if exists|h: int, j: int| #[trigger] must_have(searches, h, j) && tag_row(state, named(searches[h])[j]) {
        let (h, j) = choose|h: int, j: int| #[trigger] must_have(searches, h, j) && tag_row(state, named(searches[h])[j]);
        lemma_and_place(searches, h, j);
        lemma_tag_row(state, named(searches[h])[j]);
        let at = and_tags(searches.take(h)).len() + j;
        assert(tag_exists(state.tags, ands[at as int]));
        if !tag_row(state, id) {
            lemma_places_differ(searches, g, k, h, j);
        }
    }
}

/// A search over the tagged files finds a file exactly if it has a tag, has every tag of the groups that ask for
/// all their tags, has one tag of each group that asks for one, and none of those that are asked against. Of the tags
/// that every file must have, those without a row are passed over where another has a row. A search that names no
/// tag finds nothing.
pub proof fn tagged_searches_find_the_files_that_are_right(
    state: DbState,
    searches: Seq<HolderView>,
    result: Seq<u64>,
    file_id: u64,
)
    requires
        memory_true(state),
        state.memory matches Some(memory) ==> forall|t: u64| #[trigger]
            memory.tag_id.dom().contains(t) ==> tag_row(state, t),
        newest_first(result, state.search_tagged_files(searches), None),
    ensures
        result.contains(file_id) <==> {
            &&& exists|i: int| 0 <= i < searches.len() && named(#[trigger] searches[i]).len() > 0
            &&& exists|t: u64| state.relationships.contains((file_id, t))
            &&& forall|g: int, k: int| #[trigger]
                must_have(searches, g, k) && !passed_over(state, searches, g, k) ==> state.relationships.contains(
                    (file_id, named(searches[g])[k]),
                )
            &&& forall|i: int|
                0 <= i < searches.len() && (#[trigger] searches[i]) is Or && named(searches[i]).len() > 0 ==> has_one(
                    state,
                    file_id,
                    named(searches[i]),
                )
            &&& forall|i: int|
                0 <= i < searches.len() && (#[trigger] searches[i]) is Not ==> !has_one(
                    state,
                    file_id,
                    named(searches[i]),
                )
        },
{
    lemma_memory_true(state);
    if let Some(memory) = state.memory {
        assert forall|t: u64| #[trigger] memory.tag_id.dom().contains(t) implies tag_exists(state.tags, t) by {
            lemma_tag_row(state, t);
        }
    }
    tagged_search_does_not_depend_on_memory(state, searches);
    let bare = DbState { memory: None, ..state };
    lemma_listed(result, state.search_tagged_files(searches), None);
    let ands = and_tags(searches);
    let sets = all_sets(state.relationships);
    let some = exists|i: int| 0 <= i < searches.len() && named(#[trigger] searches[i]).len() > 0;
    assert forall|i: int| 0 <= i < searches.len() implies (#[trigger] searches[i]).ids() == named(searches[i]) by {}
    if some {
        let i = choose|i: int| 0 <= i < searches.len() && named(#[trigger] searches[i]).len() > 0;
        assert(searches[i].ids().len() > 0);
    }
    assert forall|ids: Seq<u64>| #[trigger] any_has(sets, ids, file_id) <==> has_one(state, file_id, ids) by {
        if any_has(sets, ids, file_id) {
            let k = choose|k: int|
                0 <= k < ids.len() && sets.dom().contains(#[trigger] ids[k]) && sets[ids[k]].contains(file_id);
            assert(state.relationships.contains((file_id, ids[k])));
        }
        if has_one(state, file_id, ids) {
            let k = choose|k: int| 0 <= k < ids.len() && state.relationships.contains((file_id, #[trigger] ids[k]));
            assert(sets.dom().contains(ids[k]) && sets[ids[k]].contains(file_id));
        }
    }
    let all = forall|g: int, k: int| #[trigger]
        must_have(searches, g, k) && !passed_over(state, searches, g, k) ==> state.relationships.contains(
            (file_id, named(searches[g])[k]),
        );
    let listed = forall|i: int|
        0 <= i < ands.len() && bare.required(ands, ands[i]) ==> bare.relationships.contains((file_id, #[trigger] ands[i]));
    if all {
        assert forall|i: int| 0 <= i < ands.len() && bare.required(ands, ands[i]) implies bare.relationships.contains(
            (file_id, #[trigger] ands[i]),
        ) by {
            let place = lemma_place_of(searches, i);
            lemma_required(bare, searches, place.0, place.1);
            assert(must_have(searches, place.0, place.1));
            lemma_same_rows_of_tags(state, searches, place.0, place.1);
        }
    }
    if listed {
        assert forall|g: int, k: int| #[trigger]
            must_have(searches, g, k) && !passed_over(state, searches, g, k) implies state.relationships.contains(
            (file_id, named(searches[g])[k]),
        ) by {
            lemma_and_place(searches, g, k);
            lemma_required(bare, searches, g, k);
            lemma_same_rows_of_tags(state, searches, g, k);
            let at = and_tags(searches.take(g)).len() + k;
            assert(bare.relationships.contains((file_id, ands[at as int])));
        }
    }
    assert(all <==> listed);
    let or_not = forall|i: int|
        0 <= i < searches.len() && (#[trigger] searches[i]).ids().len() > 0 && !(searches[i] is And)
            ==> searches[i].allows(sets, file_id);
    let ors = forall|i: int|
        0 <= i < searches.len() && (#[trigger] searches[i]) is Or && named(searches[i]).len() > 0 ==> has_one(
            state,
            file_id,
            named(searches[i]),
        );
    let nots = forall|i: int|
        0 <= i < searches.len() && (#[trigger] searches[i]) is Not ==> !has_one(state, file_id, named(searches[i]));
    if or_not {
        assert forall|i: int|
            0 <= i < searches.len() && (#[trigger] searches[i]) is Or && named(searches[i]).len() > 0 implies has_one(
            state,
            file_id,
            named(searches[i]),
        ) by {
            assert(searches[i].allows(sets, file_id));
            assert(any_has(sets, named(searches[i]), file_id));
        }
        assert forall|i: int| 0 <= i < searches.len() && (#[trigger] searches[i]) is Not implies !has_one(
            state,
            file_id,
            named(searches[i]),
        ) by {
            if named(searches[i]).len() > 0 {
                assert(searches[i].allows(sets, file_id));
                assert(!any_has(sets, named(searches[i]), file_id));
            }
        }
    }
    if ors && nots {
        assert forall|i: int|
            0 <= i < searches.len() && (#[trigger] searches[i]).ids().len() > 0 && !(
            searches[i] is And) implies searches[i].allows(sets, file_id) by {
            assert(any_has(sets, named(searches[i]), file_id) <==> has_one(state, file_id, named(searches[i])));
        }
    }
    assert(or_not <==> ors && nots);
    let tagged = exists|t: u64| state.relationships.contains((file_id, t));
    assert(bare.relationships == state.relationships);
    if tagged {
        let t = choose|t: u64| state.relationships.contains((file_id, t));
        assert(bare.relationships.contains((file_id, t)));
    }
    if exists|t: u64| bare.relationships.contains((file_id, t)) {
        let t = choose|t: u64| bare.relationships.contains((file_id, t));
        assert(state.relationships.contains((file_id, t)));
    }
    assert(bare.tables_meet(searches, file_id) <==> tagged && listed && or_not);
    assert(bare.search_tagged_files(searches).contains(file_id) <==> some && bare.tables_meet(searches, file_id));
}

proof fn lemma_same_rows_of_tags(state: DbState, searches: Seq<HolderView>, g: int, k: int)
    ensures
        passed_over(DbState { memory: None, ..state }, searches, g, k) <==> passed_over(state, searches, g, k),
{
    let bare = DbState { memory: None, ..state };
    assert forall|id: u64| #[trigger] tag_row(bare, id) <==> tag_row(state, id) by {
        if tag_row(bare, id) {
            let i = choose|i: int| 0 <= i < bare.tags.len() && (#[trigger] bare.tags[i]).id == id;
            assert(state.tags[i].id == id);
        }
        if tag_row(state, id) {
            let i = choose|i: int| 0 <= i < state.tags.len() && (#[trigger] state.tags[i]).id == id;
            assert(bare.tags[i].id == id);
        }
    }
    if passed_over(bare, searches, g, k) {
        let (h, j) = choose|h: int, j: int| #[trigger] must_have(searches, h, j) && tag_row(bare, named(searches[h])[j]);
        assert(must_have(searches, h, j) && tag_row(state, named(searches[h])[j]));
    }
    if passed_over(state, searches, g, k) {
        let (h, j) = choose|h: int, j: int| #[trigger] must_have(searches, h, j) && tag_row(state, named(searches[h])[j]);
        assert(must_have(searches, h, j) && tag_row(bare, named(searches[h])[j]));
    }
}

} // verus!
