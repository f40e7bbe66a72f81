//! What removing tags and namespaces, and counting tags, comes to, told of the rows.
use crate::database::DbState;
use crate::relationship::{
    all_counted_up, chunk, chunk_count, file_exists, in_namespace, namespaces_among, tag_namespace, written_rows,
};
use crate::removal::{ids_in_namespaces, limit_cleared, without_tag, without_tags};
use crate::row_outcomes::{counts_change_by_one, has_tag_row, lemma_has_tag_row};
use crate::rows::{NamespaceRec, ParentRow, TagRec, tag_ids};
use crate::text::{lemma_filter_members, lemma_push_contains};
use crate::types::TagParents;
use vstd::prelude::*;

verus! {

/// A structural relation without its limit, where it is limited to one of some tags.
pub open spec fn unlimited(row: ParentRow, ids: Seq<u64>) -> ParentRow {
    ParentRow {
        relation: TagParents {
            limit_to: match row.relation.limit_to {
                Some(limit) => if ids.contains(limit) {
                    None
                } else {
                    Some(limit)
                },
                None => None,
            },
            ..row.relation
        },
        ..row
    }
}

proof fn lemma_relations_left(rows: Seq<ParentRow>, ids: Seq<u64>, row: ParentRow)
    requires
        without_tags(rows, ids) is Some,
    ensures
        without_tags(rows, ids)->0.contains(row) <==> exists|k: int|
            0 <= k < rows.len() && !ids.contains((#[trigger] rows[k]).relation.tag_id) && !ids.contains(
                rows[k].relation.relate_tag_id,
            ) && row == unlimited(rows[k], ids),
    decreases ids.len(),
{
    if ids.len() == 0 {
        if rows.contains(row) {
            let k = choose|k: int| 0 <= k < rows.len() && rows[k] == row;
            assert(rows[k] == unlimited(rows[k], ids));
        }
        if exists|k: int|
            0 <= k < rows.len() && !ids.contains((#[trigger] rows[k]).relation.tag_id) && !ids.contains(
                rows[k].relation.relate_tag_id,
            ) && row == unlimited(rows[k], ids) {
            let k = choose|k: int|
                0 <= k < rows.len() && !ids.contains((#[trigger] rows[k]).relation.tag_id) && !ids.contains(
                    rows[k].relation.relate_tag_id,
                ) && row == unlimited(rows[k], ids);
            assert(rows[k] == row);
        }
    } else {
        let shorter = ids.drop_last();
        let last = ids.last();
        lemma_push_contains(shorter, last);
        assert(shorter.push(last) =~= ids);
        let before = without_tags(rows, shorter)->0;
        let keep = |r: ParentRow| r.relation.tag_id != last && r.relation.relate_tag_id != last;
        let kept = before.filter(keep);
        let rest = without_tag(before, last);
        lemma_filter_members(before, keep);
        if rest.contains(row) {
            let i = choose|i: int| 0 <= i < rest.len() && rest[i] == row;
            assert(row == limit_cleared(kept[i], last));
            assert(kept.contains(kept[i]));
            assert(before.contains(kept[i]));
            lemma_relations_left(rows, shorter, kept[i]);
            let k = choose|k: int|
                0 <= k < rows.len() && !shorter.contains((#[trigger] rows[k]).relation.tag_id) && !shorter.contains(
                    rows[k].relation.relate_tag_id,
                ) && kept[i] == unlimited(rows[k], shorter);
            assert(row == unlimited(rows[k], ids));
        }
        if exists|k: int|
            0 <= k < rows.len() && !ids.contains((#[trigger] rows[k]).relation.tag_id) && !ids.contains(
                rows[k].relation.relate_tag_id,
            ) && row == unlimited(rows[k], ids) {
            let k = choose|k: int|
                0 <= k < rows.len() && !ids.contains((#[trigger] rows[k]).relation.tag_id) && !ids.contains(
                    rows[k].relation.relate_tag_id,
                ) && row == unlimited(rows[k], ids);
            let mid = unlimited(rows[k], shorter);
            lemma_relations_left(rows, shorter, mid);
            assert(before.contains(mid));
            assert(kept.contains(mid));
            let i = choose|i: int| 0 <= i < kept.len() && kept[i] == mid;
            assert(rest[i] == limit_cleared(mid, last));
            assert(rest[i] == row);
        }
    }
}

/// Removing tags takes their rows, their relationships and the structural relations that lead from or to them, takes the
/// limit from those that were limited to them, and leaves everything else.
pub proof fn removing_tags_leaves_the_others(state: DbState, ids: Seq<u64>)
    requires
        without_tags(state.parents, ids) is Some,
    ensures
        ({
            let after = state.with_tags_removed(ids);
            &&& forall|row: TagRec| #[trigger] after.tags.contains(row) <==> state.tags.contains(row) && !ids.contains(row.id)
            &&& forall|r: (u64, u64)| #[trigger]
                after.relationships.contains(r) <==> state.relationships.contains(r) && !ids.contains(r.1)
            &&& forall|row: ParentRow| #[trigger]
                after.parents.contains(row) <==> exists|k: int|
                    0 <= k < state.parents.len() && !ids.contains((#[trigger] state.parents[k]).relation.tag_id)
                        && !ids.contains(state.parents[k].relation.relate_tag_id) && row == unlimited(state.parents[k], ids)
            &&& after == (DbState {
                tags: after.tags,
                relationships: after.relationships,
                parents: after.parents,
                ..state
            })
        }),
{
    let after = state.with_tags_removed(ids);
    lemma_filter_members(state.tags, |row: TagRec| !ids.contains(row.id));
    assert forall|row: ParentRow| #[trigger] after.parents.contains(row) <==> exists|k: int|
        0 <= k < state.parents.len() && !ids.contains((#[trigger] state.parents[k]).relation.tag_id) && !ids.contains(
            state.parents[k].relation.relate_tag_id,
        ) && row == unlimited(state.parents[k], ids) by {
        lemma_relations_left(state.parents, ids, row);
    }
}

/// Removing tags statement by statement takes the rows and relationships of the tags that the statements name, and leaves
/// those of the others.
pub proof fn removing_tag_lists_leaves_the_others(state: DbState, ids: Seq<u64>, n: nat)
    requires
        n <= chunk_count(ids.len()),
        state.with_tag_lists_removed(ids, n) is Some,
    ensures
        ({
            let after = state.with_tag_lists_removed(ids, n)->0;
            let gone = ids.take(written_rows(ids.len(), n) as int);
            &&& forall|row: TagRec| #[trigger] after.tags.contains(row) <==> state.tags.contains(row) && !gone.contains(row.id)
            &&& forall|r: (u64, u64)| #[trigger]
                after.relationships.contains(r) <==> state.relationships.contains(r) && !gone.contains(r.1)
            &&& after == (DbState {
                tags: after.tags,
                relationships: after.relationships,
                parents: after.parents,
                ..state
            })
        }),
    decreases n,
{
    if n == 0 {
        assert(ids.take(0) =~= Seq::<u64>::empty());
    } else {
        let m = (n - 1) as nat;
        removing_tag_lists_leaves_the_others(state, ids, m);
        let before = state.with_tag_lists_removed(ids, m)->0;
        let after = state.with_tag_lists_removed(ids, n)->0;
        let part = chunk(ids, m);
        removing_tags_leaves_the_others(before, part);
        let less = ids.take(written_rows(ids.len(), m) as int);
        let gone = ids.take(written_rows(ids.len(), n) as int);
        assert(gone =~= less + part);
        assert forall|id: u64| #[trigger] gone.contains(id) <==> less.contains(id) || part.contains(id) by {
            if less.contains(id) {
                let i = choose|i: int| 0 <= i < less.len() && less[i] == id;
                assert(gone[i] == id);
            }
            if part.contains(id) {
                let i = choose|i: int| 0 <= i < part.len() && part[i] == id;
                assert(gone[less.len() + i] == id);
            }
            if gone.contains(id) {
                let i = choose|i: int| 0 <= i < gone.len() && gone[i] == id;
                if i < less.len() {
                    assert(less[i] == id);
                } else {
                    assert(part[i - less.len()] == id);
                }
            }
        }
    }
}

/// Removing namespaces takes their rows and those of the tags in them, with the relationships of these, and leaves the
/// other namespaces, tags and relationships.
pub proof fn removing_namespaces_leaves_the_others(state: DbState, ids: Seq<u64>)
    requires
        state.consistent(),
        without_tags(state.parents, ids_in_namespaces(state.tags, ids)) is Some,
    ensures
        ({
            let after = state.with_namespaces_removed(ids);
            &&& forall|row: NamespaceRec| #[trigger]
                after.namespaces.contains(row) <==> state.namespaces.contains(row) && !ids.contains(row.id)
            &&& forall|row: TagRec| #[trigger]
                after.tags.contains(row) <==> state.tags.contains(row) && !ids.contains(row.namespace)
            &&& forall|f: u64, i: int|
                0 <= i < state.tags.len() ==> (after.relationships.contains((f, (#[trigger] state.tags[i]).id))
                    <==> #[trigger] state.relationships.contains((f, state.tags[i].id)) && !ids.contains(
                    state.tags[i].namespace,
                ))
        }),
{
    let after = state.with_namespaces_removed(ids);
    let list = ids_in_namespaces(state.tags, ids);
    let keep = |row: TagRec| ids.contains(row.namespace);
    let rows = state.tags.filter(keep);
    lemma_filter_members(state.namespaces, |row: NamespaceRec| !ids.contains(row.id));
    lemma_filter_members(state.tags, keep);
    removing_tags_leaves_the_others(state, list);
    assert forall|i: int| 0 <= i < state.tags.len() implies (list.contains((#[trigger] state.tags[i]).id) <==> ids.contains(
        state.tags[i].namespace,
    )) by {
        assert(state.tags.contains(state.tags[i]));
        if ids.contains(state.tags[i].namespace) {
            assert(rows.contains(state.tags[i]));
            let k = choose|k: int| 0 <= k < rows.len() && rows[k] == state.tags[i];
            assert(list[k] == state.tags[i].id);
        }
        if list.contains(state.tags[i].id) {
            let k = choose|k: int| 0 <= k < list.len() && list[k] == state.tags[i].id;
            assert(rows.contains(rows[k]));
            let j = choose|j: int| 0 <= j < state.tags.len() && state.tags[j] == rows[k];
            assert(tag_ids(state.tags)[j] == tag_ids(state.tags)[i]);
            assert(i == j);
        }
    }
    assert forall|row: TagRec| #[trigger] after.tags.contains(row) <==> state.tags.contains(row) && !ids.contains(row.namespace) by {
        if state.tags.contains(row) {
            let i = choose|i: int| 0 <= i < state.tags.len() && state.tags[i] == row;
            assert(list.contains(state.tags[i].id) <==> ids.contains(state.tags[i].namespace));
        }
    }
    assert forall|f: u64, i: int| 0 <= i < state.tags.len() implies (after.relationships.contains((f, (#[trigger] state.tags[i]).id))
        <==> #[trigger] state.relationships.contains((f, state.tags[i].id)) && !ids.contains(state.tags[i].namespace)) by {
        assert(list.contains(state.tags[i].id) <==> ids.contains(state.tags[i].namespace));
    }
}

// Counting.

/// How many of some relationships name a tag.
pub open spec fn times_named(list: Seq<(u64, u64)>, id: u64) -> nat
    decreases list.len(),
{
    if list.len() == 0 {
        0
    } else {
        times_named(list.drop_last(), id) + if list.last().1 == id {
            1nat
        } else {
            0
        }
    }
}

/// A statement that writes a new relationship counts each tag as often as it names it; one that writes none counts
/// nothing.
pub proof fn statements_count_the_tags_that_they_name(state: DbState, list: Seq<(u64, u64)>)
    requires
        tag_ids(state.tags).no_duplicates(),
        forall|i: int| 0 <= i < state.tags.len() ==> (#[trigger] state.tags[i]).count + list.len() <= u64::MAX,
    ensures
        ({
            let after = state.with_chunk(list).tags;
            let new = exists|i: int| 0 <= i < list.len() && !state.relationships.contains(#[trigger] list[i]);
            &&& after.len() == state.tags.len()
            &&& forall|i: int|
                0 <= i < state.tags.len() ==> (#[trigger] after[i]).id == state.tags[i].id && after[i].name == state.tags[i].name
                    && after[i].namespace == state.tags[i].namespace && after[i].count == state.tags[i].count + (if new {
                    times_named(list, state.tags[i].id) as int
                } else {
                    0
                })
        }),
{
    lemma_counted(state.tags, list);
}

proof fn lemma_counted(tags: Seq<TagRec>, list: Seq<(u64, u64)>)
    requires
        tag_ids(tags).no_duplicates(),
        forall|i: int| 0 <= i < tags.len() ==> (#[trigger] tags[i]).count + list.len() <= u64::MAX,
    ensures
        ({
            let after = all_counted_up(tags, list);
            &&& after.len() == tags.len()
            &&& tag_ids(after) == tag_ids(tags)
            &&& forall|i: int|
                0 <= i < tags.len() ==> (#[trigger] after[i]).id == tags[i].id && after[i].name == tags[i].name
                    && after[i].namespace == tags[i].namespace && after[i].count == tags[i].count + times_named(
                    list,
                    tags[i].id,
                )
            &&& forall|id: u64| #[trigger] times_named(list, id) <= list.len()
        }),
    decreases list.len(),
{
    if list.len() > 0 {
        let shorter = list.drop_last();
        lemma_counted(tags, shorter);
        let before = all_counted_up(tags, shorter);
        let after = all_counted_up(tags, list);
        counts_change_by_one(before, list.last().1);
        assert(tag_ids(after) =~= tag_ids(tags)) by {
            assert forall|i: int| 0 <= i < tags.len() implies tag_ids(after)[i] == tag_ids(tags)[i] by {
                assert(after[i].id == before[i].id);
            }
        }
        assert forall|id: u64| #[trigger] times_named(list, id) <= list.len() by {
            assert(times_named(shorter, id) <= shorter.len());
        }
        assert forall|i: int| 0 <= i < tags.len() implies (#[trigger] after[i]).id == tags[i].id && after[i].name
            == tags[i].name && after[i].namespace == tags[i].namespace && after[i].count == tags[i].count + times_named(
            list,
            tags[i].id,
        ) by {
            assert(before[i].id == tags[i].id);
            assert(times_named(shorter, tags[i].id) <= shorter.len());
        }
    }
}

/// Giving a tag to a file that does not have it counts the tag once more; giving it to one that has it changes no count.
/// Nothing else changes in the tag table.
pub proof fn a_new_relationship_is_counted(state: DbState, file_id: u64, tag_id: u64)
    requires
        state.consistent(),
        file_exists(state.files, file_id),
        has_tag_row(state.tags, tag_id),
        forall|i: int| 0 <= i < state.tags.len() ==> (#[trigger] state.tags[i]).count < u64::MAX,
    ensures
        ({
            let after = state.with_relationships(seq![(file_id, tag_id)]);
            &&& after.relationships == state.relationships.insert((file_id, tag_id))
            &&& after.tags.len() == state.tags.len()
            &&& forall|i: int|
                0 <= i < state.tags.len() ==> (#[trigger] after.tags[i]) == (TagRec {
                    count: if state.tags[i].id == tag_id && !state.relationships.contains((file_id, tag_id)) {
                        (state.tags[i].count + 1) as u64
                    } else {
                        state.tags[i].count
                    },
                    ..state.tags[i]
                })
        }),
{
    let list = seq![(file_id, tag_id)];
    let after = state.with_relationships(list);
    lemma_has_tag_row(state.tags, tag_id);
    let namespace = tag_namespace(state.tags, tag_id)->0;
    assert(tag_namespace(state.tags, tag_id) is Some);
    reveal(DbState::with_relationships);
    let spaces = namespaces_among(state.tags, list);
    assert(list.drop_last() =~= Seq::<(u64, u64)>::empty());
    assert(namespaces_among(state.tags, list.drop_last()) =~= Seq::<u64>::empty());
    assert(spaces =~= seq![namespace]);
    assert(spaces.drop_last() =~= Seq::<u64>::empty());
    let dirty = DbState { tag_search_dirty: true, ..state };
    assert(state.with_grouped_relationships(list, spaces.drop_last()) == dirty);
    let part = in_namespace(state.tags, list, spaces.last());
    assert(part =~= list) by {
        reveal(Seq::filter);
        let keep = |r: (u64, u64)| tag_namespace(state.tags, r.1) == Some(spaces.last());
        assert(list.drop_last().filter(keep) =~= Seq::<(u64, u64)>::empty());
        assert(list.filter(keep) =~= list);
    }
    assert(chunk_count(1) == 1);
    assert(chunk(list, 0) =~= list);
    assert(dirty.insertable(list));
    assert(dirty.chunks_inserted(list, 1) == 1);
    assert(dirty.chunks_inserted(list, 0) == 1);
    assert(dirty.with_chunks(list, 0) == dirty);
    assert(dirty.with_chunks(list, 1) == dirty.with_chunk(list));
    assert forall|i: int| 0 <= i < state.tags.len() implies (#[trigger] dirty.tags[i]).count + list.len() <= u64::MAX by {
        assert(state.tags[i].count < u64::MAX);
    }
    statements_count_the_tags_that_they_name(dirty, list);
    assert(after.tags == dirty.with_chunk(list).tags);
    assert(after.relationships =~= state.relationships.insert((file_id, tag_id)));
    assert(!state.relationships.contains((file_id, tag_id)) ==> !dirty.relationships.contains(list[0]));
    assert forall|i: int| 0 <= i < state.tags.len() implies (#[trigger] after.tags[i]) == (TagRec {
        count: if state.tags[i].id == tag_id && !state.relationships.contains((file_id, tag_id)) {
            (state.tags[i].count + 1) as u64
        } else {
            state.tags[i].count
        },
        ..state.tags[i]
    }) by {
        assert(times_named(list.drop_last(), state.tags[i].id) == 0);
        assert(times_named(list, state.tags[i].id) == if tag_id == state.tags[i].id {
            1nat
        } else {
            0
        });
        assert(dirty.tags[i] == state.tags[i]);
    }
}

/// Taking a tag from a file that has it counts the tag once less; taking it from one that does not have it changes no
/// count. Nothing else changes in the tag table.
pub proof fn a_removed_relationship_is_counted(state: DbState, file_id: u64, tag_id: u64)
    requires
        state.consistent(),
        has_tag_row(state.tags, tag_id),
    ensures
        ({
            let after = state.without_relationships(seq![(file_id, tag_id)]);
            &&& after.relationships == state.relationships.remove((file_id, tag_id))
            &&& after.tags.len() == state.tags.len()
            &&& forall|i: int|
                0 <= i < state.tags.len() ==> (#[trigger] after.tags[i]) == (TagRec {
                    count: if state.tags[i].id == tag_id && state.relationships.contains((file_id, tag_id))
                        && state.tags[i].count > 0 {
                        (state.tags[i].count - 1) as u64
                    } else {
                        state.tags[i].count
                    },
                    ..state.tags[i]
                })
        }),
{
    let list = seq![(file_id, tag_id)];
    let after = state.without_relationships(list);
    lemma_has_tag_row(state.tags, tag_id);
    reveal(DbState::without_relationships);
    let namespace = tag_namespace(state.tags, tag_id)->0;
    assert(list.drop_last() =~= Seq::<(u64, u64)>::empty());
    assert(state.removal_counted(list, list.drop_last()) == state.tags);
    assert(list.last() == (file_id, tag_id));
    assert(state.removal_hits(list, namespace) <==> state.relationships.contains((file_id, tag_id))) by {
        if state.relationships.contains((file_id, tag_id)) {
            assert(state.relationships.contains(list[0]));
        }
    }
    counts_change_by_one(state.tags, tag_id);
    assert(list.contains((file_id, tag_id))) by {
        assert(list[0] == (file_id, tag_id));
    }
    assert(after.relationships =~= state.relationships.remove((file_id, tag_id)));
    assert(after.tags == state.removal_counted(list, list));
}

} // verus!
