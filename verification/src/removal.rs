//! Removing tags and namespaces, with all that hangs on them.
use crate::database::{SQL_CHUNK_SIZE, DbError, DbState, MainDatabase};
use crate::relationship::{chunk, chunk_count, holds_number, written_rows};
use crate::rows::{NamespaceRec, NamespaceRow, ParentRow, TagRec, TagRow};
use crate::text::{lemma_filter_members, lemma_filter_step, views};
use crate::types::TagParents;
use vstd::prelude::*;

verus! {

/// A structural relation once a tag is gone that it may be limited to.
pub open spec fn limit_cleared(row: ParentRow, id: u64) -> ParentRow {
    if row.relation.limit_to == Some(id) {
        ParentRow { relation: TagParents { limit_to: None, ..row.relation }, ..row }
    } else {
        row
    }
}

/// The structural relations once a tag is gone: those of the tag go with it, and those that were
/// limited to it hold without a limit.
pub open spec fn without_tag(rows: Seq<ParentRow>, id: u64) -> Seq<ParentRow> {
    let kept = rows.filter(|row: ParentRow| row.relation.tag_id != id && row.relation.relate_tag_id != id);
    Seq::new(kept.len(), |i: int| limit_cleared(kept[i], id))
}

/// Whether a relation stands in the table twice.
pub open spec fn repeated(rows: Seq<ParentRow>) -> bool {
    exists|i: int, k: int| 0 <= i < k < rows.len() && (#[trigger] rows[i]).relation == (#[trigger] rows[k]).relation
}

/// The structural relations once some tags are gone, one after the other; nothing where that would
/// leave a relation twice.
pub open spec fn without_tags(rows: Seq<ParentRow>, ids: Seq<u64>) -> Option<Seq<ParentRow>>
    decreases ids.len(),
{
    if ids.len() == 0 {
        Some(rows)
    } else {
        match without_tags(rows, ids.drop_last()) {
            Some(before) => if repeated(without_tag(before, ids.last())) {
                None
            } else {
                Some(without_tag(before, ids.last()))
            },
            None => None,
        }
    }
}

/// The ids of the tags in some namespaces, in order.
pub open spec fn ids_in_namespaces(tags: Seq<TagRec>, namespaces: Seq<u64>) -> Seq<u64> {
    let rows = tags.filter(|row: TagRec| namespaces.contains(row.namespace));
    Seq::new(rows.len(), |i: int| rows[i].id)
}

impl DbState {
    /// The state after some tags have been removed, with their relationships and their relations.
    /// The caches are left as they are.
    pub open spec fn with_tags_removed(self, ids: Seq<u64>) -> DbState {
        DbState {
            tags: self.tags.filter(|row: TagRec| !ids.contains(row.id)),
            relationships: self.relationships.filter(|r: (u64, u64)| !ids.contains(r.1)),
            parents: without_tags(self.parents, ids)->0,
            ..self
        }
    }

    /// The state after some tags have been removed, `n` times as many as go in one statement; nothing where a
    /// statement would leave a relation in the table twice.
    pub open spec fn with_tag_lists_removed(self, ids: Seq<u64>, n: nat) -> Option<DbState>
        decreases n,
    {
        if n == 0 {
            Some(self)
        } else {
            match self.with_tag_lists_removed(ids, (n - 1) as nat) {
                Some(before) => if without_tags(before.parents, chunk(ids, (n - 1) as nat)) is Some {
                    Some(before.with_tags_removed(chunk(ids, (n - 1) as nat)))
                } else {
                    None
                },
                None => None,
            }
        }
    }

    /// The state after some namespaces have been removed, with their tags.
    pub open spec fn with_namespaces_removed(self, ids: Seq<u64>) -> DbState {
        DbState {
            namespaces: self.namespaces.filter(|row: NamespaceRec| !ids.contains(row.id)),
            ..self.with_tags_removed(ids_in_namespaces(self.tags, ids))
        }
    }
}

fn is_repeated(rows: &Vec<ParentRow>) -> (is: bool)
    ensures
        is == repeated(rows@),
{
    let mut i: usize = 0;
    while i < rows.len()
        invariant
            i <= rows.len(),
            forall|a: int, b: int|
                0 <= a < i && a < b < rows.len() ==> (#[trigger] rows@[a]).relation != (#[trigger] rows@[b]).relation,
        decreases rows.len() - i,
    {
        let mut k: usize = i + 1;
        while k < rows.len()
            invariant
                i < rows.len(),
                i < k <= rows.len(),
                forall|b: int| i < b < k ==> rows@[i as int].relation != (#[trigger] rows@[b]).relation,
            decreases rows.len() - k,
        {
            if rows[i].relation == rows[k].relation {
                assert(rows@[i as int].relation == rows@[k as int].relation);
                return true;
            }
            k += 1;
        }
        i += 1;
    }
    false
}

/// Takes a tag out of the structural relations.
fn take_tag_out(rows: &Vec<ParentRow>, id: u64) -> (rest: Vec<ParentRow>)
    ensures
        rest@ == without_tag(rows@, id),
{
    let mut rest: Vec<ParentRow> = Vec::new();
    let ghost keep = |row: ParentRow| row.relation.tag_id != id && row.relation.relate_tag_id != id;
    let mut i: usize = 0;
    assert(rows@.take(0).filter(keep) =~= Seq::<ParentRow>::empty()) by {
        reveal(Seq::filter);
    }
    while i < rows.len()
        invariant
            i <= rows.len(),
            keep == (|row: ParentRow| row.relation.tag_id != id && row.relation.relate_tag_id != id),
            rest@.len() == rows@.take(i as int).filter(keep).len(),
            forall|k: int|
                0 <= k < rest@.len() ==> #[trigger] rest@[k] == limit_cleared(rows@.take(i as int).filter(keep)[k], id),
        decreases rows.len() - i,
    {
        let row = rows[i];
        proof {
            lemma_filter_step(rows@, i as int, keep);
        }
        if row.relation.tag_id != id && row.relation.relate_tag_id != id {
            let limited = match row.relation.limit_to {
                Some(limit) => limit == id,
                None => false,
            };
            if limited {
                rest.push(
                    ParentRow {
                        id: row.id,
                        relation: TagParents {
                            tag_id: row.relation.tag_id,
                            relate_tag_id: row.relation.relate_tag_id,
                            limit_to: None,
                        },
                    },
                );
            } else {
                rest.push(row);
            }
        }
        i += 1;
    }
    assert(rows@.take(i as int) =~= rows@);
    assert(rest@ =~= without_tag(rows@, id));
    rest
}

/// Takes tags out of the structural relations, one after the other.
fn take_tags_out(rows: &Vec<ParentRow>, ids: &Vec<u64>) -> (rest: Option<Vec<ParentRow>>)
    ensures
        match rest {
            Some(kept) => without_tags(rows@, ids@) == Some(kept@),
            None => without_tags(rows@, ids@) is None,
        },
{
    let mut rest: Vec<ParentRow> = rows.clone();
    assert(rest@ =~= rows@);
    let mut i: usize = 0;
    let mut failed = false;
    assert(ids@.take(0) =~= Seq::<u64>::empty());
    while i < ids.len()
        invariant
            i <= ids.len(),
            failed ==> without_tags(rows@, ids@.take(i as int)) is None,
            !failed ==> without_tags(rows@, ids@.take(i as int)) == Some(rest@),
        decreases ids.len() - i,
    {
        assert(ids@.take(i + 1).drop_last() =~= ids@.take(i as int));
        if !failed {
            rest = take_tag_out(&rest, ids[i]);
            failed = is_repeated(&rest);
        }
        i += 1;
    }
    assert(ids@.take(i as int) =~= ids@);
    if failed {
        None
    } else {
        Some(rest)
    }
}

/// Some of the ids of a list.
fn copy_ids(ids: &Vec<u64>, from: usize, to: usize) -> (part: Vec<u64>)
    requires
        from <= to <= ids@.len(),
    ensures
        part@ == ids@.subrange(from as int, to as int),
{
    let mut part: Vec<u64> = Vec::new();
    let mut i: usize = from;
    while i < to
        invariant
            from <= i <= to <= ids@.len(),
            part@.len() == i - from,
            forall|k: int| 0 <= k < i - from ==> #[trigger] part@[k] == ids@[from + k],
        decreases to - i,
    {
        part.push(ids[i]);
        i += 1;
    }
    assert(part@ =~= ids@.subrange(from as int, to as int));
    part
}

fn tags_but(rows: &Vec<TagRow>, ids: &Vec<u64>) -> (rest: Vec<TagRow>)
    ensures
        views(rest@) == views(rows@).filter(|row: TagRec| !ids@.contains(row.id)),
        rest@.len() <= rows@.len(),
{
    let mut rest: Vec<TagRow> = Vec::new();
    let ghost all = views(rows@);
    let ghost keep = |row: TagRec| !ids@.contains(row.id);
    let mut i: usize = 0;
    assert(views(rest@) =~= all.take(0).filter(keep)) by {
        reveal(Seq::filter);
    }
    while i < rows.len()
        invariant
            i <= rows.len(),
            all == views(rows@),
            keep == (|row: TagRec| !ids@.contains(row.id)),
            views(rest@) == all.take(i as int).filter(keep),
            rest@.len() <= i,
        decreases rows.len() - i,
    {
        let row = &rows[i];
        proof {
            lemma_filter_step(all, i as int, keep);
            assert(all[i as int] == row@);
        }
        if !holds_number(ids, row.id) {
            let ghost before = views(rest@);
            rest.push(TagRow { id: row.id, name: row.name.clone(), namespace: row.namespace, count: row.count });
            assert(views(rest@) =~= before.push(row@));
        }
        i += 1;
    }
    assert(all.take(i as int) =~= all);
    rest
}

fn namespaces_but(rows: &Vec<NamespaceRow>, ids: &Vec<u64>) -> (rest: Vec<NamespaceRow>)
    ensures
        views(rest@) == views(rows@).filter(|row: NamespaceRec| !ids@.contains(row.id)),
{
    let mut rest: Vec<NamespaceRow> = Vec::new();
    let ghost all = views(rows@);
    let ghost keep = |row: NamespaceRec| !ids@.contains(row.id);
    let mut i: usize = 0;
    assert(views(rest@) =~= all.take(0).filter(keep)) by {
        reveal(Seq::filter);
    }
    while i < rows.len()
        invariant
            i <= rows.len(),
            all == views(rows@),
            keep == (|row: NamespaceRec| !ids@.contains(row.id)),
            views(rest@) == all.take(i as int).filter(keep),
        decreases rows.len() - i,
    {
        let row = &rows[i];
        proof {
            lemma_filter_step(all, i as int, keep);
            assert(all[i as int] == row@);
        }
        if !holds_number(ids, row.id) {
            let ghost before = views(rest@);
            rest.push(NamespaceRow { id: row.id, name: row.name.clone(), description: row.description.clone() });
            assert(views(rest@) =~= before.push(row@));
        }
        i += 1;
    }
    assert(all.take(i as int) =~= all);
    rest
}

fn relationships_but(rows: &Vec<(u64, u64)>, ids: &Vec<u64>) -> (rest: Vec<(u64, u64)>)
    ensures
        rest@.to_set() == rows@.to_set().filter(|r: (u64, u64)| !ids@.contains(r.1)),
{
    let mut rest: Vec<(u64, u64)> = Vec::new();
    let ghost keep = |r: (u64, u64)| !ids@.contains(r.1);
    let mut i: usize = 0;
    assert(rest@ =~= rows@.take(0).filter(keep)) by {
        reveal(Seq::filter);
    }
    while i < rows.len()
        invariant
            i <= rows.len(),
            keep == (|r: (u64, u64)| !ids@.contains(r.1)),
            rest@ == rows@.take(i as int).filter(keep),
        decreases rows.len() - i,
    {
        proof {
            lemma_filter_step(rows@, i as int, keep);
        }
        if !holds_number(ids, rows[i].1) {
            rest.push(rows[i]);
        }
        i += 1;
    }
    proof {
        assert(rows@.take(i as int) =~= rows@);
        lemma_filter_members(rows@, keep);
        assert(rest@.to_set() =~= rows@.to_set().filter(keep)) by {
            assert forall|r: (u64, u64)| rest@.to_set().contains(r) <==> rows@.to_set().filter(keep).contains(r) by {
                assert(rest@.to_set().contains(r) == rest@.contains(r));
                assert(rows@.to_set().contains(r) == rows@.contains(r));
            }
        }
    }
    rest
}

/// The ids of the tags in some namespaces.
fn collect_ids_in_namespaces(tags: &Vec<TagRow>, namespaces: &Vec<u64>) -> (ids: Vec<u64>)
    ensures
        ids@ == ids_in_namespaces(views(tags@), namespaces@),
{
    let mut ids: Vec<u64> = Vec::new();
    let ghost all = views(tags@);
    let ghost keep = |row: TagRec| namespaces@.contains(row.namespace);
    let mut i: usize = 0;
    assert(all.take(0).filter(keep) =~= Seq::<TagRec>::empty()) by {
        reveal(Seq::filter);
    }
    while i < tags.len()
        invariant
            i <= tags.len(),
            all == views(tags@),
            keep == (|row: TagRec| namespaces@.contains(row.namespace)),
            ids@.len() == all.take(i as int).filter(keep).len(),
            forall|k: int| 0 <= k < ids@.len() ==> #[trigger] ids@[k] == all.take(i as int).filter(keep)[k].id,
        decreases tags.len() - i,
    {
        proof {
            lemma_filter_step(all, i as int, keep);
            assert(all[i as int] == tags@[i as int]@);
        }
        if holds_number(namespaces, tags[i].namespace) {
            ids.push(tags[i].id);
        }
        i += 1;
    }
    assert(all.take(i as int) =~= all);
    assert(ids@ =~= ids_in_namespaces(all, namespaces@));
    ids
}

impl MainDatabase {
    /// Removes tags together, with their relationships and their relations. Where a relation would then stand in
    /// the table twice, nothing is removed.
    fn remove_tags(&mut self, ids: &Vec<u64>) -> (removed: bool)
        ensures
            removed == (without_tags(old(self)@.parents, ids@) is Some),
            final(self)@ == (if removed {
                old(self)@.with_tags_removed(ids@)
            } else {
                old(self)@
            }),
            final(self)@.tags.len() <= old(self)@.tags.len(),
    {
        let ghost start = self@;
        assert(views(self.parents@) =~= self.parents@);
        match take_tags_out(&self.parents, ids) {
            Some(parents) => {
                let tags = tags_but(&self.tags, ids);
                self.relationships = relationships_but(&self.relationships, ids);
                self.tags = tags;
                self.parents = parents;
                assert(views(self.parents@) =~= self.parents@);
                assert(self@ =~= start.with_tags_removed(ids@));
                true
            },
            None => false,
        }
    }

    /// Removes tags, with their relationships and their relations, and counts them; as many at a time as go in
    /// one statement. A statement that would leave a relation in the table twice removes nothing, and ends it.
    pub fn internal_tag_bulk_delete(&mut self, tag_ids: &Vec<u64>) -> (removed: Result<usize, DbError>)
        ensures
            match removed {
                Ok(count) => old(self)@.with_tag_lists_removed(tag_ids@, chunk_count(tag_ids@.len())) == Some(final(self)@)
                    && count == old(self)@.tags.len() - final(self)@.tags.len(),
                Err(error) => error == DbError::Unique && exists|n: nat|
                    n < chunk_count(tag_ids@.len()) && #[trigger] old(self)@.with_tag_lists_removed(tag_ids@, n) == Some(
                        final(self)@,
                    ) && old(self)@.with_tag_lists_removed(tag_ids@, n + 1) is None,
            },
    {
        let ghost start = self@;
        let before: usize = self.tags.len();
        let ghost mut n: nat = 0;
        let mut from: usize = 0;
        while from < tag_ids.len()
            invariant
                from <= tag_ids.len(),
                from == n * SQL_CHUNK_SIZE || from == tag_ids.len(),
                n == chunk_count(from as nat),
                start == old(self)@,
                start.with_tag_lists_removed(tag_ids@, n) == Some(self@),
                self.tags.len() <= before,
                before == start.tags.len(),
            decreases tag_ids.len() - from,
        {
            let to: usize = if tag_ids.len() - from > SQL_CHUNK_SIZE {
                from + SQL_CHUNK_SIZE
            } else {
                tag_ids.len()
            };
            let part = copy_ids(tag_ids, from, to);
            assert(part@ == chunk(tag_ids@, n));
            let done = self.remove_tags(&part);
            if !done {
                assert(start.with_tag_lists_removed(tag_ids@, n + 1) is None);
                return Err(DbError::Unique);
            }
            proof {
                n = n + 1;
            }
            from = to;
        }
        Ok(before - self.tags.len())
    }

    /// Removes namespaces, with their tags. Where a relation would then stand in the table twice, nothing
    /// is removed.
    pub fn internal_namespace_bulk_delete(&mut self, ns_ids: &Vec<u64>) -> (removed: Result<(), DbError>)
        ensures
            ({
                let ids = ids_in_namespaces(old(self)@.tags, ns_ids@);
                match removed {
                    Ok(()) => without_tags(old(self)@.parents, ids) is Some && final(self)@ == old(self)@.with_namespaces_removed(ns_ids@),
                    Err(error) => error == DbError::Unique && without_tags(old(self)@.parents, ids) is None && final(self)@ == old(self)@,
                }
            }),
    {
        let ids = collect_ids_in_namespaces(&self.tags, ns_ids);
        if self.remove_tags(&ids) {
            self.namespaces = namespaces_but(&self.namespaces, ns_ids);
            Ok(())
        } else {
            Err(DbError::Unique)
        }
    }
}

/// Whether a structural relation names a tag.
pub open spec fn names_tag(relation: TagParents, id: u64) -> bool {
    relation.tag_id == id || relation.relate_tag_id == id || relation.limit_to == Some(id)
}

/// No relation names a tag that has been taken out.
pub proof fn lemma_without_tags(rows: Seq<ParentRow>, ids: Seq<u64>)
    requires
        without_tags(rows, ids) is Some,
    ensures
        forall|k: int, id: u64|
            0 <= k < without_tags(rows, ids)->0.len() && #[trigger] ids.contains(id) ==> !names_tag(
                (#[trigger] without_tags(rows, ids)->0[k]).relation,
                id,
            ),
    decreases ids.len(),
{
    if ids.len() > 0 {
        let shorter = ids.drop_last();
        let last = ids.last();
        lemma_without_tags(rows, shorter);
        let before = without_tags(rows, shorter)->0;
        let keep = |row: ParentRow| row.relation.tag_id != last && row.relation.relate_tag_id != last;
        let kept = before.filter(keep);
        let rest = without_tag(before, last);
        lemma_filter_members(before, keep);
        crate::text::lemma_push_contains(shorter, last);
        assert(shorter.push(last) =~= ids);
        assert forall|k: int, id: u64| 0 <= k < rest.len() && #[trigger] ids.contains(id) implies !names_tag(
            (#[trigger] rest[k]).relation,
            id,
        ) by {
            assert(kept.contains(kept[k]));
            let j = choose|j: int| 0 <= j < before.len() && before[j] == kept[k];
            assert(rest[k] == limit_cleared(kept[k], last));
            if shorter.contains(id) {
                assert(!names_tag(before[j].relation, id));
            }
        }
    }
}

impl DbState {
    /// Whether the tables hold no trace of a tag: no row, no relationship, no relation.
    pub open spec fn without_trace(self, id: u64) -> bool {
        &&& forall|k: int| 0 <= k < self.tags.len() ==> (#[trigger] self.tags[k]).id != id
        &&& forall|r: (u64, u64)| #[trigger] self.relationships.contains(r) ==> r.1 != id
        &&& forall|k: int| 0 <= k < self.parents.len() ==> !names_tag((#[trigger] self.parents[k]).relation, id)
    }
}

/// Taking tags out names no tag that was not named before.
proof fn lemma_without_tags_names_less(rows: Seq<ParentRow>, ids: Seq<u64>, id: u64)
    requires
        without_tags(rows, ids) is Some,
        forall|k: int| 0 <= k < rows.len() ==> !names_tag((#[trigger] rows[k]).relation, id),
    ensures
        forall|k: int|
            0 <= k < without_tags(rows, ids)->0.len() ==> !names_tag(
                (#[trigger] without_tags(rows, ids)->0[k]).relation,
                id,
            ),
    decreases ids.len(),
{
    if ids.len() > 0 {
        let last = ids.last();
        lemma_without_tags_names_less(rows, ids.drop_last(), id);
        let before = without_tags(rows, ids.drop_last())->0;
        let keep = |row: ParentRow| row.relation.tag_id != last && row.relation.relate_tag_id != last;
        let kept = before.filter(keep);
        let rest = without_tag(before, last);
        lemma_filter_members(before, keep);
        assert forall|k: int| 0 <= k < rest.len() implies !names_tag((#[trigger] rest[k]).relation, id) by {
            assert(kept.contains(kept[k]));
            let j = choose|j: int| 0 <= j < before.len() && before[j] == kept[k];
            assert(!names_tag(before[j].relation, id));
            assert(rest[k] == limit_cleared(kept[k], last));
        }
    }
}

/// Removing tags together leaves no trace of them, nor of those that had left none.
proof fn lemma_removed_together(state: DbState, ids: Seq<u64>, id: u64)
    requires
        without_tags(state.parents, ids) is Some,
        ids.contains(id) || state.without_trace(id),
    ensures
        state.with_tags_removed(ids).without_trace(id),
{
    let after = state.with_tags_removed(ids);
    let keep = |row: TagRec| !ids.contains(row.id);
    lemma_filter_members(state.tags, keep);
    assert forall|k: int| 0 <= k < after.tags.len() implies (#[trigger] after.tags[k]).id != id by {
        assert(state.tags.filter(keep).contains(after.tags[k]));
        if !ids.contains(id) {
            let j = choose|j: int| 0 <= j < state.tags.len() && state.tags[j] == after.tags[k];
            assert(state.tags[j].id != id);
        }
    }
    if ids.contains(id) {
        lemma_without_tags(state.parents, ids);
    } else {
        lemma_without_tags_names_less(state.parents, ids, id);
    }
}

/// Tags that have been removed leave no trace in the tables, also those that earlier statements removed where a
/// later one was refused.
pub proof fn removed_tags_leave_no_trace(state: DbState, ids: Seq<u64>, n: nat, i: int)
    requires
        n <= chunk_count(ids.len()),
        state.with_tag_lists_removed(ids, n) is Some,
        0 <= i < written_rows(ids.len(), n),
    ensures
        state.with_tag_lists_removed(ids, n)->0.without_trace(ids[i]),
    decreases n,
{
    if n > 0 {
        let m = (n - 1) as nat;
        let before = state.with_tag_lists_removed(ids, m)->0;
        let part = chunk(ids, m);
        if i < written_rows(ids.len(), m) {
            removed_tags_leave_no_trace(state, ids, m, i);
        } else {
            assert(part[i - m * 800] == ids[i]);
            assert(part.contains(ids[i]));
        }
        lemma_removed_together(before, part, ids[i]);
    }
}

} // verus!
