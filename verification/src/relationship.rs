//! Relationships: which file has which tag.
use crate::bitmap_cache::{RelationshipStorage, RoaringTables};
use crate::database::{SQL_CHUNK_SIZE, DbError, DbState, MainDatabase};
use crate::parents::tag_exists;
use crate::rows::{FileRec, FileRow, TagRec, TagRow, file_ids, find_file_id, find_tag_id, tag_ids};
use crate::text::{lemma_filter_step, lemma_pos, lemma_push_contains, pos, views};
use std::collections::HashSet;
use vstd::prelude::*;

verus! {

broadcast use vstd::std_specs::hash::group_hash_axioms;

/// Whether a file with this id exists.
pub open spec fn file_exists(files: Seq<FileRec>, id: u64) -> bool {
    pos(file_ids(files), id) < files.len()
}

/// The namespace of a tag.
pub open spec fn tag_namespace(tags: Seq<TagRec>, id: u64) -> Option<u64> {
    let at = pos(tag_ids(tags), id);
    if at < tags.len() {
        Some(tags[at].namespace)
    } else {
        None
    }
}

/// The tag table after a tag has been counted once more.
pub open spec fn counted_up(tags: Seq<TagRec>, id: u64) -> Seq<TagRec> {
    let at = pos(tag_ids(tags), id);
    if at < tags.len() && tags[at].count < u64::MAX {
        tags.update(at, TagRec { count: (tags[at].count + 1) as u64, ..tags[at] })
    } else {
        tags
    }
}

/// The tag table after a tag has been counted once less.
pub open spec fn counted_down(tags: Seq<TagRec>, id: u64) -> Seq<TagRec> {
    let at = pos(tag_ids(tags), id);
    if at < tags.len() && tags[at].count > 0 {
        tags.update(at, TagRec { count: (tags[at].count - 1) as u64, ..tags[at] })
    } else {
        tags
    }
}

/// The tag table after the tag of each relationship has been counted once more.
pub open spec fn all_counted_up(tags: Seq<TagRec>, relationships: Seq<(u64, u64)>) -> Seq<TagRec>
    decreases relationships.len(),
{
    if relationships.len() == 0 {
        tags
    } else {
        counted_up(all_counted_up(tags, relationships.drop_last()), relationships.last().1)
    }
}

/// How many statements it takes to write so many rows.
pub open spec fn chunk_count(rows: nat) -> nat {
    (rows + SQL_CHUNK_SIZE - 1) as nat / SQL_CHUNK_SIZE as nat
}

/// The rows that one statement writes.
pub open spec fn chunk<T>(rows: Seq<T>, n: nat) -> Seq<T> {
    let from = n * SQL_CHUNK_SIZE as nat;
    let to = from + SQL_CHUNK_SIZE;
    rows.subrange(
        from as int,
        if to < rows.len() {
            to as int
        } else {
            rows.len() as int
        },
    )
}

/// The relationships whose tag is in a namespace.
pub open spec fn in_namespace(
    tags: Seq<TagRec>,
    relationships: Seq<(u64, u64)>,
    namespace: u64,
) -> Seq<(u64, u64)> {
    relationships.filter(|r: (u64, u64)| tag_namespace(tags, r.1) == Some(namespace))
}

/// The namespaces of the tags of some relationships, each once, in order.
pub open spec fn namespaces_among(tags: Seq<TagRec>, relationships: Seq<(u64, u64)>) -> Seq<u64>
    decreases relationships.len(),
{
    if relationships.len() == 0 {
        Seq::empty()
    } else {
        let before = namespaces_among(tags, relationships.drop_last());
        match tag_namespace(tags, relationships.last().1) {
            Some(namespace) => if before.contains(namespace) {
                before
            } else {
                before.push(namespace)
            },
            None => before,
        }
    }
}

impl DbState {
    /// Whether one statement can write these relationships: their files and tags exist.
    pub open spec fn insertable(self, relationships: Seq<(u64, u64)>) -> bool {
        forall|i: int|
            0 <= i < relationships.len() ==> file_exists(self.files, (#[trigger] relationships[i]).0) && tag_exists(
                self.tags,
                relationships[i].1,
            )
    }

    /// Whether one of the relationships is new.
    pub open spec fn any_new(self, relationships: Seq<(u64, u64)>) -> bool {
        exists|i: int| 0 <= i < relationships.len() && !self.relationships.contains(#[trigger] relationships[i])
    }

    /// The state after one statement has written relationships. Where one of them was new, every tag
    /// that the statement names is counted.
    pub open spec fn with_chunk(self, relationships: Seq<(u64, u64)>) -> DbState {
        DbState {
            relationships: self.relationships.union(relationships.to_set()),
            tags: if self.any_new(relationships) {
                all_counted_up(self.tags, relationships)
            } else {
                self.tags
            },
            ..self
        }
    }

    /// The state after the first `n` statements.
    pub open spec fn with_chunks(self, relationships: Seq<(u64, u64)>, n: nat) -> DbState
        decreases n,
    {
        if n == 0 {
            self
        } else {
            self.with_chunks(relationships, (n - 1) as nat).with_chunk(chunk(relationships, (n - 1) as nat))
        }
    }

    /// How many statements succeed, from the `n`th on, before one fails.
    pub open spec fn chunks_inserted(self, relationships: Seq<(u64, u64)>, n: nat) -> nat
        decreases chunk_count(relationships.len()) - n,
    {
        if n >= chunk_count(relationships.len()) || !self.insertable(chunk(relationships, n)) {
            n
        } else {
            self.chunks_inserted(relationships, n + 1)
        }
    }

    /// The state after the relationship cache has learnt of relationships. While a search reads the
    /// bitmaps in memory, only the stored ones are written and memory is marked for reloading.
    pub open spec fn with_cached(self, relationships: Seq<(u64, u64)>) -> DbState {
        if self.roaring_memory_busy {
            DbState {
                bitmaps: if self.memory is Some {
                    self.bitmaps.with_all(relationships)
                } else {
                    self.bitmaps
                },
                roaring_memory_dirty: true,
                ..self
            }
        } else {
            match self.memory {
                Some(memory) => DbState {
                    memory: Some(memory.with_all(relationships)),
                    bitmaps: self.bitmaps.with_all(relationships),
                    ..self
                },
                None => self,
            }
        }
    }

    /// The state after the relationship cache has forgotten relationships.
    pub open spec fn without_cached(self, relationships: Seq<(u64, u64)>) -> DbState {
        if self.roaring_memory_busy {
            DbState {
                bitmaps: if self.memory is Some {
                    self.bitmaps.without_all(relationships)
                } else {
                    self.bitmaps
                },
                roaring_memory_dirty: true,
                ..self
            }
        } else {
            match self.memory {
                Some(memory) => DbState {
                    memory: Some(memory.without_all(relationships)),
                    bitmaps: self.bitmaps.without_all(relationships),
                    ..self
                },
                None => self,
            }
        }
    }

    /// The state after relationships within one namespace have been added.
    ///
    /// A statement that names a missing file or tag fails and ends the work. The cache learns of the
    /// relationships where none failed and one was new.
    pub open spec fn with_namespace_relationships(self, relationships: Seq<(u64, u64)>) -> DbState {
        let dirty = DbState { tag_search_dirty: true, ..self };
        let done = dirty.chunks_inserted(relationships, 0);
        let written = dirty.with_chunks(relationships, done);
        if done == chunk_count(relationships.len()) && self.any_new(relationships) {
            written.with_cached(relationships)
        } else {
            written
        }
    }

    /// The state after the relationships of each of these namespaces have been added.
    pub open spec fn with_grouped_relationships(self, relationships: Seq<(u64, u64)>, namespaces: Seq<u64>) -> DbState
        decreases namespaces.len(),
    {
        if namespaces.len() == 0 {
            DbState { tag_search_dirty: true, ..self }
        } else {
            self.with_grouped_relationships(relationships, namespaces.drop_last()).with_namespace_relationships(
                in_namespace(self.tags, relationships, namespaces.last()),
            )
        }
    }

    /// The state after relationships have been added, namespace by namespace. Those of unknown tags
    /// are passed over.
    #[verifier::opaque]
    pub open spec fn with_relationships(self, relationships: Seq<(u64, u64)>) -> DbState {
        self.with_grouped_relationships(relationships, namespaces_among(self.tags, relationships))
    }

    /// Whether a relationship of this namespace is among those to remove and exists.
    pub open spec fn removal_hits(self, relationships: Seq<(u64, u64)>, namespace: u64) -> bool {
        exists|i: int|
            0 <= i < relationships.len() && self.relationships.contains(#[trigger] relationships[i]) && tag_namespace(
                self.tags,
                relationships[i].1,
            ) == Some(namespace)
    }

    /// The tag table after relationships have been removed: the tag of each is counted once less where
    /// the removal hits its namespace.
    pub open spec fn removal_counted(self, all: Seq<(u64, u64)>, relationships: Seq<(u64, u64)>) -> Seq<TagRec>
        decreases relationships.len(),
    {
        if relationships.len() == 0 {
            self.tags
        } else {
            let before = self.removal_counted(all, relationships.drop_last());
            match tag_namespace(self.tags, relationships.last().1) {
                Some(namespace) => if self.removal_hits(all, namespace) {
                    counted_down(before, relationships.last().1)
                } else {
                    before
                },
                None => before,
            }
        }
    }

    /// The state after relationships have been removed. Those of unknown tags are passed over.
    #[verifier::opaque]
    pub open spec fn without_relationships(self, relationships: Seq<(u64, u64)>) -> DbState {
        if relationships.len() == 0 {
            self
        } else {
            DbState {
                tag_search_dirty: true,
                relationships: self.relationships.filter(
                    |r: (u64, u64)| !(relationships.contains(r) && tag_exists(self.tags, r.1)),
                ),
                tags: self.removal_counted(relationships, relationships),
                ..self.without_cached(relationships)
            }
        }
    }
}

/// Whether a list of relationships holds one.
pub fn holds_relationship(list: &Vec<(u64, u64)>, file_id: u64, tag_id: u64) -> (found: bool)
    ensures
        found == list@.contains((file_id, tag_id)),
{
    let mut i: usize = 0;
    while i < list.len()
        invariant
            i <= list.len(),
            forall|k: int| 0 <= k < i ==> list@[k] != (file_id, tag_id),
        decreases list.len() - i,
    {
        if list[i].0 == file_id && list[i].1 == tag_id {
            assert(list@[i as int] == (file_id, tag_id));
            return true;
        }
        i += 1;
    }
    false
}

fn count_up(tags: &mut Vec<TagRow>, id: u64)
    ensures
        views(final(tags)@) == counted_up(views(old(tags)@), id),
{
    let at: usize = find_tag_id(tags, id);
    if at < tags.len() && tags[at].count < u64::MAX {
        let row = TagRow {
            id: tags[at].id,
            name: tags[at].name.clone(),
            namespace: tags[at].namespace,
            count: tags[at].count + 1,
        };
        tags.set(at, row);
        assert(views(tags@) =~= counted_up(views(old(tags)@), id));
    }
}

fn count_down(tags: &mut Vec<TagRow>, id: u64)
    ensures
        views(final(tags)@) == counted_down(views(old(tags)@), id),
{
    let at: usize = find_tag_id(tags, id);
    if at < tags.len() && tags[at].count > 0 {
        let row = TagRow {
            id: tags[at].id,
            name: tags[at].name.clone(),
            namespace: tags[at].namespace,
            count: tags[at].count - 1,
        };
        tags.set(at, row);
        assert(views(tags@) =~= counted_down(views(old(tags)@), id));
    }
}

/// The namespace of a tag.
pub fn namespace_of_tag(tags: &Vec<TagRow>, id: u64) -> (namespace: Option<u64>)
    ensures
        namespace == tag_namespace(views(tags@), id),
{
    let at: usize = find_tag_id(tags, id);
    if at < tags.len() {
        Some(tags[at].namespace)
    } else {
        None
    }
}

fn all_insertable(files: &Vec<FileRow>, tags: &Vec<TagRow>, rels: &Vec<(u64, u64)>, from: usize, to: usize) -> (ok: bool)
    requires
        from <= to <= rels.len(),
    ensures
        ok == forall|i: int|
            0 <= i < rels@.subrange(from as int, to as int).len() ==> file_exists(
                views(files@),
                (#[trigger] rels@.subrange(from as int, to as int)[i]).0,
            ) && tag_exists(views(tags@), rels@.subrange(from as int, to as int)[i].1),
{
    let ghost part = rels@.subrange(from as int, to as int);
    let mut i: usize = from;
    while i < to
        invariant
            from <= i <= to <= rels.len(),
            part == rels@.subrange(from as int, to as int),
            forall|k: int|
                0 <= k < i - from ==> file_exists(views(files@), (#[trigger] part[k]).0) && tag_exists(
                    views(tags@),
                    part[k].1,
                ),
        decreases to - i,
    {
        if find_file_id(files, rels[i].0) == files.len() || find_tag_id(tags, rels[i].1) == tags.len() {
            assert(part[i - from] == rels@[i as int]);
            return false;
        }
        i += 1;
    }
    true
}

/// Counting leaves the ids and the namespaces of the tags.
pub proof fn lemma_counted_up(tags: Seq<TagRec>, id: u64)
    ensures
        tag_ids(counted_up(tags, id)) == tag_ids(tags),
        forall|t: u64| #[trigger] tag_namespace(counted_up(tags, id), t) == tag_namespace(tags, t),
        forall|t: u64| #[trigger] tag_exists(counted_up(tags, id), t) == tag_exists(tags, t),
{
    lemma_pos(tag_ids(tags), id);
    assert(tag_ids(counted_up(tags, id)) =~= tag_ids(tags));
    assert forall|t: u64| #[trigger] tag_namespace(counted_up(tags, id), t) == tag_namespace(tags, t) by {
        lemma_pos(tag_ids(tags), t);
    }
}

/// Counting leaves the ids and the namespaces of the tags.
pub proof fn lemma_counted_down(tags: Seq<TagRec>, id: u64)
    ensures
        tag_ids(counted_down(tags, id)) == tag_ids(tags),
        forall|t: u64| #[trigger] tag_namespace(counted_down(tags, id), t) == tag_namespace(tags, t),
        forall|t: u64| #[trigger] tag_exists(counted_down(tags, id), t) == tag_exists(tags, t),
{
    lemma_pos(tag_ids(tags), id);
    assert(tag_ids(counted_down(tags, id)) =~= tag_ids(tags));
    assert forall|t: u64| #[trigger] tag_namespace(counted_down(tags, id), t) == tag_namespace(tags, t) by {
        lemma_pos(tag_ids(tags), t);
    }
}

/// Counting leaves the ids and the namespaces of the tags.
pub proof fn lemma_all_counted_up(tags: Seq<TagRec>, relationships: Seq<(u64, u64)>)
    ensures
        tag_ids(all_counted_up(tags, relationships)) == tag_ids(tags),
        forall|t: u64| #[trigger] tag_namespace(all_counted_up(tags, relationships), t) == tag_namespace(tags, t),
        forall|t: u64| #[trigger] tag_exists(all_counted_up(tags, relationships), t) == tag_exists(tags, t),
    decreases relationships.len(),
{
    if relationships.len() > 0 {
        lemma_all_counted_up(tags, relationships.drop_last());
        lemma_counted_up(all_counted_up(tags, relationships.drop_last()), relationships.last().1);
    }
}

/// Writing relationships leaves all but the relationships and the counts of the tags.
pub proof fn lemma_with_chunks(state: DbState, relationships: Seq<(u64, u64)>, n: nat)
    ensures
        ({
            let after = state.with_chunks(relationships, n);
            &&& after == (DbState { relationships: after.relationships, tags: after.tags, ..state })
            &&& forall|t: u64| #[trigger] tag_namespace(after.tags, t) == tag_namespace(state.tags, t)
            &&& forall|t: u64| #[trigger] tag_exists(after.tags, t) == tag_exists(state.tags, t)
            &&& forall|part: Seq<(u64, u64)>| #[trigger] after.insertable(part) == state.insertable(part)
        }),
    decreases n,
{
    if n > 0 {
        lemma_with_chunks(state, relationships, (n - 1) as nat);
        let before = state.with_chunks(relationships, (n - 1) as nat);
        lemma_all_counted_up(before.tags, chunk(relationships, (n - 1) as nat));
    }
}

/// The `n`th statement and those before it have written the first rows.
pub proof fn lemma_chunks_written(state: DbState, relationships: Seq<(u64, u64)>, n: nat)
    requires
        n <= chunk_count(relationships.len()),
    ensures
        state.with_chunks(relationships, n).relationships == state.relationships.union(
            relationships.take(written_rows(relationships.len(), n)).to_set(),
        ),
    decreases n,
{
    let rows = relationships.len();
    if n == 0 {
        assert(relationships.take(0).to_set() =~= Set::<(u64, u64)>::empty());
        assert(state.relationships.union(relationships.take(0).to_set()) =~= state.relationships);
    } else {
        let m = (n - 1) as nat;
        lemma_chunks_written(state, relationships, m);
        let part = chunk(relationships, m);
        let short = relationships.take(written_rows(rows, m));
        let long = relationships.take(written_rows(rows, n));
        assert(long =~= short + part);
        assert forall|r: (u64, u64)| #[trigger] long.contains(r) <==> short.contains(r) || part.contains(r) by {
            if short.contains(r) {
                let k = choose|k: int| 0 <= k < short.len() && short[k] == r;
                assert(long[k] == r);
            }
            if part.contains(r) {
                let k = choose|k: int| 0 <= k < part.len() && part[k] == r;
                assert(long[short.len() + k] == r);
            }
            if long.contains(r) {
                let k = choose|k: int| 0 <= k < long.len() && long[k] == r;
                if k < short.len() {
                    assert(short[k] == r);
                } else {
                    assert(part[k - short.len()] == r);
                }
            }
        }
        assert(state.relationships.union(short.to_set()).union(part.to_set()) =~= state.relationships.union(
            long.to_set(),
        ));
    }
}

/// How many rows the first `n` statements write.
pub open spec fn written_rows(rows: nat, n: nat) -> int {
    if n * SQL_CHUNK_SIZE < rows {
        (n * SQL_CHUNK_SIZE) as int
    } else {
        rows as int
    }
}

impl MainDatabase {
    fn insert_chunk(&mut self, rels: &Vec<(u64, u64)>, from: usize, to: usize) -> (inserted: bool)
        requires
            from <= to <= rels.len(),
        ensures
            final(self)@ == old(self)@.with_chunk(rels@.subrange(from as int, to as int)),
            inserted == old(self)@.any_new(rels@.subrange(from as int, to as int)),
    {
        let ghost part = rels@.subrange(from as int, to as int);
        let ghost start = self@;
        let mut inserted = false;
        let mut i: usize = from;
        assert(part.take(0).to_set() =~= Set::<(u64, u64)>::empty());
        assert(self@.relationships =~= start.relationships.union(part.take(0).to_set()));
        while i < to
            invariant
                from <= i <= to <= rels.len(),
                part == rels@.subrange(from as int, to as int),
                self@ == (DbState {
                    relationships: start.relationships.union(part.take(i - from).to_set()),
                    ..start
                }),
                inserted == exists|k: int| 0 <= k < i - from && !start.relationships.contains(#[trigger] part[k]),
            decreases to - i,
        {
            let (file_id, tag_id) = rels[i];
            let ghost before = self@.relationships;
            proof {
                assert(part[i - from] == (file_id, tag_id));
                assert(part.take(i + 1 - from) =~= part.take(i - from).push((file_id, tag_id)));
                lemma_push_contains(part.take(i - from), (file_id, tag_id));
                lemma_push_contains(self.relationships@, (file_id, tag_id));
            }
            let present = holds_relationship(&self.relationships, file_id, tag_id);
            assert(present == before.contains((file_id, tag_id)));
            if !present {
                self.relationships.push((file_id, tag_id));
            }
            proof {
                assert forall|r: (u64, u64)| #[trigger] self@.relationships.contains(r) <==> before.contains(r) || r == (
                    file_id,
                    tag_id,
                ) by {
                    assert(self@.relationships.contains(r) == self.relationships@.contains(r));
                }
                assert forall|r: (u64, u64)| #[trigger] part.take(i + 1 - from).to_set().contains(r) <==> part.take(
                    i - from,
                ).to_set().contains(r) || r == (file_id, tag_id) by {
                    assert(part.take(i + 1 - from).contains(r) == part.take(i - from).push((file_id, tag_id)).contains(r));
                }
                if !present && start.relationships.contains((file_id, tag_id)) {
                    assert(before.contains((file_id, tag_id)));
                }
                if present && !start.relationships.contains((file_id, tag_id)) {
                    assert(part.take(i - from).to_set().contains((file_id, tag_id)));
                    assert(part.take(i - from).contains((file_id, tag_id)));
                    let seen = part.take(i - from);
                    let k = choose|k: int| 0 <= k < seen.len() && seen[k] == (file_id, tag_id);
                    assert(part[k] == (file_id, tag_id));
                }
                assert(self@.relationships =~= start.relationships.union(part.take(i + 1 - from).to_set()));
            }
            if !present {
                inserted = true;
                assert(!start.relationships.contains(part[i - from]));
            }
            i += 1;
        }
        proof {
            assert(part.take(i - from) =~= part);
        }
        let ghost written = self@;
        if inserted {
            let mut k: usize = from;
            assert(part.take(0) =~= Seq::<(u64, u64)>::empty());
            while k < to
                invariant
                    from <= k <= to <= rels.len(),
                    part == rels@.subrange(from as int, to as int),
                    self@ == (DbState { tags: all_counted_up(start.tags, part.take(k - from)), ..written }),
                decreases to - k,
            {
                count_up(&mut self.tags, rels[k].1);
                proof {
                    assert(part.take(k + 1 - from).drop_last() =~= part.take(k - from));
                    assert(part.take(k + 1 - from).last() == rels@[k as int]);
                }
                k += 1;
            }
            assert(part.take(k - from) =~= part);
        }
        inserted
    }

    /// Tells the relationship cache of relationships.
    fn cache_relationships(&mut self, rels: &Vec<(u64, u64)>)
        ensures
            final(self)@ == old(self)@.with_cached(rels@),
    {
        if self.roaring_memory_busy {
            if self.relationship_roaring_storage.is_some() {
                tables_add_all(&mut self.bitmaps, rels);
            }
            self.roaring_memory_dirty = true;
        } else {
            if let Some(storage) = &mut self.relationship_roaring_storage {
                storage_add_all(storage, &mut self.bitmaps, rels);
            }
        }
    }

    /// Makes the relationship cache forget relationships.
    fn uncache_relationships(&mut self, rels: &Vec<(u64, u64)>)
        ensures
            final(self)@ == old(self)@.without_cached(rels@),
    {
        if self.roaring_memory_busy {
            if self.relationship_roaring_storage.is_some() {
                tables_remove_all(&mut self.bitmaps, rels);
            }
            self.roaring_memory_dirty = true;
        } else {
            if let Some(storage) = &mut self.relationship_roaring_storage {
                storage_remove_all(storage, &mut self.bitmaps, rels);
            }
        }
    }

    /// Adds relationships whose tags are in one namespace.
    pub fn internal_relationship_bulk_add(&mut self, namespace_id: u64, relationships: &Vec<(u64, u64)>)
        requires
            forall|i: int|
                0 <= i < relationships@.len() && tag_exists(old(self)@.tags, (#[trigger] relationships@[i]).1)
                    ==> tag_namespace(old(self)@.tags, relationships@[i].1) == Some(namespace_id),
        ensures
            final(self)@ == old(self)@.with_namespace_relationships(relationships@),
    {
        let ghost all = relationships@;
        self.tag_search_dirty = true;
        let ghost start = self@;
        let total: usize = relationships.len();
        let mut from: usize = 0;
        let mut inserted = false;
        let ghost mut n: nat = 0;
        while from < total
            invariant
                total == relationships.len(),
                all == relationships@,
                n <= chunk_count(total as nat),
                from == written_rows(total as nat, n),
                from < total ==> n < chunk_count(total as nat),
                self@ == start.with_chunks(all, n),
                start == (DbState { tag_search_dirty: true, ..old(self)@ }),
                start.chunks_inserted(all, 0) == start.chunks_inserted(all, n),
                inserted == start.any_new(all.take(from as int)),
            decreases total - from,
        {
            let to: usize = if total - from > SQL_CHUNK_SIZE { from + SQL_CHUNK_SIZE } else { total };
            let ghost part = all.subrange(from as int, to as int);
            proof {
                assert(part =~= chunk(all, n));
                lemma_with_chunks(start, all, n);
                lemma_chunks_written(start, all, n);
            }
            if !all_insertable(&self.files, &self.tags, relationships, from, to) {
                assert(!self@.insertable(chunk(all, n)));
                return;
            }
            assert(self@.insertable(chunk(all, n)));
            let new_rows = self.insert_chunk(relationships, from, to);
            proof {
                lemma_any_new_step(start, all, from as int, to as int);
            }
            inserted = inserted || new_rows;
            from = to;
            proof {
                n = n + 1;
            }
        }
        proof {
            assert(all.take(from as int) =~= all);
        }
        if inserted {
            self.cache_relationships(relationships);
        }
    }
}

/// Whether rows are new is not changed by the rows before them.
proof fn lemma_any_new_step(state: DbState, all: Seq<(u64, u64)>, from: int, to: int)
    requires
        0 <= from <= to <= all.len(),
    ensures
        ({
            let written = DbState { relationships: state.relationships.union(all.take(from).to_set()), ..state };
            (state.any_new(all.take(from)) || written.any_new(all.subrange(from, to))) == state.any_new(all.take(to))
        }),
{
    let written = DbState { relationships: state.relationships.union(all.take(from).to_set()), ..state };
    let part = all.subrange(from, to);
    if state.any_new(all.take(from)) {
        let i = choose|i: int| 0 <= i < from && !state.relationships.contains(#[trigger] all.take(from)[i]);
        assert(all.take(to)[i] == all.take(from)[i]);
    }
    if written.any_new(part) {
        let i = choose|i: int| 0 <= i < part.len() && !written.relationships.contains(#[trigger] part[i]);
        assert(all.take(to)[from + i] == part[i]);
    }
    if state.any_new(all.take(to)) && !state.any_new(all.take(from)) {
        let i = choose|i: int| 0 <= i < to && !state.relationships.contains(#[trigger] all.take(to)[i]);
        if i < from {
            assert(all.take(from)[i] == all.take(to)[i]);
        } else {
            assert(part[i - from] == all.take(to)[i]);
            if all.take(from).contains(part[i - from]) {
                let k = choose|k: int| 0 <= k < from && all.take(from)[k] == part[i - from];
                assert(state.relationships.contains(all.take(from)[k]));
            }
            assert(!written.relationships.contains(part[i - from]));
        }
    }
}

fn tables_add_all(tables: &mut RoaringTables, rels: &Vec<(u64, u64)>)
    ensures
        final(tables)@ == old(tables)@.with_all(rels@),
{
    let mut i: usize = 0;
    assert(rels@.take(0) =~= Seq::<(u64, u64)>::empty());
    while i < rels.len()
        invariant
            i <= rels.len(),
            tables@ == old(tables)@.with_all(rels@.take(i as int)),
        decreases rels.len() - i,
    {
        tables.relationship_cache_add_sql_standalone(rels[i].0, rels[i].1);
        assert(rels@.take(i + 1).drop_last() =~= rels@.take(i as int));
        i += 1;
    }
    assert(rels@.take(i as int) =~= rels@);
}

fn tables_remove_all(tables: &mut RoaringTables, rels: &Vec<(u64, u64)>)
    ensures
        final(tables)@ == old(tables)@.without_all(rels@),
{
    let mut i: usize = 0;
    assert(rels@.take(0) =~= Seq::<(u64, u64)>::empty());
    while i < rels.len()
        invariant
            i <= rels.len(),
            tables@ == old(tables)@.without_all(rels@.take(i as int)),
        decreases rels.len() - i,
    {
        tables.relationship_cache_remove_sql_standalone(rels[i].0, rels[i].1);
        assert(rels@.take(i + 1).drop_last() =~= rels@.take(i as int));
        i += 1;
    }
    assert(rels@.take(i as int) =~= rels@);
}

fn storage_add_all(storage: &mut RelationshipStorage, tables: &mut RoaringTables, rels: &Vec<(u64, u64)>)
    ensures
        final(storage)@ == old(storage)@.with_all(rels@),
        final(tables)@ == old(tables)@.with_all(rels@),
{
    let mut i: usize = 0;
    assert(rels@.take(0) =~= Seq::<(u64, u64)>::empty());
    while i < rels.len()
        invariant
            i <= rels.len(),
            storage@ == old(storage)@.with_all(rels@.take(i as int)),
            tables@ == old(tables)@.with_all(rels@.take(i as int)),
        decreases rels.len() - i,
    {
        storage.relationship_roaring_add(tables, rels[i].0, rels[i].1);
        assert(rels@.take(i + 1).drop_last() =~= rels@.take(i as int));
        i += 1;
    }
    assert(rels@.take(i as int) =~= rels@);
}

fn storage_remove_all(storage: &mut RelationshipStorage, tables: &mut RoaringTables, rels: &Vec<(u64, u64)>)
    ensures
        final(storage)@ == old(storage)@.without_all(rels@),
        final(tables)@ == old(tables)@.without_all(rels@),
{
    let mut i: usize = 0;
    assert(rels@.take(0) =~= Seq::<(u64, u64)>::empty());
    while i < rels.len()
        invariant
            i <= rels.len(),
            storage@ == old(storage)@.without_all(rels@.take(i as int)),
            tables@ == old(tables)@.without_all(rels@.take(i as int)),
        decreases rels.len() - i,
    {
        storage.remove_roaring(tables, rels[i].1, rels[i].0);
        assert(rels@.take(i + 1).drop_last() =~= rels@.take(i as int));
        i += 1;
    }
    assert(rels@.take(i as int) =~= rels@);
}


/// The files that have a tag.
pub open spec fn files_with(relationships: Set<(u64, u64)>, tag_id: u64) -> Set<u64> {
    Set::new(|f: u64| relationships.contains((f, tag_id)))
}

/// The tags that a file has.
pub open spec fn tags_with(relationships: Set<(u64, u64)>, file_id: u64) -> Set<u64> {
    Set::new(|t: u64| relationships.contains((file_id, t)))
}

impl DbState {
    /// The tags of a file: from memory where they are held there, else from the table.
    pub open spec fn tags_of_file(self, file_id: u64) -> Set<u64> {
        if self.memory matches Some(memory) && memory.file_id.dom().contains(file_id) {
            self.memory->0.file_id[file_id]
        } else {
            tags_with(self.relationships, file_id)
        }
    }

    /// The files of a tag: from memory where they are held there, else from the table.
    pub open spec fn files_of_tag(self, tag_id: u64) -> Set<u64> {
        if self.memory matches Some(memory) && memory.tag_id.dom().contains(tag_id) {
            self.memory->0.tag_id[tag_id]
        } else {
            files_with(self.relationships, tag_id)
        }
    }
}

/// The files that have a tag.
pub fn collect_files(relationships: &Vec<(u64, u64)>, tag_id: u64) -> (files: HashSet<u64>)
    ensures
        files@ == files_with(relationships@.to_set(), tag_id),
{
    let mut files: HashSet<u64> = HashSet::new();
    let mut i: usize = 0;
    assert(files@ =~= files_with(relationships@.take(0).to_set(), tag_id));
    while i < relationships.len()
        invariant
            i <= relationships.len(),
            files@ == files_with(relationships@.take(i as int).to_set(), tag_id),
        decreases relationships.len() - i,
    {
        let (file, tag) = relationships[i];
        if tag == tag_id {
            files.insert(file);
        }
        proof {
            assert(relationships@.take(i + 1) =~= relationships@.take(i as int).push((file, tag)));
            lemma_push_contains(relationships@.take(i as int), (file, tag));
            assert(files@ =~= files_with(relationships@.take(i + 1).to_set(), tag_id));
        }
        i += 1;
    }
    assert(relationships@.take(i as int) =~= relationships@);
    files
}

/// The tags that a file has.
pub fn collect_tags_of(relationships: &Vec<(u64, u64)>, file_id: u64) -> (tags: HashSet<u64>)
    ensures
        tags@ == tags_with(relationships@.to_set(), file_id),
{
    let mut tags: HashSet<u64> = HashSet::new();
    let mut i: usize = 0;
    assert(tags@ =~= tags_with(relationships@.take(0).to_set(), file_id));
    while i < relationships.len()
        invariant
            i <= relationships.len(),
            tags@ == tags_with(relationships@.take(i as int).to_set(), file_id),
        decreases relationships.len() - i,
    {
        let (file, tag) = relationships[i];
        if file == file_id {
            tags.insert(tag);
        }
        proof {
            assert(relationships@.take(i + 1) =~= relationships@.take(i as int).push((file, tag)));
            lemma_push_contains(relationships@.take(i as int), (file, tag));
            assert(tags@ =~= tags_with(relationships@.take(i + 1).to_set(), file_id));
        }
        i += 1;
    }
    assert(relationships@.take(i as int) =~= relationships@);
    tags
}

fn filter_namespace(tags: &Vec<TagRow>, rels: &Vec<(u64, u64)>, namespace: u64) -> (group: Vec<(u64, u64)>)
    ensures
        group@ == in_namespace(views(tags@), rels@, namespace),
        forall|i: int|
            0 <= i < group@.len() ==> tag_namespace(views(tags@), (#[trigger] group@[i]).1) == Some(namespace),
{
    let ghost keep = |r: (u64, u64)| tag_namespace(views(tags@), r.1) == Some(namespace);
    let mut group: Vec<(u64, u64)> = Vec::new();
    let mut i: usize = 0;
    assert(rels@.take(0).filter(keep) =~= Seq::<(u64, u64)>::empty()) by {
        reveal(Seq::filter);
    }
    while i < rels.len()
        invariant
            i <= rels.len(),
            keep == (|r: (u64, u64)| tag_namespace(views(tags@), r.1) == Some(namespace)),
            group@ == rels@.take(i as int).filter(keep),
            forall|k: int|
                0 <= k < group@.len() ==> tag_namespace(views(tags@), (#[trigger] group@[k]).1) == Some(namespace),
        decreases rels.len() - i,
    {
        proof {
            lemma_filter_step(rels@, i as int, keep);
        }
        if let Some(found) = namespace_of_tag(tags, rels[i].1) {
            if found == namespace {
                group.push(rels[i]);
            }
        }
        i += 1;
    }
    assert(rels@.take(i as int) =~= rels@);
    group
}

fn collect_namespaces_among(tags: &Vec<TagRow>, rels: &Vec<(u64, u64)>) -> (namespaces: Vec<u64>)
    ensures
        namespaces@ == namespaces_among(views(tags@), rels@),
{
    let mut namespaces: Vec<u64> = Vec::new();
    let mut i: usize = 0;
    assert(rels@.take(0) =~= Seq::<(u64, u64)>::empty());
    while i < rels.len()
        invariant
            i <= rels.len(),
            namespaces@ == namespaces_among(views(tags@), rels@.take(i as int)),
        decreases rels.len() - i,
    {
        assert(rels@.take(i + 1).drop_last() =~= rels@.take(i as int));
        if let Some(namespace) = namespace_of_tag(tags, rels[i].1) {
            if !holds_number(&namespaces, namespace) {
                namespaces.push(namespace);
            }
        }
        i += 1;
    }
    assert(rels@.take(i as int) =~= rels@);
    namespaces
}

/// Whether a list of numbers holds one.
pub fn holds_number(list: &Vec<u64>, number: u64) -> (found: bool)
    ensures
        found == list@.contains(number),
{
    let mut i: usize = 0;
    while i < list.len()
        invariant
            i <= list.len(),
            forall|k: int| 0 <= k < i ==> list@[k] != number,
        decreases list.len() - i,
    {
        if list[i] == number {
            return true;
        }
        i += 1;
    }
    false
}

/// Adding relationships keeps the ids and the namespaces of the tags, and all but the relationships,
/// the counts and the caches.
pub proof fn lemma_with_namespace_relationships(state: DbState, relationships: Seq<(u64, u64)>)
    ensures
        ({
            let after = state.with_namespace_relationships(relationships);
            &&& after == (DbState {
                relationships: after.relationships,
                tags: after.tags,
                tag_search_dirty: true,
                bitmaps: after.bitmaps,
                memory: after.memory,
                roaring_memory_dirty: after.roaring_memory_dirty,
                ..state
            })
            &&& forall|t: u64| #[trigger] tag_namespace(after.tags, t) == tag_namespace(state.tags, t)
            &&& forall|t: u64| #[trigger] tag_exists(after.tags, t) == tag_exists(state.tags, t)
        }),
{
    let dirty = DbState { tag_search_dirty: true, ..state };
    lemma_with_chunks(dirty, relationships, dirty.chunks_inserted(relationships, 0));
}

/// Adding relationships namespace by namespace keeps the ids and the namespaces of the tags, and all
/// but the relationships, the counts and the caches.
pub proof fn lemma_with_grouped_relationships(state: DbState, relationships: Seq<(u64, u64)>, namespaces: Seq<u64>)
    ensures
        ({
            let after = state.with_grouped_relationships(relationships, namespaces);
            &&& after == (DbState {
                relationships: after.relationships,
                tags: after.tags,
                tag_search_dirty: true,
                bitmaps: after.bitmaps,
                memory: after.memory,
                roaring_memory_dirty: after.roaring_memory_dirty,
                ..state
            })
            &&& forall|t: u64| #[trigger] tag_namespace(after.tags, t) == tag_namespace(state.tags, t)
            &&& forall|t: u64| #[trigger] tag_exists(after.tags, t) == tag_exists(state.tags, t)
        }),
    decreases namespaces.len(),
{
    if namespaces.len() > 0 {
        lemma_with_grouped_relationships(state, relationships, namespaces.drop_last());
        lemma_with_namespace_relationships(
            state.with_grouped_relationships(relationships, namespaces.drop_last()),
            in_namespace(state.tags, relationships, namespaces.last()),
        );
    }
}

proof fn lemma_in_namespace_same(left: Seq<TagRec>, right: Seq<TagRec>, relationships: Seq<(u64, u64)>, namespace: u64)
    requires
        forall|t: u64| #[trigger] tag_namespace(left, t) == tag_namespace(right, t),
    ensures
        in_namespace(left, relationships, namespace) == in_namespace(right, relationships, namespace),
{
    let l = |r: (u64, u64)| tag_namespace(left, r.1) == Some(namespace);
    let r = |r: (u64, u64)| tag_namespace(right, r.1) == Some(namespace);
    assert(l =~= r);
}

impl MainDatabase {
    /// Adds relationships, namespace by namespace.
    pub fn internal_relationships_bulk_add(&mut self, relationships: &Vec<(u64, u64)>)
        ensures
            final(self)@ == old(self)@.with_relationships(relationships@),
    {
        let ghost start = self@;
        self.tag_search_dirty = true;
        let namespaces = collect_namespaces_among(&self.tags, relationships);
        let mut i: usize = 0;
        assert(namespaces@.take(0) =~= Seq::<u64>::empty());
        while i < namespaces.len()
            invariant
                i <= namespaces.len(),
                self@ == start.with_grouped_relationships(relationships@, namespaces@.take(i as int)),
            decreases namespaces.len() - i,
        {
            proof {
                lemma_with_grouped_relationships(start, relationships@, namespaces@.take(i as int));
                lemma_in_namespace_same(self@.tags, start.tags, relationships@, namespaces@[i as int]);
                assert(namespaces@.take(i + 1).drop_last() =~= namespaces@.take(i as int));
            }
            let group = filter_namespace(&self.tags, relationships, namespaces[i]);
            self.internal_relationship_bulk_add(namespaces[i], &group);
            i += 1;
        }
        proof {
            assert(namespaces@.take(i as int) =~= namespaces@);
            reveal(DbState::with_relationships);
        }
    }

    /// Adds relationships; does nothing where there is none.
    pub fn add_relationship_bulk(&mut self, rel_list: &Vec<(u64, u64)>)
        ensures
            final(self)@ == (if rel_list@.len() == 0 {
                old(self)@
            } else {
                old(self)@.with_relationships(rel_list@)
            }),
    {
        if !rel_list.is_empty() {
            self.internal_relationships_bulk_add(rel_list);
        }
    }

    /// Adds one relationship, without counting and without telling the cache.
    pub fn internal_relationship_add(&mut self, file_id: u64, tag_id: u64) -> (result: Result<(), DbError>)
        ensures
            ({
                let dirty = DbState { tag_search_dirty: true, ..old(self)@ };
                match result {
                    Ok(()) => tag_exists(old(self)@.tags, tag_id) && (old(self)@.relationships.contains(
                        (file_id, tag_id),
                    ) || file_exists(old(self)@.files, file_id)) && final(self)@ == (DbState {
                        relationships: old(self)@.relationships.insert((file_id, tag_id)),
                        ..dirty
                    }),
                    Err(DbError::QueryReturnedNoRows) => !tag_exists(old(self)@.tags, tag_id) && final(self)@ == dirty,
                    Err(DbError::ForeignKey) => tag_exists(old(self)@.tags, tag_id)
                        && !old(self)@.relationships.contains((file_id, tag_id)) && !file_exists(
                        old(self)@.files,
                        file_id,
                    ) && final(self)@ == dirty,
                    _ => false,
                }
            }),
    {
        self.tag_search_dirty = true;
        proof {
            lemma_pos(tag_ids(self@.tags), tag_id);
            lemma_pos(file_ids(self@.files), file_id);
            lemma_push_contains(self.relationships@, (file_id, tag_id));
        }
        if find_tag_id(&self.tags, tag_id) == self.tags.len() {
            return Err(DbError::QueryReturnedNoRows);
        }
        if holds_relationship(&self.relationships, file_id, tag_id) {
            assert(self@.relationships.insert((file_id, tag_id)) =~= self@.relationships);
            return Ok(());
        }
        if find_file_id(&self.files, file_id) == self.files.len() {
            return Err(DbError::ForeignKey);
        }
        let ghost before = self@.relationships;
        self.relationships.push((file_id, tag_id));
        assert(self@.relationships =~= before.insert((file_id, tag_id)));
        Ok(())
    }

    /// Removes relationships.
    pub fn internal_relationship_bulk_delete(&mut self, relationships: &Vec<(u64, u64)>)
        ensures
            final(self)@ == old(self)@.without_relationships(relationships@),
    {
        proof {
            reveal(DbState::without_relationships);
        }
        if relationships.is_empty() {
            return;
        }
        let ghost start = self@;
        let ghost all = relationships@;
        self.tag_search_dirty = true;
        self.uncache_relationships(relationships);
        let ghost uncached = self@;
        // The namespaces that the removal hits, before anything is removed.
        let mut hit: Vec<u64> = Vec::new();
        let mut h: usize = 0;
        while h < relationships.len()
            invariant
                h <= relationships.len(),
                all == relationships@,
                self@ == uncached,
                uncached.tags == start.tags,
                uncached.relationships == start.relationships,
                forall|n: u64| #[trigger]
                    hit@.contains(n) <==> exists|i: int|
                        0 <= i < h && start.relationships.contains(#[trigger] all[i]) && tag_namespace(
                            start.tags,
                            all[i].1,
                        ) == Some(n),
            decreases relationships.len() - h,
        {
            let (file_id, tag_id) = relationships[h];
            let ghost before = hit@;
            if holds_relationship(&self.relationships, file_id, tag_id) {
                assert(start.relationships.contains(all[h as int]));
                if let Some(namespace) = namespace_of_tag(&self.tags, tag_id) {
                    proof {
                        lemma_push_contains(hit@, namespace);
                    }
                    hit.push(namespace);
                }
            } else {
                assert(!start.relationships.contains(all[h as int]));
            }
            assert forall|n: u64| #[trigger] hit@.contains(n) <==> exists|i: int|
                0 <= i < h + 1 && start.relationships.contains(#[trigger] all[i]) && tag_namespace(start.tags, all[i].1)
                    == Some(n) by {
                if before.contains(n) {
                    let i = choose|i: int|
                        0 <= i < h && start.relationships.contains(#[trigger] all[i]) && tag_namespace(
                            start.tags,
                            all[i].1,
                        ) == Some(n);
                    assert(start.relationships.contains(all[i]));
                }
            }
            h += 1;
        }
        // What stays.
        let mut kept: Vec<(u64, u64)> = Vec::new();
        let mut i: usize = 0;
        let ghost rows = self.relationships@;
        let ghost gone = |r: (u64, u64)| all.contains(r) && tag_exists(start.tags, r.1);
        while i < self.relationships.len()
            invariant
                i <= self.relationships.len(),
                all == relationships@,
                rows == self.relationships@,
                self@ == uncached,
                uncached.tags == start.tags,
                gone == (|r: (u64, u64)| all.contains(r) && tag_exists(start.tags, r.1)),
                forall|r: (u64, u64)| #[trigger]
                    kept@.contains(r) <==> rows.take(i as int).contains(r) && !gone(r),
            decreases self.relationships.len() - i,
        {
            let (file_id, tag_id) = self.relationships[i];
            proof {
                lemma_pos(tag_ids(start.tags), tag_id);
                lemma_push_contains(kept@, (file_id, tag_id));
                lemma_push_contains(rows.take(i as int), (file_id, tag_id));
                assert(rows.take(i + 1) =~= rows.take(i as int).push((file_id, tag_id)));
            }
            let listed = holds_relationship(relationships, file_id, tag_id);
            let known = find_tag_id(&self.tags, tag_id) < self.tags.len();
            assert(gone((file_id, tag_id)) == (listed && known));
            if !(listed && known) {
                kept.push((file_id, tag_id));
            }
            i += 1;
        }
        proof {
            assert(rows.take(i as int) =~= rows);
        }
        self.relationships = kept;
        proof {
            assert forall|r: (u64, u64)| #[trigger]
                self@.relationships.contains(r) <==> start.relationships.contains(r) && !gone(r) by {
                assert(kept@.contains(r) <==> rows.contains(r) && !gone(r));
            }
            assert(self@.relationships =~= start.relationships.filter(
                |r: (u64, u64)| !(all.contains(r) && tag_exists(start.tags, r.1)),
            ));
        }
        let ghost removed = self@;
        let mut c: usize = 0;
        assert(all.take(0) =~= Seq::<(u64, u64)>::empty());
        while c < relationships.len()
            invariant
                c <= relationships.len(),
                all == relationships@,
                forall|t: u64| #[trigger] tag_namespace(self@.tags, t) == tag_namespace(start.tags, t),
                forall|n: u64| #[trigger]
                    hit@.contains(n) <==> exists|i: int|
                        0 <= i < all.len() && start.relationships.contains(#[trigger] all[i]) && tag_namespace(
                            start.tags,
                            all[i].1,
                        ) == Some(n),
                self@ == (DbState { tags: start.removal_counted(all, all.take(c as int)), ..removed }),
            decreases relationships.len() - c,
        {
            let (file_id, tag_id) = relationships[c];
            assert(all.take(c + 1).drop_last() =~= all.take(c as int));
            if let Some(namespace) = namespace_of_tag(&self.tags, tag_id) {
                let counted = holds_number(&hit, namespace);
                assert(counted == start.removal_hits(all, namespace));
                proof {
                    lemma_counted_down(self@.tags, tag_id);
                }
                if counted {
                    count_down(&mut self.tags, tag_id);
                }
            }
            c += 1;
        }
        assert(all.take(c as int) =~= all);
    }

    /// Removes relationships; does nothing where there is none.
    pub fn delete_relationship_bulk(&mut self, rel_list: &Vec<(u64, u64)>)
        ensures
            final(self)@ == old(self)@.without_relationships(rel_list@),
    {
        self.internal_relationship_bulk_delete(rel_list);
    }
}

} // verus!
