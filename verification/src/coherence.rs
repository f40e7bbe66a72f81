//! What adding and removing relationships amounts to, and how the caches keep up with it.
use crate::bitmap_cache::{InternalCacheType, StorageView, TablesView, stored_set};
use crate::cache::tables_of;
use crate::database::{CacheType, DbState};
use crate::parents::tag_exists;
use crate::relationship::{
    chunk, chunk_count, file_exists, files_with, in_namespace, lemma_chunks_written, lemma_with_chunks,
    namespaces_among, tag_namespace, tags_with, written_rows,
};
use crate::text::{lemma_filter_members, lemma_push_contains};
use vstd::prelude::*;

verus! {

/// Whether stored sets of files are those of the relationships, tag by tag.
pub open spec fn files_stored(blobs: Map<u64, Option<Set<u64>>>, relationships: Set<(u64, u64)>) -> bool {
    forall|t: u64| #[trigger]
        stored_set(blobs, t) == (if blobs.dom().contains(t) {
            Some(files_with(relationships, t))
        } else {
            None
        }) && (!blobs.dom().contains(t) ==> files_with(relationships, t) == Set::<u64>::empty())
}

/// Whether stored sets of tags are those of the relationships, file by file.
pub open spec fn tags_stored(blobs: Map<u64, Option<Set<u64>>>, relationships: Set<(u64, u64)>) -> bool {
    forall|f: u64| #[trigger]
        stored_set(blobs, f) == (if blobs.dom().contains(f) {
            Some(tags_with(relationships, f))
        } else {
            None
        }) && (!blobs.dom().contains(f) ==> tags_with(relationships, f) == Set::<u64>::empty())
}

/// Whether the stored bitmaps are those of the relationships.
pub open spec fn mirrors(tables: TablesView, relationships: Set<(u64, u64)>) -> bool {
    files_stored(tables.tagid, relationships) && tags_stored(tables.fileid, relationships)
}

/// Whether the sets of files in memory are those of the relationships, and none is missing.
pub open spec fn files_held(sets: Map<u64, Set<u64>>, relationships: Set<(u64, u64)>) -> bool {
    forall|t: u64| #[trigger]
        files_with(relationships, t) == (if sets.dom().contains(t) {
            sets[t]
        } else {
            Set::<u64>::empty()
        })
}

impl DbState {
    /// Whether the relationship cache, where there is one, can be relied on: the stored bitmaps are those
    /// of the relationships, and so are those in memory, unless memory is marked for reloading.
    ///
    /// The cache of popular tags is not told of relationships as they are added, and is left out.
    pub open spec fn caches_current(self) -> bool {
        self.memory matches Some(memory) ==> {
            &&& mirrors(self.bitmaps, self.relationships)
            &&& memory.tag_id.dom().subset_of(self.bitmaps.tagid.dom())
            &&& memory.file_id.dom() == Set::<u64>::empty()
            &&& match memory.internal_cache {
                InternalCacheType::Full => !self.roaring_memory_dirty ==> files_held(memory.tag_id, self.relationships),
                InternalCacheType::Table => memory.tag_id.dom() == Set::<u64>::empty(),
                InternalCacheType::Popular(_) => false,
            }
        }
    }

    /// Whether what memory holds, of a tag or of a file, is what the relationships say.
    pub open spec fn memory_agrees(self) -> bool {
        self.memory matches Some(memory) ==> {
            &&& forall|t: u64| #[trigger]
                memory.tag_id.dom().contains(t) ==> memory.tag_id[t] == files_with(self.relationships, t)
            &&& forall|f: u64| #[trigger]
                memory.file_id.dom().contains(f) ==> memory.file_id[f] == tags_with(self.relationships, f)
        }
    }

    /// Whether the stored bitmaps, where a cache keeps them, are those of the relationships. This holds of every
    /// cache, that of popular tags too.
    pub open spec fn stored_current(self) -> bool {
        self.memory is Some ==> mirrors(self.bitmaps, self.relationships)
    }

    /// Whether the file of each relationship whose tag exists exists too.
    pub open spec fn files_known(self, relationships: Seq<(u64, u64)>) -> bool {
        forall|i: int|
            0 <= i < relationships.len() && tag_exists(self.tags, (#[trigger] relationships[i]).1) ==> file_exists(
                self.files,
                relationships[i].0,
            )
    }

    /// The relationships among these whose tag exists.
    pub open spec fn of_known_tags(self, relationships: Seq<(u64, u64)>) -> Set<(u64, u64)> {
        relationships.to_set().filter(|r: (u64, u64)| tag_exists(self.tags, r.1))
    }
}

proof fn lemma_files_stored_with(blobs: Map<u64, Option<Set<u64>>>, relationships: Set<(u64, u64)>, f: u64, t: u64)
    requires
        files_stored(blobs, relationships),
    ensures
        files_stored(crate::bitmap_cache::blob_with(blobs, t, f), relationships.insert((f, t))),
{
    let after = crate::bitmap_cache::blob_with(blobs, t, f);
    let more = relationships.insert((f, t));
    assert(stored_set(blobs, t) is Some <==> blobs.dom().contains(t));
    assert forall|k: u64| #[trigger]
        stored_set(after, k) == (if after.dom().contains(k) {
            Some(files_with(more, k))
        } else {
            None
        }) && (!after.dom().contains(k) ==> files_with(more, k) == Set::<u64>::empty()) by {
        assert(stored_set(blobs, k) is Some <==> blobs.dom().contains(k));
        if k == t {
            assert(files_with(relationships, t).insert(f) =~= files_with(more, t));
        } else {
            assert(files_with(more, k) =~= files_with(relationships, k));
        }
    }
}

proof fn lemma_tags_stored_with(blobs: Map<u64, Option<Set<u64>>>, relationships: Set<(u64, u64)>, f: u64, t: u64)
    requires
        tags_stored(blobs, relationships),
    ensures
        tags_stored(crate::bitmap_cache::blob_with(blobs, f, t), relationships.insert((f, t))),
{
    let after = crate::bitmap_cache::blob_with(blobs, f, t);
    let more = relationships.insert((f, t));
    assert(stored_set(blobs, f) is Some <==> blobs.dom().contains(f));
    assert forall|k: u64| #[trigger]
        stored_set(after, k) == (if after.dom().contains(k) {
            Some(tags_with(more, k))
        } else {
            None
        }) && (!after.dom().contains(k) ==> tags_with(more, k) == Set::<u64>::empty()) by {
        assert(stored_set(blobs, k) is Some <==> blobs.dom().contains(k));
        if k == f {
            assert(tags_with(relationships, f).insert(t) =~= tags_with(more, f));
        } else {
            assert(tags_with(more, k) =~= tags_with(relationships, k));
        }
    }
}

proof fn lemma_files_stored_without(blobs: Map<u64, Option<Set<u64>>>, relationships: Set<(u64, u64)>, f: u64, t: u64)
    requires
        files_stored(blobs, relationships),
    ensures
        files_stored(crate::bitmap_cache::blob_without(blobs, t, f), relationships.remove((f, t))),
{
    let after = crate::bitmap_cache::blob_without(blobs, t, f);
    let less = relationships.remove((f, t));
    assert(stored_set(blobs, t) is Some <==> blobs.dom().contains(t));
    assert forall|k: u64| #[trigger]
        stored_set(after, k) == (if after.dom().contains(k) {
            Some(files_with(less, k))
        } else {
            None
        }) && (!after.dom().contains(k) ==> files_with(less, k) == Set::<u64>::empty()) by {
        assert(stored_set(blobs, k) is Some <==> blobs.dom().contains(k));
        if k == t {
            assert(files_with(relationships, t).remove(f) =~= files_with(less, t));
            if !blobs.dom().contains(t) {
                assert(files_with(less, t) =~= Set::<u64>::empty());
            }
        } else {
            assert(files_with(less, k) =~= files_with(relationships, k));
        }
    }
}

proof fn lemma_tags_stored_without(blobs: Map<u64, Option<Set<u64>>>, relationships: Set<(u64, u64)>, f: u64, t: u64)
    requires
        tags_stored(blobs, relationships),
    ensures
        tags_stored(crate::bitmap_cache::blob_without(blobs, f, t), relationships.remove((f, t))),
{
    let after = crate::bitmap_cache::blob_without(blobs, f, t);
    let less = relationships.remove((f, t));
    assert(stored_set(blobs, f) is Some <==> blobs.dom().contains(f));
    assert forall|k: u64| #[trigger]
        stored_set(after, k) == (if after.dom().contains(k) {
            Some(tags_with(less, k))
        } else {
            None
        }) && (!after.dom().contains(k) ==> tags_with(less, k) == Set::<u64>::empty()) by {
        assert(stored_set(blobs, k) is Some <==> blobs.dom().contains(k));
        if k == f {
            assert(tags_with(relationships, f).remove(t) =~= tags_with(less, f));
            if !blobs.dom().contains(f) {
                assert(tags_with(less, f) =~= Set::<u64>::empty());
            }
        } else {
            assert(tags_with(less, k) =~= tags_with(relationships, k));
        }
    }
}

/// A set with the items of a list, and one item more.
proof fn lemma_union_push(set: Set<(u64, u64)>, list: Seq<(u64, u64)>)
    requires
        list.len() > 0,
    ensures
        set.union(list.to_set()) == set.union(list.drop_last().to_set()).insert(list.last()),
        set.difference(list.to_set()) == set.difference(list.drop_last().to_set()).remove(list.last()),
{
    let shorter = list.drop_last();
    assert(shorter.push(list.last()) =~= list);
    lemma_push_contains(shorter, list.last());
    assert forall|r: (u64, u64)| #[trigger] list.to_set().contains(r) <==> shorter.to_set().contains(r) || r
        == list.last() by {
        assert(list.to_set().contains(r) == list.contains(r));
        assert(shorter.to_set().contains(r) == shorter.contains(r));
    }
    assert(set.union(list.to_set()) =~= set.union(shorter.to_set()).insert(list.last()));
    assert(set.difference(list.to_set()) =~= set.difference(shorter.to_set()).remove(list.last()));
}

/// Stored bitmaps stay those of the relationships as relationships are added.
proof fn lemma_mirrors_with_all(tables: TablesView, relationships: Set<(u64, u64)>, list: Seq<(u64, u64)>)
    requires
        mirrors(tables, relationships),
    ensures
        mirrors(tables.with_all(list), relationships.union(list.to_set())),
        tables.tagid.dom().subset_of(tables.with_all(list).tagid.dom()),
        forall|i: int| 0 <= i < list.len() ==> tables.with_all(list).tagid.dom().contains((#[trigger] list[i]).1),
    decreases list.len(),
{
    if list.len() == 0 {
        assert(relationships.union(list.to_set()) =~= relationships);
    } else {
        let shorter = list.drop_last();
        lemma_mirrors_with_all(tables, relationships, shorter);
        let before = tables.with_all(shorter);
        let set = relationships.union(shorter.to_set());
        lemma_files_stored_with(before.tagid, set, list.last().0, list.last().1);
        lemma_tags_stored_with(before.fileid, set, list.last().0, list.last().1);
        lemma_union_push(relationships, list);
        assert forall|i: int| 0 <= i < list.len() implies tables.with_all(list).tagid.dom().contains(
            (#[trigger] list[i]).1,
        ) by {
            if i < shorter.len() {
                assert(shorter[i] == list[i]);
            }
        }
    }
}

/// Stored bitmaps stay those of the relationships as relationships are removed.
proof fn lemma_mirrors_without_all(tables: TablesView, relationships: Set<(u64, u64)>, list: Seq<(u64, u64)>)
    requires
        mirrors(tables, relationships),
    ensures
        mirrors(tables.without_all(list), relationships.difference(list.to_set())),
        tables.tagid.dom().subset_of(tables.without_all(list).tagid.dom()),
    decreases list.len(),
{
    if list.len() == 0 {
        assert(relationships.difference(list.to_set()) =~= relationships);
    } else {
        let shorter = list.drop_last();
        lemma_mirrors_without_all(tables, relationships, shorter);
        let before = tables.without_all(shorter);
        let set = relationships.difference(shorter.to_set());
        lemma_files_stored_without(before.tagid, set, list.last().0, list.last().1);
        lemma_tags_stored_without(before.fileid, set, list.last().0, list.last().1);
        lemma_union_push(relationships, list);
    }
}

/// What adding relationships does to memory.
proof fn lemma_memory_with_all(memory: StorageView, list: Seq<(u64, u64)>)
    requires
        memory.file_id.dom() == Set::<u64>::empty(),
    ensures
        memory.with_all(list).file_id.dom() == Set::<u64>::empty(),
        memory.with_all(list).internal_cache == memory.internal_cache,
        !(memory.internal_cache is Full) ==> memory.with_all(list) == memory,
        forall|t: u64| #[trigger]
            memory.with_all(list).tag_id.dom().contains(t) ==> memory.tag_id.dom().contains(t) || exists|i: int|
                0 <= i < list.len() && (#[trigger] list[i]).1 == t,
    decreases list.len(),
{
    if list.len() > 0 {
        let shorter = list.drop_last();
        lemma_memory_with_all(memory, shorter);
        let before = memory.with_all(shorter);
        let after = memory.with_all(list);
        assert forall|t: u64| #[trigger] after.tag_id.dom().contains(t) implies memory.tag_id.dom().contains(t)
            || exists|i: int| 0 <= i < list.len() && (#[trigger] list[i]).1 == t by {
            if before.tag_id.dom().contains(t) && !memory.tag_id.dom().contains(t) {
                let i = choose|i: int| 0 <= i < shorter.len() && (#[trigger] shorter[i]).1 == t;
                assert(list[i].1 == t);
            }
            if !before.tag_id.dom().contains(t) {
                assert(list[list.len() - 1].1 == t);
            }
        }
    }
}

/// The sets in memory stay those of the relationships as relationships are added.
proof fn lemma_files_held_with_all(memory: StorageView, relationships: Set<(u64, u64)>, list: Seq<(u64, u64)>)
    requires
        memory.internal_cache is Full,
        files_held(memory.tag_id, relationships),
    ensures
        files_held(memory.with_all(list).tag_id, relationships.union(list.to_set())),
        memory.with_all(list).internal_cache is Full,
    decreases list.len(),
{
    if list.len() == 0 {
        assert(relationships.union(list.to_set()) =~= relationships);
    } else {
        let shorter = list.drop_last();
        lemma_files_held_with_all(memory, relationships, shorter);
        lemma_union_push(relationships, list);
        let before = memory.with_all(shorter);
        let after = memory.with_all(list);
        let set = relationships.union(shorter.to_set());
        let more = relationships.union(list.to_set());
        let (f, t) = list.last();
        assert forall|k: u64| #[trigger]
            files_with(more, k) == (if after.tag_id.dom().contains(k) {
                after.tag_id[k]
            } else {
                Set::<u64>::empty()
            }) by {
            let held = files_with(set, k);
            if k == t {
                assert(files_with(more, t) =~= held.insert(f));
            } else {
                assert(files_with(more, k) =~= held);
            }
        }
    }
}

/// What removing relationships does to memory.
proof fn lemma_memory_without_all(memory: StorageView, list: Seq<(u64, u64)>)
    requires
        memory.file_id.dom() == Set::<u64>::empty(),
    ensures
        memory.without_all(list).file_id.dom() == Set::<u64>::empty(),
        memory.without_all(list).internal_cache == memory.internal_cache,
        memory.without_all(list).tag_id.dom() == memory.tag_id.dom(),
    decreases list.len(),
{
    if list.len() > 0 {
        lemma_memory_without_all(memory, list.drop_last());
        let before = memory.without_all(list.drop_last());
        assert(memory.without_all(list).tag_id.dom() =~= before.tag_id.dom());
    }
}

/// The sets in memory stay those of the relationships as relationships are removed.
proof fn lemma_files_held_without_all(memory: StorageView, relationships: Set<(u64, u64)>, list: Seq<(u64, u64)>)
    requires
        memory.internal_cache is Full,
        files_held(memory.tag_id, relationships),
    ensures
        files_held(memory.without_all(list).tag_id, relationships.difference(list.to_set())),
        memory.without_all(list).internal_cache is Full,
    decreases list.len(),
{
    if list.len() == 0 {
        assert(relationships.difference(list.to_set()) =~= relationships);
    } else {
        let shorter = list.drop_last();
        lemma_files_held_without_all(memory, relationships, shorter);
        lemma_union_push(relationships, list);
        let before = memory.without_all(shorter);
        let after = memory.without_all(list);
        let set = relationships.difference(shorter.to_set());
        let less = relationships.difference(list.to_set());
        let (f, t) = list.last();
        assert forall|k: u64| #[trigger]
            files_with(less, k) == (if after.tag_id.dom().contains(k) {
                after.tag_id[k]
            } else {
                Set::<u64>::empty()
            }) by {
            let held = files_with(set, k);
            if k == t {
                assert(files_with(less, t) =~= held.remove(f));
                if !before.tag_id.dom().contains(t) {
                    assert(held.remove(f) =~= Set::<u64>::empty());
                }
            } else {
                assert(files_with(less, k) =~= held);
            }
        }
    }
}

/// The cache keeps up with relationships that it is told of.
proof fn lemma_with_cached(state: DbState, written: DbState, list: Seq<(u64, u64)>)
    requires
        state.caches_current(),
        written == (DbState {
            relationships: written.relationships,
            tags: written.tags,
            tag_search_dirty: written.tag_search_dirty,
            ..state
        }),
        written.relationships == state.relationships.union(list.to_set()),
    ensures
        written.with_cached(list).caches_current(),
{
    if let Some(memory) = state.memory {
        lemma_mirrors_with_all(state.bitmaps, state.relationships, list);
        lemma_memory_with_all(memory, list);
        if memory.internal_cache is Full && !state.roaring_memory_dirty {
            lemma_files_held_with_all(memory, state.relationships, list);
        }
        let after = written.with_cached(list);
        if !state.roaring_memory_busy {
            assert(after.memory->0.tag_id.dom().subset_of(after.bitmaps.tagid.dom())) by {
                assert forall|t: u64| after.memory->0.tag_id.dom().contains(t) implies after.bitmaps.tagid.dom().contains(
                    t,
                ) by {
                    if !memory.tag_id.dom().contains(t) {
                        let i = choose|i: int| 0 <= i < list.len() && (#[trigger] list[i]).1 == t;
                        assert(after.bitmaps.tagid.dom().contains(list[i].1));
                    }
                }
            }
        }
    }
}

/// Adding relationships of one namespace whose files and tags exist.
proof fn lemma_namespace_added(state: DbState, list: Seq<(u64, u64)>)
    requires
        state.insertable(list),
    ensures
        ({
            let after = state.with_namespace_relationships(list);
            &&& after.relationships == state.relationships.union(list.to_set())
            &&& after == (DbState {
                relationships: after.relationships,
                tags: after.tags,
                bitmaps: after.bitmaps,
                memory: after.memory,
                roaring_memory_dirty: after.roaring_memory_dirty,
                tag_search_dirty: true,
                ..state
            })
            &&& forall|t: u64| #[trigger] tag_namespace(after.tags, t) == tag_namespace(state.tags, t)
            &&& forall|t: u64| #[trigger] tag_exists(after.tags, t) == tag_exists(state.tags, t)
            &&& state.caches_current() ==> after.caches_current()
            &&& state.stored_current() ==> after.stored_current()
        }),
{
    let dirty = DbState { tag_search_dirty: true, ..state };
    let all = chunk_count(list.len());
    assert forall|n: nat| n < all implies #[trigger] dirty.insertable(chunk(list, n)) by {
        let part = chunk(list, n);
        assert forall|i: int| 0 <= i < part.len() implies file_exists(state.files, (#[trigger] part[i]).0)
            && tag_exists(state.tags, part[i].1) by {
            assert(part[i] == list[n * 800 + i]);
        }
    }
    lemma_chunks_all(dirty, list, 0);
    lemma_with_chunks(dirty, list, all);
    lemma_chunks_written(dirty, list, all);
    assert(written_rows(list.len(), all) == list.len());
    assert(list.take(list.len() as int) =~= list);
    let written = dirty.with_chunks(list, all);
    if state.stored_current() && state.memory is Some {
        lemma_mirrors_with_all(state.bitmaps, state.relationships, list);
    }
    if state.caches_current() || state.stored_current() {
        if state.any_new(list) {
            if state.caches_current() {
                lemma_with_cached(state, written, list);
            }
        } else {
            assert(state.relationships.union(list.to_set()) =~= state.relationships) by {
                assert forall|r: (u64, u64)| list.to_set().contains(r) implies state.relationships.contains(r) by {
                    assert(list.contains(r));
                    let i = choose|i: int| 0 <= i < list.len() && list[i] == r;
                    assert(state.relationships.contains(list[i]));
                }
            }
        }
    }
}

proof fn lemma_chunks_all(state: DbState, list: Seq<(u64, u64)>, n: nat)
    requires
        forall|m: nat| m < chunk_count(list.len()) ==> #[trigger] state.insertable(chunk(list, m)),
        n <= chunk_count(list.len()),
    ensures
        state.chunks_inserted(list, n) == chunk_count(list.len()),
    decreases chunk_count(list.len()) - n,
{
    if n < chunk_count(list.len()) {
        assert(state.insertable(chunk(list, n)));
        lemma_chunks_all(state, list, n + 1);
    }
}

/// The namespaces among relationships are those of their tags.
proof fn lemma_namespaces_among(tags: Seq<crate::rows::TagRec>, list: Seq<(u64, u64)>)
    ensures
        forall|namespace: u64| #[trigger]
            namespaces_among(tags, list).contains(namespace) <==> exists|i: int|
                0 <= i < list.len() && tag_namespace(tags, (#[trigger] list[i]).1) == Some(namespace),
    decreases list.len(),
{
    if list.len() > 0 {
        let shorter = list.drop_last();
        lemma_namespaces_among(tags, shorter);
        let before = namespaces_among(tags, shorter);
        let after = namespaces_among(tags, list);
        if let Some(last) = tag_namespace(tags, list.last().1) {
            lemma_push_contains(before, last);
        }
        assert forall|namespace: u64| #[trigger] after.contains(namespace) <==> exists|i: int|
            0 <= i < list.len() && tag_namespace(tags, (#[trigger] list[i]).1) == Some(namespace) by {
            if before.contains(namespace) {
                let i = choose|i: int|
                    0 <= i < shorter.len() && tag_namespace(tags, (#[trigger] shorter[i]).1) == Some(namespace);
                assert(list[i] == shorter[i]);
            }
            if tag_namespace(tags, list.last().1) == Some(namespace) {
                assert(list[list.len() - 1] == list.last());
            }
            if exists|i: int| 0 <= i < list.len() && tag_namespace(tags, (#[trigger] list[i]).1) == Some(namespace) {
                let i = choose|i: int|
                    0 <= i < list.len() && tag_namespace(tags, (#[trigger] list[i]).1) == Some(namespace);
                if i < shorter.len() {
                    assert(shorter[i] == list[i]);
                    assert(before.contains(namespace));
                }
            }
        }
    }
}

/// The relationships whose tag is in one of some namespaces.
spec fn of_namespaces(tags: Seq<crate::rows::TagRec>, list: Seq<(u64, u64)>, namespaces: Seq<u64>) -> Set<(u64, u64)> {
    list.to_set().filter(
        |r: (u64, u64)| tag_namespace(tags, r.1) matches Some(namespace) && namespaces.contains(namespace),
    )
}

proof fn lemma_grouped(state: DbState, list: Seq<(u64, u64)>, namespaces: Seq<u64>)
    requires
        state.files_known(list),
    ensures
        ({
            let after = state.with_grouped_relationships(list, namespaces);
            &&& after.relationships == state.relationships.union(of_namespaces(state.tags, list, namespaces))
            &&& after == (DbState {
                relationships: after.relationships,
                tags: after.tags,
                bitmaps: after.bitmaps,
                memory: after.memory,
                roaring_memory_dirty: after.roaring_memory_dirty,
                tag_search_dirty: true,
                ..state
            })
            &&& forall|t: u64| #[trigger] tag_namespace(after.tags, t) == tag_namespace(state.tags, t)
            &&& forall|t: u64| #[trigger] tag_exists(after.tags, t) == tag_exists(state.tags, t)
            &&& state.caches_current() ==> after.caches_current()
            &&& state.stored_current() ==> after.stored_current()
        }),
    decreases namespaces.len(),
{
    if namespaces.len() == 0 {
        assert(state.relationships.union(of_namespaces(state.tags, list, namespaces)) =~= state.relationships);
    } else {
        let shorter = namespaces.drop_last();
        let last = namespaces.last();
        lemma_grouped(state, list, shorter);
        let before = state.with_grouped_relationships(list, shorter);
        let part = in_namespace(state.tags, list, last);
        let keep = |r: (u64, u64)| tag_namespace(state.tags, r.1) == Some(last);
        lemma_filter_members(list, keep);
        assert forall|i: int| 0 <= i < part.len() implies file_exists(before.files, (#[trigger] part[i]).0) && tag_exists(
            before.tags,
            part[i].1,
        ) by {
            assert(list.filter(keep).contains(part[i]));
            let k = choose|k: int| 0 <= k < list.len() && list[k] == part[i];
            assert(tag_exists(state.tags, list[k].1));
        }
        lemma_namespace_added(before, part);
        lemma_push_contains(shorter, last);
        assert(shorter.push(last) =~= namespaces);
        let wanted = state.relationships.union(of_namespaces(state.tags, list, namespaces));
        let after = state.with_grouped_relationships(list, namespaces);
        assert forall|r: (u64, u64)| after.relationships.contains(r) <==> wanted.contains(r) by {
            assert(part.to_set().contains(r) == part.contains(r));
            assert(list.to_set().contains(r) == list.contains(r));
        }
        assert(after.relationships =~= wanted);
    }
}

/// Relationships that are added are there afterwards, beside those that were; those of unknown tags are
/// passed over. Nothing else changes but the counts of the tags and the caches, and a cache that could be
/// relied on still can be; so can the stored bitmaps of any cache.
pub proof fn added_relationships_are_there(state: DbState, relationships: Seq<(u64, u64)>)
    requires
        state.files_known(relationships),
    ensures
        ({
            let after = state.with_relationships(relationships);
            &&& after.relationships == state.relationships.union(state.of_known_tags(relationships))
            &&& after == (DbState {
                relationships: after.relationships,
                tags: after.tags,
                bitmaps: after.bitmaps,
                memory: after.memory,
                roaring_memory_dirty: after.roaring_memory_dirty,
                tag_search_dirty: true,
                ..state
            })
            &&& forall|t: u64| #[trigger] tag_namespace(after.tags, t) == tag_namespace(state.tags, t)
            &&& forall|t: u64| #[trigger] tag_exists(after.tags, t) == tag_exists(state.tags, t)
            &&& state.caches_current() ==> after.caches_current()
            &&& state.stored_current() ==> after.stored_current()
        }),
{
    reveal(DbState::with_relationships);
    let namespaces = namespaces_among(state.tags, relationships);
    lemma_namespaces_among(state.tags, relationships);
    lemma_grouped(state, relationships, namespaces);
    assert(of_namespaces(state.tags, relationships, namespaces) =~= state.of_known_tags(relationships)) by {
        assert forall|r: (u64, u64)| of_namespaces(state.tags, relationships, namespaces).contains(r)
            <==> state.of_known_tags(relationships).contains(r) by {
            assert(relationships.to_set().contains(r) == relationships.contains(r));
            if relationships.contains(r) && tag_exists(state.tags, r.1) {
                let i = choose|i: int| 0 <= i < relationships.len() && relationships[i] == r;
                let namespace = tag_namespace(state.tags, r.1)->0;
                assert(tag_namespace(state.tags, relationships[i].1) == Some(namespace));
                assert(namespaces.contains(namespace));
            }
        }
    }
}

/// Relationships that are removed are gone afterwards, and the others stay; those of unknown tags are
/// passed over. Nothing else changes but the counts of the tags and the caches, and a cache that could be
/// relied on still can be, where no relationship of an unknown tag is there.
pub proof fn removed_relationships_are_gone(state: DbState, relationships: Seq<(u64, u64)>)
    ensures
        ({
            let after = state.without_relationships(relationships);
            &&& after.relationships == state.relationships.difference(state.of_known_tags(relationships))
            &&& after == (DbState {
                relationships: after.relationships,
                tags: after.tags,
                bitmaps: after.bitmaps,
                memory: after.memory,
                roaring_memory_dirty: after.roaring_memory_dirty,
                tag_search_dirty: after.tag_search_dirty,
                ..state
            })
            &&& state.caches_current() && (forall|r: (u64, u64)| #[trigger]
                state.relationships.contains(r) ==> tag_exists(state.tags, r.1)) ==> after.caches_current()
            &&& state.stored_current() && (forall|r: (u64, u64)| #[trigger]
                state.relationships.contains(r) ==> tag_exists(state.tags, r.1)) ==> after.stored_current()
        }),
{
    reveal(DbState::without_relationships);
    let after = state.without_relationships(relationships);
    if relationships.len() == 0 {
        assert(state.relationships.difference(state.of_known_tags(relationships)) =~= state.relationships);
    } else {
        let wanted = state.relationships.difference(state.of_known_tags(relationships));
        assert forall|r: (u64, u64)| after.relationships.contains(r) <==> wanted.contains(r) by {
            assert(relationships.to_set().contains(r) == relationships.contains(r));
        }
        assert(after.relationships =~= wanted);
        if (state.caches_current() || state.stored_current()) && (forall|r: (u64, u64)| #[trigger]
            state.relationships.contains(r) ==> tag_exists(state.tags, r.1)) {
            assert(wanted =~= state.relationships.difference(relationships.to_set())) by {
                assert forall|r: (u64, u64)| wanted.contains(r) <==> state.relationships.difference(
                    relationships.to_set(),
                ).contains(r) by {
                    assert(relationships.to_set().contains(r) == relationships.contains(r));
                }
            }
            if let Some(memory) = state.memory {
                lemma_mirrors_without_all(state.bitmaps, state.relationships, relationships);
                if state.caches_current() {
                    lemma_memory_without_all(memory, relationships);
                }
                if state.caches_current() && memory.internal_cache is Full && !state.roaring_memory_dirty {
                    lemma_files_held_without_all(memory, state.relationships, relationships);
                }
            }
        }
    }
}

/// Removing relationships that were just added leaves those that were there before.
pub proof fn adding_is_undone_by_removing(state: DbState, relationships: Seq<(u64, u64)>)
    requires
        state.files_known(relationships),
        forall|i: int| 0 <= i < relationships.len() ==> !state.relationships.contains(#[trigger] relationships[i]),
    ensures
        state.with_relationships(relationships).without_relationships(relationships).relationships
            == state.relationships,
{
    let added = state.with_relationships(relationships);
    added_relationships_are_there(state, relationships);
    removed_relationships_are_gone(added, relationships);
    let after = added.without_relationships(relationships);
    assert forall|r: (u64, u64)| after.relationships.contains(r) <==> state.relationships.contains(r) by {
        assert(relationships.to_set().contains(r) == relationships.contains(r));
        if relationships.contains(r) {
            let i = choose|i: int| 0 <= i < relationships.len() && relationships[i] == r;
            assert(!state.relationships.contains(relationships[i]));
        }
    }
    assert(after.relationships =~= state.relationships);
}

/// Writing relationships that are there leaves the state as it was.
proof fn lemma_chunks_of_old(state: DbState, list: Seq<(u64, u64)>, n: nat)
    requires
        n <= chunk_count(list.len()),
        forall|i: int| 0 <= i < list.len() ==> state.relationships.contains(#[trigger] list[i]),
    ensures
        state.with_chunks(list, n) == state,
    decreases n,
{
    if n > 0 {
        let m = (n - 1) as nat;
        lemma_chunks_of_old(state, list, m);
        let part = chunk(list, m);
        assert forall|i: int| 0 <= i < part.len() implies state.relationships.contains(#[trigger] part[i]) by {
            assert(part[i] == list[m * 800 + i]);
        }
        assert(state.relationships.union(part.to_set()) =~= state.relationships) by {
            assert forall|r: (u64, u64)| part.to_set().contains(r) implies state.relationships.contains(r) by {
                assert(part.contains(r));
                let i = choose|i: int| 0 <= i < part.len() && part[i] == r;
                assert(state.relationships.contains(part[i]));
            }
        }
        assert(!state.any_new(part));
        assert(state.with_chunk(part) =~= state);
    }
}

proof fn lemma_grouped_of_old(state: DbState, list: Seq<(u64, u64)>, namespaces: Seq<u64>)
    requires
        forall|i: int|
            0 <= i < list.len() && tag_exists(state.tags, (#[trigger] list[i]).1) ==> state.relationships.contains(list[i]),
    ensures
        state.with_grouped_relationships(list, namespaces) == (DbState { tag_search_dirty: true, ..state }),
    decreases namespaces.len(),
{
    if namespaces.len() > 0 {
        lemma_grouped_of_old(state, list, namespaces.drop_last());
        let dirty = DbState { tag_search_dirty: true, ..state };
        let part = in_namespace(state.tags, list, namespaces.last());
        let keep = |r: (u64, u64)| tag_namespace(state.tags, r.1) == Some(namespaces.last());
        lemma_filter_members(list, keep);
        assert forall|i: int| 0 <= i < part.len() implies state.relationships.contains(#[trigger] part[i]) by {
            assert(list.filter(keep).contains(part[i]));
            let k = choose|k: int| 0 <= k < list.len() && list[k] == part[i];
            assert(tag_exists(state.tags, list[k].1));
        }
        lemma_chunks_bound(dirty, part, 0);
        lemma_chunks_of_old(dirty, part, dirty.chunks_inserted(part, 0));
        assert(!dirty.any_new(part));
    }
}

proof fn lemma_chunks_bound(state: DbState, list: Seq<(u64, u64)>, n: nat)
    requires
        n <= chunk_count(list.len()),
    ensures
        state.chunks_inserted(list, n) <= chunk_count(list.len()),
    decreases chunk_count(list.len()) - n,
{
    if n < chunk_count(list.len()) && state.insertable(chunk(list, n)) {
        lemma_chunks_bound(state, list, n + 1);
    }
}

/// Adding relationships once more changes nothing: no relationship, no count of a tag, no cache.
pub proof fn adding_twice_is_adding_once(state: DbState, relationships: Seq<(u64, u64)>)
    requires
        state.files_known(relationships),
    ensures
        state.with_relationships(relationships).with_relationships(relationships) == state.with_relationships(
            relationships,
        ),
{
    let once = state.with_relationships(relationships);
    added_relationships_are_there(state, relationships);
    assert forall|i: int|
        0 <= i < relationships.len() && tag_exists(once.tags, (#[trigger] relationships[i]).1) implies once.relationships.contains(
    relationships[i]) by {
        assert(relationships.to_set().contains(relationships[i]));
        assert(state.of_known_tags(relationships).contains(relationships[i]));
    }
    reveal(DbState::with_relationships);
    lemma_grouped_of_old(once, relationships, namespaces_among(once.tags, relationships));
}

/// Reloading memory where it is marked for that makes it agree with the relationships.
pub proof fn reloading_makes_memory_current(state: DbState)
    requires
        state.caches_current(),
    ensures
        state.refreshed().caches_current(),
        !state.refreshed().roaring_memory_dirty,
{
    let after = state.refreshed();
    if state.roaring_memory_dirty {
        if let Some(memory) = state.memory {
            if memory.internal_cache is Full {
                let sets = after.memory->0.tag_id;
                assert forall|t: u64| #[trigger]
                    files_with(state.relationships, t) == (if sets.dom().contains(t) {
                        sets[t]
                    } else {
                        Set::<u64>::empty()
                    }) by {
                    assert(stored_set(state.bitmaps.tagid, t) is Some <==> state.bitmaps.tagid.dom().contains(t));
                }
                assert(after.memory->0.tag_id.dom().subset_of(after.bitmaps.tagid.dom())) by {
                    assert forall|t: u64| sets.dom().contains(t) implies after.bitmaps.tagid.dom().contains(t) by {
                        assert(stored_set(state.bitmaps.tagid, t) is Some <==> state.bitmaps.tagid.dom().contains(t));
                    }
                }
            } else {
                assert(after.memory->0.tag_id.dom() =~= Set::<u64>::empty());
            }
        }
    }
}

/// Setting the cache up over stored bitmaps that are those of the relationships makes it one to rely on,
/// unless it is the cache of popular tags.
pub proof fn chosen_cache_is_current(state: DbState)
    requires
        mirrors(state.bitmaps, state.relationships),
        !(state.with_cache_chosen().cache_type matches CacheType::RelationshipRoaring(InternalCacheType::Popular(_))),
    ensures
        state.with_cache_chosen().caches_current(),
{
    let after = state.with_cache_chosen();
    if let Some(memory) = after.memory {
        let sets = memory.tag_id;
        assert(after.bitmaps == state.bitmaps);
        assert forall|t: u64| sets.dom().contains(t) implies after.bitmaps.tagid.dom().contains(t) by {
            assert(stored_set(state.bitmaps.tagid, t) is Some <==> state.bitmaps.tagid.dom().contains(t));
        }
        assert(memory.file_id.dom() =~= Set::<u64>::empty());
        if memory.internal_cache is Full {
            assert forall|t: u64| #[trigger]
                files_with(state.relationships, t) == (if sets.dom().contains(t) {
                    sets[t]
                } else {
                    Set::<u64>::empty()
                }) by {
                assert(stored_set(state.bitmaps.tagid, t) is Some <==> state.bitmaps.tagid.dom().contains(t));
            }
        } else {
            assert(sets.dom() =~= Set::<u64>::empty());
        }
    }
}

/// Storing the bitmaps anew makes them those of the relationships.
pub proof fn recaching_stores_the_relationships(relationships: Set<(u64, u64)>)
    ensures
        mirrors(tables_of(relationships), relationships),
{
    let tables = tables_of(relationships);
    assert forall|t: u64| #[trigger]
        stored_set(tables.tagid, t) == (if tables.tagid.dom().contains(t) {
            Some(files_with(relationships, t))
        } else {
            None
        }) && (!tables.tagid.dom().contains(t) ==> files_with(relationships, t) == Set::<u64>::empty()) by {
        if !tables.tagid.dom().contains(t) {
            assert(files_with(relationships, t) =~= Set::<u64>::empty());
        }
    }
    assert forall|f: u64| #[trigger]
        stored_set(tables.fileid, f) == (if tables.fileid.dom().contains(f) {
            Some(tags_with(relationships, f))
        } else {
            None
        }) && (!tables.fileid.dom().contains(f) ==> tags_with(relationships, f) == Set::<u64>::empty()) by {
        if !tables.fileid.dom().contains(f) {
            assert(tags_with(relationships, f) =~= Set::<u64>::empty());
        }
    }
}

/// Reads through memory that agrees with the relationships see what they say.
pub proof fn reads_see_the_relationships(state: DbState)
    requires
        state.memory_agrees(),
    ensures
        forall|f: u64| #[trigger] state.tags_of_file(f) == tags_with(state.relationships, f),
        forall|t: u64| #[trigger] state.files_of_tag(t) == files_with(state.relationships, t),
{
}

/// Memory of a cache that can be relied on agrees with the relationships, once it has been reloaded where it is
/// marked for that.
pub proof fn current_caches_agree(state: DbState)
    requires
        state.caches_current(),
    ensures
        state.refreshed().memory_agrees(),
{
    reloading_makes_memory_current(state);
    let after = state.refreshed();
    if let Some(memory) = after.memory {
        assert forall|t: u64| #[trigger] memory.tag_id.dom().contains(t) implies memory.tag_id[t] == files_with(
            after.relationships,
            t,
        ) by {
            assert(files_with(after.relationships, t) == memory.tag_id[t]);
        }
    }
}

/// Memory that has just been emptied agrees with the relationships.
pub proof fn recached_memory_agrees(state: DbState)
    ensures
        state.memory is Some ==> state.recached().memory_agrees(),
{
}

} // verus!
