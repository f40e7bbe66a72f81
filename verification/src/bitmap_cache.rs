//! The relationship cache: bitmaps in memory, by tag and by file, and their stored form.
use crate::bitmap::{
    bitmap_clone, bitmap_contains, bitmap_decoded, bitmap_descending, bitmap_deserialize, bitmap_insert,
    bitmap_intersect_with, bitmap_items, bitmap_new, bitmap_optimize, bitmap_remove, bitmap_serialize,
    bitmap_union_with, descending_listing, intmap_clear, intmap_contains_key, intmap_entries, intmap_get,
    intmap_get_mut, intmap_insert, intmap_new, no_entries,
};
use crate::rows::{TagRec, TagRow, find_tag_id, tag_ids};
use crate::sets::map_keys;
use crate::text::{lemma_push_contains, pos, views};
use crate::types::DbSearchTypeEnum;
use intmap::IntMap;
use roaring::RoaringTreemap;
use std::collections::HashMap;
use vstd::prelude::*;

verus! {

broadcast use vstd::std_specs::hash::group_hash_axioms;

/// How much of the relationship cache is held in memory.
#[derive(Debug, Clone, Copy, PartialEq, Eq, Structural)]
pub enum InternalCacheType {
    /// Everything is loaded into memory.
    Full,
    /// Nothing is: reads go to the stored bitmaps.
    Table,
    /// The tags that were given this often or more are loaded into memory.
    Popular(u64),
}

/// The stored bitmaps: for each file the tags, for each tag the files.
#[derive(Debug, Clone)]
pub struct RoaringTables {
    pub fileid: HashMap<u64, Vec<u8>>,
    pub tagid: HashMap<u64, Vec<u8>>,
}

/// The sets that the stored bitmaps stand for; `None` where the bytes are no bitmap.
#[verifier::ext_equal]
pub struct TablesView {
    pub fileid: Map<u64, Option<Set<u64>>>,
    pub tagid: Map<u64, Option<Set<u64>>>,
}

/// The sets that stored bytes stand for.
pub open spec fn decoded_blobs(blobs: Map<u64, Vec<u8>>) -> Map<u64, Option<Set<u64>>> {
    Map::new(|k: u64| blobs.dom().contains(k), |k: u64| bitmap_decoded(blobs[k]@))
}

impl View for RoaringTables {
    type V = TablesView;

    open spec fn view(&self) -> TablesView {
        TablesView { fileid: decoded_blobs(self.fileid@), tagid: decoded_blobs(self.tagid@) }
    }
}

/// The set that is stored under a key, where there is a readable one.
pub open spec fn stored_set(blobs: Map<u64, Option<Set<u64>>>, key: u64) -> Option<Set<u64>> {
    if blobs.dom().contains(key) {
        blobs[key]
    } else {
        None
    }
}

/// The stored sets after `value` has joined the set under `key`.
pub open spec fn blob_with(blobs: Map<u64, Option<Set<u64>>>, key: u64, value: u64) -> Map<u64, Option<Set<u64>>> {
    match stored_set(blobs, key) {
        Some(set) => blobs.insert(key, Some(set.insert(value))),
        None => blobs.insert(key, Some(Set::empty().insert(value))),
    }
}

/// The stored sets after `value` has left the set under `key`.
pub open spec fn blob_without(blobs: Map<u64, Option<Set<u64>>>, key: u64, value: u64) -> Map<u64, Option<Set<u64>>> {
    match stored_set(blobs, key) {
        Some(set) => blobs.insert(key, Some(set.remove(value))),
        None => blobs,
    }
}

impl TablesView {
    /// The stored bitmaps after a file has got a tag.
    pub open spec fn with(self, file_id: u64, tag_id: u64) -> TablesView {
        TablesView {
            fileid: blob_with(self.fileid, file_id, tag_id),
            tagid: blob_with(self.tagid, tag_id, file_id),
        }
    }

    /// The stored bitmaps after a file has lost a tag.
    pub open spec fn without(self, file_id: u64, tag_id: u64) -> TablesView {
        TablesView {
            fileid: blob_without(self.fileid, file_id, tag_id),
            tagid: blob_without(self.tagid, tag_id, file_id),
        }
    }

    /// No stored bitmap.
    pub open spec fn none() -> TablesView {
        TablesView { fileid: Map::empty(), tagid: Map::empty() }
    }

    /// The stored bitmaps after files have got tags, one relationship after the other.
    pub open spec fn with_all(self, relationships: Seq<(u64, u64)>) -> TablesView
        decreases relationships.len(),
    {
        if relationships.len() == 0 {
            self
        } else {
            self.with_all(relationships.drop_last()).with(relationships.last().0, relationships.last().1)
        }
    }

    /// The stored bitmaps after files have lost tags, one relationship after the other.
    pub open spec fn without_all(self, relationships: Seq<(u64, u64)>) -> TablesView
        decreases relationships.len(),
    {
        if relationships.len() == 0 {
            self
        } else {
            self.without_all(relationships.drop_last()).without(relationships.last().0, relationships.last().1)
        }
    }
}

fn read_blob(blobs: &HashMap<u64, Vec<u8>>, key: u64) -> (bitmap: Option<RoaringTreemap>)
    ensures
        bitmap is Some <==> stored_set(decoded_blobs(blobs@), key) is Some,
        bitmap matches Some(found) ==> stored_set(decoded_blobs(blobs@), key) == Some(bitmap_items(found)),
{
    match blobs.get(&key) {
        Some(bytes) => bitmap_deserialize(bytes),
        None => None,
    }
}

fn write_blob(blobs: &mut HashMap<u64, Vec<u8>>, key: u64, bitmap: &RoaringTreemap)
    ensures
        decoded_blobs(final(blobs)@) == decoded_blobs(old(blobs)@).insert(key, Some(bitmap_items(*bitmap))),
{
    let bytes = bitmap_serialize(bitmap);
    blobs.insert(key, bytes);
    assert(decoded_blobs(blobs@) =~= decoded_blobs(old(blobs)@).insert(key, Some(bitmap_items(*bitmap))));
}

fn blob_insert(blobs: &mut HashMap<u64, Vec<u8>>, key: u64, value: u64)
    ensures
        decoded_blobs(final(blobs)@) == blob_with(decoded_blobs(old(blobs)@), key, value),
{
    let mut bitmap = match read_blob(blobs, key) {
        Some(found) => found,
        None => bitmap_new(),
    };
    bitmap_insert(&mut bitmap, value);
    write_blob(blobs, key, &bitmap);
}

fn blob_remove(blobs: &mut HashMap<u64, Vec<u8>>, key: u64, value: u64)
    ensures
        decoded_blobs(final(blobs)@) == blob_without(decoded_blobs(old(blobs)@), key, value),
{
    if let Some(mut bitmap) = read_blob(blobs, key) {
        bitmap_remove(&mut bitmap, value);
        write_blob(blobs, key, &bitmap);
    }
}

impl RoaringTables {
    /// Empty tables.
    pub fn new() -> (tables: Self)
        ensures
            tables@ == TablesView::none(),
    {
        let tables = RoaringTables { fileid: HashMap::new(), tagid: HashMap::new() };
        assert(tables@ =~= TablesView::none());
        tables
    }

    /// Stores that a file has got a tag, without regard to what is in memory.
    pub fn relationship_cache_add_sql_standalone(&mut self, file_id: u64, tag_id: u64)
        ensures
            final(self)@ == old(self)@.with(file_id, tag_id),
    {
        blob_insert(&mut self.fileid, file_id, tag_id);
        blob_insert(&mut self.tagid, tag_id, file_id);
    }

    /// Stores that a file has lost a tag, without regard to what is in memory.
    pub fn relationship_cache_remove_sql_standalone(&mut self, file_id: u64, tag_id: u64)
        ensures
            final(self)@ == old(self)@.without(file_id, tag_id),
    {
        blob_remove(&mut self.fileid, file_id, tag_id);
        blob_remove(&mut self.tagid, tag_id, file_id);
    }
}

/// Whether a tag was given `threshold` times or more.
pub open spec fn popular(tags: Seq<TagRec>, threshold: u64, tag_id: u64) -> bool {
    let at = pos(tag_ids(tags), tag_id);
    at < tags.len() && tags[at].count >= threshold
}

/// The part of the relationship cache that is held in memory.
pub struct RelationshipStorage {
    pub file_id: IntMap<u64, RoaringTreemap>,
    pub tag_id: IntMap<u64, RoaringTreemap>,
    pub internal_cache: InternalCacheType,
}

/// The view of a [`RelationshipStorage`].
#[verifier::ext_equal]
pub struct StorageView {
    pub file_id: Map<u64, Set<u64>>,
    pub tag_id: Map<u64, Set<u64>>,
    pub internal_cache: InternalCacheType,
}

impl View for RelationshipStorage {
    type V = StorageView;

    open spec fn view(&self) -> StorageView {
        StorageView {
            file_id: intmap_entries(self.file_id),
            tag_id: intmap_entries(self.tag_id),
            internal_cache: self.internal_cache,
        }
    }
}

/// `sets` after `value` has joined the set under `key`, where there is one.
pub open spec fn joined_if_present(sets: Map<u64, Set<u64>>, key: u64, value: u64) -> Map<u64, Set<u64>> {
    if sets.dom().contains(key) {
        sets.insert(key, sets[key].insert(value))
    } else {
        sets
    }
}

/// `sets` after `value` has joined the set under `key`, which is made where there is none.
pub open spec fn joined(sets: Map<u64, Set<u64>>, key: u64, value: u64) -> Map<u64, Set<u64>> {
    if sets.dom().contains(key) {
        sets.insert(key, sets[key].insert(value))
    } else {
        sets.insert(key, Set::empty().insert(value))
    }
}

/// `sets` after `value` has left the set under `key`.
pub open spec fn parted(sets: Map<u64, Set<u64>>, key: u64, value: u64) -> Map<u64, Set<u64>> {
    if sets.dom().contains(key) {
        sets.insert(key, sets[key].remove(value))
    } else {
        sets
    }
}

/// The files that a group of tags stands for, by the sets at hand.
///
/// Tags without a set are passed over; `None` where no tag of the group has one.
pub open spec fn group_files(sets: Map<u64, Set<u64>>, ids: Seq<u64>, kind: DbSearchTypeEnum) -> Option<Set<u64>> {
    if exists|i: int| 0 <= i < ids.len() && sets.dom().contains(#[trigger] ids[i]) {
        Some(match kind {
            DbSearchTypeEnum::Or => Set::new(|f: u64| any_has(sets, ids, f)),
            DbSearchTypeEnum::And => Set::new(|f: u64| all_have(sets, ids, f)),
        })
    } else {
        None
    }
}

/// Whether the set of one of the tags holds the file.
pub open spec fn any_has(sets: Map<u64, Set<u64>>, ids: Seq<u64>, file_id: u64) -> bool {
    exists|i: int| 0 <= i < ids.len() && sets.dom().contains(#[trigger] ids[i]) && sets[ids[i]].contains(file_id)
}

/// Whether the sets of all the tags that have one hold the file.
pub open spec fn all_have(sets: Map<u64, Set<u64>>, ids: Seq<u64>, file_id: u64) -> bool {
    forall|i: int|
        0 <= i < ids.len() && sets.dom().contains(#[trigger] ids[i]) ==> sets[ids[i]].contains(file_id)
}

impl StorageView {
    /// Memory after a file has got a tag.
    pub open spec fn with(self, file_id: u64, tag_id: u64) -> StorageView {
        match self.internal_cache {
            InternalCacheType::Full => StorageView {
                file_id: joined_if_present(self.file_id, file_id, tag_id),
                tag_id: joined(self.tag_id, tag_id, file_id),
                internal_cache: self.internal_cache,
            },
            _ => self,
        }
    }

    /// Memory after a file has lost a tag.
    pub open spec fn without(self, file_id: u64, tag_id: u64) -> StorageView {
        match self.internal_cache {
            InternalCacheType::Table => self,
            _ => StorageView {
                file_id: parted(self.file_id, file_id, tag_id),
                tag_id: parted(self.tag_id, tag_id, file_id),
                internal_cache: self.internal_cache,
            },
        }
    }

    /// Memory after files have got tags, one relationship after the other.
    pub open spec fn with_all(self, relationships: Seq<(u64, u64)>) -> StorageView
        decreases relationships.len(),
    {
        if relationships.len() == 0 {
            self
        } else {
            self.with_all(relationships.drop_last()).with(relationships.last().0, relationships.last().1)
        }
    }

    /// Memory after files have lost tags, one relationship after the other.
    pub open spec fn without_all(self, relationships: Seq<(u64, u64)>) -> StorageView
        decreases relationships.len(),
    {
        if relationships.len() == 0 {
            self
        } else {
            self.without_all(relationships.drop_last()).without(relationships.last().0, relationships.last().1)
        }
    }

    /// Whether loading takes this tag from the stored bitmaps.
    pub open spec fn loads(self, tables: TablesView, tags: Seq<TagRec>, tag_id: u64) -> bool {
        stored_set(tables.tagid, tag_id) is Some && match self.internal_cache {
            InternalCacheType::Table => false,
            InternalCacheType::Popular(threshold) => popular(tags, threshold, tag_id),
            InternalCacheType::Full => true,
        }
    }

    /// Memory after the stored bitmaps have been loaded into it.
    pub open spec fn loaded(self, tables: TablesView, tags: Seq<TagRec>) -> StorageView {
        StorageView {
            file_id: self.file_id,
            tag_id: Map::new(
                |t: u64| self.tag_id.dom().contains(t) || self.loads(tables, tags, t),
                |t: u64|
                    if self.loads(tables, tags, t) {
                        stored_set(tables.tagid, t)->0
                    } else {
                        self.tag_id[t]
                    },
            ),
            internal_cache: self.internal_cache,
        }
    }

    /// The files of a tag as reads through the cache see them.
    pub open spec fn files_of(self, tables: TablesView, tag_id: u64) -> Option<Set<u64>> {
        if self.tag_id.dom().contains(tag_id) {
            Some(self.tag_id[tag_id])
        } else if self.internal_cache is Full {
            None
        } else {
            stored_set(tables.tagid, tag_id)
        }
    }

    /// The tags of a file as reads through the cache see them.
    pub open spec fn tags_of(self, tables: TablesView, file_id: u64) -> Option<Set<u64>> {
        if self.internal_cache is Full {
            if self.file_id.dom().contains(file_id) {
                Some(self.file_id[file_id])
            } else {
                None
            }
        } else {
            stored_set(tables.fileid, file_id)
        }
    }
}

/// The same list, the other way round.
fn reversed(list: &Vec<u64>) -> (back: Vec<u64>)
    ensures
        back@ == list@.reverse(),
{
    let mut back: Vec<u64> = Vec::new();
    let mut i: usize = list.len();
    while i > 0
        invariant
            i <= list.len(),
            back@.len() == list.len() - i,
            forall|k: int| 0 <= k < back@.len() ==> back@[k] == list@[list.len() - 1 - k],
        decreases i,
    {
        i -= 1;
        back.push(list[i]);
    }
    assert(back@ =~= list@.reverse());
    back
}

/// Whether `list` holds exactly the values of `items`, each once, from the smallest up.
pub open spec fn ascending_listing(list: Seq<u64>, items: Set<u64>) -> bool {
    &&& forall|i: int, j: int| 0 <= i < j < list.len() ==> list[i] < list[j]
    &&& forall|x: u64| #[trigger] items.contains(x) <==> list.contains(x)
}

fn ascending(bitmap: &RoaringTreemap) -> (values: Vec<u64>)
    ensures
        ascending_listing(values@, bitmap_items(*bitmap)),
{
    let down = bitmap_descending(bitmap);
    let up = reversed(&down);
    assert forall|x: u64| bitmap_items(*bitmap).contains(x) <==> up@.contains(x) by {
        if down@.contains(x) {
            let i = choose|i: int| 0 <= i < down@.len() && down@[i] == x;
            assert(up@[down@.len() - 1 - i] == x);
        }
        if up@.contains(x) {
            let i = choose|i: int| 0 <= i < up@.len() && up@[i] == x;
            assert(down@[up@.len() - 1 - i] == x);
        }
    }
    up
}

impl RelationshipStorage {
    /// An empty cache.
    pub fn new(internal_cache: InternalCacheType) -> (storage: Self)
        ensures
            storage@ == (StorageView { file_id: no_entries(), tag_id: no_entries(), internal_cache }),
    {
        RelationshipStorage { file_id: intmap_new(), tag_id: intmap_new(), internal_cache }
    }

    /// Takes a tag from a file, in memory and in the stored bitmaps.
    pub fn remove_roaring(&mut self, tables: &mut RoaringTables, tag_id: u64, file_id: u64)
        ensures
            final(self)@ == old(self)@.without(file_id, tag_id),
            final(tables)@ == old(tables)@.without(file_id, tag_id),
    {
        match self.internal_cache {
            InternalCacheType::Table => {},
            _ => {
                if let Some(bitmap) = intmap_get_mut(&mut self.file_id, file_id) {
                    bitmap_remove(bitmap, tag_id);
                }
                if let Some(bitmap) = intmap_get_mut(&mut self.tag_id, tag_id) {
                    bitmap_remove(bitmap, file_id);
                }
            },
        }
        tables.relationship_cache_remove_sql_standalone(file_id, tag_id);
    }

    /// Gives a tag to a file, in memory and in the stored bitmaps.
    pub fn relationship_roaring_add(&mut self, tables: &mut RoaringTables, file_id: u64, tag_id: u64)
        ensures
            final(self)@ == old(self)@.with(file_id, tag_id),
            final(tables)@ == old(tables)@.with(file_id, tag_id),
    {
        match self.internal_cache {
            InternalCacheType::Full => {
                if let Some(bitmap) = intmap_get_mut(&mut self.file_id, file_id) {
                    bitmap_insert(bitmap, tag_id);
                }
                let present = intmap_contains_key(&self.tag_id, tag_id);
                if present {
                    if let Some(bitmap) = intmap_get_mut(&mut self.tag_id, tag_id) {
                        bitmap_insert(bitmap, file_id);
                    }
                } else {
                    let mut bitmap = bitmap_new();
                    bitmap_insert(&mut bitmap, file_id);
                    intmap_insert(&mut self.tag_id, tag_id, bitmap);
                }
            },
            _ => {},
        }
        tables.relationship_cache_add_sql_standalone(file_id, tag_id);
    }

    /// Empties memory and stores the bitmaps of all relationships anew.
    pub fn recache_roaring(&mut self, tables: &mut RoaringTables, relationships: &Vec<(u64, u64)>)
        ensures
            final(self)@ == (StorageView {
                file_id: no_entries(),
                tag_id: no_entries(),
                internal_cache: old(self).internal_cache,
            }),
            final(tables)@ == TablesView::none().with_all(relationships@),
    {
        intmap_clear(&mut self.file_id);
        intmap_clear(&mut self.tag_id);
        *tables = RoaringTables::new();
        let mut i: usize = 0;
        assert(relationships@.take(0) =~= Seq::<(u64, u64)>::empty());
        while i < relationships.len()
            invariant
                i <= relationships.len(),
                tables@ == TablesView::none().with_all(relationships@.take(i as int)),
            decreases relationships.len() - i,
        {
            let (file_id, tag_id) = relationships[i];
            tables.relationship_cache_add_sql_standalone(file_id, tag_id);
            assert(relationships@.take(i + 1).drop_last() =~= relationships@.take(i as int));
            i += 1;
        }
        assert(relationships@.take(i as int) =~= relationships@);
    }

    /// Loads the stored bitmaps of the tags that the cache type calls for.
    pub fn load_relationship_cache(&mut self, tables: &RoaringTables, tags: &Vec<TagRow>)
        ensures
            final(self)@ == old(self)@.loaded(tables@, views(tags@)),
    {
        let threshold: u64 = match self.internal_cache {
            InternalCacheType::Table => {
                assert(self@.loaded(tables@, views(tags@)) =~= self@);
                return;
            },
            InternalCacheType::Popular(threshold) => threshold,
            InternalCacheType::Full => 0,
        };
        let full = match self.internal_cache {
            InternalCacheType::Full => true,
            _ => false,
        };
        let keys = map_keys(&tables.tagid);
        let mut i: usize = 0;
        let ghost start = self@;
        while i < keys.len()
            invariant
                i <= keys.len(),
                keys@.no_duplicates(),
                keys@.to_set() == tables.tagid@.dom(),
                start.internal_cache == self.internal_cache,
                self.internal_cache !is Table,
                full == (self.internal_cache is Full),
                self.internal_cache matches InternalCacheType::Popular(n) ==> n == threshold,
                self@.file_id == start.file_id,
                forall|t: u64| #[trigger]
                    self@.tag_id.dom().contains(t) <==> start.tag_id.dom().contains(t) || (start.loads(
                        tables@,
                        views(tags@),
                        t,
                    ) && keys@.take(i as int).contains(t)),
                forall|t: u64| #[trigger]
                    self@.tag_id.dom().contains(t) ==> self@.tag_id[t] == (if start.loads(tables@, views(tags@), t)
                        && keys@.take(i as int).contains(t) {
                        stored_set(tables@.tagid, t)->0
                    } else {
                        start.tag_id[t]
                    }),
            decreases keys.len() - i,
        {
            let tag_id = keys[i];
            let wanted = if full {
                true
            } else {
                let at: usize = find_tag_id(tags, tag_id);
                at < tags.len() && tags[at].count >= threshold
            };
            let ghost before = self@;
            assert(start.loads(tables@, views(tags@), tag_id) <==> wanted && stored_set(tables@.tagid, tag_id) is Some);
            if wanted {
                if let Some(mut bitmap) = read_blob(&tables.tagid, tag_id) {
                    bitmap_optimize(&mut bitmap);
                    intmap_insert(&mut self.tag_id, tag_id, bitmap);
                }
            }
            proof {
                assert(keys@.take(i + 1) =~= keys@.take(i as int).push(tag_id));
                lemma_push_contains(keys@.take(i as int), tag_id);
                assert(forall|t: u64| #[trigger]
                    self@.tag_id.dom().contains(t) <==> before.tag_id.dom().contains(t) || (t == tag_id && start.loads(
                        tables@,
                        views(tags@),
                        t,
                    )));
            }
            i += 1;
        }
        proof {
            assert(keys@.take(i as int) =~= keys@);
            assert forall|t: u64| start.loads(tables@, views(tags@), t) implies keys@.contains(t) by {
                assert(tables.tagid@.dom().contains(t));
                assert(keys@.to_set().contains(t));
            }
            assert(self@.tag_id =~= start.loaded(tables@, views(tags@)).tag_id);
        }
    }

    /// Whether the bitmap of a tag is in memory.
    pub fn tag_is_cached_in_memory(&self, tag_id: u64) -> (cached: bool)
        ensures
            cached == self@.tag_id.dom().contains(tag_id),
    {
        intmap_contains_key(&self.tag_id, tag_id)
    }

    /// Whether a file has a tag, as the cache sees it.
    pub fn relationship_cache_relationship_exists(&self, tables: &RoaringTables, file_id: u64, tag_id: u64) -> (exists:
        bool)
        ensures
            exists == (self@.files_of(tables@, tag_id) matches Some(files) && files.contains(file_id)),
    {
        match self.relationship_cache_tagid_get(tables, tag_id) {
            Some(bitmap) => bitmap_contains(&bitmap, file_id),
            None => false,
        }
    }

    /// Whether the cache knows a tag.
    pub fn relationship_cache_tagid_exists(&self, tables: &RoaringTables, tag_id: u64) -> (exists: bool)
        ensures
            exists == (self@.files_of(tables@, tag_id) is Some),
    {
        match self.internal_cache {
            InternalCacheType::Full => intmap_contains_key(&self.tag_id, tag_id),
            _ => self.relationship_cache_tagid_get(tables, tag_id).is_some(),
        }
    }

    /// The files of a tag, in rising order.
    pub fn relationship_search_fileid_roaring(&self, tables: &RoaringTables, tag_id: u64) -> (files: Vec<u64>)
        ensures
            match self@.files_of(tables@, tag_id) {
                Some(set) => ascending_listing(files@, set),
                None => files@.len() == 0,
            },
    {
        match self.relationship_cache_tagid_get(tables, tag_id) {
            Some(bitmap) => ascending(&bitmap),
            None => Vec::new(),
        }
    }

    /// The tags of a file, in rising order.
    pub fn relationship_search_tagid_roaring(&self, tables: &RoaringTables, file_id: u64) -> (tags: Vec<u64>)
        ensures
            match self@.tags_of(tables@, file_id) {
                Some(set) => ascending_listing(tags@, set),
                None => tags@.len() == 0,
            },
    {
        match self.relationship_cache_fileid_get(tables, file_id) {
            Some(bitmap) => ascending(&bitmap),
            None => Vec::new(),
        }
    }

    /// The files of a tag whose bitmap is in memory.
    pub fn relationship_search_fileid_roaring_in_memory(&self, tag_id: u64) -> (files: Option<Vec<u64>>)
        ensures
            files is Some <==> self@.tag_id.dom().contains(tag_id),
            files matches Some(list) ==> ascending_listing(list@, self@.tag_id[tag_id]),
    {
        match intmap_get(&self.tag_id, tag_id) {
            Some(bitmap) => Some(ascending(bitmap)),
            None => None,
        }
    }

    /// The tags of a file whose bitmap is in memory.
    pub fn relationship_search_tagid_roaring_in_memory(&self, file_id: u64) -> (tags: Option<Vec<u64>>)
        ensures
            tags is Some <==> self@.file_id.dom().contains(file_id),
            tags matches Some(list) ==> ascending_listing(list@, self@.file_id[file_id]),
    {
        match intmap_get(&self.file_id, file_id) {
            Some(bitmap) => Some(ascending(bitmap)),
            None => None,
        }
    }

    fn relationship_cache_tagid_get(&self, tables: &RoaringTables, tag_id: u64) -> (bitmap: Option<RoaringTreemap>)
        ensures
            bitmap is Some <==> self@.files_of(tables@, tag_id) is Some,
            bitmap matches Some(found) ==> self@.files_of(tables@, tag_id) == Some(bitmap_items(found)),
    {
        if let Some(bitmap) = intmap_get(&self.tag_id, tag_id) {
            return Some(bitmap_clone(bitmap));
        }
        match self.internal_cache {
            InternalCacheType::Full => None,
            _ => read_blob(&tables.tagid, tag_id),
        }
    }

    fn relationship_cache_fileid_get(&self, tables: &RoaringTables, file_id: u64) -> (bitmap: Option<RoaringTreemap>)
        ensures
            bitmap is Some <==> self@.tags_of(tables@, file_id) is Some,
            bitmap matches Some(found) ==> self@.tags_of(tables@, file_id) == Some(bitmap_items(found)),
    {
        match self.internal_cache {
            InternalCacheType::Full => match intmap_get(&self.file_id, file_id) {
                Some(bitmap) => Some(bitmap_clone(bitmap)),
                None => None,
            },
            _ => read_blob(&tables.fileid, file_id),
        }
    }

    /// The files that a group of tags stands for, by what is in memory.
    pub fn internal_search_item(&self, tag_id_list: &[u64], searchtype: DbSearchTypeEnum) -> (files: Option<
        RoaringTreemap,
    >)
        ensures
            files is Some <==> group_files(self@.tag_id, tag_id_list@, searchtype) is Some,
            files matches Some(bitmap) ==> group_files(self@.tag_id, tag_id_list@, searchtype) == Some(
                bitmap_items(bitmap),
            ),
    {
        let ghost sets = self@.tag_id;
        let mut found: Option<RoaringTreemap> = None;
        let mut i: usize = 0;
        while i < tag_id_list.len()
            invariant
                i <= tag_id_list.len(),
                sets == self@.tag_id,
                found is Some <==> group_files(sets, tag_id_list@.take(i as int), searchtype) is Some,
                found matches Some(bitmap) ==> group_files(sets, tag_id_list@.take(i as int), searchtype) == Some(
                    bitmap_items(bitmap),
                ),
            decreases tag_id_list.len() - i,
        {
            let tag_id = tag_id_list[i];
            proof {
                lemma_group_step(sets, tag_id_list@, i as int, searchtype);
            }
            if let Some(bitmap) = intmap_get(&self.tag_id, tag_id) {
                found = match found {
                    None => Some(bitmap_clone(bitmap)),
                    Some(mut current) => {
                        match searchtype {
                            DbSearchTypeEnum::Or => bitmap_union_with(&mut current, bitmap),
                            DbSearchTypeEnum::And => bitmap_intersect_with(&mut current, bitmap),
                        }
                        Some(current)
                    },
                };
            }
            i += 1;
        }
        assert(tag_id_list@.take(i as int) =~= tag_id_list@);
        found
    }
}

/// One more tag in a group: its set joins the union or narrows the intersection.
proof fn lemma_group_step(sets: Map<u64, Set<u64>>, ids: Seq<u64>, i: int, kind: DbSearchTypeEnum)
    requires
        0 <= i < ids.len(),
    ensures
        ({
            let before = group_files(sets, ids.take(i), kind);
            let after = group_files(sets, ids.take(i + 1), kind);
            if !sets.dom().contains(ids[i]) {
                after == before
            } else {
                after == Some(
                    match before {
                        None => sets[ids[i]],
                        Some(files) => match kind {
                            DbSearchTypeEnum::Or => files.union(sets[ids[i]]),
                            DbSearchTypeEnum::And => files.intersect(sets[ids[i]]),
                        },
                    },
                )
            }
        }),
{
    let shorter = ids.take(i);
    let longer = ids.take(i + 1);
    assert(forall|k: int| 0 <= k < i ==> #[trigger] shorter[k] == longer[k]);
    assert(longer[i] == ids[i]);
    let before = group_files(sets, shorter, kind);
    let after = group_files(sets, longer, kind);
    if before is Some {
        let k = choose|k: int| 0 <= k < shorter.len() && sets.dom().contains(#[trigger] shorter[k]);
        assert(sets.dom().contains(longer[k]));
    }
    if after is Some && before is None {
        let k = choose|k: int| 0 <= k < longer.len() && sets.dom().contains(#[trigger] longer[k]);
        if k < i {
            assert(sets.dom().contains(shorter[k]));
        }
    }
    if sets.dom().contains(ids[i]) {
        assert(sets.dom().contains(longer[i]));
    }
    assert forall|f: u64| any_has(sets, longer, f) <==> (any_has(sets, shorter, f) || (sets.dom().contains(ids[i])
        && sets[ids[i]].contains(f))) by {
        if any_has(sets, shorter, f) {
            let k = choose|k: int|
                0 <= k < shorter.len() && sets.dom().contains(#[trigger] shorter[k]) && sets[shorter[k]].contains(f);
            assert(sets.dom().contains(longer[k]));
        }
        if sets.dom().contains(ids[i]) && sets[ids[i]].contains(f) {
            assert(sets.dom().contains(longer[i]));
        }
        if any_has(sets, longer, f) {
            let k = choose|k: int|
                0 <= k < longer.len() && sets.dom().contains(#[trigger] longer[k]) && sets[longer[k]].contains(f);
            if k < i {
                assert(sets.dom().contains(shorter[k]));
            }
        }
    }
    assert forall|f: u64| all_have(sets, longer, f) <==> (all_have(sets, shorter, f) && (sets.dom().contains(ids[i])
        ==> sets[ids[i]].contains(f))) by {
        if all_have(sets, longer, f) {
            assert forall|k: int| 0 <= k < shorter.len() && sets.dom().contains(#[trigger] shorter[k]) implies sets[shorter[k]].contains(
            f) by {
                assert(sets.dom().contains(longer[k]));
            }
            if sets.dom().contains(ids[i]) {
                assert(sets.dom().contains(longer[i]));
            }
        }
        if all_have(sets, shorter, f) && (sets.dom().contains(ids[i]) ==> sets[ids[i]].contains(f)) {
            assert forall|k: int| 0 <= k < longer.len() && sets.dom().contains(#[trigger] longer[k]) implies sets[longer[k]].contains(
            f) by {
                if k < i {
                    assert(sets.dom().contains(shorter[k]));
                }
            }
        }
    }
    if after is Some {
        if sets.dom().contains(ids[i]) && before is None {
            assert(after->0 =~= sets[ids[i]]) by {
                assert forall|f: u64| any_has(sets, shorter, f) implies false by {
                    let k = choose|k: int|
                        0 <= k < shorter.len() && sets.dom().contains(#[trigger] shorter[k]) && sets[shorter[k]].contains(
                            f,
                        );
                    assert(sets.dom().contains(shorter[k]));
                }
                assert forall|f: u64| all_have(sets, shorter, f) by {}
            }
        } else if sets.dom().contains(ids[i]) {
            match kind {
                DbSearchTypeEnum::Or => {
                    assert(after->0 =~= before->0.union(sets[ids[i]]));
                },
                DbSearchTypeEnum::And => {
                    assert(after->0 =~= before->0.intersect(sets[ids[i]]));
                },
            }
        } else {
            assert(after->0 =~= before->0);
        }
    }
}

/// A search in what is in memory.
pub struct SearchQuery<'a> {
    pub engine: &'a RelationshipStorage,
    pub offset: Option<u64>,
    pub limit: Option<u64>,
    pub and_search: Option<(DbSearchTypeEnum, &'a [u64])>,
    pub or_search: Option<(DbSearchTypeEnum, &'a [u64])>,
    pub sort: bool,
}

/// What is left of a list after `offset` items, and at most `limit` of it.
pub open spec fn page(list: Seq<u64>, offset: Option<u64>, limit: Option<u64>) -> Seq<u64> {
    let skipped: nat = match offset {
        Some(n) => n as nat,
        None => 0,
    };
    let rest = if skipped <= list.len() {
        list.skip(skipped as int)
    } else {
        Seq::empty()
    };
    match limit {
        Some(n) => if n < rest.len() {
            rest.take(n as int)
        } else {
            rest
        },
        None => rest,
    }
}

impl<'a> SearchQuery<'a> {
    /// A search without conditions.
    pub fn new(engine: &'a RelationshipStorage) -> (query: Self)
        ensures
            query == (SearchQuery { engine, offset: None, limit: None, and_search: None, or_search: None, sort: false }),
    {
        SearchQuery { engine, offset: None, limit: None, and_search: None, or_search: None, sort: false }
    }

    /// Asks for a sorted result.
    pub fn sort(self) -> (query: Self)
        ensures
            query == (SearchQuery { sort: true, ..self }),
    {
        SearchQuery { sort: true, ..self }
    }

    /// Asks for so many files at most.
    pub fn limit(self, limit: Option<u64>) -> (query: Self)
        ensures
            query == (SearchQuery { limit, ..self }),
    {
        SearchQuery { limit, ..self }
    }

    /// Passes over so many files.
    pub fn offset(self, offset: u64) -> (query: Self)
        ensures
            query == (SearchQuery { offset: Some(offset), ..self }),
    {
        SearchQuery { offset: Some(offset), ..self }
    }

    /// Asks for the files that have every tag.
    pub fn and_search(self, tag_ids: &'a [u64]) -> (query: Self)
        ensures
            query == (SearchQuery { and_search: Some((DbSearchTypeEnum::And, tag_ids)), ..self }),
    {
        SearchQuery { and_search: Some((DbSearchTypeEnum::And, tag_ids)), ..self }
    }

    /// Asks for the files that have one of the tags.
    pub fn or_search(self, tag_ids: &'a [u64]) -> (query: Self)
        ensures
            query == (SearchQuery { or_search: Some((DbSearchTypeEnum::Or, tag_ids)), ..self }),
    {
        SearchQuery { or_search: Some((DbSearchTypeEnum::Or, tag_ids)), ..self }
    }

    /// The files that have every tag asked for, newest first: the page of them that was asked for.
    pub fn build(self) -> (files: Vec<u64>)
        ensures
            match self.and_search {
                Some((kind, ids)) => match group_files(self.engine@.tag_id, ids@, kind) {
                    Some(set) => exists|all: Seq<u64>| #[trigger]
                        descending_listing(all, set) && files@ == page(all, self.offset, self.limit),
                    None => files@.len() == 0,
                },
                None => files@.len() == 0,
            },
    {
        if let Some((searchtype, tag_id_list)) = self.and_search {
            if let Some(bitmap) = self.engine.internal_search_item(tag_id_list, searchtype) {
                let all = bitmap_descending(&bitmap);
                let skipped: u64 = self.offset.unwrap_or(0);
                let mut files: Vec<u64> = Vec::new();
                if skipped < all.len() as u64 {
                    let start: usize = skipped as usize;
                    let rest: u64 = (all.len() - start) as u64;
                    let wanted: u64 = self.limit.unwrap_or(rest);
                    let count: usize = if wanted < rest { wanted as usize } else { rest as usize };
                    let mut i: usize = 0;
                    while i < count
                        invariant
                            i <= count,
                            start + count <= all.len(),
                            files@ == all@.subrange(start as int, start + i),
                        decreases count - i,
                    {
                        files.push(all[start + i]);
                        i += 1;
                        assert(files@ =~= all@.subrange(start as int, start + i));
                    }
                }
                assert(files@ =~= page(all@, self.offset, self.limit));
                assert(descending_listing(all@, group_files(self.engine@.tag_id, tag_id_list@, searchtype)->0));
                return files;
            }
        }
        Vec::new()
    }
}

/// There is only one falling list of a set.
pub proof fn descending_listing_is_unique(left: Seq<u64>, right: Seq<u64>, items: Set<u64>)
    requires
        descending_listing(left, items),
        descending_listing(right, items),
    ensures
        left == right,
    decreases left.len(),
{
    if left.len() == 0 {
        if right.len() > 0 {
            assert(right.contains(right[0]));
            assert(items.contains(right[0]));
            assert(left.contains(right[0]));
        }
        assert(left =~= right);
    } else {
        assert(left.contains(left[0]));
        assert(items.contains(left[0]));
        assert(right.contains(left[0]));
        assert(right.contains(right[0]));
        assert(items.contains(right[0]));
        assert(left.contains(right[0]));
        assert(left[0] == right[0]);
        let rest = items.remove(left[0]);
        assert forall|x: u64| rest.contains(x) <==> #[trigger] left.drop_first().contains(x) by {
            if rest.contains(x) {
                let i = choose|i: int| 0 <= i < left.len() && left[i] == x;
                assert(left.drop_first()[i - 1] == x);
            }
            if left.drop_first().contains(x) {
                let i = choose|i: int| 0 <= i < left.drop_first().len() && left.drop_first()[i] == x;
                assert(left[i + 1] == x);
            }
        }
        assert forall|x: u64| rest.contains(x) <==> #[trigger] right.drop_first().contains(x) by {
            if rest.contains(x) {
                let i = choose|i: int| 0 <= i < right.len() && right[i] == x;
                assert(right.drop_first()[i - 1] == x);
            }
            if right.drop_first().contains(x) {
                let i = choose|i: int| 0 <= i < right.drop_first().len() && right.drop_first()[i] == x;
                assert(right[i + 1] == x);
            }
        }
        descending_listing_is_unique(left.drop_first(), right.drop_first(), rest);
        assert(left =~= seq![left[0]] + left.drop_first());
        assert(right =~= seq![right[0]] + right.drop_first());
    }
}

} // verus!
