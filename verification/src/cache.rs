//! The caches: which is used, how it is filled, and how it is brought up to date.
use crate::bitmap::no_entries;
use crate::bitmap_cache::{InternalCacheType, RelationshipStorage, StorageView, TablesView};
use crate::database::{CacheType, DbState, MainDatabase, TagHit, TagSearchCache, TagSearchView};
use crate::relationship::{files_with, tags_with};
use crate::rows::{TagRec, TagRow};
use crate::settings::setting_set_then_get;
use crate::text::{text_is, views};
use crate::types::{DbSettingsObj, SettingView, TagSearch};
use vstd::prelude::*;

verus! {

/// Most tags that are held in memory for tag searches.
pub const POPULAR_TAG_CACHE_LIMIT: usize = 100_000;

/// The entry of a tag in the tag search.
pub open spec fn tag_hit(row: TagRec) -> TagHit {
    TagHit { tag_id: row.id, name: row.name, count: row.count }
}

/// The entries of all tags.
pub open spec fn tag_hits(rows: Seq<TagRec>) -> Seq<TagHit> {
    Seq::new(rows.len(), |i: int| tag_hit(rows[i]))
}

/// Whether one entry may stand before another: the more frequent first, then the older.
pub open spec fn ranks_before(left: TagHit, right: TagHit) -> bool {
    left.count > right.count || (left.count == right.count && left.tag_id <= right.tag_id)
}

/// Whether entries are in order.
pub open spec fn ranked(hits: Seq<TagHit>) -> bool {
    forall|i: int, j: int| 0 <= i < j < hits.len() ==> ranks_before(#[trigger] hits[i], #[trigger] hits[j])
}

/// Whether `entries` are the first of the tags, in order, up to the limit.
pub open spec fn most_popular(entries: Seq<TagHit>, rows: Seq<TagRec>, limit: nat) -> bool {
    exists|all: Seq<TagHit>| #[trigger]
        ranked(all) && all.to_multiset() == tag_hits(rows).to_multiset() && entries == all.take(
            if limit < all.len() {
                limit as int
            } else {
                all.len() as int
            },
        )
}

/// The setting that names the cache to use, by default.
pub open spec fn default_cache_setting() -> SettingView {
    SettingView {
        name: "SYSTEM_cachemode"@,
        description: Some("The database caching options. Supports: Bare, InMemdb and InMemory"@),
        num: None,
        param: Some("RelationshipRoaringFull"@),
    }
}

/// The bitmaps that stand for a set of relationships.
pub open spec fn tables_of(relationships: Set<(u64, u64)>) -> TablesView {
    TablesView {
        fileid: Map::new(
            |f: u64| exists|t: u64| relationships.contains((f, t)),
            |f: u64| Some(tags_with(relationships, f)),
        ),
        tagid: Map::new(
            |t: u64| exists|f: u64| relationships.contains((f, t)),
            |t: u64| Some(files_with(relationships, t)),
        ),
    }
}

/// Storing relationships one after the other gives the bitmaps of their set.
pub proof fn stored_one_by_one(relationships: Seq<(u64, u64)>)
    ensures
        TablesView::none().with_all(relationships) == tables_of(relationships.to_set()),
    decreases relationships.len(),
{
    let set = relationships.to_set();
    if relationships.len() == 0 {
        assert(tables_of(set) =~= TablesView::none());
    } else {
        let shorter = relationships.drop_last();
        let (f, t) = relationships.last();
        stored_one_by_one(shorter);
        let before = shorter.to_set();
        assert(relationships =~= shorter.push((f, t)));
        crate::text::lemma_push_contains(shorter, (f, t));
        assert forall|r: (u64, u64)| #[trigger] set.contains(r) <==> before.contains(r) || r == (f, t) by {
            assert(set.contains(r) == relationships.contains(r));
        }
        let old_tables = tables_of(before);
        let new_tables = tables_of(set);
        assert(set.contains((f, t)));
        assert(old_tables.with(f, t).tagid =~= new_tables.tagid) by {
            assert forall|k: u64| new_tables.tagid.dom().contains(k) <==> old_tables.tagid.dom().contains(k) || k == t by {
                if old_tables.tagid.dom().contains(k) {
                    let g = choose|g: u64| before.contains((g, k));
                    assert(set.contains((g, k)));
                }
                if new_tables.tagid.dom().contains(k) && k != t {
                    let g = choose|g: u64| set.contains((g, k));
                    assert(before.contains((g, k)));
                }
            }
            assert forall|k: u64| #[trigger] new_tables.tagid.dom().contains(k) implies old_tables.with(f, t).tagid[k]
                == new_tables.tagid[k] by {
                if k == t {
                    if old_tables.tagid.dom().contains(t) {
                        assert(files_with(before, t).insert(f) =~= files_with(set, t));
                    } else {
                        assert(forall|g: u64| !before.contains((g, t)));
                        assert(Set::<u64>::empty().insert(f) =~= files_with(set, t));
                    }
                } else {
                    assert(files_with(before, k) =~= files_with(set, k));
                }
            }
        }
        assert(old_tables.with(f, t).fileid =~= new_tables.fileid) by {
            assert forall|k: u64| new_tables.fileid.dom().contains(k) <==> old_tables.fileid.dom().contains(k) || k == f by {
                if old_tables.fileid.dom().contains(k) {
                    let g = choose|g: u64| before.contains((k, g));
                    assert(set.contains((k, g)));
                }
                if new_tables.fileid.dom().contains(k) && k != f {
                    let g = choose|g: u64| set.contains((k, g));
                    assert(before.contains((k, g)));
                }
            }
            assert forall|k: u64| #[trigger] new_tables.fileid.dom().contains(k) implies old_tables.with(f, t).fileid[k]
                == new_tables.fileid[k] by {
                if k == f {
                    if old_tables.fileid.dom().contains(f) {
                        assert(tags_with(before, f).insert(t) =~= tags_with(set, f));
                    } else {
                        assert(forall|g: u64| !before.contains((f, g)));
                        assert(Set::<u64>::empty().insert(t) =~= tags_with(set, f));
                    }
                } else {
                    assert(tags_with(before, k) =~= tags_with(set, k));
                }
            }
        }
    }
}

impl DbState {
    /// The state after memory has been reloaded from the stored bitmaps, where it was marked for that.
    pub open spec fn refreshed(self) -> DbState {
        if self.roaring_memory_dirty {
            DbState {
                memory: match self.memory {
                    Some(memory) => Some(memory.loaded(self.bitmaps, self.tags)),
                    None => None,
                },
                roaring_memory_dirty: false,
                ..self
            }
        } else {
            self
        }
    }

    /// The state after the bitmaps have been stored anew and memory emptied.
    pub open spec fn recached(self) -> DbState {
        match self.memory {
            Some(memory) => DbState {
                memory: Some(
                    StorageView {
                        file_id: no_entries(),
                        tag_id: no_entries(),
                        internal_cache: memory.internal_cache,
                    },
                ),
                bitmaps: tables_of(self.relationships),
                roaring_memory_dirty: false,
                ..self
            },
            None => DbState { roaring_memory_dirty: false, ..self },
        }
    }

    /// The cache that the settings ask for; `None` where they name no usable one.
    pub open spec fn cache_asked_for(self) -> Option<CacheType> {
        match self.setting("SYSTEM_cachemode"@) {
            Some(setting) => if setting.param == Some("Bare"@) {
                Some(CacheType::Bare)
            } else if setting.param == Some("RelationshipRoaringFull"@) {
                Some(CacheType::RelationshipRoaring(InternalCacheType::Full))
            } else if setting.param == Some("RelationshipRoaringTable"@) {
                Some(CacheType::RelationshipRoaring(InternalCacheType::Table))
            } else if setting.param == Some("RelationshipRoaringPopular"@) {
                match self.popular_division() {
                    Some(count) => Some(CacheType::RelationshipRoaring(InternalCacheType::Popular(count))),
                    None => None,
                }
            } else {
                None
            },
            None => None,
        }
    }

    /// How often a tag must have been given to be popular.
    pub open spec fn popular_division(self) -> Option<u64> {
        match self.setting("SYSTEM_tag_count_popular_division"@) {
            Some(setting) => setting.num,
            None => None,
        }
    }

    /// Whether the settings ask for the popular tags without saying which tags are popular.
    pub open spec fn popular_without_division(self) -> bool {
        &&& self.setting("SYSTEM_cachemode"@) matches Some(setting)
        &&& setting.param == Some("RelationshipRoaringPopular"@)
        &&& self.popular_division() is None
    }

    /// The state after the cache has been chosen and set up: where the settings name no usable one,
    /// the default is recorded and used.
    pub open spec fn with_cache_chosen(self) -> DbState {
        let (set, cache) = match self.cache_asked_for() {
            Some(cache) => (self, cache),
            None => (
                self.with_setting(default_cache_setting()),
                CacheType::RelationshipRoaring(InternalCacheType::Full),
            ),
        };
        DbState {
            cache_type: cache,
            memory: match cache {
                CacheType::Bare => None,
                CacheType::RelationshipRoaring(internal_cache) => Some(
                    StorageView { file_id: no_entries(), tag_id: no_entries(), internal_cache }.loaded(
                        set.bitmaps,
                        set.tags,
                    ),
                ),
            },
            ..set
        }
    }
}

proof fn lemma_literals()
    ensures
        "Bare"@ != "RelationshipRoaringFull"@,
        "Bare"@ != "RelationshipRoaringTable"@,
        "Bare"@ != "RelationshipRoaringPopular"@,
        "RelationshipRoaringFull"@ != "RelationshipRoaringTable"@,
        "RelationshipRoaringFull"@ != "RelationshipRoaringPopular"@,
        "RelationshipRoaringTable"@ != "RelationshipRoaringPopular"@,
{
    reveal_strlit("Bare");
    reveal_strlit("RelationshipRoaringFull");
    reveal_strlit("RelationshipRoaringTable");
    reveal_strlit("RelationshipRoaringPopular");
    assert("Bare"@.len() == 4);
    assert("RelationshipRoaringFull"@.len() == 23);
    assert("RelationshipRoaringTable"@.len() == 24);
    assert("RelationshipRoaringPopular"@.len() == 26);
}

fn insert_ranked(entries: &mut Vec<TagSearch>, entry: TagSearch)
    requires
        ranked(views(old(entries)@)),
    ensures
        ranked(views(final(entries)@)),
        views(final(entries)@).to_multiset() == views(old(entries)@).to_multiset().insert(entry@),
{
    let ghost before = views(entries@);
    let mut at: usize = entries.len();
    while at > 0 && (entry.count > entries[at - 1].count || (entry.count == entries[at - 1].count && entry.tag_id
        < entries[at - 1].tag_id))
        invariant
            at <= entries.len(),
            before == views(entries@),
            forall|k: int| at <= k < before.len() ==> ranks_before(entry@, #[trigger] before[k]),
        decreases at,
    {
        assert(before[at - 1] == entries@[at - 1]@);
        at -= 1;
    }
    let ghost hit = entry@;
    entries.insert(at, entry);
    proof {
        assert(views(entries@) =~= before.insert(at as int, hit));
        vstd::seq_lib::to_multiset_insert(before, at as int, hit);
        let after = views(entries@);
        assert forall|i: int, j: int| 0 <= i < j < after.len() implies ranks_before(#[trigger] after[i], #[trigger] after[j]) by {
            if j < at {
                assert(after[i] == before[i] && after[j] == before[j]);
            } else if j == at {
                assert(after[i] == before[i]);
                if i < at - 1 {
                    assert(ranks_before(before[i], before[at - 1]));
                }
            } else if i == at {
                assert(after[j] == before[j - 1]);
            } else if i < at {
                assert(after[i] == before[i] && after[j] == before[j - 1]);
            } else {
                assert(after[i] == before[i - 1] && after[j] == before[j - 1]);
            }
        }
    }
}

fn rank_tags(rows: &Vec<TagRow>) -> (entries: Vec<TagSearch>)
    ensures
        ranked(views(entries@)),
        views(entries@).to_multiset() == tag_hits(views(rows@)).to_multiset(),
{
    let ghost all = tag_hits(views(rows@));
    let mut entries: Vec<TagSearch> = Vec::new();
    let mut i: usize = 0;
    assert(views(entries@) =~= all.take(0));
    while i < rows.len()
        invariant
            i <= rows.len(),
            all == tag_hits(views(rows@)),
            ranked(views(entries@)),
            views(entries@).to_multiset() == all.take(i as int).to_multiset(),
        decreases rows.len() - i,
    {
        let entry = TagSearch { tag_id: rows[i].id, name: rows[i].name.clone(), count: rows[i].count };
        proof {
            assert(entry@ == all[i as int]);
            assert(all.take(i + 1) =~= all.take(i as int).push(all[i as int]));
            vstd::seq_lib::to_multiset_build(all.take(i as int), all[i as int]);
        }
        insert_ranked(&mut entries, entry);
        i += 1;
    }
    assert(all.take(i as int) =~= all);
    entries
}

impl MainDatabase {
    /// Chooses the cache that the settings ask for and fills it.
    pub fn internal_load_caching(&mut self)
        requires
            !old(self)@.popular_without_division(),
        ensures
            ({
                let chosen = old(self)@.with_cache_chosen();
                &&& most_popular(final(self)@.tag_search_cache.entries, chosen.tags, POPULAR_TAG_CACHE_LIMIT as nat)
                &&& final(self)@ == (DbState {
                    tag_search_cache: TagSearchView {
                        entries: final(self)@.tag_search_cache.entries,
                        complete: chosen.tags.len() <= POPULAR_TAG_CACHE_LIMIT,
                    },
                    tag_search_dirty: false,
                    ..chosen
                })
            }),
    {
        proof {
            lemma_literals();
        }
        let mut cache: Option<CacheType> = None;
        if let Some(setting) = self.internal_setting_get("SYSTEM_cachemode") {
            if let Some(mode) = &setting.param {
                if text_is(mode, "Bare") {
                    cache = Some(CacheType::Bare);
                } else if text_is(mode, "RelationshipRoaringFull") {
                    cache = Some(CacheType::RelationshipRoaring(InternalCacheType::Full));
                } else if text_is(mode, "RelationshipRoaringTable") {
                    cache = Some(CacheType::RelationshipRoaring(InternalCacheType::Table));
                } else if text_is(mode, "RelationshipRoaringPopular") {
                    if let Some(division) = self.internal_setting_get("SYSTEM_tag_count_popular_division") {
                        if let Some(count) = division.num {
                            cache = Some(CacheType::RelationshipRoaring(InternalCacheType::Popular(count)));
                        }
                    }
                }
            }
        }
        let chosen = match cache {
            Some(chosen) => chosen,
            None => {
                self.internal_setup_default_cache();
                CacheType::RelationshipRoaring(InternalCacheType::Full)
            },
        };
        self.cache_type = chosen;
        self.relationship_roaring_storage =
        match chosen {
            CacheType::Bare => None,
            CacheType::RelationshipRoaring(internal_cache) => {
                let mut storage = RelationshipStorage::new(internal_cache);
                storage.load_relationship_cache(&self.bitmaps, &self.tags);
                Some(storage)
            },
        };
        self.refresh_tag_search_cache();
    }

    /// Brings the tags that are held in memory for tag searches up to date.
    pub fn refresh_tag_search_cache(&mut self)
        ensures
            most_popular(final(self)@.tag_search_cache.entries, old(self)@.tags, POPULAR_TAG_CACHE_LIMIT as nat),
            final(self)@ == (DbState {
                tag_search_cache: TagSearchView {
                    entries: final(self)@.tag_search_cache.entries,
                    complete: old(self)@.tags.len() <= POPULAR_TAG_CACHE_LIMIT,
                },
                tag_search_dirty: false,
                ..old(self)@
            }),
    {
        let mut entries = rank_tags(&self.tags);
        let ghost all = views(entries@);
        entries.truncate(POPULAR_TAG_CACHE_LIMIT);
        proof {
            assert(ranked(all));
            assert(views(entries@) =~= all.take(
                if POPULAR_TAG_CACHE_LIMIT < all.len() {
                    POPULAR_TAG_CACHE_LIMIT as int
                } else {
                    all.len() as int
                },
            ));
            assert(most_popular(views(entries@), self@.tags, POPULAR_TAG_CACHE_LIMIT as nat));
        }
        self.tag_search_cache =
        TagSearchCache { entries, complete: self.tags.len() <= POPULAR_TAG_CACHE_LIMIT };
        self.tag_search_dirty = false;
    }

    /// Records the default cache.
    pub fn internal_setup_default_cache(&mut self)
        ensures
            final(self)@ == old(self)@.with_setting(default_cache_setting()),
    {
        self.internal_setting_set(
            &DbSettingsObj {
                name: "SYSTEM_cachemode".to_owned(),
                description: Some("The database caching options. Supports: Bare, InMemdb and InMemory".to_owned()),
                num: None,
                param: Some("RelationshipRoaringFull".to_owned()),
            },
        );
    }

    /// Stores the bitmaps of all relationships anew and empties memory.
    pub fn recache_roaring_db(&mut self)
        ensures
            final(self)@ == old(self)@.recached(),
    {
        if let Some(storage) = &mut self.relationship_roaring_storage {
            storage.recache_roaring(&mut self.bitmaps, &self.relationships);
        }
        self.roaring_memory_dirty = false;
        proof {
            stored_one_by_one(self.relationships@);
        }
    }

    /// Reloads memory from the stored bitmaps where it is marked for that.
    pub fn refresh_roaring_memory_if_dirty(&mut self)
        ensures
            final(self)@ == old(self)@.refreshed(),
    {
        if !self.roaring_memory_dirty {
            return;
        }
        if let Some(storage) = &mut self.relationship_roaring_storage {
            storage.load_relationship_cache(&self.bitmaps, &self.tags);
        }
        self.roaring_memory_dirty = false;
    }
}

/// Choosing a cache again finds what the first choice settled.
pub proof fn cache_choice_is_settled(state: DbState)
    requires
        !state.popular_without_division(),
    ensures
        state.with_cache_chosen().cache_asked_for() == Some(state.with_cache_chosen().cache_type),
{
    lemma_literals();
    if state.cache_asked_for() is None {
        setting_set_then_get(state, default_cache_setting(), "SYSTEM_cachemode"@);
        assert(state.with_cache_chosen().setting("SYSTEM_cachemode"@) == state.with_setting(
            default_cache_setting(),
        ).setting("SYSTEM_cachemode"@));
    } else {
        assert(state.with_cache_chosen().setting("SYSTEM_cachemode"@) == state.setting("SYSTEM_cachemode"@));
        assert(state.with_cache_chosen().popular_division() == state.popular_division());
    }
}

} // verus!
