//! A new database.
use crate::bitmap_cache::{RoaringTables, TablesView};
use crate::cache::{POPULAR_TAG_CACHE_LIMIT, most_popular, ranked, tag_hits};
use crate::database::{CacheType, DbState, MainDatabase, TagHit, TagSearchCache, TagSearchView};
use crate::settings::{file_location_setting, setting_set_then_get};
use crate::types::{DbSettingsObj, SettingView};
use vstd::prelude::*;

verus! {

/// The version of the tables that this library works with.
pub const DB_VERSION: u64 = 6;

/// The setting that says which version the tables have.
pub open spec fn version_setting(version: u64) -> SettingView {
    SettingView {
        name: "SYSTEM_VERSION"@,
        description: Some("Current version that the DB is on."@),
        num: Some(version),
        param: None,
    }
}

/// The setting that says what downloads call themselves.
pub open spec fn user_agent_setting() -> SettingView {
    SettingView {
        name: "SYSTEM_DEFAULT_USER_AGENT"@,
        description: Some("The default user agent of downloads."@),
        num: None,
        param: Some("IntScrape V1.0"@),
    }
}

impl DbState {
    /// The state without any row.
    pub open spec fn blank() -> DbState {
        DbState {
            namespaces: Seq::empty(),
            tags: Seq::empty(),
            relationships: Set::empty(),
            parents: Seq::empty(),
            parents_sequence: 0,
            storage: Seq::empty(),
            files: Seq::empty(),
            hashes: Seq::empty(),
            dead_urls: Seq::empty(),
            jobs: Seq::empty(),
            settings: Seq::empty(),
            bitmaps: TablesView::none(),
            namespace_cache: Seq::empty(),
            setting_cache: Seq::empty(),
            tag_cache: Seq::empty(),
            tag_search_cache: TagSearchView { entries: Seq::empty(), complete: false },
            tag_search_dirty: true,
            cache_type: CacheType::Bare,
            memory: None,
            roaring_memory_busy: false,
            roaring_memory_dirty: false,
            regex_tags: None,
        }
    }

    /// The state after the settings that a new database has have been made.
    pub open spec fn set_up(self) -> DbState {
        self.with_default_location().with_setting(user_agent_setting()).with_setting(version_setting(DB_VERSION))
    }

    /// The state of a new database: it has its settings, and its cache is chosen and loaded.
    pub open spec fn started() -> DbState {
        DbState {
            tag_search_cache: TagSearchView { entries: Seq::empty(), complete: true },
            tag_search_dirty: false,
            ..DbState::blank().set_up().with_cache_chosen()
        }
    }
}

/// A new database has no setting for the cache.
pub proof fn lemma_no_cache_mode()
    ensures
        DbState::blank().set_up().setting("SYSTEM_cachemode"@) is None,
{
    let blank = DbState::blank();
    let name = "SYSTEM_cachemode"@;
    reveal_strlit("SYSTEM_cachemode");
    reveal_strlit("SYSTEM_file_location");
    reveal_strlit("SYSTEM_DEFAULT_USER_AGENT");
    reveal_strlit("SYSTEM_VERSION");
    assert(name.len() != "SYSTEM_file_location"@.len());
    assert(name.len() != "SYSTEM_DEFAULT_USER_AGENT"@.len());
    assert(name.len() != "SYSTEM_VERSION"@.len());
    setting_set_then_get(blank, file_location_setting(), name);
    let placed = blank.with_default_location();
    setting_set_then_get(placed, user_agent_setting(), name);
    setting_set_then_get(placed.with_setting(user_agent_setting()), version_setting(DB_VERSION), name);
}

/// Where there is no tag, none is popular.
proof fn lemma_nothing_popular(entries: Seq<TagHit>)
    requires
        most_popular(entries, Seq::empty(), POPULAR_TAG_CACHE_LIMIT as nat),
    ensures
        entries == Seq::<TagHit>::empty(),
{
    let none = tag_hits(Seq::empty());
    let limit = POPULAR_TAG_CACHE_LIMIT as nat;
    let all = choose|all: Seq<TagHit>| #[trigger]
        ranked(all) && all.to_multiset() == none.to_multiset() && entries == all.take(
            if limit < all.len() {
                limit as int
            } else {
                all.len() as int
            },
        );
    all.to_multiset_ensures();
    none.to_multiset_ensures();
    assert(all.len() == 0);
    assert(entries =~= Seq::<TagHit>::empty());
}

impl MainDatabase {
    /// A database without any row.
    pub fn blank() -> (database: MainDatabase)
        ensures
            database@ == DbState::blank(),
    {
        let database = MainDatabase {
            namespaces: Vec::new(),
            tags: Vec::new(),
            relationships: Vec::new(),
            parents: Vec::new(),
            parents_sequence: 0,
            storage: Vec::new(),
            files: Vec::new(),
            hashes: Vec::new(),
            dead_urls: Vec::new(),
            jobs: Vec::new(),
            settings: Vec::new(),
            bitmaps: RoaringTables::new(),
            namespace_cache: Vec::new(),
            setting_cache: Vec::new(),
            tag_cache: Vec::new(),
            tag_search_cache: TagSearchCache { entries: Vec::new(), complete: false },
            tag_search_dirty: true,
            cache_type: CacheType::Bare,
            relationship_roaring_storage: None,
            roaring_memory_busy: false,
            roaring_memory_dirty: false,
            plugin_manager: None,
        };
        assert(database@.tag_search_cache.entries =~= Seq::<TagHit>::empty());
        assert(database@ =~= DbState::blank());
        database
    }

    /// Makes the settings that a new database has.
    pub fn set_up(&mut self)
        ensures
            final(self)@ == old(self)@.set_up(),
    {
        self.internal_file_download_location_set_default();
        self.internal_setting_set(
            &DbSettingsObj {
                name: "SYSTEM_DEFAULT_USER_AGENT".to_owned(),
                description: Some("The default user agent of downloads.".to_owned()),
                num: None,
                param: Some("IntScrape V1.0".to_owned()),
            },
        );
        self.internal_db_version_set(DB_VERSION);
    }

    /// A new database.
    pub fn new() -> (database: MainDatabase)
        ensures
            database@ == DbState::started(),
    {
        let mut database = MainDatabase::blank();
        database.set_up();
        proof {
            lemma_no_cache_mode();
        }
        database.internal_load_caching();
        proof {
            lemma_nothing_popular(database@.tag_search_cache.entries);
        }
        assert(database@ =~= DbState::started());
        database
    }
}

} // verus!
