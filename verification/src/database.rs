//! The database: its tables, its caches, and their mathematical state.
use crate::bitmap_cache::{InternalCacheType, RelationshipStorage, RoaringTables, StorageView, TablesView};
use crate::rows::{
    FileRec, FileRow, HashRec, HashRow, NamespaceRec, NamespaceRow, ParentRow, StorageRec, StorageRow, TagRec, TagRow,
};
use crate::text::views;
use crate::types::{DbJobView, DbJobsObj, DbSettingsObj, SettingView, Tag, TagSearch, TagView};
use vstd::prelude::*;

verus! {

/// Most rows that one statement writes.
pub const SQL_CHUNK_SIZE: usize = 800;

/// Why the database refuses a request.
#[derive(Debug, Clone, Copy, PartialEq, Eq, Structural)]
pub enum DbError {
    /// No row answers the query.
    QueryReturnedNoRows,
    /// A row lacks a value that is to be read.
    MissingValue,
    /// A row names another row that does not exist.
    ForeignKey,
    /// A row with the same key exists.
    Unique,
    /// The source of an import is no file.
    SourceNotAFile,
    /// The source of an import has no file table.
    SourceWithoutFiles,
}

/// Which cache the database runs with.
#[derive(Debug, Clone, Copy, PartialEq, Eq, Structural)]
pub enum CacheType {
    /// None.
    Bare,
    /// Bitmaps of the relationships.
    RelationshipRoaring(InternalCacheType),
}

/// The most popular tags, held in memory for tag searches.
#[derive(Debug, Clone)]
pub struct TagSearchCache {
    pub entries: Vec<TagSearch>,
    pub complete: bool,
}

/// The view of a [`TagSearchCache`].
pub struct TagSearchView {
    pub entries: Seq<TagHit>,
    pub complete: bool,
}

/// The view of a [`TagSearch`].
pub struct TagHit {
    pub tag_id: u64,
    pub name: Seq<char>,
    pub count: u64,
}

impl View for TagSearch {
    type V = TagHit;

    open spec fn view(&self) -> TagHit {
        TagHit { tag_id: self.tag_id, name: self.name@, count: self.count }
    }
}

impl View for TagSearchCache {
    type V = TagSearchView;

    open spec fn view(&self) -> TagSearchView {
        TagSearchView { entries: views(self.entries@), complete: self.complete }
    }
}

/// The tags that are waiting to be matched against the expressions of the plugins.
#[derive(Debug, Clone)]
pub struct PluginManager {
    pub regex_tags: Vec<(Tag, u64)>,
}

impl View for PluginManager {
    type V = Seq<(TagView, u64)>;

    open spec fn view(&self) -> Seq<(TagView, u64)> {
        views(self.regex_tags@)
    }
}

/// The database.
///
/// The first fields are the tables; a relationship is a pair of file and tag. The others are held
/// in memory only: caches, and what is known about how far they can be relied on.
pub struct MainDatabase {
    pub namespaces: Vec<NamespaceRow>,
    pub tags: Vec<TagRow>,
    pub relationships: Vec<(u64, u64)>,
    pub parents: Vec<ParentRow>,
    pub parents_sequence: u64,
    pub storage: Vec<StorageRow>,
    pub files: Vec<FileRow>,
    pub hashes: Vec<HashRow>,
    pub dead_urls: Vec<String>,
    pub jobs: Vec<DbJobsObj>,
    pub settings: Vec<DbSettingsObj>,
    pub bitmaps: RoaringTables,
    pub namespace_cache: Vec<(String, u64)>,
    pub setting_cache: Vec<DbSettingsObj>,
    pub tag_cache: Vec<(u64, Tag)>,
    pub tag_search_cache: TagSearchCache,
    pub tag_search_dirty: bool,
    pub cache_type: CacheType,
    pub relationship_roaring_storage: Option<RelationshipStorage>,
    /// Whether a search is reading the bitmaps in memory, so that writers leave them alone.
    pub roaring_memory_busy: bool,
    pub roaring_memory_dirty: bool,
    pub plugin_manager: Option<PluginManager>,
}

/// The state of a [`MainDatabase`].
#[verifier::ext_equal]
pub struct DbState {
    pub namespaces: Seq<NamespaceRec>,
    pub tags: Seq<TagRec>,
    pub relationships: Set<(u64, u64)>,
    pub parents: Seq<ParentRow>,
    pub parents_sequence: u64,
    pub storage: Seq<StorageRec>,
    pub files: Seq<FileRec>,
    pub hashes: Seq<HashRec>,
    pub dead_urls: Seq<Seq<char>>,
    pub jobs: Seq<DbJobView>,
    pub settings: Seq<SettingView>,
    pub bitmaps: TablesView,
    pub namespace_cache: Seq<(Seq<char>, u64)>,
    pub setting_cache: Seq<SettingView>,
    pub tag_cache: Seq<(u64, TagView)>,
    pub tag_search_cache: TagSearchView,
    pub tag_search_dirty: bool,
    pub cache_type: CacheType,
    pub memory: Option<StorageView>,
    pub roaring_memory_busy: bool,
    pub roaring_memory_dirty: bool,
    pub regex_tags: Option<Seq<(TagView, u64)>>,
}

impl View for MainDatabase {
    type V = DbState;

    open spec fn view(&self) -> DbState {
        DbState {
            namespaces: views(self.namespaces@),
            tags: views(self.tags@),
            relationships: self.relationships@.to_set(),
            parents: views(self.parents@),
            parents_sequence: self.parents_sequence,
            storage: views(self.storage@),
            files: views(self.files@),
            hashes: views(self.hashes@),
            dead_urls: views(self.dead_urls@),
            jobs: views(self.jobs@),
            settings: views(self.settings@),
            bitmaps: self.bitmaps@,
            namespace_cache: views(self.namespace_cache@),
            setting_cache: views(self.setting_cache@),
            tag_cache: views(self.tag_cache@),
            tag_search_cache: self.tag_search_cache@,
            tag_search_dirty: self.tag_search_dirty,
            cache_type: self.cache_type,
            memory: match self.relationship_roaring_storage {
                Some(storage) => Some(storage@),
                None => None,
            },
            roaring_memory_busy: self.roaring_memory_busy,
            roaring_memory_dirty: self.roaring_memory_dirty,
            regex_tags: match self.plugin_manager {
                Some(manager) => Some(manager@),
                None => None,
            },
        }
    }
}

} // verus!
