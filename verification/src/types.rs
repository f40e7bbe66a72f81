//! The values that the database takes and gives back, with their mathematical views.
use crate::text::{opt_text, opt_text_copy, opt_text_same, views};
use vstd::prelude::*;

verus! {

/// A namespace: a group of tags.
#[derive(Debug, Clone, PartialEq, Eq, Hash, Default)]
pub struct GenericNamespaceObj {
    pub name: String,
    pub description: Option<String>,
}

/// The view of a [`GenericNamespaceObj`].
pub struct NamespaceView {
    pub name: Seq<char>,
    pub description: Option<Seq<char>>,
}

impl View for GenericNamespaceObj {
    type V = NamespaceView;

    open spec fn view(&self) -> NamespaceView {
        NamespaceView { name: self.name@, description: opt_text(self.description) }
    }
}

impl GenericNamespaceObj {
    pub fn copy(&self) -> (copy: Self)
        ensures
            copy@ == self@,
    {
        GenericNamespaceObj { name: self.name.clone(), description: opt_text_copy(&self.description) }
    }

    pub fn same(&self, other: &Self) -> (same: bool)
        ensures
            same == (self@ == other@),
    {
        self.name == other.name && opt_text_same(&self.description, &other.description)
    }
}

/// A tag: a name within a namespace.
#[derive(Debug, Clone, PartialEq, Eq, Hash, Default)]
pub struct Tag {
    pub name: String,
    pub namespace: GenericNamespaceObj,
}

/// The view of a [`Tag`].
pub struct TagView {
    pub name: Seq<char>,
    pub namespace: NamespaceView,
}

impl View for Tag {
    type V = TagView;

    open spec fn view(&self) -> TagView {
        TagView { name: self.name@, namespace: self.namespace@ }
    }
}

impl Tag {
    pub fn copy(&self) -> (copy: Self)
        ensures
            copy@ == self@,
    {
        Tag { name: self.name.clone(), namespace: self.namespace.copy() }
    }

    pub fn same(&self, other: &Self) -> (same: bool)
        ensures
            same == (self@ == other@),
    {
        self.name == other.name && self.namespace.same(&other.namespace)
    }
}

/// How a tag is to be treated.
#[derive(Debug, Clone, Copy, PartialEq, Eq, Hash, Default, Structural)]
pub enum TagType {
    #[default]
    Normal,
    NormalNoRegex,
    Special,
}

impl TagType {
    /// Whether tags of this type are stored.
    pub open spec fn stored(self) -> bool {
        self is Normal || self is NormalNoRegex
    }

    pub fn is_stored(&self) -> (stored: bool)
        ensures
            stored == self.stored(),
    {
        match self {
            TagType::Normal => true,
            TagType::NormalNoRegex => true,
            TagType::Special => false,
        }
    }
}

/// What a tag relates to: its parent, and the tag that the relation is limited to.
#[derive(Debug, Clone, PartialEq, Eq, Hash, Default)]
pub struct RelationContext {
    pub tag: Tag,
    pub limit_to: Option<Tag>,
}

/// The view of a [`RelationContext`].
pub struct RelationView {
    pub tag: TagView,
    pub limit_to: Option<TagView>,
}

impl View for RelationContext {
    type V = RelationView;

    open spec fn view(&self) -> RelationView {
        RelationView {
            tag: self.tag@,
            limit_to: match self.limit_to {
                Some(tag) => Some(tag@),
                None => None,
            },
        }
    }
}

/// A tag as a plugin hands it over.
#[derive(Debug, Clone, PartialEq, Eq, Hash, Default)]
pub struct PluginTag {
    pub tag: Tag,
    pub tag_type: TagType,
    pub relates_to: Option<RelationContext>,
}

/// The view of a [`PluginTag`].
pub struct PluginTagView {
    pub tag: TagView,
    pub tag_type: TagType,
    pub relates_to: Option<RelationView>,
}

impl View for PluginTag {
    type V = PluginTagView;

    open spec fn view(&self) -> PluginTagView {
        PluginTagView {
            tag: self.tag@,
            tag_type: self.tag_type,
            relates_to: match self.relates_to {
                Some(relation) => Some(relation@),
                None => None,
            },
        }
    }
}

/// What is done with the tags of an action.
#[derive(Debug, Clone, Copy, PartialEq, Eq, Hash, Default, Structural)]
pub enum TagOperation {
    /// The tags join those of the file.
    #[default]
    Add,
    /// The tags join those of the file. Of the namespaces that they name, the file loses the other tags, as far
    /// as the same batch names them too.
    Replace,
    /// The tags leave the file.
    Del,
}

/// Tags and what is done with them.
#[derive(Debug, Clone, PartialEq, Eq, Hash, Default)]
pub struct FileTagAction {
    pub operation: TagOperation,
    pub tags: Vec<PluginTag>,
}

/// The view of a [`FileTagAction`].
pub struct ActionView {
    pub operation: TagOperation,
    pub tags: Seq<PluginTagView>,
}

impl View for FileTagAction {
    type V = ActionView;

    open spec fn view(&self) -> ActionView {
        ActionView { operation: self.operation, tags: views(self.tags@) }
    }
}

/// A structural relation between tags, by their ids.
#[derive(Debug, Clone, Copy, PartialEq, Eq, Hash, Structural)]
pub struct TagParents {
    pub tag_id: u64,
    pub relate_tag_id: u64,
    pub limit_to: Option<u64>,
}

/// A file as the database knows it.
#[derive(Debug, Clone, PartialEq, Eq, Hash, Default)]
pub struct FileInternal {
    pub id: Option<u64>,
    pub hash: String,
    pub extension: String,
    pub storage_id: u64,
    pub size_bytes: Option<u64>,
}

/// The view of a [`FileInternal`].
pub struct FileView {
    pub id: Option<u64>,
    pub hash: Seq<char>,
    pub extension: Seq<char>,
    pub storage_id: u64,
    pub size_bytes: Option<u64>,
}

impl View for FileInternal {
    type V = FileView;

    open spec fn view(&self) -> FileView {
        FileView {
            id: self.id,
            hash: self.hash@,
            extension: self.extension@,
            storage_id: self.storage_id,
            size_bytes: self.size_bytes,
        }
    }
}

impl FileInternal {
    pub fn copy(&self) -> (copy: Self)
        ensures
            copy@ == self@,
    {
        FileInternal {
            id: self.id,
            hash: self.hash.clone(),
            extension: self.extension.clone(),
            storage_id: self.storage_id,
            size_bytes: self.size_bytes,
        }
    }
}

/// A digest and the algorithm that made it.
#[derive(Debug, Clone, PartialEq, Eq, Hash)]
pub enum HashesSupported {
    Md5(String),
    Sha1(String),
    Sha256(String),
    Sha512(String),
    IPFSCID(String),
    IPFSCID1(String),
    ImageHash(String),
}

/// The name of an algorithm and a digest.
pub struct DigestView {
    pub algorithm: Seq<char>,
    pub digest: Seq<char>,
}

impl View for HashesSupported {
    type V = DigestView;

    open spec fn view(&self) -> DigestView {
        match self {
            HashesSupported::Md5(digest) => DigestView { algorithm: "MD5"@, digest: digest@ },
            HashesSupported::Sha1(digest) => DigestView { algorithm: "SHA1"@, digest: digest@ },
            HashesSupported::Sha256(digest) => DigestView { algorithm: "SHA256"@, digest: digest@ },
            HashesSupported::Sha512(digest) => DigestView { algorithm: "SHA512"@, digest: digest@ },
            HashesSupported::IPFSCID(digest) => DigestView { algorithm: "IPFSCID"@, digest: digest@ },
            HashesSupported::IPFSCID1(digest) => DigestView { algorithm: "IPFSCID1"@, digest: digest@ },
            HashesSupported::ImageHash(digest) => DigestView { algorithm: "ImageHash"@, digest: digest@ },
        }
    }
}

/// The name of the algorithm, and the digest.
pub fn hashessupportedtoinner(hash: &HashesSupported) -> (inner: (&str, &String))
    ensures
        inner.0@ == hash@.algorithm,
        inner.1@ == hash@.digest,
{
    match hash {
        HashesSupported::Md5(digest) => ("MD5", digest),
        HashesSupported::Sha1(digest) => ("SHA1", digest),
        HashesSupported::Sha256(digest) => ("SHA256", digest),
        HashesSupported::Sha512(digest) => ("SHA512", digest),
        HashesSupported::IPFSCID(digest) => ("IPFSCID", digest),
        HashesSupported::IPFSCID1(digest) => ("IPFSCID1", digest),
        HashesSupported::ImageHash(digest) => ("ImageHash", digest),
    }
}

/// The name of the algorithm and the digest, as a key of its own.
pub fn hashessupportedtokey(hash: &HashesSupported) -> (key: (String, String))
    ensures
        key.0@ == hash@.algorithm,
        key.1@ == hash@.digest,
{
    let (algorithm, digest) = hashessupportedtoinner(hash);
    (algorithm.to_owned(), digest.clone())
}

/// A file with further digests that identify it.
#[derive(Debug, Clone, PartialEq, Eq, Hash)]
pub struct FileManager {
    pub internal: FileInternal,
    pub identifying_hashes: Vec<HashesSupported>,
}

/// The view of a [`FileManager`].
pub struct ManagerView {
    pub internal: FileView,
    pub identifying_hashes: Seq<DigestView>,
}

impl View for FileManager {
    type V = ManagerView;

    open spec fn view(&self) -> ManagerView {
        ManagerView { internal: self.internal@, identifying_hashes: views(self.identifying_hashes@) }
    }
}

/// A setting.
#[derive(Debug, Clone, PartialEq, Eq, Hash, Default)]
pub struct DbSettingsObj {
    pub name: String,
    pub description: Option<String>,
    pub num: Option<u64>,
    pub param: Option<String>,
}

/// The view of a [`DbSettingsObj`].
pub struct SettingView {
    pub name: Seq<char>,
    pub description: Option<Seq<char>>,
    pub num: Option<u64>,
    pub param: Option<Seq<char>>,
}

impl View for DbSettingsObj {
    type V = SettingView;

    open spec fn view(&self) -> SettingView {
        SettingView {
            name: self.name@,
            description: opt_text(self.description),
            num: self.num,
            param: opt_text(self.param),
        }
    }
}

impl DbSettingsObj {
    pub fn copy(&self) -> (copy: Self)
        ensures
            copy@ == self@,
    {
        DbSettingsObj {
            name: self.name.clone(),
            description: opt_text_copy(&self.description),
            num: self.num,
            param: opt_text_copy(&self.param),
        }
    }
}

/// When a job is made anew.
#[derive(Debug, Clone, Copy, PartialEq, Eq, Hash, Structural)]
pub enum DbJobRecreation {
    /// Every so many seconds, so many times more (without a count: for ever).
    AlwaysTime(u64, Option<u64>),
}

/// What a job works on.
#[derive(Debug, Clone, PartialEq, Eq, Hash)]
pub enum ScraperParam {
    Normal(String),
    Url(String),
}

/// The view of a [`ScraperParam`].
pub enum ParamView {
    Normal(Seq<char>),
    Url(Seq<char>),
}

impl View for ScraperParam {
    type V = ParamView;

    open spec fn view(&self) -> ParamView {
        match self {
            ScraperParam::Normal(text) => ParamView::Normal(text@),
            ScraperParam::Url(text) => ParamView::Url(text@),
        }
    }
}

impl ScraperParam {
    pub fn copy(&self) -> (copy: Self)
        ensures
            copy@ == self@,
    {
        match self {
            ScraperParam::Normal(text) => ScraperParam::Normal(text.clone()),
            ScraperParam::Url(text) => ScraperParam::Url(text.clone()),
        }
    }

    pub fn same(&self, other: &Self) -> (same: bool)
        ensures
            same == (self@ == other@),
    {
        match (self, other) {
            (ScraperParam::Normal(l), ScraperParam::Normal(r)) => *l == *r,
            (ScraperParam::Url(l), ScraperParam::Url(r)) => *l == *r,
            _ => false,
        }
    }
}

/// A job for a plugin. `user_data` holds pairs of key and value.
#[derive(Debug, Clone, PartialEq, Eq, Hash, Default)]
pub struct PluginJob {
    pub time: u64,
    pub reptime: u64,
    pub priority: u64,
    pub recreation: Option<DbJobRecreation>,
    pub site: String,
    pub param: Vec<ScraperParam>,
    pub user_data: Vec<(String, String)>,
}

/// The view of a [`PluginJob`].
pub struct JobView {
    pub time: u64,
    pub reptime: u64,
    pub priority: u64,
    pub recreation: Option<DbJobRecreation>,
    pub site: Seq<char>,
    pub param: Seq<ParamView>,
    pub user_data: Seq<(Seq<char>, Seq<char>)>,
}

/// The view of pairs of texts.
pub open spec fn text_pairs(pairs: Seq<(String, String)>) -> Seq<(Seq<char>, Seq<char>)> {
    Seq::new(pairs.len(), |i: int| (pairs[i].0@, pairs[i].1@))
}

impl View for PluginJob {
    type V = JobView;

    open spec fn view(&self) -> JobView {
        JobView {
            time: self.time,
            reptime: self.reptime,
            priority: self.priority,
            recreation: self.recreation,
            site: self.site@,
            param: views(self.param@),
            user_data: text_pairs(self.user_data@),
        }
    }
}

/// A copy of a job's parameters.
pub fn params_copy(params: &Vec<ScraperParam>) -> (copy: Vec<ScraperParam>)
    ensures
        views(copy@) == views(params@),
{
    let mut copy: Vec<ScraperParam> = Vec::new();
    let mut i: usize = 0;
    while i < params.len()
        invariant
            i == copy.len(),
            i <= params.len(),
            forall|k: int| 0 <= k < i ==> (#[trigger] copy@[k])@ == params@[k]@,
        decreases params.len() - i,
    {
        copy.push(params[i].copy());
        i += 1;
    }
    assert(views(copy@) =~= views(params@));
    copy
}

/// Whether two lists of parameters are the same.
pub fn params_same(left: &Vec<ScraperParam>, right: &Vec<ScraperParam>) -> (same: bool)
    ensures
        same == (views(left@) == views(right@)),
{
    if left.len() != right.len() {
        assert(views(left@).len() != views(right@).len());
        return false;
    }
    let mut i: usize = 0;
    while i < left.len()
        invariant
            i <= left.len(),
            left.len() == right.len(),
            forall|k: int| 0 <= k < i ==> (#[trigger] left@[k])@ == right@[k]@,
        decreases left.len() - i,
    {
        if !left[i].same(&right[i]) {
            assert(views(left@)[i as int] != views(right@)[i as int]);
            return false;
        }
        i += 1;
    }
    assert(views(left@) =~= views(right@));
    true
}

/// A copy of pairs of texts.
pub fn text_pairs_copy(pairs: &Vec<(String, String)>) -> (copy: Vec<(String, String)>)
    ensures
        text_pairs(copy@) == text_pairs(pairs@),
{
    let mut copy: Vec<(String, String)> = Vec::new();
    let mut i: usize = 0;
    while i < pairs.len()
        invariant
            i == copy.len(),
            i <= pairs.len(),
            forall|k: int|
                0 <= k < i ==> (#[trigger] copy@[k]).0@ == pairs@[k].0@ && copy@[k].1@ == pairs@[k].1@,
        decreases pairs.len() - i,
    {
        copy.push((pairs[i].0.clone(), pairs[i].1.clone()));
        i += 1;
    }
    assert(text_pairs(copy@) =~= text_pairs(pairs@));
    copy
}

impl PluginJob {
    pub fn copy(&self) -> (copy: Self)
        ensures
            copy@ == self@,
    {
        PluginJob {
            time: self.time,
            reptime: self.reptime,
            priority: self.priority,
            recreation: self.recreation,
            site: self.site.clone(),
            param: params_copy(&self.param),
            user_data: text_pairs_copy(&self.user_data),
        }
    }
}

/// A job as the database knows it.
#[derive(Debug, Clone, PartialEq, Eq, Hash)]
pub struct DbJobsObj {
    pub id: u64,
    pub isrunning: bool,
    pub config: PluginJob,
}

/// The view of a [`DbJobsObj`].
pub struct DbJobView {
    pub id: u64,
    pub isrunning: bool,
    pub config: JobView,
}

impl View for DbJobsObj {
    type V = DbJobView;

    open spec fn view(&self) -> DbJobView {
        DbJobView { id: self.id, isrunning: self.isrunning, config: self.config@ }
    }
}

impl DbJobsObj {
    pub fn copy(&self) -> (copy: Self)
        ensures
            copy@ == self@,
    {
        DbJobsObj { id: self.id, isrunning: self.isrunning, config: self.config.copy() }
    }
}

/// How the tags of one search group combine.
#[derive(Debug, Clone, Copy, PartialEq, Eq, Hash, Structural)]
pub enum DbSearchTypeEnum {
    And,
    Or,
}

/// One group of a search.
#[derive(Debug, Clone, PartialEq, Eq, Hash)]
pub enum SearchHolder {
    /// A file has every tag.
    And(Vec<u64>),
    /// A file has one tag or more.
    Or(Vec<u64>),
    /// A file has none of the tags.
    Not(Vec<u64>),
}

/// The view of a [`SearchHolder`].
pub enum HolderView {
    And(Seq<u64>),
    Or(Seq<u64>),
    Not(Seq<u64>),
}

impl View for SearchHolder {
    type V = HolderView;

    open spec fn view(&self) -> HolderView {
        match self {
            SearchHolder::And(ids) => HolderView::And(ids@),
            SearchHolder::Or(ids) => HolderView::Or(ids@),
            SearchHolder::Not(ids) => HolderView::Not(ids@),
        }
    }
}

/// A search for files: every group is a condition of its own.
#[derive(Debug, Clone, PartialEq, Eq, Hash)]
pub struct SearchObj {
    pub search_relate: Option<DbSearchTypeEnum>,
    pub searches: Vec<SearchHolder>,
}

/// A hit of a tag search.
#[derive(Debug, Clone, PartialEq, Eq, Hash)]
pub struct TagSearch {
    pub tag_id: u64,
    pub name: String,
    pub count: u64,
}

/// A condition under which a job is not added.
#[derive(Debug, Clone, PartialEq, Eq, Hash)]
pub enum SkipIf {
    ParentsRelateLimitto(Tag, Tag),
    ParentsRelate(PluginTag),
    FileHash(HashesSupported),
    FileTagRelationship(Tag),
    FileNamespaceNumber(Tag, GenericNamespaceObj, u64),
    NoFilesDownloaded,
}

/// A job that a scraper asks for, and when not to add it.
#[derive(Debug, Clone, PartialEq, Eq, Hash)]
pub struct ScraperDataReturn {
    pub job: PluginJob,
    pub skip_conditions: Vec<SkipIf>,
}

/// What is known of a source URL.
#[derive(Debug, Clone, PartialEq, Eq, Default)]
pub struct SourceUrlFileStatus {
    pub file: Option<FileInternal>,
    pub dead: bool,
}

/// An entry of the audit log.
#[derive(Debug, Clone, PartialEq, Eq)]
pub struct AuditLogEntry {
    pub entity_type: String,
    pub action: String,
    pub file_id: Option<u64>,
    pub tag_id: Option<u64>,
    pub reason: String,
}

/// What the check of the stored files does.
#[derive(Debug, Clone, Copy, PartialEq, Eq, Structural)]
pub enum CheckFilesEnum {
    Print,
    Redownload,
    StorageCheck,
    StorageCheckFileName,
}

} // verus!
