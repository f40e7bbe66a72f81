//! Taking over what another database holds.
use crate::coherence::added_relationships_are_there;
use crate::consistency::{adding_relationships_keeps_consistency, lemma_slurped_related_ok};
use crate::database::{SQL_CHUNK_SIZE, DbError, DbState, MainDatabase};
use crate::file::{digest_added, file_id_of, file_upserted, files_upserted, insert_digest};
use crate::namespace::namespace_id_of;
use crate::parents::{lemma_with_relations, tag_exists};
use crate::relationship::{chunk, chunk_count, file_exists};
use crate::rows::{
    HashRec, HashRow, NamespaceRec, NamespaceRow, StorageRec, StorageRow, TagRec, TagRow, file_hashes, file_ids,
    find_file, find_namespace, find_namespace_id, find_storage_id, find_tag_id, namespace_ids, storage_ids, tag_ids,
    tag_keys,
};
use crate::settings::{storage_added, storage_id_of};
use crate::tag::tag_id_of;
use crate::text::{chars_of, lemma_pos, lemma_push_contains, opt_text, pos, pos_from, views};
use crate::types::{
    FileInternal, FileView, GenericNamespaceObj, NamespaceView, PluginTag, PluginTagView, Tag, TagParents, TagType,
    TagView,
};
use vstd::prelude::*;

verus! {

/// A row of the file table of a source. Files without a hash are known by their id alone.
#[derive(Debug, Clone)]
pub struct SourceFile {
    pub id: u64,
    pub hash: Option<String>,
    pub extension: String,
    pub storage_id: Option<u64>,
    pub size_bytes: Option<u64>,
}

/// The view of a [`SourceFile`].
pub struct SourceFileRec {
    pub id: u64,
    pub hash: Option<Seq<char>>,
    pub extension: Seq<char>,
    pub storage_id: Option<u64>,
    pub size_bytes: Option<u64>,
}

impl View for SourceFile {
    type V = SourceFileRec;

    open spec fn view(&self) -> SourceFileRec {
        SourceFileRec {
            id: self.id,
            hash: opt_text(self.hash),
            extension: self.extension@,
            storage_id: self.storage_id,
            size_bytes: self.size_bytes,
        }
    }
}

/// The relationships that a source keeps for one of its namespaces.
#[derive(Debug, Clone)]
pub struct SourcePartition {
    pub namespace: u64,
    pub rows: Vec<(u64, u64)>,
}

/// The tables of another database, their rows in the order of their ids. Tables that a source may lack
/// are optional.
#[derive(Debug, Clone)]
pub struct SourceDatabase {
    pub storage: Vec<StorageRow>,
    pub namespaces: Vec<NamespaceRow>,
    pub tags: Vec<TagRow>,
    /// The text that declares the file table, where there is one.
    pub file_schema: Option<String>,
    pub files: Vec<SourceFile>,
    pub hashes: Option<Vec<HashRow>>,
    pub partitions: Vec<SourcePartition>,
    /// The one table of relationships that databases had before there were partitions.
    pub relationships: Option<Vec<(u64, u64)>>,
    pub parents: Option<Vec<TagParents>>,
}

/// The view of a [`SourceDatabase`].
pub struct SourceView {
    pub storage: Seq<StorageRec>,
    pub namespaces: Seq<NamespaceRec>,
    pub tags: Seq<TagRec>,
    pub file_schema: Option<Seq<char>>,
    pub files: Seq<SourceFileRec>,
    pub hashes: Option<Seq<HashRec>>,
    pub partitions: Seq<(u64, Seq<(u64, u64)>)>,
    pub relationships: Option<Seq<(u64, u64)>>,
    pub parents: Option<Seq<TagParents>>,
}

impl View for SourceDatabase {
    type V = SourceView;

    open spec fn view(&self) -> SourceView {
        SourceView {
            storage: views(self.storage@),
            namespaces: views(self.namespaces@),
            tags: views(self.tags@),
            file_schema: opt_text(self.file_schema),
            files: views(self.files@),
            hashes: match self.hashes {
                Some(rows) => Some(views(rows@)),
                None => None,
            },
            partitions: Seq::new(
                self.partitions@.len(),
                |i: int| (self.partitions@[i].namespace, self.partitions@[i].rows@),
            ),
            relationships: match self.relationships {
                Some(rows) => Some(rows@),
                None => None,
            },
            parents: match self.parents {
                Some(rows) => Some(rows@),
                None => None,
            },
        }
    }
}

/// Whether a character can stand in the name of a column.
pub open spec fn name_char(c: char) -> bool {
    ('a' <= c && c <= 'z') || ('A' <= c && c <= 'Z') || ('0' <= c && c <= '9') || c == '_'
}

/// Whether two characters are the same but for the case of the first.
pub open spec fn same_letter(c: char, lower: char) -> bool {
    c == lower || ('A' <= c && c <= 'Z' && c as u32 + 32 == lower as u32)
}

/// Whether a name stands at a place in a text as a word of its own, whatever its case there.
pub open spec fn word_at(text: Seq<char>, name: Seq<char>, at: int) -> bool {
    &&& 0 <= at <= text.len() - name.len()
    &&& forall|k: int| 0 <= k < name.len() ==> same_letter(text[at + k], #[trigger] name[k])
    &&& at > 0 ==> !name_char(text[at - 1])
    &&& at + name.len() < text.len() ==> !name_char(text[at + name.len()])
}

/// Whether a declaration names a column.
pub open spec fn names_column(schema: Seq<char>, name: Seq<char>) -> bool {
    exists|at: int| #[trigger] word_at(schema, name, at)
}

impl SourceView {
    /// The namespaces of the source.
    pub open spec fn namespace_objects(self) -> Seq<NamespaceView> {
        Seq::new(
            self.namespaces.len(),
            |i: int| NamespaceView { name: self.namespaces[i].name, description: self.namespaces[i].description },
        )
    }

    /// The namespace of the source with an id.
    pub open spec fn namespace(self, id: u64) -> Option<NamespaceRec> {
        let at = pos(namespace_ids(self.namespaces), id);
        if at < self.namespaces.len() {
            Some(self.namespaces[at])
        } else {
            None
        }
    }

    /// What is taken over of the first `n` tags of the source: those whose namespace exists.
    pub open spec fn plugin_tags(self, n: nat) -> Seq<PluginTagView>
        decreases n,
    {
        if n == 0 {
            Seq::empty()
        } else {
            let before = self.plugin_tags((n - 1) as nat);
            let row = self.tags[n - 1];
            match self.namespace(row.namespace) {
                Some(namespace) => if row.id > 0 {
                    before.push(
                        PluginTagView {
                            tag: TagView {
                                name: row.name,
                                namespace: NamespaceView { name: namespace.name, description: namespace.description },
                            },
                            tag_type: TagType::NormalNoRegex,
                            relates_to: None,
                        },
                    )
                } else {
                    before
                },
                None => before,
            }
        }
    }

    /// Whether the file table of the source has sizes.
    pub open spec fn has_sizes(self) -> bool {
        names_column(self.file_schema->0, "size_bytes"@)
    }

    /// The place where a file of the source is stored.
    pub open spec fn location(self, file: SourceFileRec) -> Option<Seq<char>> {
        match file.storage_id {
            Some(id) => {
                let at = pos(storage_ids(self.storage), id);
                if at < self.storage.len() {
                    Some(self.storage[at].location)
                } else {
                    None
                }
            },
            None => None,
        }
    }

    /// The file of the source with an id.
    pub open spec fn file(self, id: u64) -> Option<SourceFileRec> {
        let at = pos(source_file_ids(self.files), id);
        if at < self.files.len() {
            Some(self.files[at])
        } else {
            None
        }
    }

    /// The tag of the source with an id.
    pub open spec fn tag(self, id: u64) -> Option<TagRec> {
        let at = pos(tag_ids(self.tags), id);
        if at < self.tags.len() {
            Some(self.tags[at])
        } else {
            None
        }
    }

    /// The relationships that the source keeps for a namespace: those of its partition or, where it has
    /// none, all of them.
    pub open spec fn rows_for(self, namespace: u64) -> Seq<(u64, u64)> {
        let at = pos(partition_namespaces(self.partitions), namespace);
        if at < self.partitions.len() {
            self.partitions[at].1
        } else {
            match self.relationships {
                Some(rows) => rows,
                None => Seq::empty(),
            }
        }
    }

    /// How many of the first `n` files of the source have a hash.
    pub open spec fn hashed(self, n: nat) -> nat
        decreases n,
    {
        if n == 0 {
            0
        } else {
            self.hashed((n - 1) as nat) + if self.files[n - 1].hash is Some {
                1nat
            } else {
                0
            }
        }
    }
}

/// The ids of some files of a source.
pub open spec fn source_file_ids(rows: Seq<SourceFileRec>) -> Seq<u64> {
    Seq::new(rows.len(), |i: int| rows[i].id)
}

/// The namespaces that partitions are for.
pub open spec fn partition_namespaces(partitions: Seq<(u64, Seq<(u64, u64)>)>) -> Seq<u64> {
    Seq::new(partitions.len(), |i: int| partitions[i].0)
}

impl DbState {
    /// The state after the first `n` storage locations of a source have been added.
    pub open spec fn with_source_locations(self, source: SourceView, n: nat) -> DbState
        decreases n,
    {
        if n == 0 {
            self
        } else {
            let before = self.with_source_locations(source, (n - 1) as nat);
            DbState { storage: storage_added(before.storage, source.storage[n - 1].location), ..before }
        }
    }

    /// The state after tags have been added, `n` times as many as go in one statement.
    pub open spec fn with_tag_batches(self, tags: Seq<PluginTagView>, n: nat) -> DbState
        decreases n,
    {
        if n == 0 {
            self
        } else {
            self.with_tag_batches(tags, (n - 1) as nat).with_plugin_tags(chunk(tags, (n - 1) as nat))
        }
    }

    /// The id that a tag of a source has here.
    pub open spec fn tag_here(self, source: SourceView, row: TagRec) -> Option<u64> {
        match source.namespace(row.namespace) {
            Some(namespace) => match namespace_id_of(self.namespaces, namespace.name) {
                Some(id) => tag_id_of(self.tags, row.name, id),
                None => None,
            },
            None => None,
        }
    }

    /// The id that the tag with an id in a source has here.
    pub open spec fn tag_id_here(self, source: SourceView, id: u64) -> Option<u64> {
        match source.tag(id) {
            Some(row) => self.tag_here(source, row),
            None => None,
        }
    }

    /// How many of the first `n` tags of a source are here.
    pub open spec fn tags_here(self, source: SourceView, n: nat) -> nat
        decreases n,
    {
        if n == 0 {
            0
        } else {
            self.tags_here(source, (n - 1) as nat) + if self.tag_here(source, source.tags[n - 1]) is Some {
                1nat
            } else {
                0
            }
        }
    }

    /// The id that the file with an id in a source has here.
    pub open spec fn file_id_here(self, source: SourceView, id: u64) -> Option<u64> {
        match source.file(id) {
            Some(file) => match file.hash {
                Some(hash) => file_id_of(self.files, hash),
                None => None,
            },
            None => None,
        }
    }

    /// The state after a file of a source has been added.
    pub open spec fn with_source_file(self, source: SourceView, file: SourceFileRec) -> DbState {
        match file.hash {
            Some(hash) => if file.id > 0 {
                let storage = match source.location(file) {
                    Some(location) => storage_added(self.storage, location),
                    None => self.storage,
                };
                let added = FileView {
                    id: None,
                    hash,
                    extension: file.extension,
                    storage_id: match source.location(file) {
                        Some(location) => storage_id_of(storage, location)->0,
                        None => 0,
                    },
                    size_bytes: if source.has_sizes() {
                        file.size_bytes
                    } else {
                        None
                    },
                };
                DbState { storage, files: file_upserted(self.files, added), ..self }
            } else {
                self
            },
            None => self,
        }
    }

    /// The state after the first `n` files of a source have been added.
    pub open spec fn with_source_files(self, source: SourceView, n: nat) -> DbState
        decreases n,
    {
        if n == 0 {
            self
        } else {
            self.with_source_files(source, (n - 1) as nat).with_source_file(source, source.files[n - 1])
        }
    }

    /// The state after the first `n` of some digests of a source have been recorded.
    pub open spec fn with_source_digests(self, source: SourceView, rows: Seq<HashRec>, n: nat) -> DbState
        decreases n,
    {
        if n == 0 {
            self
        } else {
            let before = self.with_source_digests(source, rows, (n - 1) as nat);
            let row = rows[n - 1];
            match before.file_id_here(source, row.file_id) {
                Some(file_id) => DbState { hashes: digest_added(before.hashes, HashRec { file_id, ..row }), ..before },
                None => before,
            }
        }
    }

    /// What a relationship of a source is here, if its tag is in a namespace.
    pub open spec fn relationship_here(self, source: SourceView, namespace: u64, row: (u64, u64)) -> Option<(u64, u64)> {
        match (self.file_id_here(source, row.0), self.tag_id_here(source, row.1)) {
            (Some(file_id), Some(tag_id)) => if source.tag(row.1)->0.namespace == namespace && (row.0 > 0 || row.1 > 0) {
                Some((file_id, tag_id))
            } else {
                None
            },
            _ => None,
        }
    }

    /// What the first `n` of some relationships of a source are here, if their tags are in a namespace.
    pub open spec fn relationships_here(
        self,
        source: SourceView,
        namespace: u64,
        rows: Seq<(u64, u64)>,
        n: nat,
    ) -> Seq<(u64, u64)>
        decreases n,
    {
        if n == 0 {
            Seq::empty()
        } else {
            let before = self.relationships_here(source, namespace, rows, (n - 1) as nat);
            match self.relationship_here(source, namespace, rows[n - 1]) {
                Some(r) => before.push(r),
                None => before,
            }
        }
    }

    /// The state after relationships have been added, `n` times as many as go in one statement.
    pub open spec fn with_relationship_batches(self, rows: Seq<(u64, u64)>, n: nat) -> DbState
        decreases n,
    {
        if n == 0 {
            self
        } else {
            self.with_relationship_batches(rows, (n - 1) as nat).with_relationships(chunk(rows, (n - 1) as nat))
        }
    }

    /// The state after the relationships of the first `n` namespaces of a source have been added.
    pub open spec fn with_source_relationships(self, source: SourceView, n: nat) -> DbState
        decreases n,
    {
        if n == 0 {
            self
        } else {
            let before = self.with_source_relationships(source, (n - 1) as nat);
            let namespace = source.namespaces[n - 1].id;
            let rows = source.rows_for(namespace);
            let here = before.relationships_here(source, namespace, rows, rows.len());
            before.with_relationship_batches(here, chunk_count(here.len()))
        }
    }

    /// What the first `n` of some structural relations of a source are here. A limiting tag that is not
    /// here is left out.
    pub open spec fn relations_here(self, source: SourceView, rows: Seq<TagParents>, n: nat) -> Seq<TagParents>
        decreases n,
    {
        if n == 0 {
            Seq::empty()
        } else {
            let before = self.relations_here(source, rows, (n - 1) as nat);
            let row = rows[n - 1];
            match (self.tag_id_here(source, row.tag_id), self.tag_id_here(source, row.relate_tag_id)) {
                (Some(tag_id), Some(relate_tag_id)) => before.push(
                    TagParents {
                        tag_id,
                        relate_tag_id,
                        limit_to: match row.limit_to {
                            Some(limit) => self.tag_id_here(source, limit),
                            None => None,
                        },
                    },
                ),
                _ => before,
            }
        }
    }

    /// The state after the storage locations, the namespaces and the tags of a source have been added.
    pub open spec fn with_source_tags(self, source: SourceView) -> DbState {
        let tags = source.plugin_tags(source.tags.len());
        self.with_source_locations(source, source.storage.len()).with_namespaces(
            source.namespace_objects(),
        ).with_tag_batches(tags, chunk_count(tags.len()))
    }

    /// The state after the files of a source and their digests have been added.
    pub open spec fn with_source_contents(self, source: SourceView) -> DbState {
        let filed = self.with_source_files(source, source.files.len());
        match source.hashes {
            Some(rows) => filed.with_source_digests(source, rows, rows.len()),
            None => filed,
        }
    }

    /// The state after all that a source holds has been taken over.
    pub open spec fn slurped(self, source: SourceView) -> DbState {
        let related = self.with_source_tags(source).with_source_contents(source).with_source_relationships(
            source,
            source.namespaces.len(),
        );
        match source.parents {
            Some(rows) => related.with_relations(related.relations_here(source, rows, rows.len())),
            None => related,
        }
    }
}

fn is_name_char(c: char) -> (is: bool)
    ensures
        is == name_char(c),
{
    ('a' <= c && c <= 'z') || ('A' <= c && c <= 'Z') || ('0' <= c && c <= '9') || c == '_'
}

fn is_same_letter(c: char, lower: char) -> (is: bool)
    ensures
        is == same_letter(c, lower),
{
    c == lower || ('A' <= c && c <= 'Z' && c as u32 + 32 == lower as u32)
}

/// Whether a name stands at a place in a text as a word of its own, whatever its case there.
fn is_word_at(text: &Vec<char>, name: &Vec<char>, at: usize) -> (is: bool)
    requires
        at <= text@.len(),
    ensures
        is == word_at(text@, name@, at as int),
{
    if text.len() - at < name.len() {
        return false;
    }
    if at > 0 && is_name_char(text[at - 1]) {
        return false;
    }
    if text.len() - at > name.len() && is_name_char(text[at + name.len()]) {
        return false;
    }
    let mut k: usize = 0;
    while k < name.len()
        invariant
            k <= name.len(),
            at + name.len() <= text.len(),
            forall|j: int| 0 <= j < k ==> same_letter(text@[at + j], #[trigger] name@[j]),
        decreases name.len() - k,
    {
        if !is_same_letter(text[at + k], name[k]) {
            assert(!same_letter(text@[at + k], name@[k as int]));
            return false;
        }
        k += 1;
    }
    true
}

/// Whether a declaration names a column, whatever the case of the name there.
pub fn schema_has_column(schema: &str, column: &str) -> (has: bool)
    ensures
        has == names_column(schema@, column@),
{
    let text = chars_of(schema);
    let name = chars_of(column);
    let mut at: usize = 0;
    while at < text.len()
        invariant
            at <= text.len(),
            text@ == schema@,
            name@ == column@,
            forall|k: int| 0 <= k < at ==> !#[trigger] word_at(schema@, column@, k),
        decreases text.len() - at,
    {
        if is_word_at(&text, &name, at) {
            assert(word_at(schema@, column@, at as int));
            return true;
        }
        at += 1;
    }
    if is_word_at(&text, &name, at) {
        assert(word_at(schema@, column@, at as int));
        return true;
    }
    false
}

/// The place of the file of a source with an id.
fn find_source_file(rows: &Vec<SourceFile>, id: u64) -> (at: usize)
    ensures
        at == pos(source_file_ids(views(rows@)), id),
        at <= rows.len(),
{
    let mut i: usize = 0;
    let ghost keys = source_file_ids(views(rows@));
    while i < rows.len()
        invariant
            i <= rows.len(),
            keys == source_file_ids(views(rows@)),
            pos_from(keys, id, 0) == pos_from(keys, id, i as int),
        decreases rows.len() - i,
    {
        if rows[i].id == id {
            return i;
        }
        i += 1;
    }
    i
}

/// The place of the partition for a namespace.
fn find_partition(source: &SourceDatabase, namespace: u64) -> (at: usize)
    ensures
        at == pos(partition_namespaces(source@.partitions), namespace),
        at <= source.partitions.len(),
{
    let mut i: usize = 0;
    let ghost keys = partition_namespaces(source@.partitions);
    while i < source.partitions.len()
        invariant
            i <= source.partitions.len(),
            keys == partition_namespaces(source@.partitions),
            pos_from(keys, namespace, 0) == pos_from(keys, namespace, i as int),
        decreases source.partitions.len() - i,
    {
        if source.partitions[i].namespace == namespace {
            return i;
        }
        i += 1;
    }
    i
}

impl SourceDatabase {
    /// The namespaces of the source.
    fn collect_namespaces(&self) -> (namespaces: Vec<GenericNamespaceObj>)
        ensures
            views(namespaces@) == self@.namespace_objects(),
    {
        let mut namespaces: Vec<GenericNamespaceObj> = Vec::new();
        let mut i: usize = 0;
        while i < self.namespaces.len()
            invariant
                i <= self.namespaces.len(),
                namespaces@.len() == i,
                forall|k: int| 0 <= k < i ==> (#[trigger] namespaces@[k])@ == self@.namespace_objects()[k],
            decreases self.namespaces.len() - i,
        {
            namespaces.push(
                GenericNamespaceObj {
                    name: self.namespaces[i].name.clone(),
                    description: self.namespaces[i].description.clone(),
                },
            );
            i += 1;
        }
        assert(views(namespaces@) =~= self@.namespace_objects());
        namespaces
    }

    /// The tags of the source that are taken over.
    fn collect_tags(&self) -> (tags: Vec<PluginTag>)
        ensures
            views(tags@) == self@.plugin_tags(self.tags@.len()),
    {
        let mut tags: Vec<PluginTag> = Vec::new();
        let mut i: usize = 0;
        assert(views(tags@) =~= self@.plugin_tags(0));
        while i < self.tags.len()
            invariant
                i <= self.tags.len(),
                views(tags@) == self@.plugin_tags(i as nat),
            decreases self.tags.len() - i,
        {
            let row = &self.tags[i];
            assert(self@.tags[i as int] == row@);
            let at: usize = find_namespace_id(&self.namespaces, row.namespace);
            if at < self.namespaces.len() && row.id > 0 {
                let ghost before = tags@;
                let tag = PluginTag {
                    tag: Tag {
                        name: row.name.clone(),
                        namespace: GenericNamespaceObj {
                            name: self.namespaces[at].name.clone(),
                            description: self.namespaces[at].description.clone(),
                        },
                    },
                    tag_type: TagType::NormalNoRegex,
                    relates_to: None,
                };
                tags.push(tag);
                assert(views(tags@) =~= views(before).push(tag@));
            }
            i += 1;
        }
        tags
    }

    /// How many files of the source have a hash.
    fn count_hashed(&self) -> (count: u64)
        ensures
            count == self@.hashed(self.files@.len()),
    {
        let mut count: u64 = 0;
        let mut i: usize = 0;
        while i < self.files.len()
            invariant
                i <= self.files.len(),
                count == self@.hashed(i as nat),
                count <= i,
            decreases self.files.len() - i,
        {
            assert(self@.files[i as int] == self.files@[i as int]@);
            if self.files[i].hash.is_some() {
                count += 1;
            }
            i += 1;
        }
        count
    }

    /// The place where a file of the source is stored.
    fn location_of(&self, file: &SourceFile) -> (location: Option<String>)
        ensures
            opt_text(location) == self@.location(file@),
    {
        match file.storage_id {
            Some(id) => {
                let at: usize = find_storage_id(&self.storage, id);
                if at < self.storage.len() {
                    Some(self.storage[at].location.clone())
                } else {
                    None
                }
            },
            None => None,
        }
    }
}

/// The references to some tags.
fn tag_references(tags: &Vec<PluginTag>, from: usize, to: usize) -> (references: Vec<&PluginTag>)
    requires
        from <= to <= tags@.len(),
    ensures
        views(references@) == views(tags@).subrange(from as int, to as int),
{
    let mut references: Vec<&PluginTag> = Vec::new();
    let mut i: usize = from;
    while i < to
        invariant
            from <= i <= to <= tags@.len(),
            references@.len() == i - from,
            forall|k: int| 0 <= k < i - from ==> (#[trigger] references@[k])@ == tags@[from + k]@,
        decreases to - i,
    {
        references.push(&tags[i]);
        i += 1;
    }
    assert(views(references@) =~= views(tags@).subrange(from as int, to as int));
    references
}

/// Some of the relationships of a list.
fn copy_range(rows: &Vec<(u64, u64)>, from: usize, to: usize) -> (part: Vec<(u64, u64)>)
    requires
        from <= to <= rows@.len(),
    ensures
        part@ == rows@.subrange(from as int, to as int),
{
    let mut part: Vec<(u64, u64)> = Vec::new();
    let mut i: usize = from;
    while i < to
        invariant
            from <= i <= to <= rows@.len(),
            part@.len() == i - from,
            forall|k: int| 0 <= k < i - from ==> #[trigger] part@[k] == rows@[from + k],
        decreases to - i,
    {
        part.push(rows[i]);
        i += 1;
    }
    assert(part@ =~= rows@.subrange(from as int, to as int));
    part
}

impl MainDatabase {
    /// Adds tags, as many at a time as go in one statement.
    fn add_tags_in_batches(&mut self, tags: &Vec<PluginTag>)
        ensures
            final(self)@ == old(self)@.with_tag_batches(views(tags@), chunk_count(tags@.len())),
    {
        let ghost start = self@;
        let ghost all = views(tags@);
        let ghost mut n: nat = 0;
        let mut from: usize = 0;
        while from < tags.len()
            invariant
                from <= tags.len(),
                all == views(tags@),
                from == n * SQL_CHUNK_SIZE || from == tags.len(),
                n == chunk_count(from as nat),
                self@ == start.with_tag_batches(all, n),
            decreases tags.len() - from,
        {
            let to: usize = if tags.len() - from > SQL_CHUNK_SIZE {
                from + SQL_CHUNK_SIZE
            } else {
                tags.len()
            };
            let part = tag_references(tags, from, to);
            proof {
                assert(views(part@) == chunk(all, n));
                n = n + 1;
            }
            let _ = self.add_plugin_tags(&part);
            from = to;
        }
    }

    /// Adds relationships, as many at a time as go in one statement.
    fn add_relationships_in_batches(&mut self, rows: &Vec<(u64, u64)>)
        ensures
            final(self)@ == old(self)@.with_relationship_batches(rows@, chunk_count(rows@.len())),
    {
        let ghost start = self@;
        let ghost mut n: nat = 0;
        let mut from: usize = 0;
        while from < rows.len()
            invariant
                from <= rows.len(),
                from == n * SQL_CHUNK_SIZE || from == rows.len(),
                n == chunk_count(from as nat),
                self@ == start.with_relationship_batches(rows@, n),
            decreases rows.len() - from,
        {
            let to: usize = if rows.len() - from > SQL_CHUNK_SIZE {
                from + SQL_CHUNK_SIZE
            } else {
                rows.len()
            };
            let part = copy_range(rows, from, to);
            proof {
                assert(part@ == chunk(rows@, n));
                n = n + 1;
            }
            self.internal_relationships_bulk_add(&part);
            from = to;
        }
    }

    /// The id that a tag of a source has here.
    fn find_tag_here(&self, source: &SourceDatabase, row: &TagRow) -> (id: Option<u64>)
        ensures
            id == self@.tag_here(source@, row@),
    {
        let at: usize = find_namespace_id(&source.namespaces, row.namespace);
        if at == source.namespaces.len() {
            return None;
        }
        let namespace: usize = find_namespace(&self.namespaces, &source.namespaces[at].name);
        if namespace == self.namespaces.len() {
            return None;
        }
        self.internal_tag_get_id(&row.name, self.namespaces[namespace].id)
    }

    /// The id that the tag with an id in a source has here.
    fn find_tag_id_here(&self, source: &SourceDatabase, id: u64) -> (here: Option<u64>)
        ensures
            here == self@.tag_id_here(source@, id),
    {
        let at: usize = find_tag_id(&source.tags, id);
        if at < source.tags.len() {
            self.find_tag_here(source, &source.tags[at])
        } else {
            None
        }
    }

    /// The id that the file with an id in a source has here.
    fn find_file_id_here(&self, source: &SourceDatabase, id: u64) -> (here: Option<u64>)
        ensures
            here == self@.file_id_here(source@, id),
    {
        let at: usize = find_source_file(&source.files, id);
        if at == source.files.len() {
            return None;
        }
        assert(source@.files[at as int] == source.files@[at as int]@);
        match &source.files[at].hash {
            Some(hash) => {
                let row: usize = find_file(&self.files, hash);
                if row < self.files.len() {
                    Some(self.files[row].id)
                } else {
                    None
                }
            },
            None => None,
        }
    }

    /// How many tags of a source are here.
    fn count_tags_here(&self, source: &SourceDatabase) -> (count: u64)
        ensures
            count == self@.tags_here(source@, source.tags@.len()),
    {
        let mut count: u64 = 0;
        let mut i: usize = 0;
        while i < source.tags.len()
            invariant
                i <= source.tags.len(),
                count == self@.tags_here(source@, i as nat),
                count <= i,
            decreases source.tags.len() - i,
        {
            assert(source@.tags[i as int] == source.tags@[i as int]@);
            if self.find_tag_here(source, &source.tags[i]).is_some() {
                count += 1;
            }
            i += 1;
        }
        count
    }

    /// Adds the storage locations of a source.
    fn slurp_locations(&mut self, source: &SourceDatabase)
        ensures
            final(self)@ == old(self)@.with_source_locations(source@, source.storage@.len()),
    {
        let mut i: usize = 0;
        while i < source.storage.len()
            invariant
                i <= source.storage.len(),
                self@ == old(self)@.with_source_locations(source@, i as nat),
            decreases source.storage.len() - i,
        {
            assert(source@.storage[i as int] == source.storage@[i as int]@);
            let _ = self.internal_file_storage_location_get_or_create(source.storage[i].location.as_str());
            i += 1;
        }
    }

    /// Adds the files of a source.
    fn slurp_files(&mut self, source: &SourceDatabase, has_sizes: bool)
        requires
            has_sizes == source@.has_sizes(),
        ensures
            final(self)@ == old(self)@.with_source_files(source@, source.files@.len()),
    {
        let mut i: usize = 0;
        while i < source.files.len()
            invariant
                i <= source.files.len(),
                has_sizes == source@.has_sizes(),
                self@ == old(self)@.with_source_files(source@, i as nat),
            decreases source.files.len() - i,
        {
            let file = &source.files[i];
            assert(source@.files[i as int] == file@);
            if let Some(hash) = &file.hash {
                if file.id > 0 {
                    let ghost before = self@;
                    let storage_id: u64 = match source.location_of(file) {
                        Some(location) => self.internal_file_storage_location_get_or_create(location.as_str()),
                        None => 0,
                    };
                    let added = FileInternal {
                        id: None,
                        hash: hash.clone(),
                        extension: file.extension.clone(),
                        storage_id,
                        size_bytes: if has_sizes {
                            file.size_bytes
                        } else {
                            None
                        },
                    };
                    let mut files: Vec<FileInternal> = Vec::new();
                    files.push(added);
                    let _ = self.internal_file_bulk_add(&files);
                    proof {
                        let one = views(files@);
                        assert(one.drop_last() =~= Seq::<FileView>::empty());
                        assert(files_upserted(before.files, one.drop_last()) == before.files);
                        assert(files_upserted(before.files, one) == file_upserted(before.files, added@));
                        assert(self@ == before.with_source_file(source@, file@));
                    }
                }
            }
            i += 1;
        }
    }

    /// Records the digests of a source.
    fn slurp_digests(&mut self, source: &SourceDatabase, rows: &Vec<HashRow>)
        ensures
            final(self)@ == old(self)@.with_source_digests(source@, views(rows@), rows@.len()),
    {
        let ghost all = views(rows@);
        let mut i: usize = 0;
        while i < rows.len()
            invariant
                i <= rows.len(),
                all == views(rows@),
                self@ == old(self)@.with_source_digests(source@, all, i as nat),
            decreases rows.len() - i,
        {
            let row = &rows[i];
            assert(all[i as int] == row@);
            if let Some(file_id) = self.find_file_id_here(source, row.file_id) {
                insert_digest(&mut self.hashes, file_id, &row.algorithm, &row.digest);
            }
            i += 1;
        }
    }

    /// What some relationships of a source are here, if their tags are in a namespace.
    fn collect_relationships_here(&self, source: &SourceDatabase, namespace: u64, rows: &Vec<(u64, u64)>) -> (here: Vec<
        (u64, u64),
    >)
        ensures
            here@ == self@.relationships_here(source@, namespace, rows@, rows@.len()),
    {
        let mut here: Vec<(u64, u64)> = Vec::new();
        let mut i: usize = 0;
        while i < rows.len()
            invariant
                i <= rows.len(),
                here@ == self@.relationships_here(source@, namespace, rows@, i as nat),
            decreases rows.len() - i,
        {
            let (file_id, tag_id) = rows[i];
            let at: usize = find_tag_id(&source.tags, tag_id);
            if at < source.tags.len() && source.tags[at].namespace == namespace && (file_id > 0 || tag_id > 0) {
                if let Some(file) = self.find_file_id_here(source, file_id) {
                    if let Some(tag) = self.find_tag_id_here(source, tag_id) {
                        here.push((file, tag));
                    }
                }
            }
            i += 1;
        }
        here
    }

    /// Adds the relationships of a source, namespace by namespace.
    fn slurp_relationships(&mut self, source: &SourceDatabase)
        ensures
            final(self)@ == old(self)@.with_source_relationships(source@, source.namespaces@.len()),
    {
        let mut i: usize = 0;
        while i < source.namespaces.len()
            invariant
                i <= source.namespaces.len(),
                self@ == old(self)@.with_source_relationships(source@, i as nat),
            decreases source.namespaces.len() - i,
        {
            let namespace: u64 = source.namespaces[i].id;
            assert(source@.namespaces[i as int] == source.namespaces@[i as int]@);
            let at: usize = find_partition(source, namespace);
            let none: Vec<(u64, u64)> = Vec::new();
            let rows: &Vec<(u64, u64)> = if at < source.partitions.len() {
                &source.partitions[at].rows
            } else {
                match &source.relationships {
                    Some(rows) => rows,
                    None => &none,
                }
            };
            assert(rows@ =~= source@.rows_for(namespace));
            let here = self.collect_relationships_here(source, namespace, rows);
            self.add_relationships_in_batches(&here);
            i += 1;
        }
    }

    /// What some structural relations of a source are here.
    fn collect_relations_here(&self, source: &SourceDatabase, rows: &Vec<TagParents>) -> (here: Vec<TagParents>)
        ensures
            here@ == self@.relations_here(source@, rows@, rows@.len()),
    {
        let mut here: Vec<TagParents> = Vec::new();
        let mut i: usize = 0;
        while i < rows.len()
            invariant
                i <= rows.len(),
                here@ == self@.relations_here(source@, rows@, i as nat),
            decreases rows.len() - i,
        {
            let row = rows[i];
            if let Some(tag_id) = self.find_tag_id_here(source, row.tag_id) {
                if let Some(relate_tag_id) = self.find_tag_id_here(source, row.relate_tag_id) {
                    let limit_to = match row.limit_to {
                        Some(limit) => self.find_tag_id_here(source, limit),
                        None => None,
                    };
                    here.push(TagParents { tag_id, relate_tag_id, limit_to });
                }
            }
            i += 1;
        }
        here
    }

    /// Takes over what a source holds, and counts its namespaces, its tags that are here afterwards, and
    /// its files with a hash. A source without a file table changes nothing.
    pub fn internal_db_slurp_attached(&mut self, source: &SourceDatabase) -> (counts: Result<(u64, u64, u64), DbError>)
        ensures
            match counts {
                Ok((namespaces, tags, files)) => {
                    &&& source@.file_schema is Some
                    &&& final(self)@ == old(self)@.slurped(source@)
                    &&& namespaces == source@.namespaces.len()
                    &&& tags == old(self)@.with_source_tags(source@).tags_here(source@, source@.tags.len())
                    &&& files == source@.hashed(source@.files.len())
                },
                Err(error) => error == DbError::SourceWithoutFiles && source@.file_schema is None && final(self)@ == old(
                    self,
                )@,
            },
    {
        let has_sizes = match &source.file_schema {
            Some(schema) => schema_has_column(schema.as_str(), "size_bytes"),
            None => {
                return Err(DbError::SourceWithoutFiles);
            },
        };
        self.slurp_locations(source);
        let namespaces = source.collect_namespaces();
        let _ = self.internal_namespace_bulk_add(&namespaces);
        let tags = source.collect_tags();
        self.add_tags_in_batches(&tags);
        let tag_count: u64 = self.count_tags_here(source);
        self.slurp_files(source, has_sizes);
        if let Some(rows) = &source.hashes {
            self.slurp_digests(source, rows);
        }
        self.slurp_relationships(source);
        if let Some(rows) = &source.parents {
            let relations = self.collect_relations_here(source, rows);
            let _ = self.internal_parents_bulk_add(&relations);
        }
        Ok((source.namespaces.len() as u64, tag_count, source.count_hashed()))
    }

    /// Takes over what another database holds; `source` is what was read of it, where it is a file.
    pub fn db_slurp(&mut self, source: &Option<SourceDatabase>) -> (counts: Result<(u64, u64, u64), DbError>)
        ensures
            match counts {
                Ok((namespaces, tags, files)) => source matches Some(read) && {
                    &&& read@.file_schema is Some
                    &&& final(self)@ == old(self)@.slurped(read@)
                    &&& namespaces == read@.namespaces.len()
                    &&& tags == old(self)@.with_source_tags(read@).tags_here(read@, read@.tags.len())
                    &&& files == read@.hashed(read@.files.len())
                },
                Err(error) => final(self)@ == old(self)@ && match source {
                    Some(read) => error == DbError::SourceWithoutFiles && read@.file_schema is None,
                    None => error == DbError::SourceNotAFile,
                },
            },
    {
        match source {
            Some(read) => self.internal_db_slurp_attached(read),
            None => Err(DbError::SourceNotAFile),
        }
    }
}

/// No more tags are taken over than the source has.
pub proof fn lemma_plugin_tags_len(source: SourceView, n: nat)
    requires
        n <= source.tags.len(),
    ensures
        source.plugin_tags(n).len() <= n,
        chunk_count(source.plugin_tags(n).len()) <= chunk_count(n),
    decreases n,
{
    if n > 0 {
        lemma_plugin_tags_len(source, (n - 1) as nat);
    }
}

/// No more structural relations are taken over than the source has.
pub proof fn lemma_relations_here_len(state: DbState, source: SourceView, rows: Seq<TagParents>, n: nat)
    requires
        n <= rows.len(),
    ensures
        state.relations_here(source, rows, n).len() <= n,
    decreases n,
{
    if n > 0 {
        lemma_relations_here_len(state, source, rows, (n - 1) as nat);
    }
}

/// What the rows of a source are here depends on the ids and keys of the rows here alone.
pub proof fn lemma_same_here(one: DbState, other: DbState, source: SourceView, namespace: u64, row: (u64, u64))
    requires
        one.same_rows(other),
    ensures
        other.relationship_here(source, namespace, row) == one.relationship_here(source, namespace, row),
{
    assert(tag_ids(one.tags).len() == one.tags.len());
    assert(tag_ids(other.tags).len() == other.tags.len());
    if let Some(tag) = source.tag(row.1) {
        if let Some(found) = source.namespace(tag.namespace) {
            if let Some(id) = namespace_id_of(one.namespaces, found.name) {
                let at = pos(tag_keys(one.tags), (tag.name, id));
                lemma_pos(tag_keys(one.tags), (tag.name, id));
                if at < one.tags.len() {
                    assert(tag_ids(one.tags)[at] == tag_ids(other.tags)[at]);
                }
            }
        }
    }
}

/// The files and tags of what is taken over are here.
proof fn lemma_here_exists(state: DbState, source: SourceView, namespace: u64, row: (u64, u64))
    requires
        state.relationship_here(source, namespace, row) is Some,
    ensures
        ({
            let r = state.relationship_here(source, namespace, row)->0;
            file_exists(state.files, r.0) && tag_exists(state.tags, r.1)
        }),
{
    let (file_id, tag_id) = state.relationship_here(source, namespace, row)->0;
    let hash = source.file(row.0)->0.hash->0;
    lemma_pos(file_hashes(state.files), Some(hash));
    assert(file_ids(state.files)[pos(file_hashes(state.files), Some(hash))] == file_id);
    lemma_pos(file_ids(state.files), file_id);
    let tag = source.tag(row.1)->0;
    let id = namespace_id_of(state.namespaces, source.namespace(tag.namespace)->0.name)->0;
    lemma_pos(tag_keys(state.tags), (tag.name, id));
    assert(tag_ids(state.tags)[pos(tag_keys(state.tags), (tag.name, id))] == tag_id);
    lemma_pos(tag_ids(state.tags), tag_id);
}

/// What is taken over of relationships is here.
pub proof fn lemma_relationships_here(state: DbState, source: SourceView, namespace: u64, rows: Seq<(u64, u64)>, n: nat)
    requires
        n <= rows.len(),
    ensures
        ({
            let here = state.relationships_here(source, namespace, rows, n);
            &&& forall|k: int|
                0 <= k < n && state.relationship_here(source, namespace, #[trigger] rows[k]) is Some ==> here.contains(
                    state.relationship_here(source, namespace, rows[k])->0,
                )
            &&& forall|i: int|
                0 <= i < here.len() ==> file_exists(state.files, (#[trigger] here[i]).0) && tag_exists(
                    state.tags,
                    here[i].1,
                )
        }),
    decreases n,
{
    if n > 0 {
        let m = (n - 1) as nat;
        lemma_relationships_here(state, source, namespace, rows, m);
        let before = state.relationships_here(source, namespace, rows, m);
        let here = state.relationships_here(source, namespace, rows, n);
        if let Some(r) = state.relationship_here(source, namespace, rows[n - 1]) {
            lemma_here_exists(state, source, namespace, rows[n - 1]);
            lemma_push_contains(before, r);
        }
        assert forall|k: int|
            0 <= k < n && state.relationship_here(source, namespace, #[trigger] rows[k]) is Some implies here.contains(
            state.relationship_here(source, namespace, rows[k])->0,
        ) by {
            if k < m {
                assert(before.contains(state.relationship_here(source, namespace, rows[k])->0));
            }
        }
    }
}

proof fn lemma_batches_added(state: DbState, rows: Seq<(u64, u64)>, n: nat)
    requires
        state.consistent(),
        n <= chunk_count(rows.len()),
        forall|i: int|
            0 <= i < rows.len() ==> file_exists(state.files, (#[trigger] rows[i]).0) && tag_exists(state.tags, rows[i].1),
    ensures
        ({
            let after = state.with_relationship_batches(rows, n);
            &&& after.consistent()
            &&& state.same_rows(after)
            &&& state.relationships.subset_of(after.relationships)
            &&& state.caches_current() ==> after.caches_current()
            &&& state.stored_current() ==> after.stored_current()
            &&& forall|i: int|
                0 <= i < crate::relationship::written_rows(rows.len(), n) ==> after.relationships.contains(
                    #[trigger] rows[i],
                )
        }),
    decreases n,
{
    if n > 0 {
        let m = (n - 1) as nat;
        lemma_batches_added(state, rows, m);
        let before = state.with_relationship_batches(rows, m);
        let after = state.with_relationship_batches(rows, n);
        let part = chunk(rows, m);
        assert(tag_ids(before.tags).len() == before.tags.len());
        assert(tag_ids(state.tags).len() == state.tags.len());
        assert forall|i: int| 0 <= i < part.len() implies file_exists(before.files, (#[trigger] part[i]).0) && tag_exists(
            before.tags,
            part[i].1,
        ) by {
            assert(part[i] == rows[m * 800 + i]);
        }
        added_relationships_are_there(before, part);
        adding_relationships_keeps_consistency(before, part);
        assert forall|i: int| 0 <= i < crate::relationship::written_rows(rows.len(), n) implies after.relationships.contains(
            #[trigger] rows[i],
        ) by {
            if i >= m * 800 {
                assert(part[i - m * 800] == rows[i]);
                assert(part.contains(rows[i]));
                assert(part.to_set().contains(rows[i]));
            }
        }
    }
}

/// Whether a state holds what the relationships of the first `n` namespaces of a source are in another.
pub open spec fn holds_relationships_of(after: DbState, here: DbState, source: SourceView, n: nat) -> bool {
    forall|i: int, k: int|
        #![trigger source.rows_for(source.namespaces[i].id)[k]]
        0 <= i < n && 0 <= k < source.rows_for(source.namespaces[i].id).len() && here.relationship_here(
            source,
            source.namespaces[i].id,
            source.rows_for(source.namespaces[i].id)[k],
        ) is Some ==> after.relationships.contains(
            here.relationship_here(
                source,
                source.namespaces[i].id,
                source.rows_for(source.namespaces[i].id)[k],
            )->0,
        )
}

/// What the relationships of a source are here is added, and nothing is lost.
pub proof fn lemma_source_relationships_added(state: DbState, source: SourceView, n: nat)
    requires
        state.consistent(),
        n <= source.namespaces.len(),
    ensures
        ({
            let after = state.with_source_relationships(source, n);
            &&& after.consistent()
            &&& state.same_rows(after)
            &&& state.relationships.subset_of(after.relationships)
            &&& state.caches_current() ==> after.caches_current()
            &&& state.stored_current() ==> after.stored_current()
            &&& holds_relationships_of(after, state, source, n)
        }),
    decreases n,
{
    if n > 0 {
        let m = (n - 1) as nat;
        lemma_source_relationships_added(state, source, m);
        let before = state.with_source_relationships(source, m);
        let after = state.with_source_relationships(source, n);
        let namespace = source.namespaces[n - 1].id;
        let rows = source.rows_for(namespace);
        let here = before.relationships_here(source, namespace, rows, rows.len());
        lemma_relationships_here(before, source, namespace, rows, rows.len());
        let all = chunk_count(here.len());
        lemma_batches_added(before, here, all);
        assert(crate::relationship::written_rows(here.len(), all) == here.len());
        assert forall|i: int, k: int|
            #![trigger source.rows_for(source.namespaces[i].id)[k]]
            0 <= i < n && 0 <= k < source.rows_for(source.namespaces[i].id).len() && state.relationship_here(
                source,
                source.namespaces[i].id,
                source.rows_for(source.namespaces[i].id)[k],
            ) is Some implies after.relationships.contains(
            state.relationship_here(
                source,
                source.namespaces[i].id,
                source.rows_for(source.namespaces[i].id)[k],
            )->0,
        ) by {
            let row = source.rows_for(source.namespaces[i].id)[k];
            let r = state.relationship_here(source, source.namespaces[i].id, row)->0;
            if i == n - 1 {
                lemma_same_here(state, before, source, namespace, row);
                assert(row == rows[k]);
                assert(here.contains(r));
                let j = choose|j: int| 0 <= j < here.len() && here[j] == r;
                assert(after.relationships.contains(here[j]));
            } else {
                assert(before.relationships.contains(r));
            }
        }
    }
}

/// After another database has been taken over, what its relationships are here is here, if both the file
/// and the tag are; and no relationship is lost.
pub proof fn slurped_relationships_are_here(state: DbState, source: SourceView, i: int, k: int)
    requires
        state.consistent(),
        state.fits(source),
        0 <= i < source.namespaces.len(),
        0 <= k < source.rows_for(source.namespaces[i].id).len(),
    ensures
        state.relationships.subset_of(state.slurped(source).relationships),
        ({
            let here = state.with_source_tags(source).with_source_contents(source);
            let row = source.rows_for(source.namespaces[i].id)[k];
            here.relationship_here(source, source.namespaces[i].id, row) matches Some(r) ==> state.slurped(
                source,
            ).relationships.contains(r)
        }),
{
    let here = state.with_source_tags(source).with_source_contents(source);
    lemma_slurped_related_ok(state, source);
    lemma_source_relationships_added(here, source, source.namespaces.len());
    let related = here.with_source_relationships(source, source.namespaces.len());
    if let Some(rows) = source.parents {
        lemma_with_relations(related, related.relations_here(source, rows, rows.len()));
    }
    let row = source.rows_for(source.namespaces[i].id)[k];
    if here.relationship_here(source, source.namespaces[i].id, row) is Some {
        assert(related.relationships.contains(here.relationship_here(source, source.namespaces[i].id, row)->0));
    }
}

/// Taking over another database keeps a relationship cache that could be relied on one to rely on, and the
/// stored bitmaps those of the relationships.
pub proof fn slurping_keeps_caches_current(state: DbState, source: SourceView)
    requires
        state.consistent(),
        state.fits(source),
    ensures
        state.caches_current() ==> state.slurped(source).caches_current(),
        state.stored_current() ==> state.slurped(source).stored_current(),
{
    let here = state.with_source_tags(source).with_source_contents(source);
    lemma_slurped_related_ok(state, source);
    lemma_source_relationships_added(here, source, source.namespaces.len());
    let related = here.with_source_relationships(source, source.namespaces.len());
    if let Some(rows) = source.parents {
        lemma_with_relations(related, related.relations_here(source, rows, rows.len()));
    }
}

} // verus!
