//! Looking tags, files and relationships up.
use crate::bitmap_cache::ascending_listing;
use crate::database::{DbError, DbState, MainDatabase};
use crate::namespace::name_cached;
use crate::parents::tag_exists;
use crate::relationship::{collect_files, collect_tags_of, files_with, namespace_of_tag, tag_namespace};
use crate::rows::{
    NamespaceRow, TagRec, TagRow, cached_ids, collect_tag_ids, find_cached_id, find_namespace_id, find_tag,
    find_tag_id, namespace_ids, parent_relations, tag_ids,
};
use crate::sets::{set_members, set_of};
use crate::tag::tag_id_of;
use crate::text::{lemma_pos, lemma_push_contains, opt_text_copy, pos, views};
use crate::types::{
    FileInternal, GenericNamespaceObj, NamespaceView, PluginTag, PluginTagView, Tag, TagParents, TagView,
};
use std::collections::{HashMap, HashSet};
use vstd::prelude::*;

verus! {

broadcast use vstd::std_specs::hash::group_hash_axioms;

/// The tags of a namespace.
pub open spec fn tags_in_namespace(tags: Seq<TagRec>, namespace: u64) -> Set<u64> {
    Set::new(|id: u64| exists|i: int| 0 <= i < tags.len() && (#[trigger] tags[i]).id == id && tags[i].namespace == namespace)
}

impl DbState {
    /// The tags of a file that are in a namespace.
    pub open spec fn tags_of_file_in(self, file_id: u64, namespace: u64) -> Set<u64> {
        Set::new(|t: u64| self.relationships.contains((file_id, t)) && tag_namespace(self.tags, t) == Some(namespace))
    }

    /// The tag with an id, with its namespace.
    pub open spec fn tag_of(self, id: u64) -> Option<TagView> {
        let at = pos(tag_ids(self.tags), id);
        if at < self.tags.len() {
            let row = pos(namespace_ids(self.namespaces), self.tags[at].namespace);
            if row < self.namespaces.len() {
                Some(
                    TagView {
                        name: self.tags[at].name,
                        namespace: NamespaceView {
                            name: self.namespaces[row].name,
                            description: self.namespaces[row].description,
                        },
                    },
                )
            } else {
                None
            }
        } else {
            None
        }
    }

    /// The tag that the cache holds under an id.
    pub open spec fn cached_tag(self, id: u64) -> Option<TagView> {
        let at = pos(cached_ids(self.tag_cache), id);
        if at < self.tag_cache.len() {
            Some(self.tag_cache[at].1)
        } else {
            None
        }
    }

    /// Whether a tag exists and a file has it.
    pub open spec fn tag_has_files(self, tag_id: u64) -> bool {
        tag_exists(self.tags, tag_id) && exists|f: u64| self.relationships.contains((f, tag_id))
    }

    /// Whether a file has a tag, by memory where it holds the tag, else by the tables.
    pub open spec fn tag_has_files_by_cache(self, tag_id: u64) -> bool {
        if self.memory matches Some(memory) && memory.tag_id.dom().contains(tag_id) {
            self.memory->0.tag_id[tag_id] != Set::<u64>::empty()
        } else {
            self.tag_has_files(tag_id)
        }
    }

    /// The id of a tag, whose namespace may be known to the cache.
    pub open spec fn tag_lookup(self, tag: TagView) -> Option<u64> {
        match self.namespace_lookup(tag.namespace.name) {
            Some(namespace) => tag_id_of(self.tags, tag.name, namespace),
            None => None,
        }
    }

    /// The state after the id of a namespace has been looked up.
    pub open spec fn with_namespace_looked_up(self, name: Seq<char>) -> DbState {
        match self.namespace_lookup(name) {
            Some(id) => DbState { namespace_cache: name_cached(self.namespace_cache, name, id), ..self },
            None => self,
        }
    }

    /// The relation that a plugin's tag describes, by the ids of its tags; `None` where it describes none, or
    /// one of the tags that it names does not exist.
    pub open spec fn relation_described(self, tag: PluginTagView) -> Option<TagParents> {
        match tag.relates_to {
            None => None,
            Some(relation) => match (self.tag_id(tag.tag), self.tag_id(relation.tag)) {
                (Some(tag_id), Some(relate_tag_id)) => match relation.limit_to {
                    None => Some(TagParents { tag_id, relate_tag_id, limit_to: None }),
                    Some(limit) => match self.tag_id(limit) {
                        Some(id) => Some(TagParents { tag_id, relate_tag_id, limit_to: Some(id) }),
                        None => None,
                    },
                },
                _ => None,
            },
        }
    }

    /// Whether the relation that a plugin's tag describes exists. One that is limited to a tag that does not
    /// exist does not.
    pub open spec fn relation_exists(self, tag: PluginTagView) -> bool {
        match self.relation_described(tag) {
            Some(relation) => parent_relations(self.parents).contains(relation),
            None => false,
        }
    }

    /// Whether a relation to one tag that is limited to another exists.
    pub open spec fn limited_relation_exists(self, relate_to: TagView, limit_to: TagView) -> bool {
        match (self.tag_id(relate_to), self.tag_id(limit_to)) {
            (Some(relate), Some(limit)) => exists|i: int|
                0 <= i < self.parents.len() && (#[trigger] self.parents[i]).relation.relate_tag_id == relate
                    && self.parents[i].relation.limit_to == Some(limit),
            _ => false,
        }
    }
}

fn tag_from(tags: &Vec<TagRow>, namespaces: &Vec<NamespaceRow>, id: u64, Ghost(state): Ghost<DbState>) -> (tag: Option<
    Tag,
>)
    requires
        state.tags == views(tags@),
        state.namespaces == views(namespaces@),
    ensures
        match tag {
            Some(found) => state.tag_of(id) == Some(found@),
            None => state.tag_of(id) is None,
        },
{
    let at: usize = find_tag_id(tags, id);
    if at < tags.len() {
        let row: usize = find_namespace_id(namespaces, tags[at].namespace);
        if row < namespaces.len() {
            return Some(
                Tag {
                    name: tags[at].name.clone(),
                    namespace: GenericNamespaceObj {
                        name: namespaces[row].name.clone(),
                        description: opt_text_copy(&namespaces[row].description),
                    },
                },
            );
        }
    }
    None
}

proof fn lemma_ascending_to_set(list: Seq<u64>, items: Set<u64>)
    requires
        ascending_listing(list, items),
    ensures
        list.to_set() == items,
        (list.len() == 0) == (items == Set::<u64>::empty()),
{
    assert forall|x: u64| list.to_set().contains(x) <==> items.contains(x) by {
        assert(list.to_set().contains(x) == list.contains(x));
    }
    assert(list.to_set() =~= items);
    if list.len() > 0 {
        assert(list.contains(list[0]));
        assert(items.contains(list[0]));
    } else {
        assert(items =~= Set::<u64>::empty());
    }
}

impl MainDatabase {
    /// The id of the tag with this name in this namespace.
    pub fn internal_tag_get_id(&self, name: &String, namespace_id: u64) -> (id: Option<u64>)
        ensures
            id == tag_id_of(self@.tags, name@, namespace_id),
    {
        let at: usize = find_tag(&self.tags, name, namespace_id);
        if at < self.tags.len() {
            Some(self.tags[at].id)
        } else {
            None
        }
    }

    /// The namespace of a tag.
    pub fn get_namespace_id_from_tag_id(&self, tag_id: &u64) -> (namespace: Result<u64, DbError>)
        ensures
            match namespace {
                Ok(found) => tag_namespace(self@.tags, *tag_id) == Some(found),
                Err(error) => error == DbError::QueryReturnedNoRows && tag_namespace(self@.tags, *tag_id) is None,
            },
    {
        match namespace_of_tag(&self.tags, *tag_id) {
            Some(namespace) => Ok(namespace),
            None => Err(DbError::QueryReturnedNoRows),
        }
    }

    /// The tags of a namespace.
    pub fn internal_tag_id_get_namespace_id(&self, namespace_id: &u64) -> (ids: HashSet<u64>)
        ensures
            ids@ == tags_in_namespace(self@.tags, *namespace_id),
    {
        let ghost rows = self@.tags;
        let mut ids: HashSet<u64> = HashSet::new();
        let mut i: usize = 0;
        while i < self.tags.len()
            invariant
                i <= self.tags.len(),
                rows == self@.tags,
                forall|id: u64| #[trigger]
                    ids@.contains(id) <==> exists|k: int|
                        0 <= k < i && (#[trigger] rows[k]).id == id && rows[k].namespace == *namespace_id,
            decreases self.tags.len() - i,
        {
            let ghost before = ids@;
            assert(rows[i as int] == self.tags@[i as int]@);
            if self.tags[i].namespace == *namespace_id {
                ids.insert(self.tags[i].id);
            }
            assert forall|id: u64| #[trigger] ids@.contains(id) <==> exists|k: int|
                0 <= k < i + 1 && (#[trigger] rows[k]).id == id && rows[k].namespace == *namespace_id by {
                if before.contains(id) {
                    let k = choose|k: int|
                        0 <= k < i && (#[trigger] rows[k]).id == id && rows[k].namespace == *namespace_id;
                    assert(rows[k].id == id);
                }
                if ids@.contains(id) && !before.contains(id) {
                    assert(rows[i as int].id == id);
                }
            }
            i += 1;
        }
        assert(ids@ =~= tags_in_namespace(rows, *namespace_id));
        ids
    }

    /// The tags of a namespace.
    pub fn tag_id_get_namespace_id(&self, namespace_id: &u64) -> (ids: HashSet<u64>)
        ensures
            ids@ == tags_in_namespace(self@.tags, *namespace_id),
    {
        self.internal_tag_id_get_namespace_id(namespace_id)
    }

    /// The ids of all tags.
    pub fn tag_id_get_all(&self) -> (ids: HashSet<u64>)
        ensures
            ids@ == tag_ids(self@.tags).to_set(),
    {
        let list = collect_tag_ids(&self.tags);
        set_of(&list)
    }

    /// The tags with these ids, as far as they exist.
    pub fn internal_tag_id_get_tag(&self, tags: &HashSet<u64>) -> (found: HashMap<u64, Tag>)
        ensures
            forall|id: u64| #[trigger]
                found@.dom().contains(id) <==> tags@.contains(id) && self@.tag_of(id) is Some,
            forall|id: u64| #[trigger] found@.dom().contains(id) ==> Some(found@[id]@) == self@.tag_of(id),
    {
        let ids = set_members(tags);
        let mut found: HashMap<u64, Tag> = HashMap::new();
        let mut i: usize = 0;
        while i < ids.len()
            invariant
                i <= ids.len(),
                forall|id: u64| #[trigger]
                    found@.dom().contains(id) <==> ids@.take(i as int).contains(id) && self@.tag_of(id) is Some,
                forall|id: u64| #[trigger] found@.dom().contains(id) ==> Some(found@[id]@) == self@.tag_of(id),
            decreases ids.len() - i,
        {
            let id: u64 = ids[i];
            proof {
                assert(ids@.take(i + 1) =~= ids@.take(i as int).push(id));
                lemma_push_contains(ids@.take(i as int), id);
            }
            if let Some(tag) = tag_from(&self.tags, &self.namespaces, id, Ghost(self@)) {
                found.insert(id, tag);
            }
            i += 1;
        }
        proof {
            assert(ids@.take(i as int) =~= ids@);
            assert forall|id: u64| #[trigger] found@.dom().contains(id) <==> tags@.contains(id) && self@.tag_of(id) is Some by {
                assert(ids@.to_set().contains(id) == ids@.contains(id));
            }
        }
        found
    }

    /// The tags with these ids, from the cache or from the tables. Those that the tables had to tell
    /// are cached.
    pub fn tag_id_get_tag_sync(&mut self, tags: &HashSet<u64>) -> (found: HashMap<u64, Tag>)
        ensures
            forall|id: u64| #[trigger]
                found@.dom().contains(id) <==> tags@.contains(id) && (old(self)@.cached_tag(id) is Some || old(
                    self,
                )@.tag_of(id) is Some),
            forall|id: u64| #[trigger]
                found@.dom().contains(id) ==> Some(found@[id]@) == (match old(self)@.cached_tag(id) {
                    Some(tag) => Some(tag),
                    None => old(self)@.tag_of(id),
                }),
            final(self)@ == (DbState { tag_cache: final(self)@.tag_cache, ..old(self)@ }),
            forall|id: u64| #[trigger]
                final(self)@.cached_tag(id) == (match old(self)@.cached_tag(id) {
                    Some(tag) => Some(tag),
                    None => if tags@.contains(id) {
                        old(self)@.tag_of(id)
                    } else {
                        None
                    },
                }),
    {
        let ghost start = self@;
        let ids = set_members(tags);
        let mut found: HashMap<u64, Tag> = HashMap::new();
        let mut i: usize = 0;
        assert(ids@.take(0) =~= Seq::<u64>::empty());
        while i < ids.len()
            invariant
                i <= ids.len(),
                ids@.no_duplicates(),
                self@ == (DbState { tag_cache: self@.tag_cache, ..start }),
                forall|id: u64| #[trigger]
                    found@.dom().contains(id) <==> ids@.take(i as int).contains(id) && (start.cached_tag(id) is Some
                        || start.tag_of(id) is Some),
                forall|id: u64| #[trigger]
                    found@.dom().contains(id) ==> Some(found@[id]@) == (match start.cached_tag(id) {
                        Some(tag) => Some(tag),
                        None => start.tag_of(id),
                    }),
                forall|id: u64| #[trigger]
                    self@.cached_tag(id) == (match start.cached_tag(id) {
                        Some(tag) => Some(tag),
                        None => if ids@.take(i as int).contains(id) {
                            start.tag_of(id)
                        } else {
                            None
                        },
                    }),
            decreases ids.len() - i,
        {
            let id: u64 = ids[i];
            let ghost before = self@;
            proof {
                assert(ids@.take(i + 1) =~= ids@.take(i as int).push(id));
                lemma_push_contains(ids@.take(i as int), id);
                if ids@.take(i as int).contains(id) {
                    let seen = ids@.take(i as int);
                    let k = choose|k: int| 0 <= k < seen.len() && seen[k] == id;
                    assert(ids@[k] == ids@[i as int]);
                }
            }
            let at: usize = find_cached_id(&self.tag_cache, id);
            if at < self.tag_cache.len() {
                assert(self@.cached_tag(id) == Some(self.tag_cache@[at as int].1@));
                found.insert(id, self.tag_cache[at].1.copy());
            } else {
                if let Some(tag) = tag_from(&self.tags, &self.namespaces, id, Ghost(start)) {
                    let copy = tag.copy();
                    self.tag_cache.push((id, copy));
                    proof {
                        assert(self@.tag_cache =~= before.tag_cache.push((id, tag@)));
                        lemma_cached_push(before, self@, id, tag@);
                    }
                    found.insert(id, tag);
                }
            }
            i += 1;
        }
        proof {
            assert(ids@.take(i as int) =~= ids@);
            assert forall|id: u64| tags@.contains(id) <==> #[trigger] ids@.contains(id) by {
                assert(ids@.to_set().contains(id) == ids@.contains(id));
            }
        }
        found
    }

    /// Whether a tag exists and a file has it.
    pub fn internal_tag_has_files(&self, tag_id: u64) -> (has: bool)
        ensures
            has == self@.tag_has_files(tag_id),
    {
        proof {
            lemma_pos(tag_ids(self@.tags), tag_id);
        }
        if find_tag_id(&self.tags, tag_id) == self.tags.len() {
            return false;
        }
        let mut i: usize = 0;
        while i < self.relationships.len()
            invariant
                i <= self.relationships.len(),
                tag_exists(self@.tags, tag_id),
                forall|k: int| 0 <= k < i ==> (#[trigger] self.relationships@[k]).1 != tag_id,
            decreases self.relationships.len() - i,
        {
            if self.relationships[i].1 == tag_id {
                assert(self.relationships@.contains(self.relationships@[i as int]));
                assert(self@.relationships.contains((self.relationships@[i as int].0, tag_id)));
                return true;
            }
            i += 1;
        }
        proof {
            if exists|f: u64| self@.relationships.contains((f, tag_id)) {
                let f = choose|f: u64| self@.relationships.contains((f, tag_id));
                assert(self.relationships@.contains((f, tag_id)));
                let k = choose|k: int|
                    0 <= k < self.relationships@.len() && self.relationships@[k] == (f, tag_id);
                assert(self.relationships@[k].1 == tag_id);
            }
        }
        false
    }

    /// Whether a file has a tag, by memory where it holds the tag.
    pub fn tag_has_files_cached(&self, tag_id: u64) -> (has: bool)
        ensures
            has == self@.tag_has_files_by_cache(tag_id),
    {
        if let Some(storage) = &self.relationship_roaring_storage {
            if let Some(files) = storage.relationship_search_fileid_roaring_in_memory(tag_id) {
                proof {
                    lemma_ascending_to_set(files@, storage@.tag_id[tag_id]);
                }
                return !files.is_empty();
            }
        }
        self.internal_tag_has_files(tag_id)
    }

    /// A file that has a tag.
    pub fn internal_tag_id_get_file_id(&self, tag_id: &u64) -> (file: Result<u64, DbError>)
        ensures
            match file {
                Ok(found) => tag_exists(self@.tags, *tag_id) && self@.relationships.contains((found, *tag_id)),
                Err(error) => error == DbError::QueryReturnedNoRows && !self@.tag_has_files(*tag_id),
            },
    {
        proof {
            lemma_pos(tag_ids(self@.tags), *tag_id);
        }
        if find_tag_id(&self.tags, *tag_id) == self.tags.len() {
            return Err(DbError::QueryReturnedNoRows);
        }
        let mut i: usize = 0;
        while i < self.relationships.len()
            invariant
                i <= self.relationships.len(),
                tag_exists(self@.tags, *tag_id),
                forall|k: int| 0 <= k < i ==> (#[trigger] self.relationships@[k]).1 != *tag_id,
            decreases self.relationships.len() - i,
        {
            if self.relationships[i].1 == *tag_id {
                assert(self.relationships@.contains(self.relationships@[i as int]));
                return Ok(self.relationships[i].0);
            }
            i += 1;
        }
        proof {
            if exists|f: u64| self@.relationships.contains((f, *tag_id)) {
                let f = choose|f: u64| self@.relationships.contains((f, *tag_id));
                assert(self.relationships@.contains((f, *tag_id)));
                let k = choose|k: int|
                    0 <= k < self.relationships@.len() && self.relationships@[k] == (f, *tag_id);
                assert(self.relationships@[k].1 == *tag_id);
            }
        }
        Err(DbError::QueryReturnedNoRows)
    }

    /// A file that has a tag, given by its name.
    pub fn internal_tag_get_file_id(&mut self, tag: &Tag) -> (file: Option<u64>)
        ensures
            final(self)@ == old(self)@.with_namespace_looked_up(tag.namespace.name@),
            match file {
                Some(found) => old(self)@.tag_lookup(tag@) matches Some(id) && tag_exists(old(self)@.tags, id)
                    && old(self)@.relationships.contains((found, id)),
                None => old(self)@.tag_lookup(tag@) matches Some(id) ==> !old(self)@.tag_has_files(id),
            },
    {
        if let Some(namespace) = self.internal_namespace_get_id(&tag.namespace.name) {
            if let Some(id) = self.internal_tag_get_id(&tag.name, namespace) {
                proof {
                    assert(old(self)@.tag_lookup(tag@) == Some(id));
                    assert(self@.relationships == old(self)@.relationships);
                    assert(self@.tag_has_files(id) == old(self)@.tag_has_files(id));
                }
                return match self.internal_tag_id_get_file_id(&id) {
                    Ok(file) => Some(file),
                    Err(_) => None,
                };
            }
        }
        None
    }

    /// A file that has a tag, given by its name.
    pub fn tag_get_file_id(&mut self, tag: &Tag) -> (file: Option<u64>)
        ensures
            final(self)@ == old(self)@.with_namespace_looked_up(tag.namespace.name@),
            match file {
                Some(found) => old(self)@.tag_lookup(tag@) matches Some(id) && tag_exists(old(self)@.tags, id)
                    && old(self)@.relationships.contains((found, id)),
                None => old(self)@.tag_lookup(tag@) matches Some(id) ==> !old(self)@.tag_has_files(id),
            },
    {
        self.internal_tag_get_file_id(tag)
    }

    /// A file that has a tag, given by its name. Its size is not read.
    pub fn internal_tag_get_fileinternal(&mut self, tag: &Tag) -> (file: Option<FileInternal>)
        ensures
            final(self)@ == old(self)@.with_namespace_looked_up(tag.namespace.name@),
            match file {
                Some(found) => old(self)@.tag_lookup(tag@) matches Some(id) && exists|f: u64|
                    old(self)@.relationships.contains((f, id)) && #[trigger] old(self)@.file_looked_up(f) == Some(found@),
                None => old(self)@.tag_lookup(tag@) matches Some(id) ==> !old(self)@.tag_has_files(id) || exists|f: u64|
                    old(self)@.relationships.contains((f, id)) && #[trigger] old(self)@.file_looked_up(f) is None,
            },
    {
        if let Some(file_id) = self.internal_tag_get_file_id(tag) {
            proof {
                assert(self@.file_looked_up(file_id) == old(self)@.file_looked_up(file_id));
            }
            return self.file_id_get(file_id);
        }
        None
    }

    /// A file that has a tag, given by its name. Its size is not read.
    pub fn tag_get_file_sync(&mut self, tag: &Tag) -> (file: Option<FileInternal>)
        ensures
            final(self)@ == old(self)@.with_namespace_looked_up(tag.namespace.name@),
            match file {
                Some(found) => old(self)@.tag_lookup(tag@) matches Some(id) && exists|f: u64|
                    old(self)@.relationships.contains((f, id)) && #[trigger] old(self)@.file_looked_up(f) == Some(found@),
                None => old(self)@.tag_lookup(tag@) matches Some(id) ==> !old(self)@.tag_has_files(id) || exists|f: u64|
                    old(self)@.relationships.contains((f, id)) && #[trigger] old(self)@.file_looked_up(f) is None,
            },
    {
        self.internal_tag_get_fileinternal(tag)
    }

    /// The tags of a file.
    pub fn internal_file_id_get_tag_ids(&self, file_id: &u64) -> (tags: HashSet<u64>)
        ensures
            tags@ == self@.tags_of_file(*file_id),
    {
        if let Some(storage) = &self.relationship_roaring_storage {
            if let Some(list) = storage.relationship_search_tagid_roaring_in_memory(*file_id) {
                proof {
                    lemma_ascending_to_set(list@, storage@.file_id[*file_id]);
                }
                return set_of(&list);
            }
        }
        collect_tags_of(&self.relationships, *file_id)
    }

    /// The files of a tag, by the table.
    pub fn internal_tag_id_get_file_ids(&self, tag_id: &u64) -> (files: HashSet<u64>)
        ensures
            files@ == files_with(self@.relationships, *tag_id),
    {
        collect_files(&self.relationships, *tag_id)
    }

    /// The tags of a file that are in a namespace.
    pub fn internal_file_id_get_tag_ids_where_namespace_id(&self, file_id: &u64, namespace_id: &u64) -> (tags: HashSet<
        u64,
    >)
        ensures
            tags@ == self@.tags_of_file_in(*file_id, *namespace_id),
    {
        let all = collect_tags_of(&self.relationships, *file_id);
        let list = set_members(&all);
        let mut tags: HashSet<u64> = HashSet::new();
        let mut i: usize = 0;
        while i < list.len()
            invariant
                i <= list.len(),
                forall|t: u64| #[trigger]
                    tags@.contains(t) <==> list@.take(i as int).contains(t) && tag_namespace(self@.tags, t) == Some(
                        *namespace_id,
                    ),
            decreases list.len() - i,
        {
            proof {
                assert(list@.take(i + 1) =~= list@.take(i as int).push(list@[i as int]));
                lemma_push_contains(list@.take(i as int), list@[i as int]);
            }
            if let Some(namespace) = namespace_of_tag(&self.tags, list[i]) {
                if namespace == *namespace_id {
                    tags.insert(list[i]);
                }
            }
            i += 1;
        }
        proof {
            assert(list@.take(i as int) =~= list@);
            assert forall|t: u64| #[trigger] list@.contains(t) <==> self@.relationships.contains((*file_id, t)) by {
                assert(list@.to_set().contains(t) == list@.contains(t));
            }
            assert(tags@ =~= Set::new(
                |t: u64|
                    self@.relationships.contains((*file_id, t)) && tag_namespace(self@.tags, t) == Some(*namespace_id),
            ));
        }
        tags
    }

    /// The tags of a file that are in a namespace.
    pub fn internal_file_id_get_tag_ids_where_namespace_id_sync(&self, file_id: &u64, namespace_id: &u64) -> (tags:
        HashSet<u64>)
        ensures
            tags@ == self@.tags_of_file_in(*file_id, *namespace_id),
    {
        self.internal_file_id_get_tag_ids_where_namespace_id(file_id, namespace_id)
    }

    /// The tags of each of some files; files without tags are left out, unless memory holds them.
    pub fn internal_file_id_get_tag_ids_bulk(&self, file_ids: &Vec<u64>) -> (tags: HashMap<u64, HashSet<u64>>)
        ensures
            forall|f: u64| #[trigger]
                tags@.dom().contains(f) <==> file_ids@.contains(f) && (self@.file_in_memory(f) || self@.tags_of_file(f)
                    != Set::<u64>::empty()),
            forall|f: u64| #[trigger] tags@.dom().contains(f) ==> tags@[f]@ == self@.tags_of_file(f),
    {
        let mut tags: HashMap<u64, HashSet<u64>> = HashMap::new();
        let mut i: usize = 0;
        while i < file_ids.len()
            invariant
                i <= file_ids.len(),
                forall|f: u64| #[trigger]
                    tags@.dom().contains(f) <==> file_ids@.take(i as int).contains(f) && (self@.file_in_memory(f)
                        || self@.tags_of_file(f) != Set::<u64>::empty()),
                forall|f: u64| #[trigger] tags@.dom().contains(f) ==> tags@[f]@ == self@.tags_of_file(f),
            decreases file_ids.len() - i,
        {
            let file_id: u64 = file_ids[i];
            proof {
                assert(file_ids@.take(i + 1) =~= file_ids@.take(i as int).push(file_id));
                lemma_push_contains(file_ids@.take(i as int), file_id);
            }
            let found = self.internal_file_id_get_tag_ids(&file_id);
            let held = match &self.relationship_roaring_storage {
                Some(storage) => storage.relationship_search_tagid_roaring_in_memory(file_id).is_some(),
                None => false,
            };
            let list = set_members(&found);
            proof {
                if list@.len() > 0 {
                    assert(list@.to_set().contains(list@[0])) by {
                        assert(list@.contains(list@[0]));
                    }
                } else {
                    assert(found@ =~= Set::<u64>::empty()) by {
                        assert forall|t: u64| !found@.contains(t) by {
                            assert(list@.to_set().contains(t) == list@.contains(t));
                        }
                    }
                }
            }
            if held || list.len() > 0 {
                tags.insert(file_id, found);
            }
            i += 1;
        }
        assert(file_ids@.take(i as int) =~= file_ids@);
        tags
    }

    /// Whether the relation that a plugin's tag describes exists, limited to the tag that it names or to none.
    pub fn internal_parent_structure_exists(&self, plugin_tag: &PluginTag) -> (exists: bool)
        ensures
            exists == self@.relation_exists(plugin_tag@),
    {
        if let Some(relation) = &plugin_tag.relates_to {
            let child = crate::tag::lookup_tag(&self.namespaces, &self.tags, &plugin_tag.tag);
            let parent = crate::tag::lookup_tag(&self.namespaces, &self.tags, &relation.tag);
            if let Some(tag_id) = child {
                if let Some(relate_tag_id) = parent {
                    let mut limit_to: Option<u64> = None;
                    if let Some(limit) = &relation.limit_to {
                        limit_to = crate::tag::lookup_tag(&self.namespaces, &self.tags, limit);
                        if limit_to.is_none() {
                            return false;
                        }
                    }
                    let wanted = TagParents { tag_id, relate_tag_id, limit_to };
                    proof {
                        lemma_pos(parent_relations(self@.parents), wanted);
                    }
                    return crate::rows::find_parent(&self.parents, wanted) < self.parents.len();
                }
            }
        }
        false
    }

    /// Whether a relation to one tag that is limited to another exists.
    pub fn internal_parent_relate_limit_exists(&self, relate_to: &Tag, limit_to: &Tag) -> (exists: bool)
        ensures
            exists == self@.limited_relation_exists(relate_to@, limit_to@),
    {
        let relate = crate::tag::lookup_tag(&self.namespaces, &self.tags, relate_to);
        let limit = crate::tag::lookup_tag(&self.namespaces, &self.tags, limit_to);
        if let Some(relate_id) = relate {
            if let Some(limit_id) = limit {
                let mut i: usize = 0;
                while i < self.parents.len()
                    invariant
                        i <= self.parents.len(),
                        self@.tag_id(relate_to@) == Some(relate_id),
                        self@.tag_id(limit_to@) == Some(limit_id),
                        forall|k: int|
                            0 <= k < i ==> !((#[trigger] self@.parents[k]).relation.relate_tag_id == relate_id
                                && self@.parents[k].relation.limit_to == Some(limit_id)),
                    decreases self.parents.len() - i,
                {
                    assert(self@.parents[i as int] == self.parents@[i as int]);
                    if self.parents[i].relation.relate_tag_id == relate_id && self.parents[i].relation.limit_to == Some(
                        limit_id,
                    ) {
                        return true;
                    }
                    i += 1;
                }
            }
        }
        false
    }
}

impl DbState {
    /// Whether memory holds the tags of a file.
    pub open spec fn file_in_memory(self, file_id: u64) -> bool {
        self.memory matches Some(memory) && memory.file_id.dom().contains(file_id)
    }
}

/// A tag put at the end of the cache is found there, and the others as before.
proof fn lemma_cached_push(before: DbState, after: DbState, id: u64, tag: TagView)
    requires
        after.tag_cache == before.tag_cache.push((id, tag)),
        before.cached_tag(id) is None,
    ensures
        forall|other: u64| #[trigger]
            after.cached_tag(other) == (if other == id {
                Some(tag)
            } else {
                before.cached_tag(other)
            }),
{
    let old_ids = cached_ids(before.tag_cache);
    let new_ids = cached_ids(after.tag_cache);
    assert forall|other: u64| #[trigger] after.cached_tag(other) == (if other == id {
        Some(tag)
    } else {
        before.cached_tag(other)
    }) by {
        lemma_pos(old_ids, other);
        lemma_pos(new_ids, other);
        lemma_pos(old_ids, id);
        let n = before.tag_cache.len() as int;
        assert(new_ids[n] == id);
        let i = pos(old_ids, other);
        let k = pos(new_ids, other);
        if k < n {
            assert(new_ids[k] == old_ids[k]);
        }
        if i < n {
            assert(new_ids[i] == old_ids[i]);
        }
    }
}

} // verus!
