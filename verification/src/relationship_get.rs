//! Reading relationships for many files or tags at once.
use crate::database::{DbState, MainDatabase};
use crate::relationship::holds_number;
use crate::rows::parent_relations;
use crate::sets::{set_members, set_of};
use crate::text::{lemma_push_contains, views};
use crate::types::{Tag, TagParents, TagView};
use std::collections::{HashMap, HashSet};
use vstd::prelude::*;

verus! {

broadcast use vstd::std_specs::hash::group_hash_axioms;

impl DbState {
    /// The files that have a tag, or a parent of it.
    pub open spec fn files_of_family(self, tag_id: u64) -> Set<u64> {
        Set::new(
            |f: u64|
                exists|t: u64| #[trigger]
                    self.relationships.contains((f, t)) && (t == tag_id || self.has_parent(tag_id, t)),
        )
    }

    /// Whether a tag has another as its parent.
    pub open spec fn has_parent(self, tag_id: u64, parent: u64) -> bool {
        exists|i: int|
            0 <= i < self.parents.len() && (#[trigger] self.parents[i]).relation.tag_id == tag_id
                && self.parents[i].relation.relate_tag_id == parent
    }

    /// Whether a file has a tag that reads like this.
    pub open spec fn file_has(self, file_id: u64, tag: TagView) -> bool {
        exists|t: u64| #[trigger] self.relationships.contains((file_id, t)) && self.tag_of(t) == Some(tag)
    }
}

proof fn lemma_members(list: Seq<u64>, set: Set<u64>)
    requires
        list.to_set() == set,
    ensures
        forall|x: u64| #[trigger] list.contains(x) <==> set.contains(x),
{
    assert forall|x: u64| #[trigger] list.contains(x) <==> set.contains(x) by {
        assert(list.to_set().contains(x) == list.contains(x));
    }
}

impl MainDatabase {
    /// The tags of a file.
    pub fn relationship_get_tag_id_sync(&mut self, file_id: &u64) -> (tags: HashSet<u64>)
        ensures
            final(self)@ == old(self)@.refreshed(),
            tags@ == final(self)@.tags_of_file(*file_id),
    {
        self.refresh_roaring_memory_if_dirty();
        self.internal_file_id_get_tag_ids(file_id)
    }

    /// The tags of each of some files.
    pub fn relationship_get_tag_id_many_sync(&mut self, file_ids: &HashSet<u64>) -> (tags: HashMap<u64, HashSet<u64>>)
        ensures
            final(self)@ == old(self)@.refreshed(),
            tags@.dom() == file_ids@,
            forall|f: u64| #[trigger] tags@.dom().contains(f) ==> tags@[f]@ == final(self)@.tags_of_file(f),
    {
        self.refresh_roaring_memory_if_dirty();
        let ids = set_members(file_ids);
        let mut tags: HashMap<u64, HashSet<u64>> = HashMap::new();
        let mut i: usize = 0;
        while i < ids.len()
            invariant
                i <= ids.len(),
                forall|f: u64| #[trigger] tags@.dom().contains(f) <==> ids@.take(i as int).contains(f),
                forall|f: u64| #[trigger] tags@.dom().contains(f) ==> tags@[f]@ == self@.tags_of_file(f),
            decreases ids.len() - i,
        {
            proof {
                assert(ids@.take(i + 1) =~= ids@.take(i as int).push(ids@[i as int]));
                lemma_push_contains(ids@.take(i as int), ids@[i as int]);
            }
            tags.insert(ids[i], self.internal_file_id_get_tag_ids(&ids[i]));
            i += 1;
        }
        proof {
            assert(ids@.take(i as int) =~= ids@);
            lemma_members(ids@, file_ids@);
            assert(tags@.dom() =~= file_ids@);
        }
        tags
    }

    /// The files of a tag.
    pub fn relationship_get_file_id_sync(&mut self, tag_id: &u64) -> (files: HashSet<u64>)
        ensures
            final(self)@ == old(self)@.refreshed(),
            files@ == final(self)@.files_of_tag(*tag_id),
    {
        self.refresh_roaring_memory_if_dirty();
        self.files_of(*tag_id)
    }

    fn files_of(&self, tag_id: u64) -> (files: HashSet<u64>)
        ensures
            files@ == self@.files_of_tag(tag_id),
    {
        if let Some(storage) = &self.relationship_roaring_storage {
            if let Some(list) = storage.relationship_search_fileid_roaring_in_memory(tag_id) {
                let files = set_of(&list);
                proof {
                    assert forall|f: u64| files@.contains(f) <==> storage@.tag_id[tag_id].contains(f) by {
                        assert(list@.to_set().contains(f) == list@.contains(f));
                    }
                    assert(files@ =~= storage@.tag_id[tag_id]);
                }
                return files;
            }
        }
        self.internal_tag_id_get_file_ids(&tag_id)
    }

    /// The files of each of some tags.
    pub fn relationship_get_file_id_many_sync(&mut self, tag_ids: &HashSet<u64>) -> (files: HashMap<u64, HashSet<u64>>)
        ensures
            final(self)@ == old(self)@.refreshed(),
            files@.dom() == tag_ids@,
            forall|t: u64| #[trigger] files@.dom().contains(t) ==> files@[t]@ == final(self)@.files_of_tag(t),
    {
        self.refresh_roaring_memory_if_dirty();
        let ids = set_members(tag_ids);
        let mut files: HashMap<u64, HashSet<u64>> = HashMap::new();
        let mut i: usize = 0;
        while i < ids.len()
            invariant
                i <= ids.len(),
                forall|t: u64| #[trigger] files@.dom().contains(t) <==> ids@.take(i as int).contains(t),
                forall|t: u64| #[trigger] files@.dom().contains(t) ==> files@[t]@ == self@.files_of_tag(t),
            decreases ids.len() - i,
        {
            proof {
                assert(ids@.take(i + 1) =~= ids@.take(i as int).push(ids@[i as int]));
                lemma_push_contains(ids@.take(i as int), ids@[i as int]);
            }
            files.insert(ids[i], self.files_of(ids[i]));
            i += 1;
        }
        proof {
            assert(ids@.take(i as int) =~= ids@);
            lemma_members(ids@, tag_ids@);
            assert(files@.dom() =~= tag_ids@);
        }
        files
    }

    /// The files that have a tag, or a parent of it.
    pub fn relationship_get_parent_file_id_sync(&self, tag_id: &u64) -> (files: HashSet<u64>)
        ensures
            files@ == self@.files_of_family(*tag_id),
    {
        let mut family: Vec<u64> = Vec::new();
        family.push(*tag_id);
        let mut p: usize = 0;
        assert forall|t: u64| #[trigger] family@.contains(t) <==> t == *tag_id by {
            assert(family@[0] == *tag_id);
        }
        while p < self.parents.len()
            invariant
                p <= self.parents.len(),
                forall|t: u64| #[trigger]
                    family@.contains(t) <==> t == *tag_id || exists|k: int|
                        0 <= k < p && (#[trigger] self@.parents[k]).relation.tag_id == *tag_id
                            && self@.parents[k].relation.relate_tag_id == t,
            decreases self.parents.len() - p,
        {
            let ghost before = family@;
            let relation = self.parents[p].relation;
            assert(self@.parents[p as int] == self.parents@[p as int]);
            proof {
                lemma_push_contains(family@, relation.relate_tag_id);
            }
            if relation.tag_id == *tag_id {
                family.push(relation.relate_tag_id);
            }
            assert forall|t: u64| #[trigger] family@.contains(t) <==> t == *tag_id || exists|k: int|
                0 <= k < p + 1 && (#[trigger] self@.parents[k]).relation.tag_id == *tag_id
                    && self@.parents[k].relation.relate_tag_id == t by {
                if before.contains(t) && t != *tag_id {
                    let k = choose|k: int|
                        0 <= k < p && (#[trigger] self@.parents[k]).relation.tag_id == *tag_id
                            && self@.parents[k].relation.relate_tag_id == t;
                    assert(self@.parents[k].relation.tag_id == *tag_id);
                }
                if family@.contains(t) && !before.contains(t) {
                    assert(self@.parents[p as int].relation.relate_tag_id == t);
                }
            }
            p += 1;
        }
        let ghost rows = self.relationships@;
        let mut files: HashSet<u64> = HashSet::new();
        let mut i: usize = 0;
        while i < self.relationships.len()
            invariant
                i <= self.relationships.len(),
                rows == self.relationships@,
                forall|f: u64| #[trigger]
                    files@.contains(f) <==> exists|k: int|
                        0 <= k < i && (#[trigger] rows[k]).0 == f && family@.contains(rows[k].1),
            decreases self.relationships.len() - i,
        {
            let (file, tag) = self.relationships[i];
            let ghost before = files@;
            if holds_number(&family, tag) {
                files.insert(file);
            }
            assert forall|f: u64| #[trigger] files@.contains(f) <==> exists|k: int|
                0 <= k < i + 1 && (#[trigger] rows[k]).0 == f && family@.contains(rows[k].1) by {
                if before.contains(f) {
                    let k = choose|k: int| 0 <= k < i && (#[trigger] rows[k]).0 == f && family@.contains(rows[k].1);
                    assert(rows[k].0 == f);
                }
                if files@.contains(f) && !before.contains(f) {
                    assert(rows[i as int].0 == f);
                }
            }
            i += 1;
        }
        proof {
            assert forall|f: u64| files@.contains(f) <==> self@.files_of_family(*tag_id).contains(f) by {
                if files@.contains(f) {
                    let k = choose|k: int|
                        0 <= k < rows.len() && (#[trigger] rows[k]).0 == f && family@.contains(rows[k].1);
                    assert(rows.contains(rows[k]));
                    assert(self@.relationships.contains((f, rows[k].1)));
                }
                if self@.files_of_family(*tag_id).contains(f) {
                    let t = choose|t: u64| #[trigger]
                        self@.relationships.contains((f, t)) && (t == *tag_id || self@.has_parent(*tag_id, t));
                    assert(rows.contains((f, t)));
                    let k = choose|k: int| 0 <= k < rows.len() && rows[k] == (f, t);
                    assert(rows[k].0 == f);
                    assert(family@.contains(t));
                }
            }
            assert(files@ =~= self@.files_of_family(*tag_id));
        }
        files
    }

    /// The relations of each of some tags in which it is the child.
    pub fn parent_relationships_get_many_sync(&self, tag_ids: &HashSet<u64>) -> (relations: HashMap<
        u64,
        Vec<TagParents>,
    >)
        ensures
            relations@.dom() == tag_ids@,
            forall|t: u64| #[trigger]
                relations@.dom().contains(t) ==> relations@[t]@ == parent_relations(self@.parents).filter(
                    |r: TagParents| r.tag_id == t,
                ),
    {
        let ids = set_members(tag_ids);
        let mut relations: HashMap<u64, Vec<TagParents>> = HashMap::new();
        let mut i: usize = 0;
        while i < ids.len()
            invariant
                i <= ids.len(),
                forall|t: u64| #[trigger] relations@.dom().contains(t) <==> ids@.take(i as int).contains(t),
                forall|t: u64| #[trigger]
                    relations@.dom().contains(t) ==> relations@[t]@ == parent_relations(self@.parents).filter(
                        |r: TagParents| r.tag_id == t,
                    ),
            decreases ids.len() - i,
        {
            proof {
                assert(ids@.take(i + 1) =~= ids@.take(i as int).push(ids@[i as int]));
                lemma_push_contains(ids@.take(i as int), ids@[i as int]);
            }
            relations.insert(ids[i], self.parent_relationships_get_sync(&ids[i]));
            i += 1;
        }
        proof {
            assert(ids@.take(i as int) =~= ids@);
            lemma_members(ids@, tag_ids@);
            assert(relations@.dom() =~= tag_ids@);
        }
        relations
    }

    /// The relations of each of some tags in which it is the parent.
    pub fn child_relationships_get_many_sync(&self, tag_ids: &HashSet<u64>) -> (relations: HashMap<
        u64,
        Vec<TagParents>,
    >)
        ensures
            relations@.dom() == tag_ids@,
            forall|t: u64| #[trigger]
                relations@.dom().contains(t) ==> relations@[t]@ == parent_relations(self@.parents).filter(
                    |r: TagParents| r.relate_tag_id == t,
                ),
    {
        let ids = set_members(tag_ids);
        let mut relations: HashMap<u64, Vec<TagParents>> = HashMap::new();
        let mut i: usize = 0;
        while i < ids.len()
            invariant
                i <= ids.len(),
                forall|t: u64| #[trigger] relations@.dom().contains(t) <==> ids@.take(i as int).contains(t),
                forall|t: u64| #[trigger]
                    relations@.dom().contains(t) ==> relations@[t]@ == parent_relations(self@.parents).filter(
                        |r: TagParents| r.relate_tag_id == t,
                    ),
            decreases ids.len() - i,
        {
            proof {
                assert(ids@.take(i + 1) =~= ids@.take(i as int).push(ids@[i as int]));
                lemma_push_contains(ids@.take(i as int), ids@[i as int]);
            }
            relations.insert(ids[i], self.child_relationships_get_sync(&ids[i]));
            i += 1;
        }
        proof {
            assert(ids@.take(i as int) =~= ids@);
            lemma_members(ids@, tag_ids@);
            assert(relations@.dom() =~= tag_ids@);
        }
        relations
    }

    /// A relation between a tag and its parent, with the tag that it is limited to.
    pub fn parent_relationship_get_sync(&self, tag_id: &u64, relate_tag_id: &u64) -> (relation: Option<TagParents>)
        ensures
            match relation {
                Some(found) => parent_relations(self@.parents).contains(found) && found.tag_id == *tag_id
                    && found.relate_tag_id == *relate_tag_id,
                None => !self@.has_parent(*tag_id, *relate_tag_id),
            },
    {
        let mut i: usize = 0;
        while i < self.parents.len()
            invariant
                i <= self.parents.len(),
                forall|k: int|
                    0 <= k < i ==> !((#[trigger] self@.parents[k]).relation.tag_id == *tag_id
                        && self@.parents[k].relation.relate_tag_id == *relate_tag_id),
            decreases self.parents.len() - i,
        {
            let relation = self.parents[i].relation;
            assert(self@.parents[i as int] == self.parents@[i as int]);
            if relation.tag_id == *tag_id && relation.relate_tag_id == *relate_tag_id {
                assert(parent_relations(self@.parents)[i as int] == relation);
                return Some(relation);
            }
            i += 1;
        }
        None
    }

    /// The tags of each of some files, with their namespaces; files without tags are left out.
    pub fn internal_file_ids_get_tags(&self, file_ids: &HashSet<u64>) -> (tags: HashMap<u64, Vec<Tag>>)
        ensures
            forall|f: u64| #[trigger]
                tags@.dom().contains(f) <==> file_ids@.contains(f) && exists|tag: TagView| self@.file_has(f, tag),
            forall|f: u64, tag: TagView|
                tags@.dom().contains(f) ==> (#[trigger] views(tags@[f]@).contains(tag) <==> self@.file_has(f, tag)),
    {
        let ids = set_members(file_ids);
        let mut tags: HashMap<u64, Vec<Tag>> = HashMap::new();
        let mut i: usize = 0;
        while i < ids.len()
            invariant
                i <= ids.len(),
                forall|f: u64| #[trigger]
                    tags@.dom().contains(f) <==> ids@.take(i as int).contains(f) && exists|tag: TagView|
                        self@.file_has(f, tag),
                forall|f: u64, tag: TagView|
                    tags@.dom().contains(f) ==> (#[trigger] views(tags@[f]@).contains(tag) <==> self@.file_has(f, tag)),
            decreases ids.len() - i,
        {
            proof {
                assert(ids@.take(i + 1) =~= ids@.take(i as int).push(ids@[i as int]));
                lemma_push_contains(ids@.take(i as int), ids@[i as int]);
            }
            let found = self.tags_of(ids[i]);
            proof {
                if found@.len() > 0 {
                    assert(views(found@).contains(views(found@)[0]));
                    assert(self@.file_has(ids@[i as int], views(found@)[0]));
                }
                if exists|tag: TagView| self@.file_has(ids@[i as int], tag) {
                    let tag = choose|tag: TagView| self@.file_has(ids@[i as int], tag);
                    assert(views(found@).contains(tag));
                }
            }
            if !found.is_empty() {
                tags.insert(ids[i], found);
            }
            i += 1;
        }
        proof {
            assert(ids@.take(i as int) =~= ids@);
            lemma_members(ids@, file_ids@);
        }
        tags
    }

    fn tags_of(&self, file_id: u64) -> (tags: Vec<Tag>)
        ensures
            forall|tag: TagView| #[trigger] views(tags@).contains(tag) <==> self@.file_has(file_id, tag),
    {
        let all = crate::relationship::collect_tags_of(&self.relationships, file_id);
        let found = self.internal_tag_id_get_tag(&all);
        let ids = set_members(&all);
        let mut tags: Vec<Tag> = Vec::new();
        let mut i: usize = 0;
        while i < ids.len()
            invariant
                i <= ids.len(),
                ids@.to_set() == all@,
                all@ == crate::relationship::tags_with(self@.relationships, file_id),
                forall|id: u64| #[trigger]
                    found@.dom().contains(id) <==> all@.contains(id) && self@.tag_of(id) is Some,
                forall|id: u64| #[trigger] found@.dom().contains(id) ==> Some(found@[id]@) == self@.tag_of(id),
                forall|tag: TagView| #[trigger]
                    views(tags@).contains(tag) <==> exists|k: int|
                        0 <= k < i && self@.tag_of(#[trigger] ids@[k]) == Some(tag),
            decreases ids.len() - i,
        {
            let ghost before = views(tags@);
            proof {
                assert(ids@.contains(ids@[i as int]));
                assert(ids@.to_set().contains(ids@[i as int]));
            }
            let tag = found.get(&ids[i]);
            if let Some(tag) = tag {
                tags.push(tag.copy());
                proof {
                    assert(views(tags@) =~= before.push(tag@));
                    lemma_push_contains(before, tag@);
                }
            }
            assert forall|tag: TagView| #[trigger] views(tags@).contains(tag) <==> exists|k: int|
                0 <= k < i + 1 && self@.tag_of(#[trigger] ids@[k]) == Some(tag) by {
                if before.contains(tag) {
                    let k = choose|k: int| 0 <= k < i && self@.tag_of(#[trigger] ids@[k]) == Some(tag);
                    assert(self@.tag_of(ids@[k]) == Some(tag));
                }
                if views(tags@).contains(tag) && !before.contains(tag) {
                    assert(self@.tag_of(ids@[i as int]) == Some(tag));
                }
            }
            i += 1;
        }
        proof {
            lemma_members(ids@, all@);
            assert forall|tag: TagView| #[trigger] views(tags@).contains(tag) <==> self@.file_has(file_id, tag) by {
                if views(tags@).contains(tag) {
                    let k = choose|k: int| 0 <= k < ids@.len() && self@.tag_of(#[trigger] ids@[k]) == Some(tag);
                    assert(ids@.contains(ids@[k]));
                    assert(self@.relationships.contains((file_id, ids@[k])));
                }
                if self@.file_has(file_id, tag) {
                    let t = choose|t: u64| #[trigger]
                        self@.relationships.contains((file_id, t)) && self@.tag_of(t) == Some(tag);
                    assert(all@.contains(t));
                    assert(ids@.contains(t));
                    let k = choose|k: int| 0 <= k < ids@.len() && ids@[k] == t;
                    assert(self@.tag_of(ids@[k]) == Some(tag));
                }
            }
        }
        tags
    }

    /// The tags of each of some files, with their namespaces; files without tags are left out.
    pub fn file_ids_get_tags(&self, file_ids: &HashSet<u64>) -> (tags: HashMap<u64, Vec<Tag>>)
        ensures
            forall|f: u64| #[trigger]
                tags@.dom().contains(f) <==> file_ids@.contains(f) && exists|tag: TagView| self@.file_has(f, tag),
            forall|f: u64, tag: TagView|
                tags@.dom().contains(f) ==> (#[trigger] views(tags@[f]@).contains(tag) <==> self@.file_has(f, tag)),
    {
        self.internal_file_ids_get_tags(file_ids)
    }
}

} // verus!
