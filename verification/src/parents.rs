//! Structural relations between tags: which tag is the parent of which, and for which tag only.
use crate::database::{DbState, MainDatabase};
use crate::rows::{
    ParentRow, TagRec, TagRow, allocate_id, collect_parent_ids, find_parent, find_tag_id, next_id, parent_ids,
    parent_relations, tag_ids,
};
use crate::text::{lemma_filter_step, lemma_pos, pos, views};
use crate::types::TagParents;
use vstd::prelude::*;

verus! {

/// Whether a tag with this id exists.
pub open spec fn tag_exists(tags: Seq<TagRec>, id: u64) -> bool {
    pos(tag_ids(tags), id) < tags.len()
}

/// Whether the table takes a relation: no tag is its own parent, and every tag named exists.
pub open spec fn relation_accepted(tags: Seq<TagRec>, relation: TagParents) -> bool {
    &&& relation.tag_id != relation.relate_tag_id
    &&& tag_exists(tags, relation.tag_id)
    &&& tag_exists(tags, relation.relate_tag_id)
    &&& relation.limit_to matches Some(limit) ==> tag_exists(tags, limit)
}

/// The id of a relation, where the table has it.
pub open spec fn relation_id(rows: Seq<ParentRow>, relation: TagParents) -> Option<u64> {
    let at = pos(parent_relations(rows), relation);
    if at < rows.len() {
        Some(rows[at].id)
    } else {
        None
    }
}

/// The ids of the accepted relations among `relations`, in order.
pub open spec fn relation_ids(
    rows: Seq<ParentRow>,
    tags: Seq<TagRec>,
    relations: Seq<TagParents>,
) -> Seq<(TagParents, u64)>
    decreases relations.len(),
{
    if relations.len() == 0 {
        Seq::empty()
    } else {
        let before = relation_ids(rows, tags, relations.drop_last());
        if relation_accepted(tags, relations.last()) {
            before.push((relations.last(), relation_id(rows, relations.last())->0))
        } else {
            before
        }
    }
}

impl DbState {
    /// The state after a relation has been added; one that exists or is not accepted changes nothing.
    ///
    /// Ids of relations that have been removed are not given out again.
    pub open spec fn with_relation(self, relation: TagParents) -> DbState {
        if relation_accepted(self.tags, relation) && relation_id(self.parents, relation) is None {
            let id = next_id(parent_ids(self.parents).push(self.parents_sequence));
            DbState { parents: self.parents.push(ParentRow { id, relation }), parents_sequence: id, ..self }
        } else {
            self
        }
    }

    /// The state after relations have been added, one after the other.
    pub open spec fn with_relations(self, relations: Seq<TagParents>) -> DbState
        decreases relations.len(),
    {
        if relations.len() == 0 {
            self
        } else {
            self.with_relations(relations.drop_last()).with_relation(relations.last())
        }
    }
}

/// Adding relations touches nothing but the relations, and keeps those that are there.
pub proof fn lemma_with_relations(state: DbState, relations: Seq<TagParents>)
    ensures
        ({
            let after = state.with_relations(relations);
            &&& after == (DbState {
                parents: after.parents,
                parents_sequence: after.parents_sequence,
                ..state
            })
            &&& forall|r: TagParents|
                relation_id(state.parents, r) is Some ==> #[trigger] relation_id(after.parents, r) == relation_id(
                    state.parents,
                    r,
                )
            &&& forall|i: int|
                0 <= i < relations.len() && relation_accepted(state.tags, relations[i]) ==> relation_id(
                    after.parents,
                    #[trigger] relations[i],
                ) is Some
        }),
    decreases relations.len(),
{
    if relations.len() > 0 {
        let shorter = relations.drop_last();
        lemma_with_relations(state, shorter);
        let before = state.with_relations(shorter);
        lemma_with_relation(before, relations.last());
        let after = before.with_relation(relations.last());
        assert forall|i: int|
            0 <= i < relations.len() && relation_accepted(state.tags, relations[i]) implies relation_id(
            after.parents,
            #[trigger] relations[i],
        ) is Some by {
            if i < relations.len() - 1 {
                assert(shorter[i] == relations[i]);
                assert(relation_id(before.parents, shorter[i]) is Some);
            }
        }
        assert forall|r: TagParents| relation_id(state.parents, r) is Some implies #[trigger] relation_id(
            after.parents,
            r,
        ) == relation_id(state.parents, r) by {
            assert(relation_id(before.parents, r) is Some);
        }
    }
}

proof fn lemma_with_relation(state: DbState, relation: TagParents)
    ensures
        ({
            let after = state.with_relation(relation);
            &&& forall|r: TagParents|
                relation_id(state.parents, r) is Some ==> #[trigger] relation_id(after.parents, r) == relation_id(
                    state.parents,
                    r,
                )
            &&& relation_accepted(state.tags, relation) ==> relation_id(after.parents, relation) is Some
        }),
{
    let after = state.with_relation(relation);
    let old_keys = parent_relations(state.parents);
    let new_keys = parent_relations(after.parents);
    lemma_pos(new_keys, relation);
    if after.parents.len() > state.parents.len() {
        assert(new_keys[state.parents.len() as int] == relation);
    }
    assert forall|r: TagParents| relation_id(state.parents, r) is Some implies #[trigger] relation_id(
        after.parents,
        r,
    ) == relation_id(state.parents, r) by {
        lemma_pos(old_keys, r);
        lemma_pos(new_keys, r);
        let i = pos(old_keys, r);
        let k = pos(new_keys, r);
        assert(new_keys[i] == old_keys[i]);
        if k < i {
            assert(new_keys[k] == old_keys[k]);
        }
    }
}

fn accepts(tags: &Vec<TagRow>, relation: &TagParents) -> (accepted: bool)
    ensures
        accepted == relation_accepted(views(tags@), *relation),
{
    if relation.tag_id == relation.relate_tag_id || find_tag_id(tags, relation.tag_id) == tags.len() || find_tag_id(
        tags,
        relation.relate_tag_id,
    ) == tags.len() {
        proof {
            lemma_pos(tag_ids(views(tags@)), relation.tag_id);
            lemma_pos(tag_ids(views(tags@)), relation.relate_tag_id);
        }
        return false;
    }
    match relation.limit_to {
        Some(limit) => find_tag_id(tags, limit) < tags.len(),
        None => true,
    }
}

impl MainDatabase {
    /// Adds relations and gives each that the table takes its id.
    pub fn internal_parents_bulk_add(&mut self, parents: &Vec<TagParents>) -> (ids: Vec<(TagParents, u64)>)
        ensures
            final(self)@ == old(self)@.with_relations(parents@),
            ids@ == relation_ids(final(self)@.parents, old(self)@.tags, parents@),
    {
        let mut i: usize = 0;
        assert(parents@.take(0) =~= Seq::<TagParents>::empty());
        while i < parents.len()
            invariant
                i <= parents.len(),
                self@ == old(self)@.with_relations(parents@.take(i as int)),
            decreases parents.len() - i,
        {
            let relation = parents[i];
            proof {
                assert(parents@.take(i + 1).drop_last() =~= parents@.take(i as int));
            }
            if accepts(&self.tags, &relation) && find_parent(&self.parents, relation) == self.parents.len() {
                let mut ids = collect_parent_ids(&self.parents);
                ids.push(self.parents_sequence);
                let id: u64 = allocate_id(&ids);
                let ghost before = views(self.parents@);
                self.parents.push(ParentRow { id, relation });
                self.parents_sequence = id;
                assert(views(self.parents@) =~= before.push(ParentRow { id, relation }));
            } else {
                proof {
                    lemma_pos(parent_relations(self@.parents), relation);
                }
            }
            i += 1;
        }
        assert(parents@.take(i as int) =~= parents@);
        proof {
            lemma_with_relations(old(self)@, parents@);
        }
        let mut ids: Vec<(TagParents, u64)> = Vec::new();
        let mut k: usize = 0;
        while k < parents.len()
            invariant
                k <= parents.len(),
                self@ == old(self)@.with_relations(parents@),
                self@.tags == old(self)@.tags,
                forall|j: int|
                    0 <= j < parents@.len() && relation_accepted(self@.tags, parents@[j]) ==> relation_id(
                        self@.parents,
                        #[trigger] parents@[j],
                    ) is Some,
                ids@ == relation_ids(self@.parents, self@.tags, parents@.take(k as int)),
            decreases parents.len() - k,
        {
            let relation = parents[k];
            proof {
                assert(parents@.take(k + 1).drop_last() =~= parents@.take(k as int));
            }
            if accepts(&self.tags, &relation) {
                let at: usize = find_parent(&self.parents, relation);
                assert(relation_id(self@.parents, parents@[k as int]) is Some);
                ids.push((relation, self.parents[at].id));
            }
            k += 1;
        }
        assert(parents@.take(k as int) =~= parents@);
        ids
    }

    /// The relations in which a tag is the child.
    pub fn parent_relationships_get_sync(&self, tag_id: &u64) -> (relations: Vec<TagParents>)
        ensures
            relations@ == parent_relations(self@.parents).filter(|r: TagParents| r.tag_id == *tag_id),
    {
        let ghost keep = |r: TagParents| r.tag_id == *tag_id;
        let ghost all = parent_relations(self@.parents);
        let mut relations: Vec<TagParents> = Vec::new();
        let mut i: usize = 0;
        assert(all.take(0).filter(keep) =~= Seq::<TagParents>::empty()) by {
            reveal(Seq::filter);
        }
        while i < self.parents.len()
            invariant
                i <= self.parents.len(),
                all == parent_relations(self@.parents),
                keep == (|r: TagParents| r.tag_id == *tag_id),
                relations@ == all.take(i as int).filter(keep),
            decreases self.parents.len() - i,
        {
            proof {
                lemma_filter_step(all, i as int, keep);
            }
            if self.parents[i].relation.tag_id == *tag_id {
                relations.push(self.parents[i].relation);
            }
            i += 1;
        }
        assert(all.take(i as int) =~= all);
        relations
    }

    /// The relations in which a tag is the parent.
    pub fn child_relationships_get_sync(&self, relate_tag_id: &u64) -> (relations: Vec<TagParents>)
        ensures
            relations@ == parent_relations(self@.parents).filter(|r: TagParents| r.relate_tag_id == *relate_tag_id),
    {
        let ghost keep = |r: TagParents| r.relate_tag_id == *relate_tag_id;
        let ghost all = parent_relations(self@.parents);
        let mut relations: Vec<TagParents> = Vec::new();
        let mut i: usize = 0;
        assert(all.take(0).filter(keep) =~= Seq::<TagParents>::empty()) by {
            reveal(Seq::filter);
        }
        while i < self.parents.len()
            invariant
                i <= self.parents.len(),
                all == parent_relations(self@.parents),
                keep == (|r: TagParents| r.relate_tag_id == *relate_tag_id),
                relations@ == all.take(i as int).filter(keep),
            decreases self.parents.len() - i,
        {
            proof {
                lemma_filter_step(all, i as int, keep);
            }
            if self.parents[i].relation.relate_tag_id == *relate_tag_id {
                relations.push(self.parents[i].relation);
            }
            i += 1;
        }
        assert(all.take(i as int) =~= all);
        relations
    }
}

} // verus!
