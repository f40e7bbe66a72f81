//! Adding the tags of actions, and tagging files with them.
use crate::database::{DbState, MainDatabase};
use crate::relationship::holds_relationship;
use crate::text::views;
use crate::types::{ActionView, FileTagAction, Tag, TagView};
use vstd::prelude::*;

verus! {

/// The relationships of `list`, and those of a file with some tags that it does not hold yet.
pub open spec fn related(list: Seq<(u64, u64)>, file_id: u64, ids: Seq<(TagView, u64)>) -> Seq<(u64, u64)>
    decreases ids.len(),
{
    if ids.len() == 0 {
        list
    } else {
        let before = related(list, file_id, ids.drop_last());
        let r = (file_id, ids.last().1);
        if before.contains(r) {
            before
        } else {
            before.push(r)
        }
    }
}

/// Files, each with the actions on its tags.
pub open spec fn file_actions(files: Seq<(u64, Vec<FileTagAction>)>) -> Seq<(u64, Seq<ActionView>)> {
    Seq::new(files.len(), |i: int| (files[i].0, views(files[i].1@)))
}

impl DbState {
    /// The state after the tags of some files have been added, and the relationships to write.
    pub open spec fn with_file_tags(self, files: Seq<(u64, Seq<ActionView>)>) -> (DbState, Seq<(u64, u64)>)
        decreases files.len(),
    {
        if files.len() == 0 {
            (self, Seq::empty())
        } else {
            let (before, list) = self.with_file_tags(files.drop_last());
            let (file_id, actions) = files.last();
            (before.with_tag_actions(actions), related(list, file_id, before.tag_action_ids(actions)))
        }
    }

    /// The state after files have been tagged. Where there is no file, nothing changes.
    pub open spec fn with_tagged_files(self, files: Seq<(u64, Seq<ActionView>)>) -> DbState {
        if files.len() == 0 {
            self
        } else {
            let (tagged, list) = self.with_file_tags(files);
            tagged.with_relationships(list)
        }
    }
}

/// Adds the relationships of a file with some tags to a list.
fn relate(list: &mut Vec<(u64, u64)>, file_id: u64, ids: &Vec<(Tag, u64)>)
    ensures
        final(list)@ == related(old(list)@, file_id, views(ids@)),
{
    let ghost before = list@;
    let ghost all = views(ids@);
    let mut i: usize = 0;
    assert(all.take(0) =~= Seq::<(TagView, u64)>::empty());
    while i < ids.len()
        invariant
            i <= ids.len(),
            all == views(ids@),
            list@ == related(before, file_id, all.take(i as int)),
        decreases ids.len() - i,
    {
        let tag_id: u64 = ids[i].1;
        proof {
            assert(all.take(i + 1).drop_last() =~= all.take(i as int));
            assert(all.take(i + 1).last() == ids@[i as int]@);
        }
        if !holds_relationship(list, file_id, tag_id) {
            list.push((file_id, tag_id));
        }
        i += 1;
    }
    assert(all.take(i as int) =~= all);
}

impl MainDatabase {
    /// Gives a file the tags of some actions, and those that they relate to.
    pub fn file_relationship_tags_add_sync(&mut self, file_id: &u64, tag: &Vec<FileTagAction>) -> (done: bool)
        ensures
            done,
            final(self)@ == old(self)@.with_tag_actions(views(tag@)).with_relationships(
                related(Seq::empty(), *file_id, old(self)@.tag_action_ids(views(tag@))),
            ),
    {
        let ids = self.internal_tag_bulk_add(tag);
        let mut relationships: Vec<(u64, u64)> = Vec::new();
        relate(&mut relationships, *file_id, &ids);
        self.internal_relationships_bulk_add(&relationships);
        true
    }

    /// Adds the tags of some actions without tagging a file. Where there is no action, nothing changes.
    pub fn tag_actions_add_sync(&mut self, tag_actions: &Vec<FileTagAction>) -> (done: bool)
        ensures
            done,
            final(self)@ == (if tag_actions@.len() == 0 {
                old(self)@
            } else {
                old(self)@.with_tag_actions(views(tag_actions@))
            }),
    {
        if tag_actions.is_empty() {
            return true;
        }
        let _ = self.internal_tag_bulk_add(tag_actions);
        true
    }

    /// Adds the tags of some actions, and gives each its id. Where there is no action, nothing changes. No
    /// log of changes is kept, so that the reason goes nowhere.
    pub fn tags_add_bulk(&mut self, tags: &Vec<FileTagAction>, _audit_reason: &str) -> (ids: Vec<(Tag, u64)>)
        ensures
            tags@.len() == 0 ==> ids@.len() == 0 && final(self)@ == old(self)@,
            tags@.len() > 0 ==> final(self)@ == old(self)@.with_tag_actions(views(tags@)) && views(ids@) == old(
                self,
            )@.tag_action_ids(views(tags@)),
    {
        if tags.is_empty() {
            return Vec::new();
        }
        self.internal_tag_bulk_add(tags)
    }

    /// Gives some files the tags of their actions; all relationships are written together.
    pub fn file_relationship_tags_add_bulk_sync(&mut self, tags_by_file: &Vec<(u64, Vec<FileTagAction>)>) -> (done: bool)
        ensures
            done,
            final(self)@ == old(self)@.with_tagged_files(file_actions(tags_by_file@)),
    {
        if tags_by_file.is_empty() {
            return true;
        }
        let ghost start = self@;
        let ghost all = file_actions(tags_by_file@);
        let mut relationships: Vec<(u64, u64)> = Vec::new();
        let mut i: usize = 0;
        assert(all.take(0) =~= Seq::<(u64, Seq<ActionView>)>::empty());
        while i < tags_by_file.len()
            invariant
                i <= tags_by_file.len(),
                all == file_actions(tags_by_file@),
                (self@, relationships@) == start.with_file_tags(all.take(i as int)),
            decreases tags_by_file.len() - i,
        {
            proof {
                assert(all.take(i + 1).drop_last() =~= all.take(i as int));
                assert(all.take(i + 1).last() == (tags_by_file@[i as int].0, views(tags_by_file@[i as int].1@)));
            }
            let ids = self.internal_tag_bulk_add(&tags_by_file[i].1);
            relate(&mut relationships, tags_by_file[i].0, &ids);
            i += 1;
        }
        assert(all.take(i as int) =~= all);
        self.internal_relationships_bulk_add(&relationships);
        true
    }
}

} // verus!
