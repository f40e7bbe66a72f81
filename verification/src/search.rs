//! Searching files by their tags.
use crate::bitmap::{bitmap_descending, bitmap_intersect_with, bitmap_items, bitmap_subtract, descending_listing};
use crate::bitmap_cache::{RelationshipStorage, all_have, any_has, page};
use crate::database::{DbState, MainDatabase};
use crate::parents::tag_exists;
use crate::relationship::{files_with, holds_relationship};
use crate::rows::{cached_ids, file_ids, find_cached_id, find_tag_id, tag_ids};
use crate::text::{lemma_pos, pos, views};
use crate::types::{DbSearchTypeEnum, HolderView, SearchHolder, SearchObj};
use roaring::RoaringTreemap;
use vstd::prelude::*;

verus! {

impl HolderView {
    /// The tags of the group.
    pub open spec fn ids(self) -> Seq<u64> {
        match self {
            HolderView::And(ids) => ids,
            HolderView::Or(ids) => ids,
            HolderView::Not(ids) => ids,
        }
    }

    /// Whether a file meets the condition of the group, by the files that each tag has. Tags without
    /// a set of files are passed over.
    pub open spec fn allows(self, sets: Map<u64, Set<u64>>, file_id: u64) -> bool {
        match self {
            HolderView::And(ids) => all_have(sets, ids, file_id),
            HolderView::Or(ids) => any_has(sets, ids, file_id),
            HolderView::Not(ids) => !any_has(sets, ids, file_id),
        }
    }

    /// Whether the group has a tag with a set of files: other groups set no condition.
    pub open spec fn active(self, sets: Map<u64, Set<u64>>) -> bool {
        exists|i: int| 0 <= i < self.ids().len() && sets.dom().contains(#[trigger] self.ids()[i])
    }

    /// Whether every tag of the group has a set of files.
    pub open spec fn complete(self, sets: Map<u64, Set<u64>>) -> bool {
        forall|i: int| 0 <= i < self.ids().len() ==> sets.dom().contains(#[trigger] self.ids()[i])
    }
}

/// Whether a file meets the condition of every group.
pub open spec fn meets(sets: Map<u64, Set<u64>>, searches: Seq<HolderView>, file_id: u64) -> bool {
    forall|i: int|
        0 <= i < searches.len() && (#[trigger] searches[i]).active(sets) ==> searches[i].allows(sets, file_id)
}

/// Whether a group sets a condition.
pub open spec fn any_active(sets: Map<u64, Set<u64>>, searches: Seq<HolderView>) -> bool {
    exists|i: int| 0 <= i < searches.len() && (#[trigger] searches[i]).active(sets)
}

/// Whether a group asks for a tag, rather than against one.
pub open spec fn any_positive(sets: Map<u64, Set<u64>>, searches: Seq<HolderView>) -> bool {
    exists|i: int| 0 <= i < searches.len() && (#[trigger] searches[i]).active(sets) && !(searches[i] is Not)
}

/// The files that a search finds among `files`, by the files that each tag has.
pub open spec fn found_files(sets: Map<u64, Set<u64>>, searches: Seq<HolderView>, files: Set<u64>) -> Set<u64> {
    if any_positive(sets, searches) {
        Set::new(|f: u64| meets(sets, searches, f))
    } else if any_active(sets, searches) {
        Set::new(|f: u64| files.contains(f) && meets(sets, searches, f))
    } else {
        Set::empty()
    }
}

/// Whether `result` lists the files newest first, and no more of them than the limit allows.
pub open spec fn newest_first(result: Seq<u64>, files: Set<u64>, limit: Option<u64>) -> bool {
    exists|all: Seq<u64>| #[trigger] descending_listing(all, files) && result == page(all, None, limit)
}

/// The tags of the groups that have every one of `ids`.
pub open spec fn and_tags(searches: Seq<HolderView>) -> Seq<u64>
    decreases searches.len(),
{
    if searches.len() == 0 {
        Seq::empty()
    } else {
        match searches.last() {
            HolderView::And(ids) => and_tags(searches.drop_last()) + ids,
            _ => and_tags(searches.drop_last()),
        }
    }
}

impl DbState {
    /// The files of each tag that a search can name, by the tables.
    pub open spec fn known_sets(self) -> Map<u64, Set<u64>> {
        Map::new(
            |t: u64| tag_exists(self.tags, t) || pos(cached_ids(self.tag_cache), t) < self.tag_cache.len(),
            |t: u64| files_with(self.relationships, t),
        )
    }

    /// Whether memory holds every tag that a search names, and the search asks for one.
    pub open spec fn answered_from_memory(self, searches: Seq<HolderView>) -> bool {
        &&& self.memory matches Some(memory)
        &&& forall|i: int| 0 <= i < searches.len() ==> (#[trigger] searches[i]).complete(memory.tag_id)
        &&& any_positive(memory.tag_id, searches)
    }

    /// The ids of all files.
    pub open spec fn all_files(self) -> Set<u64> {
        file_ids(self.files).to_set()
    }

    /// The files that a search finds: by the bitmaps in memory where they hold every tag, else by the
    /// tables.
    pub open spec fn search_files(self, searches: Seq<HolderView>) -> Set<u64> {
        if self.answered_from_memory(searches) {
            found_files(self.memory->0.tag_id, searches, self.all_files())
        } else {
            found_files(self.known_sets(), searches, self.all_files())
        }
    }
}

fn holder_ids(holder: &SearchHolder) -> (ids: &Vec<u64>)
    ensures
        ids@ == holder@.ids(),
{
    match holder {
        SearchHolder::And(ids) => ids,
        SearchHolder::Or(ids) => ids,
        SearchHolder::Not(ids) => ids,
    }
}

fn is_negative(holder: &SearchHolder) -> (negative: bool)
    ensures
        negative == (holder@ is Not),
{
    match holder {
        SearchHolder::Not(_) => true,
        _ => false,
    }
}

/// Puts a number into a falling list, unless it is there.
pub fn insert_descending(list: &mut Vec<u64>, number: u64)
    requires
        forall|i: int, j: int| 0 <= i < j < old(list)@.len() ==> old(list)@[i] > old(list)@[j],
    ensures
        forall|i: int, j: int| 0 <= i < j < final(list)@.len() ==> final(list)@[i] > final(list)@[j],
        forall|x: u64| #[trigger] final(list)@.contains(x) <==> old(list)@.contains(x) || x == number,
{
    let ghost before = list@;
    let mut at: usize = 0;
    while at < list.len() && list[at] > number
        invariant
            at <= list.len(),
            list@ == before,
            forall|k: int| 0 <= k < at ==> before[k] > number,
        decreases list.len() - at,
    {
        at += 1;
    }
    if at < list.len() && list[at] == number {
        assert(before[at as int] == number);
        return;
    }
    list.insert(at, number);
    assert(list@ == before.insert(at as int, number));
    assert forall|x: u64| #[trigger] list@.contains(x) <==> before.contains(x) || x == number by {
        if before.contains(x) {
            let k = choose|k: int| 0 <= k < before.len() && before[k] == x;
            if k < at {
                assert(list@[k] == x);
            } else {
                assert(list@[k + 1] == x);
            }
        }
        if x == number {
            assert(list@[at as int] == x);
        }
        if list@.contains(x) && x != number {
            let k = choose|k: int| 0 <= k < list@.len() && list@[k] == x;
            if k < at {
                assert(before[k] == x);
            } else {
                assert(before[k - 1] == x);
            }
        }
    }
}

/// Cuts a list to a limit.
fn cut(list: &mut Vec<u64>, limit: &Option<u64>)
    ensures
        final(list)@ == page(old(list)@, None, *limit),
{
    if let Some(most) = limit {
        if *most < list.len() as u64 {
            list.truncate(*most as usize);
        }
    }
    assert(list@ =~= page(old(list)@, None, *limit));
}

/// A list of the files of a set is what a search returns, cut to the limit.
fn limited(list: Vec<u64>, limit: &Option<u64>, Ghost(files): Ghost<Set<u64>>) -> (result: Vec<u64>)
    requires
        descending_listing(list@, files),
    ensures
        newest_first(result@, files, *limit),
{
    let mut result = list;
    let ghost all = result@;
    cut(&mut result, limit);
    assert(descending_listing(all, files) && result@ == page(all, None, *limit));
    result
}

impl RelationshipStorage {
    fn holds_all(&self, ids: &Vec<u64>) -> (all: bool)
        ensures
            all == forall|i: int| 0 <= i < ids@.len() ==> self@.tag_id.dom().contains(#[trigger] ids@[i]),
    {
        let mut i: usize = 0;
        while i < ids.len()
            invariant
                i <= ids.len(),
                forall|k: int| 0 <= k < i ==> self@.tag_id.dom().contains(#[trigger] ids@[k]),
            decreases ids.len() - i,
        {
            if !self.tag_is_cached_in_memory(ids[i]) {
                return false;
            }
            i += 1;
        }
        true
    }

    /// The files that a search finds by the bitmaps in memory; `None` where they do not hold every tag
    /// that the search names, or the search asks for no tag.
    pub fn search_in_memory(&self, searches: &Vec<SearchHolder>) -> (files: Option<Vec<u64>>)
        ensures
            ({
                let sets = self@.tag_id;
                let groups = views(searches@);
                let answered = (forall|i: int| 0 <= i < groups.len() ==> (#[trigger] groups[i]).complete(sets))
                    && any_positive(sets, groups);
                match files {
                    Some(list) => answered && descending_listing(
                        list@,
                        Set::new(|f: u64| meets(sets, groups, f)),
                    ),
                    None => !answered,
                }
            }),
    {
        let ghost sets = self@.tag_id;
        let ghost groups = views(searches@);
        let mut result: Option<RoaringTreemap> = None;
        let mut i: usize = 0;
        while i < searches.len()
            invariant
                i <= searches.len(),
                sets == self@.tag_id,
                groups == views(searches@),
                forall|k: int| 0 <= k < i ==> (#[trigger] groups[k]).complete(sets),
                result is Some <==> any_positive(sets, groups.take(i as int)),
                result matches Some(bitmap) ==> forall|f: u64| #[trigger]
                    bitmap_items(bitmap).contains(f) <==> positives_meet(sets, groups, i as int, f),
            decreases searches.len() - i,
        {
            let ids = holder_ids(&searches[i]);
            assert(groups[i as int] == searches@[i as int]@);
            if !self.holds_all(ids) {
                assert(!groups[i as int].complete(sets));
                return None;
            }
            proof {
                lemma_positive_step(sets, groups, i as int);
                assert(groups[i as int].complete(sets));
            }
            if !is_negative(&searches[i]) && !ids.is_empty() {
                let kind = match &searches[i] {
                    SearchHolder::And(_) => DbSearchTypeEnum::And,
                    _ => DbSearchTypeEnum::Or,
                };
                assert(sets.dom().contains(groups[i as int].ids()[0]));
                let group = self.internal_search_item(ids.as_slice(), kind);
                assert(group is Some);
                let found = group.unwrap();
                assert(forall|f: u64| #[trigger]
                    bitmap_items(found).contains(f) <==> groups[i as int].allows(sets, f));
                let ghost before = result;
                result = match result {
                    Some(mut current) => {
                        bitmap_intersect_with(&mut current, &found);
                        Some(current)
                    },
                    None => Some(found),
                };
                proof {
                    if before is None {
                        lemma_no_positive(sets, groups, i as int);
                    }
                }
            }
            i += 1;
        }
        assert(groups.take(i as int) =~= groups);
        let mut bitmap = match result {
            Some(bitmap) => bitmap,
            None => {
                return None;
            },
        };
        let mut k: usize = 0;
        while k < searches.len()
            invariant
                k <= searches.len(),
                sets == self@.tag_id,
                groups == views(searches@),
                forall|j: int| 0 <= j < groups.len() ==> (#[trigger] groups[j]).complete(sets),
                forall|f: u64| #[trigger]
                    bitmap_items(bitmap).contains(f) <==> positives_meet(sets, groups, groups.len() as int, f)
                        && negatives_meet(sets, groups, k as int, f),
            decreases searches.len() - k,
        {
            let ids = holder_ids(&searches[k]);
            assert(groups[k as int] == searches@[k as int]@);
            proof {
                lemma_negative_step(sets, groups, k as int);
            }
            if is_negative(&searches[k]) && !ids.is_empty() {
                assert(sets.dom().contains(groups[k as int].ids()[0]));
                let group = self.internal_search_item(ids.as_slice(), DbSearchTypeEnum::Or);
                assert(group is Some);
                let excluded = group.unwrap();
                bitmap_subtract(&mut bitmap, &excluded);
            }
            k += 1;
        }
        let list = bitmap_descending(&bitmap);
        proof {
            let wanted = Set::new(|f: u64| meets(sets, groups, f));
            assert forall|f: u64| #[trigger] wanted.contains(f) <==> list@.contains(f) by {
                lemma_meets_parts(sets, groups, f);
                assert(bitmap_items(bitmap).contains(f) <==> list@.contains(f));
            }
        }
        Some(list)
    }
}

/// Whether a file meets the first `n` groups that ask for tags.
spec fn positives_meet(sets: Map<u64, Set<u64>>, groups: Seq<HolderView>, n: int, file_id: u64) -> bool {
    forall|i: int|
        0 <= i < n && (#[trigger] groups[i]).active(sets) && !(groups[i] is Not) ==> groups[i].allows(sets, file_id)
}

/// Whether a file meets the first `n` groups that ask against tags.
spec fn negatives_meet(sets: Map<u64, Set<u64>>, groups: Seq<HolderView>, n: int, file_id: u64) -> bool {
    forall|i: int|
        0 <= i < n && (#[trigger] groups[i]).active(sets) && groups[i] is Not ==> groups[i].allows(sets, file_id)
}

proof fn lemma_meets_parts(sets: Map<u64, Set<u64>>, groups: Seq<HolderView>, file_id: u64)
    ensures
        meets(sets, groups, file_id) <==> positives_meet(sets, groups, groups.len() as int, file_id) && negatives_meet(
            sets,
            groups,
            groups.len() as int,
            file_id,
        ),
{
}

proof fn lemma_positive_step(sets: Map<u64, Set<u64>>, groups: Seq<HolderView>, i: int)
    requires
        0 <= i < groups.len(),
    ensures
        any_positive(sets, groups.take(i + 1)) <==> any_positive(sets, groups.take(i)) || (groups[i].active(sets) && !(
        groups[i] is Not)),
        forall|f: u64| #[trigger]
            positives_meet(sets, groups, i + 1, f) <==> positives_meet(sets, groups, i, f) && (groups[i].active(sets)
                && !(groups[i] is Not) ==> groups[i].allows(sets, f)),
{
    let short = groups.take(i);
    let long = groups.take(i + 1);
    if any_positive(sets, short) {
        let k = choose|k: int| 0 <= k < short.len() && (#[trigger] short[k]).active(sets) && !(short[k] is Not);
        assert(long[k] == short[k]);
    }
    if any_positive(sets, long) {
        let k = choose|k: int| 0 <= k < long.len() && (#[trigger] long[k]).active(sets) && !(long[k] is Not);
        if k < i {
            assert(short[k] == long[k]);
        }
    }
    if groups[i].active(sets) && !(groups[i] is Not) {
        assert(long[i] == groups[i]);
    }
}

proof fn lemma_no_positive(sets: Map<u64, Set<u64>>, groups: Seq<HolderView>, i: int)
    requires
        0 <= i <= groups.len(),
        !any_positive(sets, groups.take(i)),
    ensures
        forall|f: u64| #[trigger] positives_meet(sets, groups, i, f),
{
    assert forall|f: u64| #[trigger] positives_meet(sets, groups, i, f) by {
        assert forall|k: int| 0 <= k < i && (#[trigger] groups[k]).active(sets) && !(groups[k] is Not) implies groups[k].allows(
        sets, f) by {
            assert(groups.take(i)[k] == groups[k]);
        }
    }
}

proof fn lemma_negative_step(sets: Map<u64, Set<u64>>, groups: Seq<HolderView>, i: int)
    requires
        0 <= i < groups.len(),
    ensures
        forall|f: u64| #[trigger]
            negatives_meet(sets, groups, i + 1, f) <==> negatives_meet(sets, groups, i, f) && (groups[i].active(sets)
                && groups[i] is Not ==> groups[i].allows(sets, f)),
{
}

/// The files of every tag, known or not.
pub open spec fn all_sets(relationships: Set<(u64, u64)>) -> Map<u64, Set<u64>> {
    Map::new(|t: u64| true, |t: u64| files_with(relationships, t))
}

impl DbState {
    /// Whether a tag that every file must have counts: where there are several and one exists, those
    /// that do not exist are passed over.
    pub open spec fn required(self, tags: Seq<u64>, id: u64) -> bool {
        tags.len() <= 1 || tag_exists(self.tags, id) || !(exists|i: int|
            0 <= i < tags.len() && tag_exists(self.tags, #[trigger] tags[i]))
    }

    /// Whether a tagged file meets a search, by the tables.
    pub open spec fn tables_meet(self, searches: Seq<HolderView>, file_id: u64) -> bool {
        &&& exists|t: u64| self.relationships.contains((file_id, t))
        &&& forall|i: int|
            0 <= i < and_tags(searches).len() && self.required(and_tags(searches), and_tags(searches)[i])
                ==> self.relationships.contains((file_id, #[trigger] and_tags(searches)[i]))
        &&& forall|i: int|
            0 <= i < searches.len() && (#[trigger] searches[i]).ids().len() > 0 && !(searches[i] is And)
                ==> searches[i].allows(all_sets(self.relationships), file_id)
    }

    /// The tagged files that a search finds: by the bitmaps in memory where they hold every tag, else
    /// by the tables. A search without a tag finds nothing; one that only asks against tags ranges over
    /// all tagged files.
    pub open spec fn search_tagged_files(self, searches: Seq<HolderView>) -> Set<u64> {
        if self.answered_from_memory(searches) {
            Set::new(|f: u64| meets(self.memory->0.tag_id, searches, f))
        } else if exists|i: int| 0 <= i < searches.len() && (#[trigger] searches[i]).ids().len() > 0 {
            Set::new(|f: u64| self.tables_meet(searches, f))
        } else {
            Set::empty()
        }
    }
}

fn collect_and_tags(searches: &Vec<SearchHolder>) -> (tags: Vec<u64>)
    ensures
        tags@ == and_tags(views(searches@)),
{
    let ghost groups = views(searches@);
    let mut tags: Vec<u64> = Vec::new();
    let mut i: usize = 0;
    assert(groups.take(0) =~= Seq::<HolderView>::empty());
    while i < searches.len()
        invariant
            i <= searches.len(),
            groups == views(searches@),
            tags@ == and_tags(groups.take(i as int)),
        decreases searches.len() - i,
    {
        proof {
            assert(groups.take(i + 1).drop_last() =~= groups.take(i as int));
            assert(groups[i as int] == searches@[i as int]@);
        }
        if let SearchHolder::And(ids) = &searches[i] {
            let ghost before = tags@;
            let mut k: usize = 0;
            assert(before + ids@.take(0) =~= before);
            while k < ids.len()
                invariant
                    k <= ids.len(),
                    tags@ == before + ids@.take(k as int),
                decreases ids.len() - k,
            {
                tags.push(ids[k]);
                k += 1;
                assert(tags@ =~= before + ids@.take(k as int));
            }
            assert(ids@.take(k as int) =~= ids@);
        }
        i += 1;
    }
    assert(groups.take(i as int) =~= groups);
    tags
}

fn has_any(relationships: &Vec<(u64, u64)>, ids: &Vec<u64>, file_id: u64) -> (found: bool)
    ensures
        found == any_has(all_sets(relationships@.to_set()), ids@, file_id),
{
    let ghost sets = all_sets(relationships@.to_set());
    let mut i: usize = 0;
    while i < ids.len()
        invariant
            i <= ids.len(),
            sets == all_sets(relationships@.to_set()),
            forall|k: int| 0 <= k < i ==> !sets[#[trigger] ids@[k]].contains(file_id),
        decreases ids.len() - i,
    {
        if holds_relationship(relationships, file_id, ids[i]) {
            assert(sets.dom().contains(ids@[i as int]) && sets[ids@[i as int]].contains(file_id));
            return true;
        }
        i += 1;
    }
    false
}

impl MainDatabase {
    fn knows_tag(&self, tag_id: u64) -> (known: bool)
        ensures
            known == self@.known_sets().dom().contains(tag_id),
    {
        proof {
            lemma_pos(tag_ids(self@.tags), tag_id);
            lemma_pos(cached_ids(self@.tag_cache), tag_id);
        }
        find_tag_id(&self.tags, tag_id) < self.tags.len() || find_cached_id(&self.tag_cache, tag_id)
            < self.tag_cache.len()
    }

    fn group_active(&self, holder: &SearchHolder) -> (active: bool)
        ensures
            active == holder@.active(self@.known_sets()),
    {
        let ids = holder_ids(holder);
        let mut i: usize = 0;
        while i < ids.len()
            invariant
                i <= ids.len(),
                ids@ == holder@.ids(),
                forall|k: int| 0 <= k < i ==> !self@.known_sets().dom().contains(#[trigger] ids@[k]),
            decreases ids.len() - i,
        {
            if self.knows_tag(ids[i]) {
                assert(self@.known_sets().dom().contains(holder@.ids()[i as int]));
                return true;
            }
            i += 1;
        }
        false
    }

    fn group_allows(&self, holder: &SearchHolder, file_id: u64) -> (allows: bool)
        ensures
            allows == holder@.allows(self@.known_sets(), file_id),
    {
        let ghost sets = self@.known_sets();
        let ids = holder_ids(holder);
        let mut any = false;
        let mut all = true;
        let mut i: usize = 0;
        while i < ids.len()
            invariant
                i <= ids.len(),
                ids@ == holder@.ids(),
                sets == self@.known_sets(),
                any == exists|k: int|
                    0 <= k < i && sets.dom().contains(#[trigger] ids@[k]) && sets[ids@[k]].contains(file_id),
                all == forall|k: int|
                    0 <= k < i && sets.dom().contains(#[trigger] ids@[k]) ==> sets[ids@[k]].contains(file_id),
            decreases ids.len() - i,
        {
            if self.knows_tag(ids[i]) {
                assert(sets.dom().contains(ids@[i as int]));
                let has = holds_relationship(&self.relationships, file_id, ids[i]);
                assert(has == sets[ids@[i as int]].contains(file_id));
                any = any || has;
                all = all && has;
            }
            i += 1;
        }
        match holder {
            SearchHolder::And(_) => all,
            SearchHolder::Or(_) => any,
            SearchHolder::Not(_) => !any,
        }
    }

    fn search_meets(&self, searches: &Vec<SearchHolder>, file_id: u64) -> (met: bool)
        ensures
            met == meets(self@.known_sets(), views(searches@), file_id),
    {
        let ghost groups = views(searches@);
        let mut i: usize = 0;
        while i < searches.len()
            invariant
                i <= searches.len(),
                groups == views(searches@),
                forall|k: int|
                    0 <= k < i && (#[trigger] groups[k]).active(self@.known_sets()) ==> groups[k].allows(
                        self@.known_sets(),
                        file_id,
                    ),
            decreases searches.len() - i,
        {
            assert(groups[i as int] == searches@[i as int]@);
            if self.group_active(&searches[i]) && !self.group_allows(&searches[i], file_id) {
                return false;
            }
            i += 1;
        }
        true
    }

    /// The files that a search finds, newest first.
    ///
    /// Each group of the search is a condition of its own. A group whose tags are all unknown sets none;
    /// a search that only asks against tags ranges over all files.
    pub fn search_db_files_human_sync(&mut self, search: &SearchObj, limit: &Option<u64>) -> (files: Vec<u64>)
        ensures
            final(self)@ == old(self)@.refreshed(),
            newest_first(files@, final(self)@.search_files(views(search.searches@)), *limit),
    {
        self.refresh_roaring_memory_if_dirty();
        let ghost groups = views(search.searches@);
        let ghost sets = self@.known_sets();
        let ghost wanted = self@.search_files(groups);
        if let Some(storage) = &self.relationship_roaring_storage {
            if let Some(list) = storage.search_in_memory(&search.searches) {
                proof {
                    assert(self@.answered_from_memory(groups));
                    assert(wanted =~= Set::new(|f: u64| meets(self@.memory->0.tag_id, groups, f)));
                }
                return limited(list, limit, Ghost(wanted));
            }
        }
        assert(!self@.answered_from_memory(groups));
        let mut active = false;
        let mut positive = false;
        let mut i: usize = 0;
        while i < search.searches.len()
            invariant
                i <= search.searches.len(),
                groups == views(search.searches@),
                sets == self@.known_sets(),
                active == exists|k: int| 0 <= k < i && (#[trigger] groups[k]).active(sets),
                positive == exists|k: int| 0 <= k < i && (#[trigger] groups[k]).active(sets) && !(groups[k] is Not),
            decreases search.searches.len() - i,
        {
            assert(groups[i as int] == search.searches@[i as int]@);
            if self.group_active(&search.searches[i]) {
                assert(groups[i as int].active(sets));
                active = true;
                if !is_negative(&search.searches[i]) {
                    positive = true;
                }
            }
            i += 1;
        }
        let mut list: Vec<u64> = Vec::new();
        if positive {
            let mut k: usize = 0;
            let ghost rows = self.relationships@;
            while k < self.relationships.len()
                invariant
                    k <= self.relationships.len(),
                    rows == self.relationships@,
                    groups == views(search.searches@),
                    sets == self@.known_sets(),
                    forall|i: int, j: int| 0 <= i < j < list@.len() ==> list@[i] > list@[j],
                    forall|f: u64| #[trigger]
                        list@.contains(f) <==> meets(sets, groups, f) && exists|m: int|
                            0 <= m < k && (#[trigger] rows[m]).0 == f,
                decreases self.relationships.len() - k,
            {
                let file_id: u64 = self.relationships[k].0;
                let ghost before = list@;
                if self.search_meets(&search.searches, file_id) {
                    insert_descending(&mut list, file_id);
                }
                proof {
                    assert(rows[k as int].0 == file_id);
                    assert forall|f: u64| #[trigger] list@.contains(f) <==> meets(sets, groups, f) && exists|m: int|
                        0 <= m < k + 1 && (#[trigger] rows[m]).0 == f by {
                        if before.contains(f) {
                            let m = choose|m: int| 0 <= m < k && (#[trigger] rows[m]).0 == f;
                            assert(rows[m].0 == f);
                        }
                    }
                }
                k += 1;
            }
            proof {
                assert(any_positive(sets, groups));
                assert forall|f: u64| #[trigger] wanted.contains(f) <==> list@.contains(f) by {
                    if meets(sets, groups, f) {
                        lemma_positive_is_tagged(self@, groups, f);
                        let t = choose|t: u64| self@.relationships.contains((f, t));
                        assert(rows.contains((f, t)));
                        let m = choose|m: int| 0 <= m < rows.len() && rows[m] == (f, t);
                        assert(rows[m].0 == f);
                    }
                }
            }
        } else if active {
            let mut k: usize = 0;
            let ghost ids = file_ids(self@.files);
            while k < self.files.len()
                invariant
                    k <= self.files.len(),
                    ids == file_ids(self@.files),
                    groups == views(search.searches@),
                    sets == self@.known_sets(),
                    forall|i: int, j: int| 0 <= i < j < list@.len() ==> list@[i] > list@[j],
                    forall|f: u64| #[trigger]
                        list@.contains(f) <==> meets(sets, groups, f) && exists|m: int|
                            0 <= m < k && #[trigger] ids[m] == f,
                decreases self.files.len() - k,
            {
                let file_id: u64 = self.files[k].id;
                let ghost before = list@;
                if self.search_meets(&search.searches, file_id) {
                    insert_descending(&mut list, file_id);
                }
                proof {
                    assert(ids[k as int] == file_id);
                    assert forall|f: u64| #[trigger] list@.contains(f) <==> meets(sets, groups, f) && exists|m: int|
                        0 <= m < k + 1 && #[trigger] ids[m] == f by {
                        if before.contains(f) {
                            let m = choose|m: int| 0 <= m < k && #[trigger] ids[m] == f;
                            assert(ids[m] == f);
                        }
                    }
                }
                k += 1;
            }
            proof {
                assert(any_active(sets, groups));
                assert(!any_positive(sets, groups));
                assert forall|f: u64| #[trigger] wanted.contains(f) <==> list@.contains(f) by {
                    if ids.contains(f) {
                        let m = choose|m: int| 0 <= m < ids.len() && ids[m] == f;
                        assert(ids[m] == f);
                    }
                }
            }
        }
        limited(list, limit, Ghost(wanted))
    }

    fn tagged_file_meets(&self, searches: &Vec<SearchHolder>, required: &Vec<u64>, file_id: u64) -> (met: bool)
        requires
            exists|t: u64| self@.relationships.contains((file_id, t)),
            forall|id: u64| #[trigger]
                required@.contains(id) <==> exists|i: int|
                    0 <= i < and_tags(views(searches@)).len() && #[trigger] and_tags(views(searches@))[i] == id
                        && self@.required(and_tags(views(searches@)), id),
        ensures
            met == self@.tables_meet(views(searches@), file_id),
    {
        let ghost groups = views(searches@);
        let ghost ands = and_tags(groups);
        let mut i: usize = 0;
        while i < required.len()
            invariant
                i <= required.len(),
                groups == views(searches@),
                ands == and_tags(groups),
                forall|id: u64| #[trigger]
                    required@.contains(id) <==> exists|i: int|
                        0 <= i < ands.len() && #[trigger] ands[i] == id && self@.required(ands, id),
                forall|k: int| 0 <= k < i ==> self@.relationships.contains((file_id, #[trigger] required@[k])),
            decreases required.len() - i,
        {
            if !holds_relationship(&self.relationships, file_id, required[i]) {
                proof {
                    assert(required@.contains(required@[i as int]));
                    let k = choose|k: int|
                        0 <= k < ands.len() && #[trigger] ands[k] == required@[i as int] && self@.required(
                            ands,
                            required@[i as int],
                        );
                    assert(!self@.relationships.contains((file_id, ands[k])));
                }
                return false;
            }
            i += 1;
        }
        assert forall|k: int| 0 <= k < ands.len() && self@.required(ands, ands[k]) implies self@.relationships.contains(
            (file_id, #[trigger] ands[k]),
        ) by {
            assert(required@.contains(ands[k]));
            let m = choose|m: int| 0 <= m < required@.len() && required@[m] == ands[k];
            assert(self@.relationships.contains((file_id, required@[m])));
        }
        let mut g: usize = 0;
        while g < searches.len()
            invariant
                g <= searches.len(),
                groups == views(searches@),
                forall|k: int|
                    0 <= k < g && (#[trigger] groups[k]).ids().len() > 0 && !(groups[k] is And) ==> groups[k].allows(
                        all_sets(self@.relationships),
                        file_id,
                    ),
            decreases searches.len() - g,
        {
            assert(groups[g as int] == searches@[g as int]@);
            match &searches[g] {
                SearchHolder::And(_) => {},
                SearchHolder::Or(ids) => {
                    if !ids.is_empty() && !has_any(&self.relationships, ids, file_id) {
                        return false;
                    }
                },
                SearchHolder::Not(ids) => {
                    if !ids.is_empty() && has_any(&self.relationships, ids, file_id) {
                        return false;
                    }
                },
            }
            g += 1;
        }
        true
    }

    /// The tags that every file must have, as far as they count.
    fn required_tags(&self, tags: &Vec<u64>) -> (required: Vec<u64>)
        ensures
            forall|id: u64| #[trigger]
                required@.contains(id) <==> exists|i: int|
                    0 <= i < tags@.len() && #[trigger] tags@[i] == id && self@.required(tags@, id),
    {
        let mut existing: Vec<u64> = Vec::new();
        let mut i: usize = 0;
        while i < tags.len()
            invariant
                i <= tags.len(),
                forall|id: u64| #[trigger]
                    existing@.contains(id) <==> exists|k: int|
                        0 <= k < i && #[trigger] tags@[k] == id && tag_exists(self@.tags, id),
            decreases tags.len() - i,
        {
            let ghost before = existing@;
            proof {
                lemma_pos(tag_ids(self@.tags), tags@[i as int]);
                crate::text::lemma_push_contains(existing@, tags@[i as int]);
            }
            if find_tag_id(&self.tags, tags[i]) < self.tags.len() {
                existing.push(tags[i]);
            }
            assert forall|id: u64| #[trigger] existing@.contains(id) <==> exists|k: int|
                0 <= k < i + 1 && #[trigger] tags@[k] == id && tag_exists(self@.tags, id) by {
                if before.contains(id) {
                    let k = choose|k: int| 0 <= k < i && #[trigger] tags@[k] == id && tag_exists(self@.tags, id);
                    assert(tags@[k] == id);
                }
                if existing@.contains(id) && !before.contains(id) {
                    assert(tags@[i as int] == id);
                }
            }
            i += 1;
        }
        if tags.len() > 1 && !existing.is_empty() {
            assert(existing@.contains(existing@[0]));
            existing
        } else {
            let copy = crate::text::numbers_copy(tags);
            proof {
                if tags@.len() > 1 {
                    assert forall|k: int| 0 <= k < tags@.len() implies !tag_exists(self@.tags, #[trigger] tags@[k]) by {
                        if tag_exists(self@.tags, tags@[k]) {
                            assert(existing@.contains(tags@[k]));
                        }
                    }
                }
                assert forall|id: u64| #[trigger] copy@.contains(id) <==> exists|k: int|
                    0 <= k < tags@.len() && #[trigger] tags@[k] == id && self@.required(tags@, id) by {
                    if copy@.contains(id) {
                        let k = choose|k: int| 0 <= k < copy@.len() && copy@[k] == id;
                        assert(tags@[k] == id);
                    }
                }
            }
            copy
        }
    }

    /// The tagged files that a search finds, newest first.
    pub fn search_db_files_sync(&self, search: &SearchObj, limit: &Option<u64>) -> (files: Vec<u64>)
        ensures
            newest_first(files@, self@.search_tagged_files(views(search.searches@)), *limit),
    {
        let ghost groups = views(search.searches@);
        let ghost wanted = self@.search_tagged_files(groups);
        if let Some(storage) = &self.relationship_roaring_storage {
            if let Some(list) = storage.search_in_memory(&search.searches) {
                proof {
                    assert(self@.answered_from_memory(groups));
                    assert(wanted =~= Set::new(|f: u64| meets(self@.memory->0.tag_id, groups, f)));
                }
                return limited(list, limit, Ghost(wanted));
            }
        }
        assert(!self@.answered_from_memory(groups));
        let mut empty = true;
        let mut i: usize = 0;
        while i < search.searches.len()
            invariant
                i <= search.searches.len(),
                groups == views(search.searches@),
                empty == !(exists|k: int| 0 <= k < i && (#[trigger] groups[k]).ids().len() > 0),
            decreases search.searches.len() - i,
        {
            assert(groups[i as int] == search.searches@[i as int]@);
            if !holder_ids(&search.searches[i]).is_empty() {
                assert(groups[i as int].ids().len() > 0);
                empty = false;
            }
            i += 1;
        }
        let mut list: Vec<u64> = Vec::new();
        if !empty {
            let tags = collect_and_tags(&search.searches);
            let required = self.required_tags(&tags);
            let ghost rows = self.relationships@;
            let mut k: usize = 0;
            while k < self.relationships.len()
                invariant
                    k <= self.relationships.len(),
                    rows == self.relationships@,
                    groups == views(search.searches@),
                    tags@ == and_tags(groups),
                    forall|id: u64| #[trigger]
                        required@.contains(id) <==> exists|i: int|
                            0 <= i < and_tags(groups).len() && #[trigger] and_tags(groups)[i] == id && self@.required(
                                and_tags(groups),
                                id,
                            ),
                    forall|i: int, j: int| 0 <= i < j < list@.len() ==> list@[i] > list@[j],
                    forall|f: u64| #[trigger]
                        list@.contains(f) <==> self@.tables_meet(groups, f) && exists|m: int|
                            0 <= m < k && (#[trigger] rows[m]).0 == f,
                decreases self.relationships.len() - k,
            {
                let file_id: u64 = self.relationships[k].0;
                let ghost before = list@;
                proof {
                    assert(rows.contains(rows[k as int]));
                    assert(self@.relationships.contains((file_id, rows[k as int].1)));
                }
                if self.tagged_file_meets(&search.searches, &required, file_id) {
                    insert_descending(&mut list, file_id);
                }
                proof {
                    assert(rows[k as int].0 == file_id);
                    assert forall|f: u64| #[trigger] list@.contains(f) <==> self@.tables_meet(groups, f) && exists|m: int|
                        0 <= m < k + 1 && (#[trigger] rows[m]).0 == f by {
                        if before.contains(f) {
                            let m = choose|m: int| 0 <= m < k && (#[trigger] rows[m]).0 == f;
                            assert(rows[m].0 == f);
                        }
                    }
                }
                k += 1;
            }
            proof {
                assert forall|f: u64| #[trigger] wanted.contains(f) <==> list@.contains(f) by {
                    if self@.tables_meet(groups, f) {
                        let t = choose|t: u64| self@.relationships.contains((f, t));
                        assert(rows.contains((f, t)));
                        let m = choose|m: int| 0 <= m < rows.len() && rows[m] == (f, t);
                        assert(rows[m].0 == f);
                    }
                }
            }
        }
        limited(list, limit, Ghost(wanted))
    }

    /// The tagged files that a search finds, newest first.
    pub fn search_db_files_sync_old(&self, search: &SearchObj, limit: &Option<u64>) -> (files: Vec<u64>)
        ensures
            newest_first(files@, self@.search_tagged_files(views(search.searches@)), *limit),
    {
        self.search_db_files_sync(search, limit)
    }
}

proof fn lemma_positive_is_tagged(state: DbState, groups: Seq<HolderView>, file_id: u64)
    requires
        any_positive(state.known_sets(), groups),
        meets(state.known_sets(), groups, file_id),
    ensures
        exists|t: u64| state.relationships.contains((file_id, t)),
{
    let sets = state.known_sets();
    let i = choose|i: int| 0 <= i < groups.len() && (#[trigger] groups[i]).active(sets) && !(groups[i] is Not);
    assert(groups[i].allows(sets, file_id));
    match groups[i] {
        HolderView::And(ids) => {
            let k = choose|k: int| 0 <= k < groups[i].ids().len() && sets.dom().contains(#[trigger] groups[i].ids()[k]);
            assert(sets.dom().contains(ids[k]));
            assert(state.relationships.contains((file_id, ids[k])));
        },
        HolderView::Or(ids) => {
            let k = choose|k: int|
                0 <= k < ids.len() && sets.dom().contains(#[trigger] ids[k]) && sets[ids[k]].contains(file_id);
            assert(state.relationships.contains((file_id, ids[k])));
        },
        HolderView::Not(ids) => {},
    }
}

impl DbState {
    /// Whether what memory holds of each tag is what the tables say, of tags that a search can name.
    pub open spec fn memory_coherent(self) -> bool {
        self.memory matches Some(memory) ==> forall|t: u64| #[trigger]
            memory.tag_id.dom().contains(t) ==> memory.tag_id[t] == files_with(self.relationships, t)
                && self.known_sets().dom().contains(t)
    }
}

/// A search finds the same files with the bitmaps in memory and without them, as long as those agree
/// with the tables.
pub proof fn search_does_not_depend_on_memory(state: DbState, searches: Seq<HolderView>)
    requires
        state.memory_coherent(),
    ensures
        state.search_files(searches) == (DbState { memory: None, ..state }).search_files(searches),
{
    let bare = DbState { memory: None, ..state };
    assert(bare.known_sets() =~= state.known_sets());
    if state.answered_from_memory(searches) {
        let sets = state.memory->0.tag_id;
        let known = state.known_sets();
        lemma_same_answers(sets, known, searches);
        assert(state.search_files(searches) =~= bare.search_files(searches));
    }
}

/// A search over tagged files finds the same with the bitmaps in memory and without them, as long as
/// those agree with the tables and every tag in memory exists.
pub proof fn tagged_search_does_not_depend_on_memory(state: DbState, searches: Seq<HolderView>)
    requires
        state.memory_coherent(),
        state.memory matches Some(memory) ==> forall|t: u64| #[trigger]
            memory.tag_id.dom().contains(t) ==> tag_exists(state.tags, t),
    ensures
        state.search_tagged_files(searches) == (DbState { memory: None, ..state }).search_tagged_files(searches),
{
    let bare = DbState { memory: None, ..state };
    if state.answered_from_memory(searches) {
        let sets = state.memory->0.tag_id;
        let ands = and_tags(searches);
        let i = choose|i: int|
            0 <= i < searches.len() && (#[trigger] searches[i]).active(sets) && !(searches[i] is Not);
        assert(searches[i].ids().len() > 0);
        lemma_and_tags_members(searches);
        assert forall|f: u64| meets(sets, searches, f) <==> bare.tables_meet(searches, f) by {
            if meets(sets, searches, f) {
                assert forall|k: int|
                    0 <= k < ands.len() && bare.required(ands, ands[k]) implies bare.relationships.contains(
                    (f, #[trigger] ands[k]),
                ) by {
                    assert(ands.contains(ands[k]));
                    let g = choose|g: int|
                        0 <= g < searches.len() && (#[trigger] searches[g]) is And && searches[g].ids().contains(ands[k]);
                    let m = choose|m: int| 0 <= m < searches[g].ids().len() && searches[g].ids()[m] == ands[k];
                    assert(sets.dom().contains(searches[g].ids()[m]));
                    assert(searches[g].active(sets));
                    assert(searches[g].allows(sets, f));
                    assert(sets[ands[k]].contains(f));
                }
                assert forall|g: int|
                    0 <= g < searches.len() && (#[trigger] searches[g]).ids().len() > 0 && !(
                    searches[g] is And) implies searches[g].allows(all_sets(bare.relationships), f) by {
                    assert(sets.dom().contains(searches[g].ids()[0]));
                    assert(searches[g].active(sets));
                    lemma_same_any(sets, all_sets(bare.relationships), searches[g].ids(), f);
                }
                assert(exists|t: u64| bare.relationships.contains((f, t))) by {
                    assert(searches[i].allows(sets, f));
                    let ids = searches[i].ids();
                    match searches[i] {
                        HolderView::And(_) => {
                            let k = choose|k: int|
                                0 <= k < searches[i].ids().len() && sets.dom().contains(#[trigger] searches[i].ids()[k]);
                            assert(sets.dom().contains(ids[k]));
                            assert(sets[ids[k]].contains(f));
                            assert(bare.relationships.contains((f, ids[k])));
                        },
                        _ => {
                            let k = choose|k: int|
                                0 <= k < ids.len() && sets.dom().contains(#[trigger] ids[k]) && sets[ids[k]].contains(f);
                            assert(bare.relationships.contains((f, ids[k])));
                        },
                    }
                }
            }
            if bare.tables_meet(searches, f) {
                assert forall|g: int| 0 <= g < searches.len() && (#[trigger] searches[g]).active(sets) implies searches[g].allows(
                sets, f) by {
                    let ids = searches[g].ids();
                    match searches[g] {
                        HolderView::And(_) => {
                            assert forall|m: int|
                                0 <= m < ids.len() && sets.dom().contains(#[trigger] ids[m]) implies sets[ids[m]].contains(
                            f) by {
                                assert(searches[g].ids().contains(ids[m]));
                                assert(in_and_group(searches, ids[m]));
                                assert(ands.contains(ids[m]));
                                let k = choose|k: int| 0 <= k < ands.len() && ands[k] == ids[m];
                                assert(bare.required(ands, ands[k]));
                                assert(bare.relationships.contains((f, ands[k])));
                            }
                        },
                        _ => {
                            lemma_same_any(sets, all_sets(bare.relationships), ids, f);
                        },
                    }
                }
            }
        }
        assert(state.search_tagged_files(searches) =~= bare.search_tagged_files(searches));
    } else {
        assert forall|f: u64| state.tables_meet(searches, f) == bare.tables_meet(searches, f) by {
            let ands = and_tags(searches);
            assert forall|id: u64| state.required(ands, id) == bare.required(ands, id) by {}
            if state.tables_meet(searches, f) {
                let t = choose|t: u64| state.relationships.contains((f, t));
                assert(bare.relationships.contains((f, t)));
                assert forall|k: int|
                    0 <= k < ands.len() && bare.required(ands, ands[k]) implies bare.relationships.contains(
                    (f, #[trigger] ands[k]),
                ) by {
                    assert(state.required(ands, ands[k]));
                    assert(state.relationships.contains((f, ands[k])));
                }
            }
            if bare.tables_meet(searches, f) {
                let t = choose|t: u64| bare.relationships.contains((f, t));
                assert(state.relationships.contains((f, t)));
                assert forall|k: int|
                    0 <= k < ands.len() && state.required(ands, ands[k]) implies state.relationships.contains(
                    (f, #[trigger] ands[k]),
                ) by {
                    assert(bare.required(ands, ands[k]));
                    assert(bare.relationships.contains((f, ands[k])));
                }
            }
        }
        assert(state.search_tagged_files(searches) =~= bare.search_tagged_files(searches));
    }
}

/// Whether a group that asks for all its tags names this one.
spec fn in_and_group(searches: Seq<HolderView>, id: u64) -> bool {
    exists|g: int| 0 <= g < searches.len() && (#[trigger] searches[g]) is And && searches[g].ids().contains(id)
}

/// The tags that every file must have are those of the groups that say so.
proof fn lemma_and_tags_members(searches: Seq<HolderView>)
    ensures
        forall|id: u64| #[trigger] and_tags(searches).contains(id) <==> in_and_group(searches, id),
    decreases searches.len(),
{
    if searches.len() > 0 {
        let shorter = searches.drop_last();
        let n = searches.len() - 1;
        lemma_and_tags_members(shorter);
        let before = and_tags(shorter);
        let after = and_tags(searches);
        assert forall|id: u64| #[trigger] after.contains(id) <==> in_and_group(searches, id) by {
            assert(before.contains(id) <==> in_and_group(shorter, id));
            if after.contains(id) {
                let k = choose|k: int| 0 <= k < after.len() && after[k] == id;
                if k < before.len() {
                    assert(before[k] == id);
                    let g = choose|g: int|
                        0 <= g < shorter.len() && (#[trigger] shorter[g]) is And && shorter[g].ids().contains(id);
                    assert(searches[g] == shorter[g]);
                } else {
                    assert(searches[n].ids()[k - before.len()] == id);
                }
            }
            if in_and_group(searches, id) {
                let g = choose|g: int|
                    0 <= g < searches.len() && (#[trigger] searches[g]) is And && searches[g].ids().contains(id);
                if g < n {
                    assert(shorter[g] == searches[g]);
                    let k = choose|k: int| 0 <= k < before.len() && before[k] == id;
                    assert(after[k] == id);
                } else {
                    let m = choose|m: int| 0 <= m < searches[n].ids().len() && searches[n].ids()[m] == id;
                    assert(after[before.len() + m] == id);
                }
            }
        }
    }
}

proof fn lemma_same_any(left: Map<u64, Set<u64>>, right: Map<u64, Set<u64>>, ids: Seq<u64>, file_id: u64)
    requires
        forall|i: int|
            0 <= i < ids.len() ==> left.dom().contains(#[trigger] ids[i]) && right.dom().contains(ids[i])
                && left[ids[i]] == right[ids[i]],
    ensures
        any_has(left, ids, file_id) == any_has(right, ids, file_id),
        all_have(left, ids, file_id) == all_have(right, ids, file_id),
{
    if any_has(left, ids, file_id) {
        let k = choose|k: int|
            0 <= k < ids.len() && left.dom().contains(#[trigger] ids[k]) && left[ids[k]].contains(file_id);
        assert(right.dom().contains(ids[k]) && right[ids[k]].contains(file_id));
    }
    if any_has(right, ids, file_id) {
        let k = choose|k: int|
            0 <= k < ids.len() && right.dom().contains(#[trigger] ids[k]) && right[ids[k]].contains(file_id);
        assert(left.dom().contains(ids[k]) && left[ids[k]].contains(file_id));
    }
    if all_have(left, ids, file_id) {
        assert forall|k: int| 0 <= k < ids.len() && right.dom().contains(#[trigger] ids[k]) implies right[ids[k]].contains(
        file_id) by {
            assert(left.dom().contains(ids[k]));
        }
    }
    if all_have(right, ids, file_id) {
        assert forall|k: int| 0 <= k < ids.len() && left.dom().contains(#[trigger] ids[k]) implies left[ids[k]].contains(
        file_id) by {
            assert(right.dom().contains(ids[k]));
        }
    }
}

proof fn lemma_same_answers(left: Map<u64, Set<u64>>, right: Map<u64, Set<u64>>, searches: Seq<HolderView>)
    requires
        forall|t: u64| #[trigger] left.dom().contains(t) ==> right.dom().contains(t) && left[t] == right[t],
        forall|i: int| 0 <= i < searches.len() ==> (#[trigger] searches[i]).complete(left),
    ensures
        forall|f: u64| meets(left, searches, f) == meets(right, searches, f),
        any_positive(left, searches) == any_positive(right, searches),
        any_active(left, searches) == any_active(right, searches),
{
    assert forall|i: int| 0 <= i < searches.len() implies (#[trigger] searches[i]).active(left) == searches[i].active(
        right,
    ) by {
        assert(searches[i].complete(left));
        if searches[i].active(right) {
            let k = choose|k: int|
                0 <= k < searches[i].ids().len() && right.dom().contains(#[trigger] searches[i].ids()[k]);
            assert(left.dom().contains(searches[i].ids()[k]));
        }
        if searches[i].active(left) {
            let k = choose|k: int|
                0 <= k < searches[i].ids().len() && left.dom().contains(#[trigger] searches[i].ids()[k]);
            assert(right.dom().contains(searches[i].ids()[k]));
        }
    }
    assert forall|f: u64| meets(left, searches, f) == meets(right, searches, f) by {
        assert forall|i: int| 0 <= i < searches.len() implies (#[trigger] searches[i]).allows(left, f)
            == searches[i].allows(right, f) by {
            assert(searches[i].complete(left));
            lemma_same_any(left, right, searches[i].ids(), f);
        }
        if meets(left, searches, f) {
            assert forall|i: int| 0 <= i < searches.len() && (#[trigger] searches[i]).active(right) implies searches[i].allows(
            right, f) by {
                assert(searches[i].active(left));
            }
        }
        if meets(right, searches, f) {
            assert forall|i: int| 0 <= i < searches.len() && (#[trigger] searches[i]).active(left) implies searches[i].allows(
            left, f) by {
                assert(searches[i].active(right));
            }
        }
    }
    if any_positive(left, searches) {
        let i = choose|i: int|
            0 <= i < searches.len() && (#[trigger] searches[i]).active(left) && !(searches[i] is Not);
        assert(searches[i].active(right));
    }
    if any_positive(right, searches) {
        let i = choose|i: int|
            0 <= i < searches.len() && (#[trigger] searches[i]).active(right) && !(searches[i] is Not);
        assert(searches[i].active(left));
    }
    if any_active(left, searches) {
        let i = choose|i: int| 0 <= i < searches.len() && (#[trigger] searches[i]).active(left);
        assert(searches[i].active(right));
    }
    if any_active(right, searches) {
        let i = choose|i: int| 0 <= i < searches.len() && (#[trigger] searches[i]).active(right);
        assert(searches[i].active(left));
    }
}

/// What a search returns under a limit is the beginning of what it returns without one.
pub proof fn limit_gives_the_beginning(limited: Seq<u64>, unlimited: Seq<u64>, files: Set<u64>, limit: u64)
    requires
        newest_first(limited, files, Some(limit)),
        newest_first(unlimited, files, None),
    ensures
        limited.len() == (if limit < unlimited.len() {
            limit as nat
        } else {
            unlimited.len()
        }),
        limited == unlimited.take(limited.len() as int),
{
    let all = choose|all: Seq<u64>| #[trigger] descending_listing(all, files) && limited == page(all, None, Some(limit));
    let other = choose|other: Seq<u64>| #[trigger] descending_listing(other, files) && unlimited == page(other, None, None);
    crate::bitmap_cache::descending_listing_is_unique(all, other, files);
    assert(page(other, None, None) =~= other);
    assert(limited =~= unlimited.take(limited.len() as int));
}

/// Where the cache can be relied on and the tags that it holds exist, a search finds what the tables say.
pub proof fn cached_search_finds_what_the_tables_say(state: DbState, searches: Seq<HolderView>)
    requires
        state.caches_current(),
        !state.roaring_memory_dirty,
        state.memory matches Some(memory) ==> forall|t: u64| #[trigger]
            memory.tag_id.dom().contains(t) ==> tag_exists(state.tags, t),
    ensures
        state.search_files(searches) == (DbState { memory: None, ..state }).search_files(searches),
{
    if let Some(memory) = state.memory {
        assert forall|t: u64| #[trigger] memory.tag_id.dom().contains(t) implies memory.tag_id[t] == files_with(
            state.relationships,
            t,
        ) && state.known_sets().dom().contains(t) by {
            crate::coherence::current_caches_agree(state);
        }
    }
    search_does_not_depend_on_memory(state, searches);
}

/// A search by the tables finds files that exist.
pub proof fn searches_find_existing_files(state: DbState, searches: Seq<HolderView>, file_id: u64)
    requires
        state.consistent(),
        found_files(state.known_sets(), searches, state.all_files()).contains(file_id),
    ensures
        state.all_files().contains(file_id),
{
    if any_positive(state.known_sets(), searches) {
        lemma_positive_is_tagged(state, searches, file_id);
        let t = choose|t: u64| state.relationships.contains((file_id, t));
        assert(state.relationships.contains((file_id, t)));
        crate::text::lemma_pos(file_ids(state.files), file_id);
        assert(file_ids(state.files).contains(file_id));
    }
}

/// The same groups in another order are the same groups.
proof fn lemma_same_groups(one: Seq<HolderView>, other: Seq<HolderView>)
    requires
        one.to_multiset() == other.to_multiset(),
    ensures
        forall|i: int| 0 <= i < one.len() ==> other.contains(#[trigger] one[i]),
{
    one.to_multiset_ensures();
    other.to_multiset_ensures();
    assert forall|i: int| 0 <= i < one.len() implies other.contains(#[trigger] one[i]) by {
        assert(one.contains(one[i]));
        assert(other.to_multiset().count(one[i]) > 0);
    }
}

/// What one order of the groups finds, another does.
proof fn lemma_order_of_groups(sets: Map<u64, Set<u64>>, one: Seq<HolderView>, other: Seq<HolderView>)
    requires
        one.to_multiset() == other.to_multiset(),
    ensures
        any_active(sets, one) ==> any_active(sets, other),
        any_positive(sets, one) ==> any_positive(sets, other),
        forall|f: u64| #[trigger] meets(sets, other, f) ==> meets(sets, one, f),
        (forall|i: int| 0 <= i < other.len() ==> (#[trigger] other[i]).complete(sets)) ==> (forall|i: int|
            0 <= i < one.len() ==> (#[trigger] one[i]).complete(sets)),
{
    lemma_same_groups(one, other);
    if any_active(sets, one) {
        let i = choose|i: int| 0 <= i < one.len() && (#[trigger] one[i]).active(sets);
        let k = choose|k: int| 0 <= k < other.len() && other[k] == one[i];
        assert(other[k].active(sets));
    }
    if any_positive(sets, one) {
        let i = choose|i: int| 0 <= i < one.len() && (#[trigger] one[i]).active(sets) && !(one[i] is Not);
        let k = choose|k: int| 0 <= k < other.len() && other[k] == one[i];
        assert(other[k].active(sets));
    }
    assert forall|f: u64| #[trigger] meets(sets, other, f) implies meets(sets, one, f) by {
        assert forall|i: int| 0 <= i < one.len() && (#[trigger] one[i]).active(sets) implies one[i].allows(sets, f) by {
            let k = choose|k: int| 0 <= k < other.len() && other[k] == one[i];
            assert(other[k].active(sets));
        }
    }
    if forall|i: int| 0 <= i < other.len() ==> (#[trigger] other[i]).complete(sets) {
        assert forall|i: int| 0 <= i < one.len() implies (#[trigger] one[i]).complete(sets) by {
            let k = choose|k: int| 0 <= k < other.len() && other[k] == one[i];
            assert(other[k].complete(sets));
        }
    }
}

/// The order of the groups of a search does not matter.
pub proof fn group_order_does_not_matter(state: DbState, one: Seq<HolderView>, other: Seq<HolderView>)
    requires
        one.to_multiset() == other.to_multiset(),
    ensures
        state.search_files(one) == state.search_files(other),
{
    let sets = if state.memory is Some {
        state.memory->0.tag_id
    } else {
        Map::empty()
    };
    lemma_order_of_groups(sets, one, other);
    lemma_order_of_groups(sets, other, one);
    lemma_order_of_groups(state.known_sets(), one, other);
    lemma_order_of_groups(state.known_sets(), other, one);
    assert(state.search_files(one) =~= state.search_files(other));
}

/// Whether a file meets a group, by the relationships. A group without tags sets no condition.
pub open spec fn group_holds(relationships: Set<(u64, u64)>, group: HolderView, file_id: u64) -> bool {
    match group {
        HolderView::And(ids) => forall|i: int|
            0 <= i < ids.len() ==> relationships.contains((file_id, #[trigger] ids[i])),
        HolderView::Or(ids) => ids.len() == 0 || exists|i: int|
            0 <= i < ids.len() && relationships.contains((file_id, #[trigger] ids[i])),
        HolderView::Not(ids) => forall|i: int|
            0 <= i < ids.len() ==> !relationships.contains((file_id, #[trigger] ids[i])),
    }
}

/// Where all tags that a search names exist and it asks for one, it finds the files that have every tag of each
/// and-group, one of each or-group, and none of the not-groups.
pub proof fn searches_find_what_every_group_allows(state: DbState, searches: Seq<HolderView>, file_id: u64)
    requires
        state.memory_coherent(),
        forall|i: int, k: int|
            #![trigger searches[i].ids()[k]]
            0 <= i < searches.len() && 0 <= k < searches[i].ids().len() ==> tag_exists(state.tags, searches[i].ids()[k]),
        exists|i: int| 0 <= i < searches.len() && (#[trigger] searches[i]).ids().len() > 0 && !(searches[i] is Not),
    ensures
        state.search_files(searches).contains(file_id) <==> forall|i: int|
            0 <= i < searches.len() ==> group_holds(state.relationships, #[trigger] searches[i], file_id),
{
    search_does_not_depend_on_memory(state, searches);
    let bare = DbState { memory: None, ..state };
    let sets = bare.known_sets();
    assert(bare.search_files(searches) == found_files(sets, searches, bare.all_files()));
    assert forall|i: int| 0 <= i < searches.len() && (#[trigger] searches[i]).ids().len() > 0 implies searches[i].active(
        sets,
    ) by {
        assert(sets.dom().contains(searches[i].ids()[0]));
    }
    let p = choose|p: int| 0 <= p < searches.len() && (#[trigger] searches[p]).ids().len() > 0 && !(searches[p] is Not);
    assert(searches[p].active(sets));
    assert(any_positive(sets, searches));
    assert forall|i: int| 0 <= i < searches.len() implies ((#[trigger] searches[i]).active(sets)
        ==> searches[i].allows(sets, file_id)) == group_holds(state.relationships, searches[i], file_id) by {
        let ids = searches[i].ids();
        assert forall|k: int| 0 <= k < ids.len() implies sets.dom().contains(#[trigger] ids[k]) && sets[ids[k]].contains(
            file_id,
        ) == state.relationships.contains((file_id, ids[k])) by {
            assert(tag_exists(state.tags, searches[i].ids()[k]));
        }
        match searches[i] {
            HolderView::And(list) => {
                assert(list == ids);
                if group_holds(state.relationships, searches[i], file_id) {
                    assert(all_have(sets, ids, file_id));
                }
                if ids.len() > 0 && all_have(sets, ids, file_id) {
                    assert forall|k: int| 0 <= k < ids.len() implies state.relationships.contains(
                        (file_id, #[trigger] ids[k]),
                    ) by {
                        assert(sets.dom().contains(ids[k]));
                    }
                }
            },
            HolderView::Or(list) => {
                assert(list == ids);
                if any_has(sets, ids, file_id) {
                    let k = choose|k: int|
                        0 <= k < ids.len() && sets.dom().contains(#[trigger] ids[k]) && sets[ids[k]].contains(file_id);
                    assert(state.relationships.contains((file_id, ids[k])));
                }
                if ids.len() > 0 && group_holds(state.relationships, searches[i], file_id) {
                    let k = choose|k: int| 0 <= k < ids.len() && state.relationships.contains((file_id, #[trigger] ids[k]));
                    assert(sets.dom().contains(ids[k]));
                }
            },
            HolderView::Not(list) => {
                assert(list == ids);
                if any_has(sets, ids, file_id) {
                    let k = choose|k: int|
                        0 <= k < ids.len() && sets.dom().contains(#[trigger] ids[k]) && sets[ids[k]].contains(file_id);
                    assert(state.relationships.contains((file_id, ids[k])));
                }
                if ids.len() > 0 && !group_holds(state.relationships, searches[i], file_id) {
                    let k = choose|k: int| 0 <= k < ids.len() && state.relationships.contains((file_id, #[trigger] ids[k]));
                    assert(sets.dom().contains(ids[k]));
                }
            },
        }
    }
}

} // verus!
