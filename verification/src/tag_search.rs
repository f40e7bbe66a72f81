//! Searching tags by name, and files by the names of their tags.
use crate::database::{MainDatabase, TagHit};
use crate::search::newest_first;
use crate::text::views;
use crate::types::{HolderView, SearchHolder, SearchObj, TagSearch};
use vstd::prelude::*;

verus! {

/// A hit of a tag search with its rank: the lower, the better.
#[derive(Debug, Clone)]
pub struct RankedTag {
    pub rank: u64,
    pub hit: TagSearch,
}

/// The view of a [`RankedTag`].
pub struct RankedHit {
    pub rank: u64,
    pub hit: TagHit,
}

impl View for RankedTag {
    type V = RankedHit;

    open spec fn view(&self) -> RankedHit {
        RankedHit { rank: self.rank, hit: self.hit@ }
    }
}

/// Whether one of the hits is this tag.
pub open spec fn hits_tag(hits: Seq<RankedHit>, tag_id: u64) -> bool {
    exists|i: int| 0 <= i < hits.len() && (#[trigger] hits[i]).hit.tag_id == tag_id
}

/// Hits with more hits added, as far as their tags are not there yet.
pub open spec fn merged_hits(hits: Seq<RankedHit>, more: Seq<RankedHit>) -> Seq<RankedHit>
    decreases more.len(),
{
    if more.len() == 0 {
        hits
    } else {
        let before = merged_hits(hits, more.drop_last());
        if hits_tag(before, more.last().hit.tag_id) {
            before
        } else {
            before.push(more.last())
        }
    }
}

/// The first hits, each tag once, and no more than `most`.
pub open spec fn first_hits(hits: Seq<RankedHit>, most: nat) -> Seq<RankedHit> {
    let once = merged_hits(Seq::empty(), hits);
    once.take(
        if most < once.len() {
            most as int
        } else {
            once.len() as int
        },
    )
}

/// Whether no tag is hit twice.
pub open spec fn distinct_ranked(hits: Seq<RankedHit>) -> bool {
    forall|i: int, k: int|
        0 <= i < k < hits.len() ==> (#[trigger] hits[i]).hit.tag_id != (#[trigger] hits[k]).hit.tag_id
}

/// Whether no tag is hit twice.
pub open spec fn distinct_hits(hits: Seq<TagHit>) -> bool {
    forall|i: int, k: int| 0 <= i < k < hits.len() ==> (#[trigger] hits[i]).tag_id != (#[trigger] hits[k]).tag_id
}

/// The hits without their ranks.
pub open spec fn plain_hits(hits: Seq<RankedHit>) -> Seq<TagHit> {
    Seq::new(hits.len(), |i: int| hits[i].hit)
}

/// Whether hits are in the order of their ranks.
pub open spec fn by_rank(hits: Seq<RankedHit>) -> bool {
    forall|i: int, j: int| 0 <= i < j < hits.len() ==> (#[trigger] hits[i]).rank <= (#[trigger] hits[j]).rank
}

/// Whether `result` is the best of the hits, in order, and no more than `most`.
pub open spec fn best_hits(result: Seq<TagHit>, hits: Seq<RankedHit>, most: nat) -> bool {
    exists|all: Seq<RankedHit>| #[trigger]
        by_rank(all) && all.to_multiset() == hits.to_multiset() && result == plain_hits(all).take(
            if most < all.len() {
                most as int
            } else {
                all.len() as int
            },
        )
}

/// How many hits a tag search returns: ten where nothing else is asked for.
pub open spec fn most_hits(limit: Option<u64>) -> u64 {
    match limit {
        Some(most) => most,
        None => 10,
    }
}

fn insert_by_rank(hits: &mut Vec<RankedTag>, hit: RankedTag)
    requires
        by_rank(views(old(hits)@)),
    ensures
        by_rank(views(final(hits)@)),
        views(final(hits)@).to_multiset() == views(old(hits)@).to_multiset().insert(hit@),
{
    let ghost before = views(hits@);
    let ghost new = hit@;
    let mut at: usize = hits.len();
    while at > 0 && hits[at - 1].rank > hit.rank
        invariant
            at <= hits.len(),
            before == views(hits@),
            forall|k: int| at <= k < before.len() ==> hit.rank <= (#[trigger] before[k]).rank,
        decreases at,
    {
        assert(before[at - 1] == hits@[at - 1]@);
        at -= 1;
    }
    hits.insert(at, hit);
    proof {
        assert(views(hits@) =~= before.insert(at as int, new));
        vstd::seq_lib::to_multiset_insert(before, at as int, new);
        let after = views(hits@);
        assert forall|i: int, j: int| 0 <= i < j < after.len() implies (#[trigger] after[i]).rank <= (
        #[trigger] after[j]).rank by {
            if j < at {
                assert(after[i] == before[i] && after[j] == before[j]);
            } else if j == at {
                assert(after[i] == before[i]);
                if i < at - 1 {
                    assert(before[i].rank <= before[at - 1].rank);
                }
            } else if i == at {
                assert(after[j] == before[j - 1]);
            } else if i < at {
                assert(after[i] == before[i] && after[j] == before[j - 1]);
            } else {
                assert(after[i] == before[i - 1] && after[j] == before[j - 1]);
            }
        }
    }
}

fn hit_copy(hit: &TagSearch) -> (copy: TagSearch)
    ensures
        copy@ == hit@,
{
    TagSearch { tag_id: hit.tag_id, name: hit.name.clone(), count: hit.count }
}

fn holds_hit(hits: &Vec<RankedTag>, tag_id: u64) -> (found: bool)
    ensures
        found == hits_tag(views(hits@), tag_id),
{
    let mut i: usize = 0;
    while i < hits.len()
        invariant
            i <= hits.len(),
            forall|k: int| 0 <= k < i ==> (#[trigger] views(hits@)[k]).hit.tag_id != tag_id,
        decreases hits.len() - i,
    {
        if hits[i].hit.tag_id == tag_id {
            assert(views(hits@)[i as int].hit.tag_id == tag_id);
            return true;
        }
        i += 1;
    }
    false
}

fn strip(hits: &Vec<RankedTag>, most: usize) -> (plain: Vec<TagSearch>)
    ensures
        views(plain@) == plain_hits(views(hits@)).take(
            if most < hits.len() {
                most as int
            } else {
                hits.len() as int
            },
        ),
        plain@.len() <= most,
{
    let mut plain: Vec<TagSearch> = Vec::new();
    let mut i: usize = 0;
    while i < hits.len() && i < most
        invariant
            i <= hits.len(),
            i <= most,
            plain@.len() == i,
            forall|k: int| 0 <= k < i ==> (#[trigger] plain@[k])@ == hits@[k].hit@,
        decreases hits.len() - i,
    {
        plain.push(hit_copy(&hits[i].hit));
        i += 1;
    }
    assert(views(plain@) =~= plain_hits(views(hits@)).take(i as int));
    plain
}

/// Numbers of several lists, one list after the other.
pub open spec fn flattened(lists: Seq<Seq<u64>>) -> Seq<u64>
    decreases lists.len(),
{
    if lists.len() == 0 {
        Seq::empty()
    } else {
        flattened(lists.drop_last()) + lists.last()
    }
}

/// Whether a name of a tag could not be resolved: there is no tag for it.
pub open spec fn any_unresolved(names: Seq<Seq<u64>>) -> bool {
    exists|i: int| 0 <= i < names.len() && (#[trigger] names[i]).len() == 0
}

/// The search that groups of tags and of resolved names ask for; `None` where a name that must be
/// there could not be resolved, or no name of those of which one must be there.
///
/// A resolved name is the list of the tags that answer to it.
pub open spec fn grouped_search(
    and_ids: Seq<u64>,
    and_tags: Seq<Seq<u64>>,
    or_ids: Seq<u64>,
    or_tags: Seq<Seq<u64>>,
    not_ids: Seq<u64>,
    not_tags: Seq<Seq<u64>>,
) -> Option<Seq<HolderView>> {
    let required = Seq::new(and_ids.len(), |i: int| HolderView::And(seq![and_ids[i]])) + Seq::new(
        and_tags.len(),
        |i: int| HolderView::Or(and_tags[i]),
    );
    let either = or_ids + flattened(or_tags);
    let against = not_ids + flattened(not_tags);
    if any_unresolved(and_tags) || (or_tags.len() > 0 && either.len() == 0) {
        None
    } else {
        Some(
            required + (if either.len() > 0 {
                seq![HolderView::Or(either)]
            } else {
                Seq::empty()
            }) + (if against.len() > 0 {
                seq![HolderView::Not(against)]
            } else {
                Seq::empty()
            }),
        )
    }
}

fn append_all(list: &mut Vec<u64>, lists: &Vec<Vec<u64>>)
    ensures
        final(list)@ == old(list)@ + flattened(views(lists@)),
{
    let ghost before = list@;
    let ghost all = views(lists@);
    let mut i: usize = 0;
    assert(all.take(0) =~= Seq::<Seq<u64>>::empty());
    assert(before + flattened(all.take(0)) =~= before);
    while i < lists.len()
        invariant
            i <= lists.len(),
            all == views(lists@),
            list@ == before + flattened(all.take(i as int)),
        decreases lists.len() - i,
    {
        let ghost part = list@;
        let mut k: usize = 0;
        assert(part + lists@[i as int]@.take(0) =~= part);
        while k < lists[i].len()
            invariant
                i < lists.len(),
                k <= lists@[i as int].len(),
                list@ == part + lists@[i as int]@.take(k as int),
            decreases lists@[i as int].len() - k,
        {
            list.push(lists[i][k]);
            k += 1;
            assert(list@ =~= part + lists@[i as int]@.take(k as int));
        }
        proof {
            assert(lists@[i as int]@.take(k as int) =~= all[i as int]);
            assert(all.take(i + 1).drop_last() =~= all.take(i as int));
            assert(list@ =~= before + flattened(all.take(i + 1)));
        }
        i += 1;
    }
    assert(all.take(i as int) =~= all);
}

/// Builds the search that groups of tags and of resolved names ask for.
pub fn build_grouped_search(
    and_ids: &Vec<u64>,
    and_tags: &Vec<Vec<u64>>,
    or_ids: &Vec<u64>,
    or_tags: &Vec<Vec<u64>>,
    not_ids: &Vec<u64>,
    not_tags: &Vec<Vec<u64>>,
) -> (search: Option<SearchObj>)
    ensures
        ({
            let wanted = grouped_search(
                and_ids@,
                views(and_tags@),
                or_ids@,
                views(or_tags@),
                not_ids@,
                views(not_tags@),
            );
            match search {
                Some(found) => wanted == Some(views(found.searches@)),
                None => wanted is None,
            }
        }),
{
    let mut searches: Vec<SearchHolder> = Vec::new();
    let mut i: usize = 0;
    while i < and_ids.len()
        invariant
            i <= and_ids.len(),
            searches@.len() == i,
            forall|k: int| 0 <= k < i ==> (#[trigger] searches@[k])@ == HolderView::And(seq![and_ids@[k]]),
        decreases and_ids.len() - i,
    {
        let mut one: Vec<u64> = Vec::new();
        one.push(and_ids[i]);
        assert(one@ =~= seq![and_ids@[i as int]]);
        searches.push(SearchHolder::And(one));
        i += 1;
    }
    let mut k: usize = 0;
    while k < and_tags.len()
        invariant
            k <= and_tags.len(),
            searches@.len() == and_ids.len() + k,
            !any_unresolved(views(and_tags@).take(k as int)),
            forall|j: int|
                0 <= j < and_ids.len() ==> (#[trigger] searches@[j])@ == HolderView::And(seq![and_ids@[j]]),
            forall|j: int|
                and_ids.len() <= j < searches@.len() ==> (#[trigger] searches@[j])@ == HolderView::Or(
                    and_tags@[j - and_ids.len()]@,
                ),
        decreases and_tags.len() - k,
    {
        if and_tags[k].is_empty() {
            assert(views(and_tags@)[k as int].len() == 0);
            return None;
        }
        proof {
            let longer = views(and_tags@).take(k + 1);
            assert forall|j: int| 0 <= j < longer.len() implies (#[trigger] longer[j]).len() != 0 by {
                if j < k {
                    assert(views(and_tags@).take(k as int)[j] == longer[j]);
                }
            }
        }
        searches.push(SearchHolder::Or(crate::text::numbers_copy(&and_tags[k])));
        k += 1;
    }
    proof {
        assert(views(and_tags@).take(k as int) =~= views(and_tags@));
    }
    let ghost required = views(searches@);
    let mut either = crate::text::numbers_copy(or_ids);
    append_all(&mut either, or_tags);
    if !or_tags.is_empty() && either.is_empty() {
        return None;
    }
    let mut against = crate::text::numbers_copy(not_ids);
    append_all(&mut against, not_tags);
    let ghost e = either@;
    let ghost a = against@;
    if !either.is_empty() {
        searches.push(SearchHolder::Or(either));
    }
    let ghost middle = views(searches@);
    if !against.is_empty() {
        searches.push(SearchHolder::Not(against));
    }
    proof {
        let first = Seq::new(and_ids@.len(), |i: int| HolderView::And(seq![and_ids@[i]])) + Seq::new(
            views(and_tags@).len(),
            |i: int| HolderView::Or(views(and_tags@)[i]),
        );
        assert(required =~= first);
        assert(middle =~= first + (if e.len() > 0 {
            seq![HolderView::Or(e)]
        } else {
            Seq::empty()
        }));
        assert(views(searches@) =~= middle + (if a.len() > 0 {
            seq![HolderView::Not(a)]
        } else {
            Seq::empty()
        }));
    }
    Some(SearchObj { search_relate: None, searches })
}

impl MainDatabase {
    /// The tags that a tag search finds, best first.
    ///
    /// `cached` are the hits among the tags held in memory, `candidates` those in the table, where
    /// it could be asked. The table is not needed while memory holds every tag and nothing has changed.
    pub fn search_db_tags_fts(
        &self,
        limit: &Option<u64>,
        cached: &Vec<RankedTag>,
        candidates: &Option<Vec<RankedTag>>,
    ) -> (hits: Vec<TagSearch>)
        ensures
            hits@.len() <= most_hits(*limit),
            distinct_hits(views(hits@)),
            (self@.tag_search_cache.complete && !self@.tag_search_dirty) || candidates is None ==> views(hits@)
                == plain_hits(first_hits(views(cached@), most_hits(*limit) as nat)),
            !(self@.tag_search_cache.complete && !self@.tag_search_dirty) && candidates is Some ==> best_hits(
                views(hits@),
                merged_hits(first_hits(views(cached@), most_hits(*limit) as nat), views(candidates->0@)),
                most_hits(*limit) as nat,
            ),
    {
        let most: u64 = limit.unwrap_or(10);
        let first = shortlist(cached, most);
        proof {
            lemma_merged_distinct(Seq::empty(), views(cached@));
        }
        if let Some(more) = candidates {
            if !(self.tag_search_cache.complete && !self.tag_search_dirty) {
                return merge_hits(first, more, most);
            }
        }
        let plain = strip(&first, first.len());
        assert(plain_hits(views(first@)).take(first.len() as int) =~= plain_hits(views(first@)));
        plain
    }

    /// The files that have tags with each of these names, newest first. A name is given by the tags
    /// that answer to it.
    pub fn search_db_files_by_tags_sync(&mut self, tags: &Vec<Vec<u64>>, limit: &Option<u64>) -> (files: Vec<u64>)
        ensures
            match grouped_search(
                Seq::empty(),
                views(tags@),
                Seq::empty(),
                Seq::empty(),
                Seq::empty(),
                Seq::empty(),
            ) {
                Some(searches) => final(self)@ == old(self)@.refreshed() && newest_first(
                    files@,
                    final(self)@.search_files(searches),
                    *limit,
                ),
                None => final(self)@ == old(self)@ && files@.len() == 0,
            },
    {
        let none: Vec<u64> = Vec::new();
        let no_names: Vec<Vec<u64>> = Vec::new();
        assert(none@ =~= Seq::<u64>::empty());
        assert(views(no_names@) =~= Seq::<Seq<u64>>::empty());
        self.search_db_files_by_tag_groups_sync(&none, tags, &none, &no_names, &none, &no_names, limit)
    }

    /// The files that meet groups of tags and of names of tags, newest first. A name is given by the
    /// tags that answer to it.
    pub fn search_db_files_by_tag_groups_sync(
        &mut self,
        and_ids: &Vec<u64>,
        and_tags: &Vec<Vec<u64>>,
        or_ids: &Vec<u64>,
        or_tags: &Vec<Vec<u64>>,
        not_ids: &Vec<u64>,
        not_tags: &Vec<Vec<u64>>,
        limit: &Option<u64>,
    ) -> (files: Vec<u64>)
        ensures
            match grouped_search(
                and_ids@,
                views(and_tags@),
                or_ids@,
                views(or_tags@),
                not_ids@,
                views(not_tags@),
            ) {
                Some(searches) => final(self)@ == old(self)@.refreshed() && newest_first(
                    files@,
                    final(self)@.search_files(searches),
                    *limit,
                ),
                None => final(self)@ == old(self)@ && files@.len() == 0,
            },
    {
        match build_grouped_search(and_ids, and_tags, or_ids, or_tags, not_ids, not_tags) {
            Some(search) => self.search_db_files_human_sync(&search, limit),
            None => Vec::new(),
        }
    }
}

/// Adds hits to others, as far as their tags are not there yet.
fn merge_into(merged: &mut Vec<RankedTag>, more: &Vec<RankedTag>)
    ensures
        views(final(merged)@) == merged_hits(views(old(merged)@), views(more@)),
{
    let ghost start = views(merged@);
    let ghost extra = views(more@);
    let mut k: usize = 0;
    assert(extra.take(0) =~= Seq::<RankedHit>::empty());
    while k < more.len()
        invariant
            k <= more.len(),
            extra == views(more@),
            views(merged@) == merged_hits(start, extra.take(k as int)),
        decreases more.len() - k,
    {
        proof {
            assert(extra.take(k + 1).drop_last() =~= extra.take(k as int));
            assert(extra.take(k + 1).last() == more@[k as int]@);
        }
        if !holds_hit(merged, more[k].hit.tag_id) {
            let ghost before = views(merged@);
            merged.push(RankedTag { rank: more[k].rank, hit: hit_copy(&more[k].hit) });
            assert(views(merged@) =~= before.push(extra[k as int]));
        }
        k += 1;
    }
    assert(extra.take(k as int) =~= extra);
}

/// The first hits, each tag once.
fn shortlist(cached: &Vec<RankedTag>, most: u64) -> (hits: Vec<RankedTag>)
    ensures
        views(hits@) == first_hits(views(cached@), most as nat),
{
    let mut hits: Vec<RankedTag> = Vec::new();
    assert(views(hits@) =~= Seq::<RankedHit>::empty());
    merge_into(&mut hits, cached);
    let ghost all = views(hits@);
    if most < hits.len() as u64 {
        hits.truncate(most as usize);
    }
    assert(views(hits@) =~= first_hits(views(cached@), most as nat));
    hits
}

/// Merging keeps the tags of the hits apart.
proof fn lemma_merged_distinct(hits: Seq<RankedHit>, more: Seq<RankedHit>)
    requires
        distinct_ranked(hits),
    ensures
        distinct_ranked(merged_hits(hits, more)),
    decreases more.len(),
{
    if more.len() > 0 {
        lemma_merged_distinct(hits, more.drop_last());
        let before = merged_hits(hits, more.drop_last());
        let after = merged_hits(hits, more);
        assert forall|i: int, k: int| 0 <= i < k < after.len() implies (#[trigger] after[i]).hit.tag_id != (
        #[trigger] after[k]).hit.tag_id by {
            if k < before.len() {
                assert(before[i].hit.tag_id != before[k].hit.tag_id);
            } else {
                assert(before[i].hit.tag_id != more.last().hit.tag_id);
            }
        }
    }
}

/// The same hits in another order are as distinct.
proof fn lemma_reordered_distinct(hits: Seq<RankedHit>, other: Seq<RankedHit>)
    requires
        distinct_ranked(hits),
        hits.to_multiset() == other.to_multiset(),
    ensures
        distinct_ranked(other),
{
    assert forall|i: int, k: int| 0 <= i < hits.len() && 0 <= k < hits.len() && i != k implies hits[i] != hits[k] by {
        if i < k {
            assert(hits[i].hit.tag_id != hits[k].hit.tag_id);
        } else {
            assert(hits[k].hit.tag_id != hits[i].hit.tag_id);
        }
    }
    hits.lemma_multiset_has_no_duplicates();
    other.lemma_multiset_has_no_duplicates_conv();
    hits.to_multiset_ensures();
    other.to_multiset_ensures();
    assert forall|i: int, k: int| 0 <= i < k < other.len() implies (#[trigger] other[i]).hit.tag_id != (
    #[trigger] other[k]).hit.tag_id by {
        assert(other.contains(other[i]) && other.contains(other[k]));
        assert(other.to_multiset().count(other[i]) > 0 && other.to_multiset().count(other[k]) > 0);
        assert(hits.to_multiset().count(other[i]) > 0 && hits.to_multiset().count(other[k]) > 0);
        assert(hits.contains(other[i]) && hits.contains(other[k]));
        let a = choose|a: int| 0 <= a < hits.len() && hits[a] == other[i];
        let b = choose|b: int| 0 <= b < hits.len() && hits[b] == other[k];
        assert(other[i] != other[k]);
        if a < b {
            assert(hits[a].hit.tag_id != hits[b].hit.tag_id);
        } else {
            assert(hits[b].hit.tag_id != hits[a].hit.tag_id);
        }
    }
}

/// The best of some hits and of more hits.
fn merge_hits(first: Vec<RankedTag>, more: &Vec<RankedTag>, most: u64) -> (hits: Vec<TagSearch>)
    requires
        distinct_ranked(views(first@)),
    ensures
        best_hits(views(hits@), merged_hits(views(first@), views(more@)), most as nat),
        distinct_hits(views(hits@)),
        hits@.len() <= most,
{
    let mut merged = first;
    merge_into(&mut merged, more);
    proof {
        lemma_merged_distinct(views(first@), views(more@));
    }
    let ghost all = views(merged@);
    let mut sorted: Vec<RankedTag> = Vec::new();
    let mut n: usize = 0;
    assert(views(sorted@) =~= all.take(0));
    while n < merged.len()
        invariant
            n <= merged.len(),
            all == views(merged@),
            all == merged_hits(views(first@), views(more@)),
            distinct_ranked(all),
            by_rank(views(sorted@)),
            views(sorted@).to_multiset() == all.take(n as int).to_multiset(),
        decreases merged.len() - n,
    {
        let hit = RankedTag { rank: merged[n].rank, hit: hit_copy(&merged[n].hit) };
        proof {
            assert(hit@ == all[n as int]);
            assert(all.take(n + 1) =~= all.take(n as int).push(all[n as int]));
            vstd::seq_lib::to_multiset_build(all.take(n as int), all[n as int]);
        }
        insert_by_rank(&mut sorted, hit);
        n += 1;
    }
    assert(all.take(n as int) =~= all);
    let ghost order = views(sorted@);
    assert(by_rank(order));
    proof {
        lemma_reordered_distinct(all, order);
        assert forall|i: int, k: int| 0 <= i < k < order.len() implies (#[trigger] plain_hits(order)[i]).tag_id != (
        #[trigger] plain_hits(order)[k]).tag_id by {
            assert(order[i].hit.tag_id != order[k].hit.tag_id);
        }
    }
    if most < sorted.len() as u64 {
        strip(&sorted, most as usize)
    } else {
        let hits = strip(&sorted, sorted.len());
        assert(views(hits@) == plain_hits(order).take(order.len() as int));
        hits
    }
}

} // verus!
