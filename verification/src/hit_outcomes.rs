//! What a tag search shows, told by the rows and the candidates that it had.
use crate::bitmap::descending_listing;
use crate::bitmap_cache::page;
use crate::cache::{most_popular, ranked, ranks_before, tag_hit, tag_hits};
use crate::database::TagHit;
use crate::rows::TagRec;
use crate::tag_search::{RankedHit, best_hits, by_rank, distinct_ranked, first_hits, hits_tag, merged_hits, plain_hits};
use vstd::prelude::*;

verus! {

/// Whether a hit tells the id, the name and the count of one of the rows.
pub open spec fn tells_a_row(rows: Seq<TagRec>, hit: TagHit) -> bool {
    exists|k: int|
        0 <= k < rows.len() && (#[trigger] rows[k]).id == hit.tag_id && rows[k].name == hit.name && rows[k].count
            == hit.count
}

/// Whether one of the hits tells a row.
pub open spec fn told(hits: Seq<TagHit>, row: TagRec) -> bool {
    exists|i: int|
        0 <= i < hits.len() && (#[trigger] hits[i]).tag_id == row.id && hits[i].name == row.name && hits[i].count
            == row.count
}

/// Whether a hit stands among ranked hits with this rank.
pub open spec fn has_rank(hits: Seq<RankedHit>, hit: TagHit, rank: u64) -> bool {
    exists|k: int| 0 <= k < hits.len() && (#[trigger] hits[k]).hit == hit && hits[k].rank == rank
}

/// Whether a hit stands among ranked hits.
pub open spec fn stands_among(hits: Seq<RankedHit>, hit: TagHit) -> bool {
    exists|k: int| 0 <= k < hits.len() && (#[trigger] hits[k]).hit == hit
}

/// Whether a hit stands at a position as the first of its tag.
pub open spec fn first_of_its_tag(hits: Seq<RankedHit>, k: int) -> bool {
    &&& 0 <= k < hits.len()
    &&& forall|j: int| 0 <= j < k ==> (#[trigger] hits[j]).hit.tag_id != hits[k].hit.tag_id
}

/// Whether a hit is one of the hits, and the first of its tag.
pub open spec fn comes_first(hits: Seq<RankedHit>, hit: RankedHit) -> bool {
    exists|k: int| #[trigger] first_of_its_tag(hits, k) && hits[k] == hit
}

proof fn lemma_same_items<T>(left: Seq<T>, right: Seq<T>)
    requires
        left.to_multiset() == right.to_multiset(),
    ensures
        left.len() == right.len(),
        forall|x: T| left.contains(x) <==> #[trigger] right.contains(x),
{
    left.to_multiset_ensures();
    right.to_multiset_ensures();
    assert forall|x: T| left.contains(x) <==> #[trigger] right.contains(x) by {
        assert(left.contains(x) <==> left.to_multiset().count(x) > 0);
        assert(right.contains(x) <==> right.to_multiset().count(x) > 0);
    }
}

/// The most popular tags are rows of the table, the more frequent first and the older first among
/// equally frequent ones; there are as many as the limit allows, and no tag that was left out is
/// more frequent than one that was not.
pub proof fn popular_tags_are_the_most_frequent(entries: Seq<TagHit>, rows: Seq<TagRec>, limit: nat)
    requires
        most_popular(entries, rows, limit),
    ensures
        limit >= rows.len() ==> entries.len() == rows.len(),
        limit < rows.len() ==> entries.len() == limit,
        forall|i: int| 0 <= i < entries.len() ==> tells_a_row(rows, #[trigger] entries[i]),
        forall|i: int, j: int|
            0 <= i < j < entries.len() ==> (#[trigger] entries[i]).count >= (#[trigger] entries[j]).count,
        forall|i: int, j: int|
            0 <= i < j < entries.len() && (#[trigger] entries[i]).count == (#[trigger] entries[j]).count
                ==> entries[i].tag_id <= entries[j].tag_id,
        forall|k: int, i: int|
            0 <= k < rows.len() && 0 <= i < entries.len() ==> told(entries, #[trigger] rows[k]) || (
            #[trigger] entries[i]).count >= rows[k].count,
        limit >= rows.len() ==> forall|k: int| 0 <= k < rows.len() ==> told(entries, #[trigger] rows[k]),
{
    let all = choose|all: Seq<TagHit>| #[trigger]
        ranked(all) && all.to_multiset() == tag_hits(rows).to_multiset() && entries == all.take(
            if limit < all.len() {
                limit as int
            } else {
                all.len() as int
            },
        );
    lemma_same_items(all, tag_hits(rows));
    assert forall|i: int| 0 <= i < entries.len() implies tells_a_row(rows, #[trigger] entries[i]) by {
        assert(all[i] == entries[i]);
        assert(tag_hits(rows).contains(all[i]));
        let k = choose|k: int| 0 <= k < tag_hits(rows).len() && tag_hits(rows)[k] == all[i];
        assert(rows[k].id == entries[i].tag_id);
    }
    assert forall|i: int, j: int| 0 <= i < j < entries.len() implies ranks_before(
        #[trigger] entries[i],
        #[trigger] entries[j],
    ) by {
        assert(all[i] == entries[i] && all[j] == entries[j]);
    }
    assert forall|k: int| 0 <= k < rows.len() implies told(entries, #[trigger] rows[k]) || (entries.len()
        < all.len() && forall|i: int| 0 <= i < entries.len() ==> (#[trigger] entries[i]).count >= rows[k].count) by {
        assert(tag_hits(rows)[k] == tag_hit(rows[k]));
        assert(tag_hits(rows).contains(tag_hit(rows[k])));
        assert(all.contains(tag_hit(rows[k])));
        let m = choose|m: int| 0 <= m < all.len() && all[m] == tag_hit(rows[k]);
        if m < entries.len() {
            assert(entries[m] == all[m]);
            assert(told(entries, rows[k]));
        } else {
            assert forall|i: int| 0 <= i < entries.len() implies (#[trigger] entries[i]).count >= rows[k].count by {
                assert(all[i] == entries[i]);
                assert(ranks_before(all[i], all[m]));
            }
        }
    }
}

/// The best hits are some of the hits, by rank; there are as many as the limit allows, and none that
/// was left out ranks before one that was not.
pub proof fn best_hits_rank_first(result: Seq<TagHit>, hits: Seq<RankedHit>, most: nat)
    requires
        best_hits(result, hits, most),
        distinct_ranked(hits),
    ensures
        most >= hits.len() ==> result.len() == hits.len(),
        most < hits.len() ==> result.len() == most,
        forall|i: int| 0 <= i < result.len() ==> stands_among(hits, #[trigger] result[i]),
        forall|i: int, j: int, a: u64, b: u64|
            0 <= i < j < result.len() && #[trigger] has_rank(hits, result[i], a) && #[trigger] has_rank(
                hits,
                result[j],
                b,
            ) ==> a <= b,
        forall|k: int, i: int, rank: u64|
            0 <= k < hits.len() && 0 <= i < result.len() && #[trigger] has_rank(hits, result[i], rank)
                ==> result.contains((#[trigger] hits[k]).hit) || rank <= hits[k].rank,
        most >= hits.len() ==> forall|k: int| 0 <= k < hits.len() ==> result.contains((#[trigger] hits[k]).hit),
{
    let all = choose|all: Seq<RankedHit>| #[trigger]
        by_rank(all) && all.to_multiset() == hits.to_multiset() && result == plain_hits(all).take(
            if most < all.len() {
                most as int
            } else {
                all.len() as int
            },
        );
    lemma_same_items(all, hits);
    assert forall|i: int| 0 <= i < result.len() implies #[trigger] has_rank(hits, result[i], all[i].rank) by {
        assert(result[i] == all[i].hit);
        assert(hits.contains(all[i]));
        let k = choose|k: int| 0 <= k < hits.len() && hits[k] == all[i];
        assert(hits[k].hit == result[i]);
    }
    assert forall|i: int| 0 <= i < result.len() implies stands_among(hits, #[trigger] result[i]) by {
        assert(has_rank(hits, result[i], all[i].rank));
    }
    assert forall|i: int, rank: u64|
        0 <= i < result.len() && #[trigger] has_rank(hits, result[i], rank) implies rank == all[i].rank by {
        assert(has_rank(hits, result[i], all[i].rank));
        let k = choose|k: int| 0 <= k < hits.len() && (#[trigger] hits[k]).hit == result[i] && hits[k].rank == rank;
        let m = choose|m: int|
            0 <= m < hits.len() && (#[trigger] hits[m]).hit == result[i] && hits[m].rank == all[i].rank;
        assert(hits[k].hit.tag_id == hits[m].hit.tag_id);
        if k < m {
            assert(hits[k].hit.tag_id != hits[m].hit.tag_id);
        } else if m < k {
            assert(hits[m].hit.tag_id != hits[k].hit.tag_id);
        }
    }
    assert forall|k: int| 0 <= k < hits.len() implies result.contains((#[trigger] hits[k]).hit) || (result.len()
        < all.len() && forall|i: int| 0 <= i < result.len() ==> (#[trigger] all[i]).rank <= hits[k].rank) by {
        assert(hits.contains(hits[k]));
        assert(all.contains(hits[k]));
        let m = choose|m: int| 0 <= m < all.len() && all[m] == hits[k];
        if m < result.len() {
            assert(result[m] == hits[k].hit);
            assert(result.contains(hits[k].hit));
        } else {
            assert forall|i: int| 0 <= i < result.len() implies (#[trigger] all[i]).rank <= hits[k].rank by {
                assert(all[i].rank <= all[m].rank);
            }
        }
    }
    assert forall|i: int, j: int, a: u64, b: u64|
        0 <= i < j < result.len() && #[trigger] has_rank(hits, result[i], a) && #[trigger] has_rank(
            hits,
            result[j],
            b,
        ) implies a <= b by {
        assert(a == all[i].rank && b == all[j].rank);
    }
    assert forall|k: int, i: int, rank: u64|
        0 <= k < hits.len() && 0 <= i < result.len() && #[trigger] has_rank(hits, result[i], rank)
            implies result.contains((#[trigger] hits[k]).hit) || rank <= hits[k].rank by {
        assert(rank == all[i].rank);
    }
}

/// Merging hits keeps those that are there, adds of the others the first of each tag, and leaves no
/// tag out; where no tag was twice, none is.
pub proof fn merged_hits_hold_every_tag(hits: Seq<RankedHit>, more: Seq<RankedHit>)
    ensures
        hits.is_prefix_of(merged_hits(hits, more)),
        forall|tag: u64| #[trigger]
            hits_tag(merged_hits(hits, more), tag) <==> hits_tag(hits, tag) || hits_tag(more, tag),
        forall|i: int|
            hits.len() <= i < merged_hits(hits, more).len() ==> comes_first(
                more,
                #[trigger] merged_hits(hits, more)[i],
            ) && !hits_tag(hits, merged_hits(hits, more)[i].hit.tag_id),
        distinct_ranked(hits) ==> distinct_ranked(merged_hits(hits, more)),
    decreases more.len(),
{
    let merged = merged_hits(hits, more);
    if more.len() > 0 {
        let shorter = more.drop_last();
        let before = merged_hits(hits, shorter);
        let last = more.last();
        merged_hits_hold_every_tag(hits, shorter);
        assert(hits.is_prefix_of(merged));
        assert forall|tag: u64| #[trigger] hits_tag(merged, tag) <==> hits_tag(hits, tag) || hits_tag(more, tag) by {
            assert(hits_tag(before, tag) <==> hits_tag(hits, tag) || hits_tag(shorter, tag));
            if hits_tag(shorter, tag) {
                let i = choose|i: int| 0 <= i < shorter.len() && (#[trigger] shorter[i]).hit.tag_id == tag;
                assert(more[i].hit.tag_id == tag);
            }
            if hits_tag(more, tag) && !hits_tag(shorter, tag) {
                let i = choose|i: int| 0 <= i < more.len() && (#[trigger] more[i]).hit.tag_id == tag;
                if i < shorter.len() {
                    assert(shorter[i].hit.tag_id == tag);
                }
                assert(last.hit.tag_id == tag);
                if !hits_tag(before, tag) {
                    assert(merged[before.len() as int].hit.tag_id == tag);
                }
            }
            if hits_tag(before, tag) {
                let i = choose|i: int| 0 <= i < before.len() && (#[trigger] before[i]).hit.tag_id == tag;
                assert(merged[i].hit.tag_id == tag);
            }
            if hits_tag(merged, tag) && !hits_tag(before, tag) {
                let i = choose|i: int| 0 <= i < merged.len() && (#[trigger] merged[i]).hit.tag_id == tag;
                if i < before.len() {
                    assert(before[i].hit.tag_id == tag);
                }
                assert(more[more.len() - 1].hit.tag_id == tag);
            }
        }
        assert forall|i: int| hits.len() <= i < merged.len() implies comes_first(more, #[trigger] merged[i])
            && !hits_tag(hits, merged[i].hit.tag_id) by {
            if i < before.len() {
                assert(merged[i] == before[i]);
                let k = choose|k: int| #[trigger] first_of_its_tag(shorter, k) && shorter[k] == before[i];
                assert(more[k] == shorter[k]);
                assert forall|j: int| 0 <= j < k implies (#[trigger] more[j]).hit.tag_id != more[k].hit.tag_id by {
                    assert(shorter[j] == more[j]);
                }
                assert(first_of_its_tag(more, k));
            } else {
                let k = more.len() - 1;
                assert(!hits_tag(before, last.hit.tag_id));
                assert forall|j: int| 0 <= j < k implies (#[trigger] more[j]).hit.tag_id != more[k].hit.tag_id by {
                    assert(shorter[j] == more[j]);
                }
                assert(first_of_its_tag(more, k));
            }
        }
        if distinct_ranked(hits) && !hits_tag(before, last.hit.tag_id) {
            assert forall|i: int, k: int| 0 <= i < k < merged.len() implies (#[trigger] merged[i]).hit.tag_id != (
            #[trigger] merged[k]).hit.tag_id by {
                assert(merged[i] == before[i]);
                if k < before.len() {
                    assert(merged[k] == before[k]);
                }
            }
        }
    }
}

/// The first hits are hits, each the first of its tag, and no tag comes twice; where the limit leaves
/// one out, there are as many as it allows.
pub proof fn first_hits_hold_each_tag_once(hits: Seq<RankedHit>, most: nat)
    ensures
        first_hits(hits, most).len() <= most,
        distinct_ranked(first_hits(hits, most)),
        forall|i: int|
            0 <= i < first_hits(hits, most).len() ==> comes_first(hits, #[trigger] first_hits(hits, most)[i]),
        forall|tag: u64| hits_tag(hits, tag) ==> #[trigger] hits_tag(first_hits(hits, most), tag) || first_hits(
            hits,
            most,
        ).len() == most,
{
    let none = Seq::<RankedHit>::empty();
    let once = merged_hits(none, hits);
    let first = first_hits(hits, most);
    merged_hits_hold_every_tag(none, hits);
    assert(distinct_ranked(none));
    assert forall|i: int| 0 <= i < first.len() implies comes_first(hits, #[trigger] first[i]) by {
        assert(first[i] == once[i]);
    }
    assert forall|i: int, k: int| 0 <= i < k < first.len() implies (#[trigger] first[i]).hit.tag_id != (
    #[trigger] first[k]).hit.tag_id by {
        assert(first[i] == once[i] && first[k] == once[k]);
    }
    if once.len() <= most {
        assert(first =~= once);
    }
}

/// Whether files come newest first.
pub open spec fn newest_first(files: Seq<u64>) -> bool {
    forall|i: int, j: int| 0 <= i < j < files.len() ==> #[trigger] files[i] > #[trigger] files[j]
}

/// A page of files holds those that have as many newer files before them as the offset says, or
/// more, and as many as the limit allows.
pub proof fn pages_start_at_the_offset(
    all: Seq<u64>,
    set: Set<u64>,
    offset: Option<u64>,
    limit: Option<u64>,
)
    requires
        descending_listing(all, set),
    ensures
        newest_first(page(all, offset, limit)),
        forall|f: u64| #[trigger] page(all, offset, limit).contains(f) ==> set.contains(f),
        offset is None && limit is None ==> forall|f: u64|
            set.contains(f) ==> #[trigger] page(all, offset, limit).contains(f),
        forall|i: int|
            0 <= i < page(all, offset, limit).len() ==> #[trigger] page(all, offset, limit)[i] == all[i + match offset {
                Some(skipped) => skipped as int,
                None => 0int,
            }],
        limit matches Some(most) ==> page(all, offset, limit).len() <= most,
        page(all, offset, limit).len() == all.len() - (match offset {
            Some(skipped) => skipped as int,
            None => 0int,
        }) || (limit matches Some(most) && page(all, offset, limit).len() == most) || (offset matches Some(skipped)
            && skipped >= all.len() && page(all, offset, limit).len() == 0),
{
    let shown = page(all, offset, limit);
    assert forall|f: u64| #[trigger] shown.contains(f) implies set.contains(f) by {
        let i = choose|i: int| 0 <= i < shown.len() && shown[i] == f;
        let skipped: int = match offset {
            Some(skipped) => skipped as int,
            None => 0int,
        };
        assert(all[i + skipped] == f);
        assert(all.contains(f));
    }
    if offset is None && limit is None {
        assert(shown =~= all);
    }
}

} // verus!
