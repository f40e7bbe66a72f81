//! What is recorded of sizes and digests, told of the rows.
use crate::database::DbState;
use crate::file::digest_clashes;
use crate::paths::storable;
use crate::relationship::{chunk, chunk_count, file_exists};
use crate::rows::{FileRec, HashRec, digest_keys, file_algorithms, file_ids};
use crate::text::{lemma_pos, pos};
use crate::upkeep::{digests_inserted, lacks_size, unsized_batch, unsized_batches_are_complete};
use vstd::prelude::*;

verus! {

/// Whether two digests cannot stand together: they are by one algorithm, and of one file or the same.
pub open spec fn at_odds(one: HashRec, other: HashRec) -> bool {
    one.algorithm == other.algorithm && (one.file_id == other.file_id || one.digest == other.digest)
}

/// Whether a digest stands in the table, or one that it cannot stand together with.
pub open spec fn place_taken(rows: Seq<HashRec>, digest: HashRec) -> bool {
    exists|i: int| 0 <= i < rows.len() && at_odds(#[trigger] rows[i], digest)
}

/// Whether the file table has a row with an id.
pub open spec fn is_row(files: Seq<FileRec>, id: u64) -> bool {
    exists|i: int| 0 <= i < files.len() && (#[trigger] files[i]).id == id
}

proof fn lemma_clashes(rows: Seq<HashRec>, digest: HashRec)
    ensures
        digest_clashes(rows, digest) <==> place_taken(rows, digest),
{
    let one = file_algorithms(rows);
    let other = digest_keys(rows);
    lemma_pos(one, (digest.file_id, digest.algorithm));
    lemma_pos(other, (digest.algorithm, digest.digest));
    let p = pos(one, (digest.file_id, digest.algorithm));
    let q = pos(other, (digest.algorithm, digest.digest));
    if p < rows.len() {
        assert(one[p] == (rows[p].file_id, rows[p].algorithm));
        assert(at_odds(rows[p], digest));
    }
    if q < rows.len() {
        assert(other[q] == (rows[q].algorithm, rows[q].digest));
        assert(at_odds(rows[q], digest));
    }
    if place_taken(rows, digest) {
        let i = choose|i: int| 0 <= i < rows.len() && at_odds(#[trigger] rows[i], digest);
        assert(one[i] == (rows[i].file_id, rows[i].algorithm));
        assert(other[i] == (rows[i].algorithm, rows[i].digest));
    }
}

proof fn lemma_is_row(files: Seq<FileRec>, id: u64)
    ensures
        file_exists(files, id) <==> is_row(files, id),
{
    let ids = file_ids(files);
    lemma_pos(ids, id);
    let at = pos(ids, id);
    if at < files.len() {
        assert(files[at].id == id);
    }
    if is_row(files, id) {
        let i = choose|i: int| 0 <= i < files.len() && (#[trigger] files[i]).id == id;
        assert(ids[i] == id);
    }
}

/// Whether a digest table holds what another did, and of the first `n` of some digests each whose place
/// was free.
pub open spec fn recorded(before: Seq<HashRec>, after: Seq<HashRec>, rows: Seq<HashRec>, n: int) -> bool {
    &&& before.is_prefix_of(after)
    &&& forall|k: int| 0 <= k < n ==> place_taken(after, #[trigger] rows[k])
    &&& forall|k: int| 0 <= k < n && !after.contains(#[trigger] rows[k]) ==> place_taken_by_another(after, rows[k])
    &&& forall|i: int| before.len() <= i < after.len() ==> came_from(rows, n, #[trigger] after[i])
    &&& forall|i: int, j: int|
        0 <= i < j < after.len() && before.len() <= j ==> !at_odds(#[trigger] after[i], #[trigger] after[j])
}

/// Whether a digest is one of the first `n` of some digests.
pub open spec fn came_from(rows: Seq<HashRec>, n: int, digest: HashRec) -> bool {
    exists|k: int| 0 <= k < n && #[trigger] rows[k] == digest
}

/// Whether another digest stands in the table that one cannot stand together with.
pub open spec fn place_taken_by_another(rows: Seq<HashRec>, digest: HashRec) -> bool {
    exists|i: int| 0 <= i < rows.len() && at_odds(#[trigger] rows[i], digest) && rows[i] != digest
}

proof fn lemma_recorded_more(
    before: Seq<HashRec>,
    middle: Seq<HashRec>,
    after: Seq<HashRec>,
    rows: Seq<HashRec>,
    part: Seq<HashRec>,
    n: int,
)
    requires
        recorded(before, middle, rows, n),
        recorded(middle, after, part, part.len() as int),
        0 <= n,
        n + part.len() <= rows.len(),
        part == rows.subrange(n, n + part.len()),
    ensures
        recorded(before, after, rows, n + part.len()),
{
    let m = n + part.len();
    assert forall|k: int| 0 <= k < m implies place_taken(after, #[trigger] rows[k]) by {
        if k < n {
            let i = choose|i: int| 0 <= i < middle.len() && at_odds(#[trigger] middle[i], rows[k]);
            assert(after[i] == middle[i]);
        } else {
            assert(part[k - n] == rows[k]);
        }
    }
    assert forall|k: int| 0 <= k < m && !after.contains(#[trigger] rows[k]) implies place_taken_by_another(
        after,
        rows[k],
    ) by {
        let i = choose|i: int| 0 <= i < after.len() && at_odds(#[trigger] after[i], rows[k]);
        assert(after.contains(after[i]));
    }
    assert forall|i: int| before.len() <= i < after.len() implies came_from(rows, m, #[trigger] after[i]) by {
        if i < middle.len() {
            assert(after[i] == middle[i]);
            assert(came_from(rows, n, middle[i]));
            let k = choose|k: int| 0 <= k < n && #[trigger] rows[k] == middle[i];
            assert(rows[k] == after[i]);
        } else {
            assert(came_from(part, part.len() as int, after[i]));
            let k = choose|k: int| 0 <= k < part.len() && #[trigger] part[k] == after[i];
            assert(rows[n + k] == after[i]);
        }
    }
    assert forall|i: int, j: int| 0 <= i < j < after.len() && before.len() <= j implies !at_odds(
        #[trigger] after[i],
        #[trigger] after[j],
    ) by {
        if j < middle.len() {
            assert(after[i] == middle[i] && after[j] == middle[j]);
        }
    }
    assert(before.is_prefix_of(after)) by {
        assert(after.subrange(0, before.len() as int) =~= before) by {
            assert forall|i: int| 0 <= i < before.len() implies after[i] == before[i] by {
                assert(middle.subrange(0, before.len() as int)[i] == before[i]);
                assert(after.subrange(0, middle.len() as int)[i] == middle[i]);
            }
        }
    }
}

/// Digests that are recorded stand behind those that were there, each unless one stands that it cannot
/// stand together with; nothing is recorded of a file without a row.
pub proof fn inserted_digests_stand(files: Seq<FileRec>, hashes: Seq<HashRec>, rows: Seq<HashRec>)
    ensures
        digests_inserted(files, hashes, rows) is Some ==> recorded(
            hashes,
            digests_inserted(files, hashes, rows)->0,
            rows,
            rows.len() as int,
        ),
        digests_inserted(files, hashes, rows) is Some ==> forall|k: int|
            0 <= k < rows.len() && !is_row(files, (#[trigger] rows[k]).file_id) ==> place_taken_by_another(
                digests_inserted(files, hashes, rows)->0,
                rows[k],
            ) || hashes.contains(rows[k]),
        digests_inserted(files, hashes, rows) is None ==> exists|k: int|
            0 <= k < rows.len() && !is_row(files, (#[trigger] rows[k]).file_id),
    decreases rows.len(),
{
    if rows.len() == 0 {
        assert(hashes.is_prefix_of(hashes));
    } else {
        let shorter = rows.drop_last();
        let last = rows.last();
        inserted_digests_stand(files, hashes, shorter);
        assert(rows[rows.len() - 1] == last);
        match digests_inserted(files, hashes, shorter) {
            Some(before) => {
                lemma_clashes(before, last);
                lemma_is_row(files, last.file_id);
                if digests_inserted(files, hashes, rows) is Some {
                    let after = digests_inserted(files, hashes, rows)->0;
                    assert forall|k: int| 0 <= k < rows.len() implies place_taken(after, #[trigger] rows[k]) by {
                        if k < shorter.len() {
                            assert(shorter[k] == rows[k]);
                            let i = choose|i: int| 0 <= i < before.len() && at_odds(#[trigger] before[i], shorter[k]);
                            assert(after[i] == before[i]);
                        } else if after.len() > before.len() {
                            assert(at_odds(after[before.len() as int], last));
                        }
                    }
                    assert forall|k: int|
                        0 <= k < rows.len() && !after.contains(
                            #[trigger] rows[k],
                        ) implies place_taken_by_another(after, rows[k]) by {
                        let i = choose|i: int| 0 <= i < after.len() && at_odds(#[trigger] after[i], rows[k]);
                        assert(after.contains(after[i]));
                    }
                    assert forall|i: int| hashes.len() <= i < after.len() implies came_from(
                        rows,
                        rows.len() as int,
                        #[trigger] after[i],
                    ) by {
                        if i < before.len() {
                            assert(after[i] == before[i]);
                            let k = choose|k: int| 0 <= k < shorter.len() && #[trigger] shorter[k] == before[i];
                            assert(rows[k] == after[i]);
                        } else {
                            assert(rows[rows.len() - 1] == after[i]);
                        }
                    }
                    assert forall|i: int, j: int| 0 <= i < j < after.len() && hashes.len() <= j implies !at_odds(
                        #[trigger] after[i],
                        #[trigger] after[j],
                    ) by {
                        assert(after[i] == before[i]);
                        if j < before.len() {
                            assert(after[j] == before[j]);
                        }
                    }
                    assert(after.subrange(0, hashes.len() as int) =~= before.subrange(0, hashes.len() as int));
                    assert(recorded(hashes, after, rows, rows.len() as int));
                    assert forall|k: int|
                        0 <= k < rows.len() && !is_row(files, (#[trigger] rows[k]).file_id) implies place_taken_by_another(
                        after,
                        rows[k],
                    ) || hashes.contains(rows[k]) by {
                        if k < shorter.len() {
                            assert(shorter[k] == rows[k]);
                            if place_taken_by_another(before, shorter[k]) {
                                let i = choose|i: int|
                                    0 <= i < before.len() && at_odds(#[trigger] before[i], shorter[k]) && before[i]
                                        != shorter[k];
                                assert(after[i] == before[i]);
                            }
                        } else {
                            lemma_rows_of_files(files, hashes, shorter);
                            let i = choose|i: int| 0 <= i < before.len() && at_odds(#[trigger] before[i], last);
                            assert(after[i] == before[i]);
                            if before[i] == last {
                                if i < hashes.len() {
                                    assert(before.subrange(0, hashes.len() as int)[i] == hashes[i]);
                                } else {
                                    assert(is_row(files, before[i].file_id));
                                }
                            }
                        }
                    }
                }
            },
            None => {
                let k = choose|k: int| 0 <= k < shorter.len() && !is_row(files, (#[trigger] shorter[k]).file_id);
                assert(rows[k] == shorter[k]);
            },
        }
    }
}

proof fn lemma_rows_of_files(files: Seq<FileRec>, hashes: Seq<HashRec>, rows: Seq<HashRec>)
    ensures
        digests_inserted(files, hashes, rows) matches Some(after) ==> hashes.len() <= after.len() && forall|i: int|
            hashes.len() <= i < after.len() ==> is_row(files, (#[trigger] after[i]).file_id),
    decreases rows.len(),
{
    if rows.len() > 0 {
        lemma_rows_of_files(files, hashes, rows.drop_last());
        lemma_is_row(files, rows.last().file_id);
    }
}

proof fn lemma_digest_chunks(state: DbState, rows: Seq<HashRec>, n: nat)
    requires
        n <= chunk_count(rows.len()),
    ensures
        state.with_digest_chunks(rows, n) matches Some(after) ==> after == (DbState { hashes: after.hashes, ..state })
            && recorded(
            state.hashes,
            after.hashes,
            rows,
            if 800 * n < rows.len() {
                800 * n as int
            } else {
                rows.len() as int
            },
        ),
    decreases n,
{
    if n == 0 {
        assert(state.hashes.is_prefix_of(state.hashes));
    } else {
        let m = (n - 1) as nat;
        lemma_digest_chunks(state, rows, m);
        if state.with_digest_chunks(rows, n) is Some {
            let before = state.with_digest_chunks(rows, m)->0;
            let part = chunk(rows, m);
            let after = state.with_digest_chunks(rows, n)->0;
            inserted_digests_stand(before.files, before.hashes, part);
            assert(800 * m < rows.len());
            lemma_recorded_more(state.hashes, before.hashes, after.hashes, rows, part, 800 * m as int);
        }
    }
}

/// Recording digests, as many at a time as go in one statement, records all of them, and touches nothing
/// but the digests.
pub proof fn all_recorded_digests_stand(state: DbState, rows: Seq<HashRec>)
    requires
        state.with_digest_chunks(rows, chunk_count(rows.len())) is Some,
    ensures
        ({
            let after = state.with_digest_chunks(rows, chunk_count(rows.len()))->0;
            &&& recorded(state.hashes, after.hashes, rows, rows.len() as int)
            &&& after == (DbState { hashes: after.hashes, ..state })
        }),
{
    lemma_digest_chunks(state, rows, chunk_count(rows.len()));
}

/// Whether a row with an id and a hash has no size.
pub open spec fn size_missing(files: Seq<FileRec>, id: u64) -> bool {
    exists|i: int|
        0 <= i < files.len() && (#[trigger] files[i]).id == id && files[i].hash is Some && files[i].size_bytes is None
}

/// The files whose sizes are looked up next are those with a hash and without a size, by rising ids behind
/// the last one, as many as go in one statement.
pub proof fn missing_sizes_are_looked_up(files: Seq<FileRec>, after: u64, n: nat, id: u64)
    ensures
        ({
            let ids = unsized_batch(files, after, n);
            &&& ids.len() <= n
            &&& ids.contains(id) ==> id > after && size_missing(files, id)
            &&& id > after && size_missing(files, id) && ids.len() < n ==> ids.contains(id)
            &&& id > after && size_missing(files, id) && ids.len() > 0 && id <= ids.last() ==> ids.contains(id)
            &&& forall|i: int, k: int| 0 <= i < k < ids.len() ==> #[trigger] ids[i] < #[trigger] ids[k]
        }),
{
    unsized_batches_are_complete(files, after, n);
    let ids = unsized_batch(files, after, n);
    if lacks_size(files, id) {
        let i = choose|i: int|
            0 <= i < files.len() && (#[trigger] files[i]).id == id && crate::upkeep::is_unsized(files[i]);
        assert(files[i].hash is Some);
    }
    if size_missing(files, id) {
        let i = choose|i: int|
            0 <= i < files.len() && (#[trigger] files[i]).id == id && files[i].hash is Some && files[i].size_bytes is None;
        assert(crate::upkeep::is_unsized(files[i]));
        assert(lacks_size(files, id));
    }
    if ids.contains(id) {
        let i = choose|i: int| 0 <= i < ids.len() && ids[i] == id;
        assert(lacks_size(files, ids[i]));
    }
}

/// A hash of ASCII characters can be stored under if it has seven or more.
pub proof fn hashes_of_seven_characters_can_be_stored(hash: Seq<char>)
    requires
        vstd::utf8::is_ascii_chars(hash),
    ensures
        storable(hash) <==> hash.len() >= 7,
{
    vstd::utf8::is_ascii_chars_encode_utf8(hash);
}

} // verus!
