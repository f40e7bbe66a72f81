//! What becomes of jobs, told of the rows of the job table.
use crate::database::DbState;
use crate::jobs::{
    due_jobs, first_to_run, in_run_order, is_due, job_added, job_removed, job_updated, key_taken, none_running,
    one_running,
};
use crate::rows::{job_ids, job_key, job_keys, next_id_is_fresh};
use crate::text::{lemma_filter_members, lemma_pos, pos};
use crate::types::{DbJobRecreation, DbJobView, JobView};
use vstd::prelude::*;

verus! {

/// Whether no other job than the one at a place has this time, wait, site and these parameters.
pub open spec fn slot_free(rows: Seq<DbJobView>, at: int, time: u64, reptime: u64, job: JobView) -> bool {
    forall|k: int|
        0 <= k < rows.len() && k != at ==> !((#[trigger] rows[k]).config.time == time && rows[k].config.reptime == reptime
            && rows[k].config.site == job.site && rows[k].config.param == job.param)
}

/// Whether one job table is another with the job at a place changed.
pub open spec fn changed_at(before: Seq<DbJobView>, after: Seq<DbJobView>, at: int) -> bool {
    after.len() == before.len() && forall|k: int| 0 <= k < before.len() && k != at ==> #[trigger] after[k] == before[k]
}

/// Whether a job table holds the jobs of another but for those with an id, in the same order.
pub open spec fn gone_from(before: Seq<DbJobView>, after: Seq<DbJobView>, id: u64) -> bool {
    &&& forall|job: DbJobView| #[trigger] after.contains(job) <==> before.contains(job) && job.id != id
    &&& forall|i: int, k: int|
        0 <= i < k < before.len() && (#[trigger] before[i]).id != id && (#[trigger] before[k]).id != id ==> exists|a: int, b: int|
            0 <= a < b < after.len() && #[trigger] after[a] == before[i] && #[trigger] after[b] == before[k]
}

proof fn lemma_gone(rows: Seq<DbJobView>, id: u64)
    ensures
        gone_from(rows, job_removed(rows, id), id),
    decreases rows.len(),
{
    reveal(Seq::filter);
    let keep = |row: DbJobView| row.id != id;
    lemma_filter_members(rows, keep);
    let after = job_removed(rows, id);
    if rows.len() > 0 {
        let shorter = rows.drop_last();
        lemma_gone(shorter, id);
        let less = job_removed(shorter, id);
        lemma_filter_members(shorter, keep);
        assert forall|i: int, k: int|
            0 <= i < k < rows.len() && (#[trigger] rows[i]).id != id && (#[trigger] rows[k]).id != id implies exists|a: int, b: int|
            0 <= a < b < after.len() && #[trigger] after[a] == rows[i] && #[trigger] after[b] == rows[k] by {
            assert(shorter[i] == rows[i]);
            if k < shorter.len() {
                assert(shorter[k] == rows[k]);
                let (a, b) = choose|a: int, b: int|
                    0 <= a < b < less.len() && #[trigger] less[a] == shorter[i] && #[trigger] less[b] == shorter[k];
                assert(after[a] == less[a] && after[b] == less[b]);
            } else {
                assert(shorter.contains(shorter[i]));
                assert(less.contains(shorter[i]));
                let a = choose|a: int| 0 <= a < less.len() && less[a] == shorter[i];
                assert(after[a] == rows[i]);
                assert(after[less.len() as int] == rows[k]);
            }
        }
    }
}

/// A job that recurs without end is still there after it has finished: it has the same id, site, parameters, data,
/// priority and recurrence, does not run, and is due again exactly when its interval has passed. The other jobs
/// stay as they are. Where another job stands in its new place, nothing changes.
pub proof fn endless_jobs_run_again(state: DbState, job: DbJobView, at: int, interval: u64, now: u64, sites: Seq<Seq<char>>, when: u64)
    requires
        state.consistent(),
        0 <= at < state.jobs.len(),
        state.jobs[at].id == job.id,
        job.config.recreation == Some(DbJobRecreation::AlwaysTime(interval, None)),
    ensures
        ({
            let after = state.with_job_finished(job, now).jobs;
            &&& slot_free(state.jobs, at, now, interval, job.config) ==> {
                &&& changed_at(state.jobs, after, at)
                &&& after[at].id == job.id
                &&& !after[at].isrunning
                &&& after[at].config.time == now
                &&& after[at].config.reptime == interval
                &&& after[at].config.recreation == Some(DbJobRecreation::AlwaysTime(interval, None))
                &&& after[at].config.site == job.config.site
                &&& after[at].config.param == job.config.param
                &&& after[at].config.user_data == job.config.user_data
                &&& after[at].config.priority == job.config.priority
                &&& due_jobs(after, sites, when).contains(after[at]) <==> sites.contains(job.config.site) && now + interval
                    <= when
            }
            &&& !slot_free(state.jobs, at, now, interval, job.config) ==> after == state.jobs
        }),
{
    let after = state.with_job_finished(job, now).jobs;
    lemma_finished_place(state, job, at, now, interval);
    if slot_free(state.jobs, at, now, interval, job.config) {
        lemma_filter_members(after, |job: DbJobView| is_due(job, sites, when));
        assert(after.contains(after[at]));
    }
}

/// A job that recurs a counted number of times is still there after it has finished, with one run less, as long as
/// runs are left; after the last it is gone. The other jobs stay as they are.
pub proof fn counted_jobs_run_again(state: DbState, job: DbJobView, at: int, interval: u64, left: u64, now: u64)
    requires
        state.consistent(),
        0 <= at < state.jobs.len(),
        state.jobs[at].id == job.id,
        job.config.recreation == Some(DbJobRecreation::AlwaysTime(interval, Some(left))),
    ensures
        ({
            let after = state.with_job_finished(job, now).jobs;
            &&& left > 0 && slot_free(state.jobs, at, now, interval, job.config) ==> {
                &&& changed_at(state.jobs, after, at)
                &&& after[at].id == job.id
                &&& !after[at].isrunning
                &&& after[at].config.time == now
                &&& after[at].config.reptime == interval
                &&& after[at].config.recreation == Some(DbJobRecreation::AlwaysTime(interval, Some((left - 1) as u64)))
                &&& after[at].config.site == job.config.site
                &&& after[at].config.param == job.config.param
                &&& after[at].config.user_data == job.config.user_data
                &&& after[at].config.priority == job.config.priority
            }
            &&& left > 0 && !slot_free(state.jobs, at, now, interval, job.config) ==> after == state.jobs
            &&& left == 0 ==> gone_from(state.jobs, after, job.id)
        }),
{
    if left == 0 {
        lemma_gone(state.jobs, job.id);
    } else {
        lemma_finished_place(state, job, at, now, interval);
    }
}

/// A job that does not recur is gone after it has finished, and the others stay. Finishing a job touches nothing
/// but the job table, and a job that is not there changes nothing.
pub proof fn single_jobs_run_once(state: DbState, job: DbJobView, now: u64)
    ensures
        job.config.recreation is None ==> gone_from(state.jobs, state.with_job_finished(job, now).jobs, job.id),
        state.with_job_finished(job, now) == (DbState { jobs: state.with_job_finished(job, now).jobs, ..state }),
        (forall|i: int| 0 <= i < state.jobs.len() ==> (#[trigger] state.jobs[i]).id != job.id) ==> state.with_job_finished(
            job,
            now,
        ).jobs == state.jobs,
{
    lemma_gone(state.jobs, job.id);
    if forall|i: int| 0 <= i < state.jobs.len() ==> (#[trigger] state.jobs[i]).id != job.id {
        lemma_pos(job_ids(state.jobs), job.id);
        let at = pos(job_ids(state.jobs), job.id);
        if at < state.jobs.len() {
            assert(job_ids(state.jobs)[at] == job.id);
            assert(state.jobs[at].id == job.id);
        }
        lemma_kept_whole(state.jobs, job.id);
    }
}

proof fn lemma_kept_whole(rows: Seq<DbJobView>, id: u64)
    requires
        forall|i: int| 0 <= i < rows.len() ==> (#[trigger] rows[i]).id != id,
    ensures
        job_removed(rows, id) == rows,
    decreases rows.len(),
{
    reveal(Seq::filter);
    if rows.len() > 0 {
        assert forall|i: int| 0 <= i < rows.drop_last().len() implies (#[trigger] rows.drop_last()[i]).id != id by {
            assert(rows.drop_last()[i] == rows[i]);
        }
        lemma_kept_whole(rows.drop_last(), id);
        assert(rows[rows.len() - 1].id != id);
        assert(rows.drop_last().push(rows.last()) =~= rows);
    }
}

/// Where a finished job that runs again stands.
proof fn lemma_finished_place(state: DbState, job: DbJobView, at: int, now: u64, interval: u64)
    requires
        state.consistent(),
        0 <= at < state.jobs.len(),
        state.jobs[at].id == job.id,
        crate::jobs::next_run(job, now) matches Some(next) && next.id == job.id && next.config.time == now
            && next.config.reptime == interval && next.config.site == job.config.site && next.config.param
            == job.config.param,
    ensures
        slot_free(state.jobs, at, now, interval, job.config) ==> state.with_job_finished(job, now).jobs
            == state.jobs.update(at, crate::jobs::next_run(job, now)->0),
        !slot_free(state.jobs, at, now, interval, job.config) ==> state.with_job_finished(job, now).jobs == state.jobs,
{
    let rows = state.jobs;
    let next = crate::jobs::next_run(job, now)->0;
    lemma_updated_place(rows, next, at);
    if key_taken(rows, at, next.config) {
        let i = choose|i: int| 0 <= i < rows.len() && i != at && #[trigger] job_keys(rows)[i] == job_key(next.config);
        assert(rows[i].config.time == now);
    }
    if !slot_free(rows, at, now, interval, job.config) {
        let k = choose|k: int|
            0 <= k < rows.len() && k != at && ((#[trigger] rows[k]).config.time == now && rows[k].config.reptime == interval
                && rows[k].config.site == job.config.site && rows[k].config.param == job.config.param);
        assert(job_keys(rows)[k] == job_key(next.config));
    }
}

proof fn lemma_updated_place(rows: Seq<DbJobView>, job: DbJobView, at: int)
    requires
        job_ids(rows).no_duplicates(),
        0 <= at < rows.len(),
        rows[at].id == job.id,
    ensures
        job_updated(rows, job) == (if key_taken(rows, at, job.config) {
            rows
        } else {
            rows.update(at, job)
        }),
{
    lemma_pos(job_ids(rows), job.id);
    assert(job_ids(rows)[at] == job.id);
    let found = pos(job_ids(rows), job.id);
    assert(job_ids(rows)[found] == job.id);
    assert(found == at);
}

/// A changed job stands in the table as it was given, unless another stands in its place; the others stay.
pub proof fn changed_jobs_stand_as_given(state: DbState, job: DbJobView, at: int)
    requires
        state.consistent(),
        0 <= at < state.jobs.len(),
        state.jobs[at].id == job.id,
    ensures
        slot_free(state.jobs, at, job.config.time, job.config.reptime, job.config) ==> changed_at(
            state.jobs,
            job_updated(state.jobs, job),
            at,
        ) && job_updated(state.jobs, job)[at] == job,
        !slot_free(state.jobs, at, job.config.time, job.config.reptime, job.config) ==> job_updated(state.jobs, job)
            == state.jobs,
{
    let rows = state.jobs;
    lemma_updated_place(rows, job, at);
    if key_taken(rows, at, job.config) {
        let i = choose|i: int| 0 <= i < rows.len() && i != at && #[trigger] job_keys(rows)[i] == job_key(job.config);
        assert(rows[i].config.time == job.config.time);
    }
    if !slot_free(rows, at, job.config.time, job.config.reptime, job.config) {
        let k = choose|k: int|
            0 <= k < rows.len() && k != at && ((#[trigger] rows[k]).config.time == job.config.time
                && rows[k].config.reptime == job.config.reptime && rows[k].config.site == job.config.site
                && rows[k].config.param == job.config.param);
        assert(job_keys(rows)[k] == job_key(job.config));
    }
}

/// An added job stands behind the others as it was given, with an id of its own, and does not run. Where one with
/// the same time, wait, site and parameters is there, that one gets the new priority and data, and nothing else
/// changes.
pub proof fn added_jobs_wait(rows: Seq<DbJobView>, job: JobView)
    requires
        rows.len() < u64::MAX,
        job_ids(rows).no_duplicates(),
        job_keys(rows).no_duplicates(),
    ensures
        ({
            let after = job_added(rows, job);
            &&& slot_free(rows, -1, job.time, job.reptime, job) ==> {
                &&& after.len() == rows.len() + 1
                &&& forall|k: int| 0 <= k < rows.len() ==> #[trigger] after[k] == rows[k] && rows[k].id != after.last().id
                &&& after.last().config == job
                &&& !after.last().isrunning
            }
            &&& forall|at: int|
                0 <= at < rows.len() && (#[trigger] rows[at]).config.time == job.time && rows[at].config.reptime
                    == job.reptime && rows[at].config.site == job.site && rows[at].config.param == job.param ==> {
                    &&& changed_at(rows, after, at)
                    &&& after[at].id == rows[at].id
                    &&& after[at].isrunning == rows[at].isrunning
                    &&& after[at].config == (JobView {
                        priority: job.priority,
                        user_data: job.user_data,
                        ..rows[at].config
                    })
                }
        }),
{
    let after = job_added(rows, job);
    let keys = job_keys(rows);
    lemma_pos(keys, job_key(job));
    let found = pos(keys, job_key(job));
    if slot_free(rows, -1, job.time, job.reptime, job) {
        if found < rows.len() {
            assert(keys[found] == job_key(job));
            assert(rows[found].config.time == job.time);
        }
        next_id_is_fresh(job_ids(rows));
        assert forall|k: int| 0 <= k < rows.len() implies #[trigger] after[k] == rows[k] && rows[k].id != after.last().id by {
            assert(job_ids(rows)[k] == rows[k].id);
            assert(job_ids(rows).contains(rows[k].id));
        }
    }
    assert forall|at: int|
        0 <= at < rows.len() && (#[trigger] rows[at]).config.time == job.time && rows[at].config.reptime == job.reptime
            && rows[at].config.site == job.site && rows[at].config.param == job.param implies changed_at(rows, after, at)
        && after[at].id == rows[at].id && after[at].isrunning == rows[at].isrunning && after[at].config == (JobView {
        priority: job.priority,
        user_data: job.user_data,
        ..rows[at].config
    }) by {
        assert(keys[at] == job_key(job));
        assert(keys[found] == job_key(job));
        assert(found == at);
    }
}

/// What is given out to run are jobs of the wanted sites that do not run and whose wait is over, each as often as it
/// stands in the table: those with the highest priority first, then those with the earliest time, then the oldest.
/// No more are given out than asked for, and a job that is held back comes behind all that are given out.
pub proof fn due_jobs_are_given_out(rows: Seq<DbJobView>, sites: Seq<Seq<char>>, now: u64, result: Seq<DbJobView>, most: nat)
    requires
        first_to_run(result, due_jobs(rows, sites, now), most),
    ensures
        result.len() <= most,
        forall|i: int|
            0 <= i < result.len() ==> rows.contains(#[trigger] result[i]) && sites.contains(result[i].config.site)
                && !result[i].isrunning && result[i].config.time + result[i].config.reptime <= now,
        forall|i: int, k: int|
            0 <= i < k < result.len() ==> {
                let one = #[trigger] result[i];
                let other = #[trigger] result[k];
                &&& one.config.priority >= other.config.priority
                &&& one.config.priority == other.config.priority ==> one.config.time <= other.config.time
                &&& one.config.priority == other.config.priority && one.config.time == other.config.time ==> one.id
                    <= other.id
            },
        forall|job: DbJobView|
            #![trigger rows.contains(job)]
            rows.contains(job) && sites.contains(job.config.site) && !job.isrunning && job.config.time + job.config.reptime
                <= now && !result.contains(job) ==> result.len() == most && forall|i: int|
                0 <= i < result.len() ==> {
                    let one = #[trigger] result[i];
                    &&& one.config.priority >= job.config.priority
                    &&& one.config.priority == job.config.priority ==> one.config.time <= job.config.time
                    &&& one.config.priority == job.config.priority && one.config.time == job.config.time ==> one.id
                        <= job.id
                },
{
    let due = due_jobs(rows, sites, now);
    lemma_filter_members(rows, |job: DbJobView| is_due(job, sites, now));
    let all = choose|all: Seq<DbJobView>| #[trigger]
        in_run_order(all) && all.to_multiset() == due.to_multiset() && result == all.take(
            if most < all.len() {
                most as int
            } else {
                all.len() as int
            },
        );
    all.to_multiset_ensures();
    due.to_multiset_ensures();
    assert forall|i: int| 0 <= i < all.len() implies due.contains(#[trigger] all[i]) by {
        assert(all.contains(all[i]));
        assert(due.to_multiset().count(all[i]) > 0);
    }
    assert forall|i: int| 0 <= i < result.len() implies rows.contains(#[trigger] result[i]) && sites.contains(
        result[i].config.site,
    ) && !result[i].isrunning && result[i].config.time + result[i].config.reptime <= now by {
        assert(due.contains(all[i]));
    }
    assert forall|i: int, k: int| 0 <= i < k < result.len() implies ({
        let one = #[trigger] result[i];
        let other = #[trigger] result[k];
        &&& one.config.priority >= other.config.priority
        &&& one.config.priority == other.config.priority ==> one.config.time <= other.config.time
        &&& one.config.priority == other.config.priority && one.config.time == other.config.time ==> one.id <= other.id
    }) by {
        assert(crate::jobs::runs_before(all[i], all[k]));
    }
    assert forall|job: DbJobView|
        #![trigger rows.contains(job)]
        rows.contains(job) && sites.contains(job.config.site) && !job.isrunning && job.config.time + job.config.reptime
            <= now && !result.contains(job) implies result.len() == most && forall|i: int|
        0 <= i < result.len() ==> {
            let one = #[trigger] result[i];
            &&& one.config.priority >= job.config.priority
            &&& one.config.priority == job.config.priority ==> one.config.time <= job.config.time
            &&& one.config.priority == job.config.priority && one.config.time == job.config.time ==> one.id <= job.id
        } by {
        assert(due.contains(job));
        assert(all.to_multiset().count(job) > 0);
        assert(all.contains(job));
        let k = choose|k: int| 0 <= k < all.len() && all[k] == job;
        if k < result.len() {
            assert(result[k] == job);
        }
        assert forall|i: int| 0 <= i < result.len() implies ({
            let one = #[trigger] result[i];
            &&& one.config.priority >= job.config.priority
            &&& one.config.priority == job.config.priority ==> one.config.time <= job.config.time
            &&& one.config.priority == job.config.priority && one.config.time == job.config.time ==> one.id <= job.id
        }) by {
            assert(crate::jobs::runs_before(all[i], all[k]));
        }
    }
}

/// Marking a job as running, or all as not running, changes that mark and nothing else.
pub proof fn marks_are_set(rows: Seq<DbJobView>, id: u64)
    requires
        job_ids(rows).no_duplicates(),
    ensures
        one_running(rows, id).len() == rows.len(),
        none_running(rows).len() == rows.len(),
        forall|i: int|
            0 <= i < rows.len() ==> (#[trigger] one_running(rows, id)[i]) == (DbJobView {
                isrunning: rows[i].isrunning || rows[i].id == id,
                ..rows[i]
            }),
        forall|i: int|
            0 <= i < rows.len() ==> !(#[trigger] none_running(rows)[i]).isrunning && none_running(rows)[i].id == rows[i].id
                && none_running(rows)[i].config == rows[i].config,
{
    lemma_pos(job_ids(rows), id);
    let at = pos(job_ids(rows), id);
    assert forall|i: int| 0 <= i < rows.len() implies (#[trigger] one_running(rows, id)[i]) == (DbJobView {
        isrunning: rows[i].isrunning || rows[i].id == id,
        ..rows[i]
    }) by {
        assert(job_ids(rows)[i] == rows[i].id);
        if at < rows.len() {
            assert(job_ids(rows)[at] == id);
        }
    }
}

} // verus!
