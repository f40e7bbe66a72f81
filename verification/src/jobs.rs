//! Jobs: adding them, which are due, and what becomes of them.
use crate::database::{DbState, MainDatabase};
use crate::rows::{allocate_id, collect_job_ids, find_job, find_job_id, job_ids, job_key, job_keys, next_id};
use crate::text::{lemma_pos, pos, views};
use crate::types::{DbJobRecreation, DbJobView, DbJobsObj, JobView, PluginJob, params_copy, text_pairs_copy};
use vstd::prelude::*;

verus! {

/// The job table after a job has been added. Where a job with the same key is there, it gets the new
/// job's priority and data and is otherwise left as it is.
pub open spec fn job_added(rows: Seq<DbJobView>, job: JobView) -> Seq<DbJobView> {
    let at = pos(job_keys(rows), job_key(job));
    if at < rows.len() {
        rows.update(
            at,
            DbJobView {
                config: JobView { priority: job.priority, user_data: job.user_data, ..rows[at].config },
                ..rows[at]
            },
        )
    } else {
        rows.push(DbJobView { id: next_id(job_ids(rows)), isrunning: false, config: job })
    }
}

/// The id of the job with the same key.
pub open spec fn job_id_of(rows: Seq<DbJobView>, job: JobView) -> Option<u64> {
    let at = pos(job_keys(rows), job_key(job));
    if at < rows.len() {
        Some(rows[at].id)
    } else {
        None
    }
}

/// Whether another job has the key that a job is to get.
pub open spec fn key_taken(rows: Seq<DbJobView>, at: int, job: JobView) -> bool {
    exists|i: int| 0 <= i < rows.len() && i != at && #[trigger] job_keys(rows)[i] == job_key(job)
}

/// The job table after a job has been changed. A job that is not there changes nothing, nor does a
/// change that would give two jobs the same key.
pub open spec fn job_updated(rows: Seq<DbJobView>, job: DbJobView) -> Seq<DbJobView> {
    let at = pos(job_ids(rows), job.id);
    if at < rows.len() && !key_taken(rows, at, job.config) {
        rows.update(at, job)
    } else {
        rows
    }
}

/// The job table after the job with an id has been removed.
pub open spec fn job_removed(rows: Seq<DbJobView>, id: u64) -> Seq<DbJobView> {
    rows.filter(|row: DbJobView| row.id != id)
}

/// The job table after all jobs have been marked as not running.
pub open spec fn none_running(rows: Seq<DbJobView>) -> Seq<DbJobView> {
    Seq::new(rows.len(), |i: int| DbJobView { isrunning: false, ..rows[i] })
}

/// The job table after the job with an id has been marked as running.
pub open spec fn one_running(rows: Seq<DbJobView>, id: u64) -> Seq<DbJobView> {
    let at = pos(job_ids(rows), id);
    if at < rows.len() {
        rows.update(at, DbJobView { isrunning: true, ..rows[at] })
    } else {
        rows
    }
}

/// Whether a job is due: it is of one of the sites, does not run, and its time has come.
pub open spec fn is_due(job: DbJobView, sites: Seq<Seq<char>>, now: u64) -> bool {
    sites.contains(job.config.site) && !job.isrunning && job.config.time + job.config.reptime <= now
}

/// The jobs that are due.
pub open spec fn due_jobs(rows: Seq<DbJobView>, sites: Seq<Seq<char>>, now: u64) -> Seq<DbJobView> {
    rows.filter(|job: DbJobView| is_due(job, sites, now))
}

/// Whether one job may run before another: by priority, then by time, then by age.
pub open spec fn runs_before(left: DbJobView, right: DbJobView) -> bool {
    ||| left.config.priority > right.config.priority
    ||| left.config.priority == right.config.priority && left.config.time < right.config.time
    ||| left.config.priority == right.config.priority && left.config.time == right.config.time && left.id <= right.id
}

/// Whether jobs are in the order in which they run.
pub open spec fn in_run_order(jobs: Seq<DbJobView>) -> bool {
    forall|i: int, j: int| 0 <= i < j < jobs.len() ==> runs_before(#[trigger] jobs[i], #[trigger] jobs[j])
}

/// Whether `result` is the first of the jobs, in the order in which they run, and no more than `most`.
pub open spec fn first_to_run(result: Seq<DbJobView>, jobs: Seq<DbJobView>, most: nat) -> bool {
    exists|all: Seq<DbJobView>| #[trigger]
        in_run_order(all) && all.to_multiset() == jobs.to_multiset() && result == all.take(
            if most < all.len() {
                most as int
            } else {
                all.len() as int
            },
        )
}

/// The job that takes the place of a finished one; `None` where there is none.
///
/// A job that recurs runs again after its interval, and one run less is left where the runs are counted.
pub open spec fn next_run(job: DbJobView, now: u64) -> Option<DbJobView> {
    match job.config.recreation {
        Some(DbJobRecreation::AlwaysTime(interval, Some(left))) => if left == 0 {
            None
        } else {
            Some(
                DbJobView {
                    isrunning: false,
                    config: JobView {
                        time: now,
                        reptime: interval,
                        recreation: Some(DbJobRecreation::AlwaysTime(interval, Some((left - 1) as u64))),
                        ..job.config
                    },
                    ..job
                },
            )
        },
        Some(DbJobRecreation::AlwaysTime(interval, None)) => Some(
            DbJobView {
                isrunning: false,
                config: JobView { time: now, reptime: interval, ..job.config },
                ..job
            },
        ),
        None => None,
    }
}

impl DbState {
    /// The state after a job has finished.
    pub open spec fn with_job_finished(self, job: DbJobView, now: u64) -> DbState {
        DbState {
            jobs: match next_run(job, now) {
                Some(next) => job_updated(self.jobs, next),
                None => job_removed(self.jobs, job.id),
            },
            ..self
        }
    }
}

/// The sites of jobs, each once, in order.
pub open spec fn job_sites(rows: Seq<DbJobView>) -> Seq<Seq<char>>
    decreases rows.len(),
{
    if rows.len() == 0 {
        Seq::empty()
    } else {
        let before = job_sites(rows.drop_last());
        if before.contains(rows.last().config.site) {
            before
        } else {
            before.push(rows.last().config.site)
        }
    }
}

fn insert_in_order(jobs: &mut Vec<DbJobsObj>, job: DbJobsObj)
    requires
        in_run_order(views(old(jobs)@)),
    ensures
        in_run_order(views(final(jobs)@)),
        views(final(jobs)@).to_multiset() == views(old(jobs)@).to_multiset().insert(job@),
{
    let ghost before = views(jobs@);
    let ghost new = job@;
    let mut at: usize = jobs.len();
    while at > 0 && (job.config.priority > jobs[at - 1].config.priority || (job.config.priority == jobs[at
        - 1].config.priority && (job.config.time < jobs[at - 1].config.time || (job.config.time == jobs[at
        - 1].config.time && job.id < jobs[at - 1].id))))
        invariant
            at <= jobs.len(),
            before == views(jobs@),
            new == job@,
            forall|k: int| at <= k < before.len() ==> runs_before(new, #[trigger] before[k]),
        decreases at,
    {
        assert(before[at - 1] == jobs@[at - 1]@);
        at -= 1;
    }
    assert(at > 0 ==> before[at - 1] == jobs@[at - 1]@);
    assert(at > 0 ==> runs_before(before[at - 1], new));
    jobs.insert(at, job);
    proof {
        assert(views(jobs@) =~= before.insert(at as int, new));
        vstd::seq_lib::to_multiset_insert(before, at as int, new);
        let after = views(jobs@);
        assert forall|i: int, j: int| 0 <= i < j < after.len() implies runs_before(#[trigger] after[i], #[trigger] after[j]) by {
            if j < at {
                assert(after[i] == before[i] && after[j] == before[j]);
            } else if j == at {
                assert(after[i] == before[i]);
                if i < at - 1 {
                    assert(runs_before(before[i], before[at - 1]));
                }
            } else if i == at {
                assert(after[j] == before[j - 1]);
            } else if i < at {
                assert(after[i] == before[i] && after[j] == before[j - 1]);
            } else {
                assert(after[i] == before[i - 1] && after[j] == before[j - 1]);
            }
        }
    }
}

fn holds_text(list: &Vec<String>, text: &String) -> (found: bool)
    ensures
        found == views(list@).contains(text@),
{
    proof {
        lemma_pos(views(list@), text@);
    }
    crate::rows::find_text(list, text) < list.len()
}

impl MainDatabase {
    /// Adds a job, or brings the one with the same key up to date, and gives its id.
    pub fn internal_jobs_add(&mut self, config: &PluginJob) -> (id: u64)
        ensures
            final(self)@ == (DbState { jobs: job_added(old(self)@.jobs, config@), ..old(self)@ }),
            job_id_of(final(self)@.jobs, config@) == Some(id),
    {
        let at: usize = find_job(&self.jobs, config);
        let ghost before = self@.jobs;
        proof {
            job_added_is_found(before, config@);
            lemma_pos(job_keys(before), job_key(config@));
        }
        if at < self.jobs.len() {
            let id: u64 = self.jobs[at].id;
            let row = DbJobsObj {
                id,
                isrunning: self.jobs[at].isrunning,
                config: PluginJob {
                    time: self.jobs[at].config.time,
                    reptime: self.jobs[at].config.reptime,
                    priority: config.priority,
                    recreation: self.jobs[at].config.recreation,
                    site: self.jobs[at].config.site.clone(),
                    param: params_copy(&self.jobs[at].config.param),
                    user_data: text_pairs_copy(&config.user_data),
                },
            };
            self.jobs.set(at, row);
            assert(self@.jobs =~= job_added(before, config@));
            id
        } else {
            let ids = collect_job_ids(&self.jobs);
            let id: u64 = allocate_id(&ids);
            self.jobs.push(DbJobsObj { id, isrunning: false, config: config.copy() });
            assert(self@.jobs =~= job_added(before, config@));
            id
        }
    }

    /// Adds a job, or brings the one with the same key up to date, and gives its id.
    pub fn jobs_add_single_sync(&mut self, job: &PluginJob) -> (id: u64)
        ensures
            final(self)@ == (DbState { jobs: job_added(old(self)@.jobs, job@), ..old(self)@ }),
            job_id_of(final(self)@.jobs, job@) == Some(id),
    {
        self.internal_jobs_add(job)
    }

    /// Changes a job.
    pub fn internal_jobs_update(&mut self, job: &DbJobsObj)
        ensures
            final(self)@ == (DbState { jobs: job_updated(old(self)@.jobs, job@), ..old(self)@ }),
    {
        let at: usize = find_job_id(&self.jobs, job.id);
        if at == self.jobs.len() {
            return;
        }
        let ghost rows = self@.jobs;
        let mut i: usize = 0;
        while i < self.jobs.len()
            invariant
                i <= self.jobs.len(),
                self@ == old(self)@,
                rows == self@.jobs,
                at == pos(job_ids(rows), job.id),
                at < self.jobs.len(),
                forall|k: int| 0 <= k < i && k != at ==> #[trigger] job_keys(rows)[k] != job_key(job.config@),
            decreases self.jobs.len() - i,
        {
            if i != at && self.jobs[i].config.time == job.config.time && self.jobs[i].config.reptime
                == job.config.reptime && self.jobs[i].config.site == job.config.site && crate::types::params_same(
                &self.jobs[i].config.param,
                &job.config.param,
            ) {
                assert(job_keys(rows)[i as int] == job_key(job.config@));
                return;
            }
            i += 1;
        }
        self.jobs.set(at, job.copy());
        assert(self@.jobs =~= job_updated(rows, job@));
    }

    /// Changes a job.
    pub fn jobs_update(&mut self, job: &DbJobsObj)
        ensures
            final(self)@ == (DbState { jobs: job_updated(old(self)@.jobs, job@), ..old(self)@ }),
    {
        self.internal_jobs_update(job);
    }

    /// The first jobs of some sites that are due.
    pub fn internal_jobs_get_torun_chunk(&self, sites: &Vec<String>, chunk_size: usize, now: u64) -> (jobs: Vec<
        DbJobsObj,
    >)
        ensures
            first_to_run(views(jobs@), due_jobs(self@.jobs, views(sites@), now), chunk_size as nat),
    {
        let ghost rows = self@.jobs;
        let ghost keep = |job: DbJobView| is_due(job, views(sites@), now);
        let mut jobs: Vec<DbJobsObj> = Vec::new();
        let mut i: usize = 0;
        assert(rows.take(0).filter(keep) =~= Seq::<DbJobView>::empty()) by {
            reveal(Seq::filter);
        }
        assert(views(jobs@) =~= rows.take(0).filter(keep));
        while i < self.jobs.len()
            invariant
                i <= self.jobs.len(),
                rows == self@.jobs,
                keep == (|job: DbJobView| is_due(job, views(sites@), now)),
                in_run_order(views(jobs@)),
                views(jobs@).to_multiset() == rows.take(i as int).filter(keep).to_multiset(),
            decreases self.jobs.len() - i,
        {
            proof {
                crate::text::lemma_filter_step(rows, i as int, keep);
                vstd::seq_lib::to_multiset_build(rows.take(i as int).filter(keep), rows[i as int]);
                assert(rows[i as int] == self.jobs@[i as int]@);
            }
            let job = &self.jobs[i];
            let due = holds_text(sites, &job.config.site) && !job.isrunning && job.config.time <= now && job.config.reptime
                <= now - job.config.time;
            assert(due == keep(rows[i as int]));
            if due {
                insert_in_order(&mut jobs, job.copy());
            }
            i += 1;
        }
        let ghost all = views(jobs@);
        proof {
            assert(rows.take(i as int) =~= rows);
            assert(in_run_order(all));
        }
        jobs.truncate(chunk_size);
        proof {
            assert(views(jobs@) =~= all.take(
                if chunk_size < all.len() {
                    chunk_size as int
                } else {
                    all.len() as int
                },
            ));
        }
        jobs
    }

    /// The jobs of some sites that are due.
    pub fn internal_jobs_get_torun(&self, sites: &Vec<String>, now: u64) -> (jobs: Vec<DbJobsObj>)
        ensures
            first_to_run(views(jobs@), due_jobs(self@.jobs, views(sites@), now), usize::MAX as nat),
    {
        self.internal_jobs_get_torun_chunk(sites, usize::MAX, now)
    }

    /// The jobs of some sites that are due.
    pub fn jobs_get_torun(&self, sites: &Vec<String>, now: u64) -> (jobs: Vec<DbJobsObj>)
        ensures
            first_to_run(views(jobs@), due_jobs(self@.jobs, views(sites@), now), usize::MAX as nat),
    {
        self.internal_jobs_get_torun(sites, now)
    }

    /// The first jobs of some sites that are due.
    pub fn jobs_get_torun_chunk(&self, sites: &Vec<String>, chunk_size: usize, now: u64) -> (jobs: Vec<DbJobsObj>)
        ensures
            first_to_run(views(jobs@), due_jobs(self@.jobs, views(sites@), now), chunk_size as nat),
    {
        self.internal_jobs_get_torun_chunk(sites, chunk_size, now)
    }

    /// Marks all jobs as not running.
    pub fn internal_jobs_reset_isrunning(&mut self)
        ensures
            final(self)@ == (DbState { jobs: none_running(old(self)@.jobs), ..old(self)@ }),
    {
        let ghost start = self@;
        let mut i: usize = 0;
        while i < self.jobs.len()
            invariant
                i <= self.jobs.len(),
                self@ == (DbState { jobs: self@.jobs, ..start }),
                self@.jobs.len() == start.jobs.len(),
                forall|k: int| 0 <= k < i ==> (#[trigger] self@.jobs[k]) == none_running(start.jobs)[k],
                forall|k: int| i <= k < start.jobs.len() ==> (#[trigger] self@.jobs[k]) == start.jobs[k],
            decreases self.jobs.len() - i,
        {
            let ghost before = self@.jobs;
            let row = DbJobsObj { id: self.jobs[i].id, isrunning: false, config: self.jobs[i].config.copy() };
            assert(self@.jobs[i as int] == self.jobs@[i as int]@);
            self.jobs.set(i, row);
            assert(self@.jobs =~= before.update(i as int, row@));
            i += 1;
        }
        assert(self@.jobs =~= none_running(start.jobs));
    }

    /// Marks a job as running.
    pub fn internal_jobs_set_isrunning(&mut self, job_id: u64)
        ensures
            final(self)@ == (DbState { jobs: one_running(old(self)@.jobs, job_id), ..old(self)@ }),
    {
        let at: usize = find_job_id(&self.jobs, job_id);
        if at < self.jobs.len() {
            let ghost before = self@.jobs;
            let row = DbJobsObj { id: self.jobs[at].id, isrunning: true, config: self.jobs[at].config.copy() };
            self.jobs.set(at, row);
            assert(self@.jobs =~= one_running(before, job_id));
        }
    }

    /// Marks a job as running. The answer is always `true`.
    pub fn job_set_is_running(&mut self, job: &DbJobsObj) -> (done: bool)
        ensures
            final(self)@ == (DbState { jobs: one_running(old(self)@.jobs, job.id), ..old(self)@ }),
            done,
    {
        self.internal_jobs_set_isrunning(job.id);
        true
    }

    /// Removes the job with an id.
    pub fn internal_job_remove(&mut self, job_id: u64)
        ensures
            final(self)@ == (DbState { jobs: job_removed(old(self)@.jobs, job_id), ..old(self)@ }),
    {
        let ghost rows = self@.jobs;
        let ghost keep = |row: DbJobView| row.id != job_id;
        let mut kept: Vec<DbJobsObj> = Vec::new();
        let mut i: usize = 0;
        assert(rows.take(0).filter(keep) =~= Seq::<DbJobView>::empty()) by {
            reveal(Seq::filter);
        }
        assert(views(kept@) =~= rows.take(0).filter(keep));
        while i < self.jobs.len()
            invariant
                i <= self.jobs.len(),
                rows == self@.jobs,
                keep == (|row: DbJobView| row.id != job_id),
                views(kept@) == rows.take(i as int).filter(keep),
            decreases self.jobs.len() - i,
        {
            proof {
                crate::text::lemma_filter_step(rows, i as int, keep);
                assert(rows[i as int] == self.jobs@[i as int]@);
            }
            if self.jobs[i].id != job_id {
                let ghost before = views(kept@);
                kept.push(self.jobs[i].copy());
                assert(views(kept@) =~= before.push(rows[i as int]));
            }
            i += 1;
        }
        assert(rows.take(i as int) =~= rows);
        self.jobs = kept;
    }

    /// Removes a job.
    pub fn job_remove(&mut self, job: &DbJobsObj)
        ensures
            final(self)@ == (DbState { jobs: job_removed(old(self)@.jobs, job.id), ..old(self)@ }),
    {
        self.internal_job_remove(job.id);
    }

    /// The jobs of a site.
    pub fn internal_jobs_get_site(&self, site: &String) -> (jobs: Vec<DbJobsObj>)
        ensures
            views(jobs@) == self@.jobs.filter(|job: DbJobView| job.config.site == site@),
    {
        let ghost rows = self@.jobs;
        let ghost keep = |job: DbJobView| job.config.site == site@;
        let mut jobs: Vec<DbJobsObj> = Vec::new();
        let mut i: usize = 0;
        assert(rows.take(0).filter(keep) =~= Seq::<DbJobView>::empty()) by {
            reveal(Seq::filter);
        }
        assert(views(jobs@) =~= rows.take(0).filter(keep));
        while i < self.jobs.len()
            invariant
                i <= self.jobs.len(),
                rows == self@.jobs,
                keep == (|job: DbJobView| job.config.site == site@),
                views(jobs@) == rows.take(i as int).filter(keep),
            decreases self.jobs.len() - i,
        {
            proof {
                crate::text::lemma_filter_step(rows, i as int, keep);
                assert(rows[i as int] == self.jobs@[i as int]@);
            }
            if self.jobs[i].config.site == *site {
                let ghost before = views(jobs@);
                jobs.push(self.jobs[i].copy());
                assert(views(jobs@) =~= before.push(rows[i as int]));
            }
            i += 1;
        }
        assert(rows.take(i as int) =~= rows);
        jobs
    }

    /// The jobs of a site.
    pub fn jobs_get_site(&self, site: &String) -> (jobs: Vec<DbJobsObj>)
        ensures
            views(jobs@) == self@.jobs.filter(|job: DbJobView| job.config.site == site@),
    {
        self.internal_jobs_get_site(site)
    }

    /// The sites of all jobs, each once.
    pub fn internal_jobs_get_all_sites(&self) -> (sites: Vec<String>)
        ensures
            views(sites@) == job_sites(self@.jobs),
    {
        let ghost rows = self@.jobs;
        let mut sites: Vec<String> = Vec::new();
        let mut i: usize = 0;
        assert(rows.take(0) =~= Seq::<DbJobView>::empty());
        assert(views(sites@) =~= job_sites(rows.take(0)));
        while i < self.jobs.len()
            invariant
                i <= self.jobs.len(),
                rows == self@.jobs,
                views(sites@) == job_sites(rows.take(i as int)),
            decreases self.jobs.len() - i,
        {
            proof {
                assert(rows.take(i + 1).drop_last() =~= rows.take(i as int));
                assert(rows[i as int] == self.jobs@[i as int]@);
            }
            if !holds_text(&sites, &self.jobs[i].config.site) {
                let ghost before = views(sites@);
                sites.push(self.jobs[i].config.site.clone());
                assert(views(sites@) =~= before.push(rows[i as int].config.site));
            }
            i += 1;
        }
        assert(rows.take(i as int) =~= rows);
        sites
    }

    /// Ends a job: one that recurs is set up for its next run, another is removed.
    pub fn complete_system_job(&mut self, job: &DbJobsObj, now: u64)
        ensures
            final(self)@ == old(self)@.with_job_finished(job@, now),
    {
        let mut next = job.copy();
        next.config.time = now;
        next.isrunning = false;
        match job.config.recreation {
            Some(DbJobRecreation::AlwaysTime(interval, count)) => {
                if let Some(left) = count {
                    if left == 0 {
                        self.internal_job_remove(job.id);
                        return;
                    }
                    next.config.recreation = Some(DbJobRecreation::AlwaysTime(interval, Some(left - 1)));
                }
                next.config.reptime = interval;
                self.internal_jobs_update(&next);
            },
            None => {
                self.internal_job_remove(job.id);
            },
        }
    }
}

/// An added job is found by its key, and adding it again changes nothing but gives the same id.
pub proof fn job_added_is_found(rows: Seq<DbJobView>, job: JobView)
    ensures
        job_id_of(job_added(rows, job), job) is Some,
        job_id_of(rows, job) is Some ==> job_id_of(job_added(rows, job), job) == job_id_of(rows, job),
        job_id_of(rows, job) is None ==> job_id_of(job_added(rows, job), job) == Some(next_id(job_ids(rows))),
        job_added(job_added(rows, job), job) == job_added(rows, job),
{
    let after = job_added(rows, job);
    let keys = job_keys(rows);
    let after_keys = job_keys(after);
    let key = job_key(job);
    lemma_pos(keys, key);
    lemma_pos(after_keys, key);
    let at = pos(keys, key);
    if at < rows.len() {
        assert(keys[at] == key);
        assert(after_keys =~= keys);
        assert(job_added(after, job) =~= after);
    } else {
        assert(after_keys[rows.len() as int] == key);
        let k = pos(after_keys, key);
        if k < rows.len() {
            assert(after_keys[k] == keys[k]);
        }
        assert(job_added(after, job) =~= after);
    }
}

/// A job that recurs a counted number of times runs out: each run leaves one less, and after the last
/// the job is removed.
pub proof fn counted_jobs_run_out(job: DbJobView, now: u64, interval: u64, left: u64)
    requires
        job.config.recreation == Some(DbJobRecreation::AlwaysTime(interval, Some(left))),
    ensures
        next_run(job, now) is None <==> left == 0,
        next_run(job, now) matches Some(next) ==> next.config.recreation == Some(
            DbJobRecreation::AlwaysTime(interval, Some((left - 1) as u64)),
        ) && next.id == job.id && !next.isrunning && next.config.time == now && next.config.reptime == interval,
{
}

/// A job that is removed is gone, and the others stay in their order.
pub proof fn removed_jobs_are_gone(rows: Seq<DbJobView>, id: u64)
    ensures
        forall|job: DbJobView| #[trigger] job_removed(rows, id).contains(job) <==> rows.contains(job) && job.id != id,
{
    let keep = |row: DbJobView| row.id != id;
    crate::text::lemma_filter_members(rows, keep);
}

/// Finishing a job a second time changes nothing more.
pub proof fn finishing_twice_is_finishing_once(state: DbState, job: DbJobView, now: u64)
    ensures
        state.with_job_finished(job, now).with_job_finished(job, now) == state.with_job_finished(job, now),
{
    let rows = state.jobs;
    match next_run(job, now) {
        Some(next) => {
            let once = job_updated(rows, next);
            lemma_pos(job_ids(rows), next.id);
            lemma_pos(job_ids(once), next.id);
            let at = pos(job_ids(rows), next.id);
            if at < rows.len() && !key_taken(rows, at, next.config) {
                assert(job_ids(once) =~= job_ids(rows));
                assert(once.update(at, next) =~= once);
            }
            assert(job_updated(once, next) =~= once);
        },
        None => {
            let keep = |row: DbJobView| row.id != job.id;
            let once = rows.filter(keep);
            lemma_filter_all(rows, keep);
            assert(once.filter(keep) == once);
        },
    }
    assert(state.with_job_finished(job, now).with_job_finished(job, now) =~= state.with_job_finished(job, now));
}

/// Filtering what has been filtered changes nothing.
proof fn lemma_filter_all<T>(items: Seq<T>, keep: spec_fn(T) -> bool)
    ensures
        items.filter(keep).filter(keep) == items.filter(keep),
    decreases items.len(),
{
    reveal(Seq::filter);
    if items.len() > 0 {
        lemma_filter_all(items.drop_last(), keep);
        if keep(items.last()) {
            let before = items.drop_last().filter(keep);
            assert(before.push(items.last()).drop_last() =~= before);
        }
    }
}

} // verus!
