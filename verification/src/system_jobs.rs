//! Jobs of the system itself: which they are, what they do, and how they end.
use crate::backup_path::{backup_goes_to, dated_backup_destination};
use crate::database::MainDatabase;
use crate::text::{chars_of, text_is};
use crate::types::{DbJobView, DbJobsObj, ParamView, ScraperParam};
use vstd::prelude::*;

verus! {

/// The site of jobs that back the database up.
pub const SYSTEM_DATABASE_BACKUP_SITE: &'static str = "SYSTEM_BACKUP";

/// The site of jobs that take over what another database holds.
pub const SYSTEM_DATABASE_SLURP_SITE: &'static str = "SYSTEM_DB_SLURP";

/// The site of jobs that look the sizes of files up.
pub const SYSTEM_FILE_SIZE_SITE: &'static str = "SYSTEM_FILE_SIZE";

/// The site of jobs that compute the digests of files.
pub const SYSTEM_FILE_HASH_SITE: &'static str = "SYSTEM_FILE_HASH";

/// The site of jobs that check the stored files.
pub const SYSTEM_STORAGE_CHECK_SITE: &'static str = "SYSTEM_STORAGE_CHECK";

/// The parameter of a storage check that goes by names.
pub const SYSTEM_STORAGE_CHECK_FILENAME_MODE: &'static str = "filename";

/// The parameter of a storage check that downloads missing files again.
pub const SYSTEM_STORAGE_CHECK_REDOWNLOAD_MODE: &'static str = "redownload";

/// Whether a job is one of the system: it has the site of one, or is made anew and its site says so.
pub open spec fn system_job(job: DbJobView) -> bool {
    let site = job.config.site;
    ||| site == SYSTEM_DATABASE_BACKUP_SITE@
    ||| site == SYSTEM_DATABASE_SLURP_SITE@
    ||| site == SYSTEM_FILE_SIZE_SITE@
    ||| site == SYSTEM_FILE_HASH_SITE@
    ||| site == SYSTEM_STORAGE_CHECK_SITE@
    ||| job.config.recreation is Some && "SYSTEM_"@.is_prefix_of(site)
}

/// What a job of the system does.
#[derive(Debug, Clone)]
pub enum SystemAction {
    /// Nothing: it is no job that is run here, or the program is about to end.
    Nothing,
    /// Back the database up to a path.
    BackUp(String),
    /// A backup without a path to go to.
    BackUpNowhere,
    /// Take over what the database at a path holds.
    Slurp(String),
    /// Taking over without a path to read.
    SlurpNothing,
    LookUpSizes,
    ComputeDigests,
}

/// The path that a job is given: its first parameter, if it is a plain text.
pub open spec fn path_given(job: DbJobView) -> Option<Seq<char>> {
    if job.config.param.len() > 0 {
        match job.config.param[0] {
            ParamView::Normal(path) => Some(path),
            ParamView::Url(_) => None,
        }
    } else {
        None
    }
}

/// Whether an action is the one of a job.
pub open spec fn is_action_of(job: DbJobView, exiting: bool, seconds: u64, action: SystemAction) -> bool {
    let site = job.config.site;
    if exiting {
        action is Nothing
    } else if site == SYSTEM_DATABASE_BACKUP_SITE@ {
        match path_given(job) {
            Some(root) => action matches SystemAction::BackUp(path) && backup_goes_to(root, seconds, path@),
            None => action is BackUpNowhere,
        }
    } else if site == SYSTEM_DATABASE_SLURP_SITE@ {
        match path_given(job) {
            Some(source) => action matches SystemAction::Slurp(path) && path@ == source,
            None => action is SlurpNothing,
        }
    } else if site == SYSTEM_FILE_SIZE_SITE@ {
        action is LookUpSizes
    } else if site == SYSTEM_FILE_HASH_SITE@ {
        action is ComputeDigests
    } else {
        action is Nothing
    }
}

/// Whether a text starts with another.
fn starts_with(text: &String, start: &str) -> (does: bool)
    ensures
        does == start@.is_prefix_of(text@),
{
    let chars = chars_of(text.as_str());
    let wanted = chars_of(start);
    if chars.len() < wanted.len() {
        return false;
    }
    let mut i: usize = 0;
    while i < wanted.len()
        invariant
            i <= wanted.len() <= chars.len(),
            chars@ == text@,
            wanted@ == start@,
            forall|k: int| 0 <= k < i ==> chars@[k] == wanted@[k],
        decreases wanted.len() - i,
    {
        if chars[i] != wanted[i] {
            assert(text@.subrange(0, start@.len() as int)[i as int] != start@[i as int]);
            return false;
        }
        i += 1;
    }
    assert(start@ =~= text@.subrange(0, start@.len() as int));
    true
}

/// Whether a job is one of the system.
pub fn is_system_job(job: &DbJobsObj) -> (is: bool)
    ensures
        is == system_job(job@),
{
    let site = &job.config.site;
    text_is(site, SYSTEM_DATABASE_BACKUP_SITE) || text_is(site, SYSTEM_DATABASE_SLURP_SITE) || text_is(
        site,
        SYSTEM_FILE_SIZE_SITE,
    ) || text_is(site, SYSTEM_FILE_HASH_SITE) || text_is(site, SYSTEM_STORAGE_CHECK_SITE) || (
    job.config.recreation.is_some() && starts_with(site, "SYSTEM_"))
}

/// The path that a job is given.
fn given_path(job: &DbJobsObj) -> (path: Option<String>)
    ensures
        crate::text::opt_text(path) == path_given(job@),
{
    if job.config.param.len() == 0 {
        return None;
    }
    assert(job@.config.param[0] == job.config.param@[0]@);
    match &job.config.param[0] {
        ScraperParam::Normal(path) => Some(path.clone()),
        ScraperParam::Url(_) => None,
    }
}

/// What a job of the system does at a moment, in seconds since the beginning of 1970.
pub fn system_action(job: &DbJobsObj, exiting: bool, seconds: u64) -> (action: SystemAction)
    requires
        seconds / 86_400 <= 784_351_576_776,
    ensures
        is_action_of(job@, exiting, seconds, action),
{
    let site = &job.config.site;
    if exiting {
        SystemAction::Nothing
    } else if text_is(site, SYSTEM_DATABASE_BACKUP_SITE) {
        match given_path(job) {
            Some(root) => SystemAction::BackUp(dated_backup_destination(root.as_str(), seconds)),
            None => SystemAction::BackUpNowhere,
        }
    } else if text_is(site, SYSTEM_DATABASE_SLURP_SITE) {
        match given_path(job) {
            Some(source) => SystemAction::Slurp(source),
            None => SystemAction::SlurpNothing,
        }
    } else if text_is(site, SYSTEM_FILE_SIZE_SITE) {
        SystemAction::LookUpSizes
    } else if text_is(site, SYSTEM_FILE_HASH_SITE) {
        SystemAction::ComputeDigests
    } else {
        SystemAction::Nothing
    }
}

impl MainDatabase {
    /// Ends a job of the system that has done its work, and says whether it succeeded. `done` is whether the
    /// work succeeded; a job whose work is cut short by the end of the program stays as it is.
    pub fn finish_system_job(&mut self, job: &DbJobsObj, action: &SystemAction, done: bool, exiting: bool, now: u64) -> (
        success: bool)
        ensures
            success == (done && !exiting && !(action is Nothing || action is BackUpNowhere || action is SlurpNothing)),
            final(self)@ == (if action is Nothing || (exiting && !(action is BackUpNowhere)) {
                old(self)@
            } else if action is BackUpNowhere && !exiting {
                old(self)@.with_job_finished(job@, now).with_job_finished(job@, now)
            } else {
                old(self)@.with_job_finished(job@, now)
            }),
    {
        let worked = match action {
            SystemAction::Nothing => {
                return false;
            },
            SystemAction::BackUpNowhere => {
                self.complete_system_job(job, now);
                false
            },
            SystemAction::SlurpNothing => false,
            _ => done,
        };
        if exiting {
            return false;
        }
        self.complete_system_job(job, now);
        worked
    }
}

} // verus!
