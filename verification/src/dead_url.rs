//! Dead URLs, and what is not to be done again: downloads and jobs.
use crate::database::{DbState, MainDatabase};
use crate::namespace::source_url_namespace;
use crate::rows::find_text;
use crate::tag::tag_id_of;
use crate::text::lemma_pos;
use crate::types::{ScraperDataReturn, SkipIf};
use vstd::prelude::*;

verus! {

/// The dead URLs after one has been added, unless it is there.
pub open spec fn dead_url_added(urls: Seq<Seq<char>>, url: Seq<char>) -> Seq<Seq<char>> {
    if urls.contains(url) {
        urls
    } else {
        urls.push(url)
    }
}

/// A URL that has been marked as dead is dead, and marking one leaves the others as they are.
pub proof fn marked_urls_are_dead(urls: Seq<Seq<char>>, url: Seq<char>)
    ensures
        forall|other: Seq<char>| #[trigger]
            dead_url_added(urls, url).contains(other) <==> urls.contains(other) || other == url,
{
    crate::text::lemma_push_contains(urls, url);
}

impl DbState {
    /// Whether a URL is worth downloading: no file has it as its source.
    pub open spec fn worth_downloading(self, url: Seq<char>, namespace: u64) -> bool {
        match tag_id_of(self.tags, url, namespace) {
            Some(id) => !self.tag_has_files(id),
            None => true,
        }
    }

    /// Whether a URL is worth downloading, by memory where it holds the tag.
    pub open spec fn worth_downloading_by_cache(self, url: Seq<char>, namespace: u64) -> bool {
        match tag_id_of(self.tags, url, namespace) {
            Some(id) => !self.tag_has_files_by_cache(id),
            None => true,
        }
    }

    /// Whether a condition for not adding a job holds.
    pub open spec fn skips(self, condition: SkipIf) -> bool {
        match condition {
            SkipIf::ParentsRelateLimitto(relate_to, limit_to) => self.limited_relation_exists(relate_to@, limit_to@),
            SkipIf::ParentsRelate(tag) => self.relation_exists(tag@),
            SkipIf::FileTagRelationship(tag) => self.tag_lookup(tag@) matches Some(id) && self.tag_has_files_by_cache(id),
            SkipIf::FileHash(_) => false,
            SkipIf::FileNamespaceNumber(_, _, _) => false,
            SkipIf::NoFilesDownloaded => false,
        }
    }

    /// The state after a condition has been looked at.
    pub open spec fn with_condition_checked(self, condition: SkipIf) -> DbState {
        match condition {
            SkipIf::FileTagRelationship(tag) => self.with_namespace_looked_up(tag.namespace.name@),
            _ => self,
        }
    }

    /// Whether one of some conditions holds, from the `n`th on.
    pub open spec fn skips_any(self, conditions: Seq<SkipIf>, n: int) -> bool
        decreases conditions.len() - n,
    {
        if n < 0 || n >= conditions.len() {
            false
        } else {
            self.skips(conditions[n]) || self.with_condition_checked(conditions[n]).skips_any(conditions, n + 1)
        }
    }

    /// The state after conditions have been looked at, from the `n`th on, up to the first that holds.
    pub open spec fn with_conditions_checked(self, conditions: Seq<SkipIf>, n: int) -> DbState
        decreases conditions.len() - n,
    {
        if n < 0 || n >= conditions.len() {
            self
        } else if self.skips(conditions[n]) {
            self.with_condition_checked(conditions[n])
        } else {
            self.with_condition_checked(conditions[n]).with_conditions_checked(conditions, n + 1)
        }
    }

    /// The state after the jobs that a scraper asks for have been added, but for those whose
    /// conditions hold.
    pub open spec fn with_scraped_jobs(self, jobs: Seq<ScraperDataReturn>) -> DbState
        decreases jobs.len(),
    {
        if jobs.len() == 0 {
            self
        } else {
            let before = self.with_scraped_jobs(jobs.drop_last());
            let job = jobs.last();
            let checked = before.with_conditions_checked(job.skip_conditions@, 0);
            if before.skips_any(job.skip_conditions@, 0) {
                checked
            } else {
                DbState { jobs: crate::jobs::job_added(checked.jobs, job.job@), ..checked }
            }
        }
    }
}

impl MainDatabase {
    /// Marks a URL as dead.
    pub fn internal_dead_url_add(&mut self, dead_url: &String)
        ensures
            final(self)@ == (DbState { dead_urls: dead_url_added(old(self)@.dead_urls, dead_url@), ..old(self)@ }),
    {
        proof {
            lemma_pos(self@.dead_urls, dead_url@);
        }
        if find_text(&self.dead_urls, dead_url) == self.dead_urls.len() {
            let ghost before = self@.dead_urls;
            self.dead_urls.push(dead_url.clone());
            assert(self@.dead_urls =~= before.push(dead_url@));
        }
    }

    /// Marks a URL as dead. The answer is always `false`.
    pub fn dead_url_add_sync(&mut self, dead_url: &String) -> (answer: bool)
        ensures
            final(self)@ == (DbState { dead_urls: dead_url_added(old(self)@.dead_urls, dead_url@), ..old(self)@ }),
            !answer,
    {
        self.internal_dead_url_add(dead_url);
        false
    }

    /// Whether each of some URLs is dead, in the order of the URLs.
    pub fn internal_dead_url_exist(&self, potential_dead_urls: &Vec<String>) -> (status: Vec<(String, bool)>)
        ensures
            status@.len() == potential_dead_urls@.len(),
            forall|i: int|
                0 <= i < status@.len() ==> (#[trigger] status@[i]).0@ == potential_dead_urls@[i]@ && status@[i].1
                    == self@.dead_urls.contains(potential_dead_urls@[i]@),
    {
        let mut status: Vec<(String, bool)> = Vec::new();
        let mut i: usize = 0;
        while i < potential_dead_urls.len()
            invariant
                i <= potential_dead_urls.len(),
                status@.len() == i,
                forall|k: int|
                    0 <= k < i ==> (#[trigger] status@[k]).0@ == potential_dead_urls@[k]@ && status@[k].1
                        == self@.dead_urls.contains(potential_dead_urls@[k]@),
            decreases potential_dead_urls.len() - i,
        {
            let url = &potential_dead_urls[i];
            proof {
                lemma_pos(self@.dead_urls, url@);
            }
            let dead = find_text(&self.dead_urls, url) < self.dead_urls.len();
            status.push((url.clone(), dead));
            i += 1;
        }
        status
    }

    /// Whether each of some URLs is dead, in the order of the URLs.
    pub fn dead_url_get_sync(&self, dead_urls: &Vec<String>) -> (status: Vec<(String, bool)>)
        ensures
            status@.len() == dead_urls@.len(),
            forall|i: int|
                0 <= i < status@.len() ==> (#[trigger] status@[i]).0@ == dead_urls@[i]@ && status@[i].1
                    == self@.dead_urls.contains(dead_urls@[i]@),
    {
        self.internal_dead_url_exist(dead_urls)
    }

    /// Whether each of some URLs is dead, in the order of the URLs.
    pub fn dead_url_exist(&self, dead_url: &Vec<String>) -> (status: Vec<(String, bool)>)
        ensures
            status@.len() == dead_url@.len(),
            forall|i: int|
                0 <= i < status@.len() ==> (#[trigger] status@[i]).0@ == dead_url@[i]@ && status@[i].1
                    == self@.dead_urls.contains(dead_url@[i]@),
    {
        self.internal_dead_url_exist(dead_url)
    }

    /// Whether a URL is worth downloading: no file has it as its source.
    pub fn internal_should_download_file(&mut self, url: &String) -> (worth: bool)
        ensures
            final(self)@ == old(self)@.with_namespace_asked(source_url_namespace()),
            worth == final(self)@.worth_downloading(url@, final(self)@.namespace_lookup("source_url"@)->0),
    {
        let namespace: u64 = self.internal_namespace_sourceurl_get();
        match self.internal_tag_get_id(url, namespace) {
            Some(id) => !self.internal_tag_has_files(id),
            None => true,
        }
    }

    /// Whether a URL is worth downloading, by memory where it holds the tag.
    pub fn should_download_file(&mut self, url: &String) -> (worth: bool)
        ensures
            final(self)@ == old(self)@.refreshed().with_namespace_asked(source_url_namespace()),
            worth == final(self)@.worth_downloading_by_cache(url@, final(self)@.namespace_lookup("source_url"@)->0),
    {
        self.refresh_roaring_memory_if_dirty();
        let namespace: u64 = self.internal_namespace_sourceurl_get();
        match self.internal_tag_get_id(url, namespace) {
            Some(id) => !self.tag_has_files_cached(id),
            None => true,
        }
    }

    /// Whether a condition for not adding a job holds.
    pub fn should_skip_item(&mut self, skip_conditions: &SkipIf) -> (skip: bool)
        ensures
            final(self)@ == old(self)@.with_condition_checked(*skip_conditions),
            skip == old(self)@.skips(*skip_conditions),
    {
        match skip_conditions {
            SkipIf::ParentsRelateLimitto(relate_to, limit_to) => self.internal_parent_relate_limit_exists(
                relate_to,
                limit_to,
            ),
            SkipIf::ParentsRelate(plugin_tag) => self.internal_parent_structure_exists(plugin_tag),
            SkipIf::FileTagRelationship(tag) => {
                if let Some(namespace) = self.internal_namespace_get_id(&tag.namespace.name) {
                    if let Some(id) = self.internal_tag_get_id(&tag.name, namespace) {
                        assert(old(self)@.tag_lookup(tag@) == Some(id));
                        assert(self@.relationships == old(self)@.relationships && self@.tags == old(self)@.tags);
                        assert(self@.tag_has_files(id) == old(self)@.tag_has_files(id));
                        return self.tag_has_files_cached(id);
                    }
                }
                false
            },
            SkipIf::FileHash(_) => false,
            SkipIf::FileNamespaceNumber(_, _, _) => false,
            SkipIf::NoFilesDownloaded => false,
        }
    }

    /// Whether one of some conditions holds. Those after the first that holds are not looked at.
    pub fn should_skip_processing_job(&mut self, skip_conditions: &Vec<SkipIf>) -> (skip: bool)
        ensures
            final(self)@ == old(self)@.with_conditions_checked(skip_conditions@, 0),
            skip == old(self)@.skips_any(skip_conditions@, 0),
    {
        let ghost start = self@;
        let mut i: usize = 0;
        while i < skip_conditions.len()
            invariant
                i <= skip_conditions.len(),
                start == old(self)@,
                start.with_conditions_checked(skip_conditions@, 0) == self@.with_conditions_checked(
                    skip_conditions@,
                    i as int,
                ),
                start.skips_any(skip_conditions@, 0) == self@.skips_any(skip_conditions@, i as int),
            decreases skip_conditions.len() - i,
        {
            if self.should_skip_item(&skip_conditions[i]) {
                return true;
            }
            i += 1;
        }
        false
    }

    /// Adds the jobs that a scraper asks for, but for those whose conditions hold.
    pub fn add_scraped_jobs(&mut self, jobs: &Vec<ScraperDataReturn>)
        ensures
            final(self)@ == old(self)@.with_scraped_jobs(jobs@),
    {
        let ghost start = self@;
        let mut i: usize = 0;
        assert(jobs@.take(0) =~= Seq::<ScraperDataReturn>::empty());
        while i < jobs.len()
            invariant
                i <= jobs.len(),
                self@ == start.with_scraped_jobs(jobs@.take(i as int)),
            decreases jobs.len() - i,
        {
            assert(jobs@.take(i + 1).drop_last() =~= jobs@.take(i as int));
            if !self.should_skip_processing_job(&jobs[i].skip_conditions) {
                self.internal_jobs_add(&jobs[i].job);
            }
            i += 1;
        }
        assert(jobs@.take(i as int) =~= jobs@);
    }
}

} // verus!
