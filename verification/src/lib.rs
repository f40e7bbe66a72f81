//! A database of files and their tags: which file has which tag, where files are stored, which jobs wait,
//! and how the files are searched.
//!
//! [`database::MainDatabase`] holds the tables and the caches. Its view, [`database::DbState`], is what the
//! contracts speak of: every method says which state it leads to. What holds across methods is proved in
//! [`coherence`] (the caches agree with the tables), [`consistency`] (ids and keys are unique, and rows
//! refer to rows that exist), [`reads`] (reads by namespace, by tag and by file agree) and [`repetition`] (doing
//! the same once more changes nothing), and beside the functions that a law is about. What the operations come to,
//! told of the rows, the texts and the inputs alone, is proved in the modules whose names end in `_outcomes`: of
//! searches, jobs, scraped files, tags, removals, databases that are taken over, upkeep, lookups, settings and paths.
use vstd::prelude::*;

pub mod backup_path;
pub mod bitmap;
pub mod bitmap_cache;
pub mod cache;
pub mod choice_outcomes;
pub mod cli;
pub mod coherence;
pub mod consistency;
pub mod database;
pub mod dead_url;
pub mod digest_outcomes;
pub mod file;
pub mod file_tag_outcomes;
pub mod frame_outcomes;
pub mod hit_outcomes;
pub mod job_outcomes;
pub mod jobs;
pub mod lookup;
pub mod lookup_outcomes;
pub mod namespace;
pub mod parents;
pub mod path_outcomes;
pub mod paths;
pub mod processing;
pub mod reads;
pub mod relationship;
pub mod relationship_get;
pub mod removal;
pub mod removal_outcomes;
pub mod repetition;
pub mod row_outcomes;
pub mod rows;
pub mod schema;
pub mod scrape_outcomes;
pub mod search;
pub mod search_outcomes;
pub mod sets;
pub mod settings;
pub mod slurp;
pub mod slurp_outcomes;
pub mod source_url;
pub mod startup;
pub mod storage_check;
pub mod storage_outcomes;
pub mod system_jobs;
pub mod tag;
pub mod tag_actions;
pub mod tag_outcomes;
pub mod tag_search;
pub mod text;
pub mod text_outcomes;
pub mod types;
pub mod upkeep;
pub mod url_outcomes;

verus! {

} // verus!
