//! What is said of URLs, and which jobs are passed over, told of the rows.
use crate::database::DbState;
use crate::jobs::job_added;
use crate::namespace::{name_cached, namespace_id_of};
use crate::row_outcomes::{has_tag_row, lemma_has_tag_row};
use crate::rows::{cached_names, file_ids, namespace_names, parent_relations, tag_keys};
use crate::source_url::{first_file, is_first_file};
use crate::tag::{distinct_tags, namespaces_of, newer_tags, stored_tags_of, tag_id_of, tag_max_id, tags_upserted};
use crate::tag_outcomes::{has_tag, lemma_has_tag};
use crate::text::{lemma_pos, pos};
use crate::types::{DbJobView, FileView, JobView, NamespaceView, PluginTagView, ScraperDataReturn, SkipIf, TagView};
use vstd::prelude::*;

verus! {

/// Whether what the cache holds of namespaces is what the table says.
pub open spec fn names_cached_true(state: DbState) -> bool {
    forall|c: int| 0 <= c < state.namespace_cache.len() ==> is_namespace(
        state,
        (#[trigger] state.namespace_cache[c]).0,
        state.namespace_cache[c].1,
    )
}

/// Whether the namespace with an id is called so.
pub open spec fn is_namespace(state: DbState, name: Seq<char>, id: u64) -> bool {
    exists|n: int| 0 <= n < state.namespaces.len() && (#[trigger] state.namespaces[n]).name == name && state.namespaces[n].id == id
}

/// Whether what memory holds of tags is what the relationships say.
pub open spec fn tags_in_memory_true(state: DbState) -> bool {
    state.memory matches Some(memory) ==> forall|t: u64| #[trigger]
        memory.tag_id.dom().contains(t) ==> has_tag_row(state.tags, t) && forall|f: u64| #[trigger]
            memory.tag_id[t].contains(f) <==> state.relationships.contains((f, t))
}

/// Looking a namespace up, in the cache or in the table, gives the id of the row that is called so.
pub proof fn namespaces_are_found_by_name(state: DbState, name: Seq<char>, id: u64)
    requires
        state.consistent(),
        names_cached_true(state),
    ensures
        state.namespace_lookup(name) == Some(id) <==> is_namespace(state, name, id),
        namespace_id_of(state.namespaces, name) == Some(id) <==> is_namespace(state, name, id),
{
    let names = namespace_names(state.namespaces);
    lemma_pos(names, name);
    let at = pos(names, name);
    if at < state.namespaces.len() {
        assert(names[at] == state.namespaces[at].name);
    }
    assert forall|n: int| 0 <= n < state.namespaces.len() && (#[trigger] state.namespaces[n]).name == name implies n == at by {
        assert(names[n] == name);
    }
    let keys = cached_names(state.namespace_cache);
    lemma_pos(keys, name);
    let c = pos(keys, name);
    if c < state.namespace_cache.len() {
        assert(keys[c] == state.namespace_cache[c].0);
        assert(is_namespace(state, name, state.namespace_cache[c].1));
    }
}

/// A URL is worth downloading exactly if no file has a tag of the given namespace that is called like it; with the
/// bitmaps in memory or without them.
pub proof fn urls_of_files_are_not_worth_downloading(state: DbState, url: Seq<char>, namespace: u64)
    requires
        state.consistent(),
        tags_in_memory_true(state),
    ensures
        state.worth_downloading(url, namespace) <==> !file_has_url(state, url, namespace),
        state.worth_downloading_by_cache(url, namespace) <==> !file_has_url(state, url, namespace),
{
    let keys = tag_keys(state.tags);
    lemma_pos(keys, (url, namespace));
    let at = pos(keys, (url, namespace));
    if at < state.tags.len() {
        let id = state.tags[at].id;
        assert(keys[at] == (state.tags[at].name, state.tags[at].namespace));
        assert(has_tag_row(state.tags, id));
        lemma_has_tag_row(state.tags, id);
        lemma_has_files(state, id);
        if exists|f: u64| state.relationships.contains((f, id)) {
            let f = choose|f: u64| state.relationships.contains((f, id));
            assert(state.tags[at].name == url && state.relationships.contains((f, state.tags[at].id)));
        }
    }
    if file_has_url(state, url, namespace) {
        let (i, f) = choose|i: int, f: u64|
            0 <= i < state.tags.len() && (#[trigger] state.tags[i]).name == url && state.tags[i].namespace == namespace
                && #[trigger] state.relationships.contains((f, state.tags[i].id));
        assert(keys[i] == (url, namespace));
        assert(keys[at] == (url, namespace));
        assert(i == at);
    }
}

/// Whether a file has a tag of a namespace that is called like a URL.
pub open spec fn file_has_url(state: DbState, url: Seq<char>, namespace: u64) -> bool {
    exists|i: int, f: u64|
        0 <= i < state.tags.len() && (#[trigger] state.tags[i]).name == url && state.tags[i].namespace == namespace
            && #[trigger] state.relationships.contains((f, state.tags[i].id))
}

/// Whether a file has a tag is the same by memory and by the table.
proof fn lemma_has_files(state: DbState, id: u64)
    requires
        tags_in_memory_true(state),
        has_tag_row(state.tags, id),
    ensures
        state.tag_has_files(id) <==> exists|f: u64| state.relationships.contains((f, id)),
        state.tag_has_files_by_cache(id) <==> exists|f: u64| state.relationships.contains((f, id)),
{
    lemma_has_tag_row(state.tags, id);
    if let Some(memory) = state.memory {
        if memory.tag_id.dom().contains(id) {
            let held = memory.tag_id[id];
            if held != Set::<u64>::empty() {
                if forall|f: u64| !held.contains(f) {
                    assert(held =~= Set::<u64>::empty());
                }
                let f = choose|f: u64| held.contains(f);
                assert(state.relationships.contains((f, id)));
            }
            if exists|f: u64| state.relationships.contains((f, id)) {
                let f = choose|f: u64| state.relationships.contains((f, id));
                assert(held.contains(f));
            }
        }
    }
}

/// Whether the relation that a plugin's tag describes stands in the table: from the tag to the one that it relates to, with
/// the limit that it names, or without one where it names none.
pub open spec fn relation_stands(state: DbState, tag: PluginTagView) -> bool {
    tag.relates_to matches Some(related) && exists|k: int|
        0 <= k < state.parents.len() && has_tag(
            state,
            (#[trigger] state.parents[k]).relation.tag_id,
            tag.tag.name,
            tag.tag.namespace.name,
        ) && has_tag(state, state.parents[k].relation.relate_tag_id, related.tag.name, related.tag.namespace.name)
            && match (related.limit_to, state.parents[k].relation.limit_to) {
            (None, None) => true,
            (Some(limit), Some(id)) => has_tag(state, id, limit.name, limit.namespace.name),
            _ => false,
        }
}

/// The relation that a plugin's tag describes exists exactly if it stands in the table.
pub proof fn described_relations_stand_in_the_table(state: DbState, tag: PluginTagView)
    requires
        state.consistent(),
    ensures
        state.relation_exists(tag) <==> relation_stands(state, tag),
{
    let keys = parent_relations(state.parents);
    if let Some(related) = tag.relates_to {
        if state.relation_exists(tag) {
            let relation = state.relation_described(tag)->0;
            let k = choose|k: int| 0 <= k < keys.len() && keys[k] == relation;
            lemma_has_tag(state, tag.tag, relation.tag_id);
            lemma_has_tag(state, related.tag, relation.relate_tag_id);
            if let Some(limit) = related.limit_to {
                lemma_has_tag(state, limit, relation.limit_to->0);
            }
            assert(state.parents[k].relation == relation);
        }
        if relation_stands(state, tag) {
            let k = choose|k: int|
                0 <= k < state.parents.len() && has_tag(
                    state,
                    (#[trigger] state.parents[k]).relation.tag_id,
                    tag.tag.name,
                    tag.tag.namespace.name,
                ) && has_tag(
                    state,
                    state.parents[k].relation.relate_tag_id,
                    related.tag.name,
                    related.tag.namespace.name,
                ) && match (related.limit_to, state.parents[k].relation.limit_to) {
                    (None, None) => true,
                    (Some(limit), Some(id)) => has_tag(state, id, limit.name, limit.namespace.name),
                    _ => false,
                };
            let relation = state.parents[k].relation;
            lemma_has_tag(state, tag.tag, relation.tag_id);
            lemma_has_tag(state, related.tag, relation.relate_tag_id);
            if let Some(limit) = related.limit_to {
                lemma_has_tag(state, limit, relation.limit_to->0);
            }
            assert(keys[k] == relation);
            assert(state.relation_described(tag) == Some(relation));
            assert(keys.contains(relation));
        }
    }
}

/// Whether a condition for passing a job over holds: a relation with this limit stands in the table, the described
/// relation does, or a file has the tag.
pub open spec fn holds(state: DbState, condition: SkipIf) -> bool {
    match condition {
        SkipIf::ParentsRelateLimitto(relate_to, limit_to) => exists|k: int|
            0 <= k < state.parents.len() && has_tag(
                state,
                (#[trigger] state.parents[k]).relation.relate_tag_id,
                relate_to.name@,
                relate_to.namespace.name@,
            ) && (state.parents[k].relation.limit_to matches Some(id) && has_tag(
                state,
                id,
                limit_to.name@,
                limit_to.namespace.name@,
            )),
        SkipIf::ParentsRelate(tag) => relation_stands(state, tag@),
        SkipIf::FileTagRelationship(tag) => exists|t: u64, f: u64|
            has_tag(state, t, tag.name@, tag.namespace.name@) && #[trigger] state.relationships.contains((f, t)),
        _ => false,
    }
}

/// A condition is taken to hold exactly if it holds by the rows.
pub proof fn conditions_hold_by_the_rows(state: DbState, condition: SkipIf)
    requires
        state.consistent(),
        names_cached_true(state),
        tags_in_memory_true(state),
    ensures
        state.skips(condition) <==> holds(state, condition),
{
    match condition {
        SkipIf::ParentsRelateLimitto(relate_to, limit_to) => {
            if state.skips(condition) {
                let relate = state.tag_id(relate_to@)->0;
                let limit = state.tag_id(limit_to@)->0;
                lemma_has_tag(state, relate_to@, relate);
                lemma_has_tag(state, limit_to@, limit);
                let i = choose|i: int|
                    0 <= i < state.parents.len() && (#[trigger] state.parents[i]).relation.relate_tag_id == relate
                        && state.parents[i].relation.limit_to == Some(limit);
                assert(has_tag(state, state.parents[i].relation.relate_tag_id, relate_to.name@, relate_to.namespace.name@));
            }
            if holds(state, condition) {
                let k = choose|k: int|
                    0 <= k < state.parents.len() && has_tag(
                        state,
                        (#[trigger] state.parents[k]).relation.relate_tag_id,
                        relate_to.name@,
                        relate_to.namespace.name@,
                    ) && (state.parents[k].relation.limit_to matches Some(id) && has_tag(
                        state,
                        id,
                        limit_to.name@,
                        limit_to.namespace.name@,
                    ));
                lemma_has_tag(state, relate_to@, state.parents[k].relation.relate_tag_id);
                lemma_has_tag(state, limit_to@, state.parents[k].relation.limit_to->0);
                assert(state.parents[k].relation.relate_tag_id == state.tag_id(relate_to@)->0);
            }
        },
        SkipIf::ParentsRelate(tag) => {
            described_relations_stand_in_the_table(state, tag@);
        },
        SkipIf::FileTagRelationship(tag) => {
            lemma_lookup(state, tag@);
            if state.skips(condition) {
                let id = state.tag_id(tag@)->0;
                lemma_has_tag(state, tag@, id);
                lemma_has_files(state, id);
                let f = choose|f: u64| state.relationships.contains((f, id));
                assert(has_tag(state, id, tag.name@, tag.namespace.name@) && state.relationships.contains((f, id)));
            }
            if holds(state, condition) {
                let (t, f) = choose|t: u64, f: u64|
                    has_tag(state, t, tag.name@, tag.namespace.name@) && #[trigger] state.relationships.contains((f, t));
                lemma_has_tag(state, tag@, t);
                lemma_has_files(state, t);
            }
        },
        _ => {},
    }
}

/// Looking a tag up by the cache of namespaces gives what looking it up in the tables does.
proof fn lemma_lookup(state: DbState, tag: TagView)
    requires
        state.consistent(),
        names_cached_true(state),
    ensures
        state.tag_lookup(tag) == state.tag_id(tag),
{
    let name = tag.namespace.name;
    if let Some(id) = state.namespace_lookup(name) {
        namespaces_are_found_by_name(state, name, id);
    }
    if let Some(id) = namespace_id_of(state.namespaces, name) {
        namespaces_are_found_by_name(state, name, id);
    }
}

/// Looking at a condition leaves the tables, and what the cache holds of namespaces stays true.
proof fn lemma_checked(state: DbState, condition: SkipIf)
    requires
        state.consistent(),
        names_cached_true(state),
        tags_in_memory_true(state),
    ensures
        ({
            let after = state.with_condition_checked(condition);
            &&& after == (DbState { namespace_cache: after.namespace_cache, ..state })
            &&& after.consistent()
            &&& names_cached_true(after)
            &&& tags_in_memory_true(after)
        }),
{
    let after = state.with_condition_checked(condition);
    if let SkipIf::FileTagRelationship(tag) = condition {
        let name = tag.namespace.name@;
        if let Some(id) = state.namespace_lookup(name) {
            namespaces_are_found_by_name(state, name, id);
            assert forall|c: int| 0 <= c < after.namespace_cache.len() implies is_namespace(
                after,
                (#[trigger] after.namespace_cache[c]).0,
                after.namespace_cache[c].1,
            ) by {
                let at = pos(cached_names(state.namespace_cache), name);
                lemma_pos(cached_names(state.namespace_cache), name);
                if c != at && c < state.namespace_cache.len() {
                    assert(after.namespace_cache[c] == state.namespace_cache[c]);
                    lemma_is_namespace(state, after, state.namespace_cache[c].0, state.namespace_cache[c].1);
                } else {
                    assert(after.namespace_cache[c] == (name, id));
                    lemma_is_namespace(state, after, name, id);
                }
            }
        }
    }
}

proof fn lemma_is_namespace(one: DbState, other: DbState, name: Seq<char>, id: u64)
    requires
        one.namespaces == other.namespaces,
        is_namespace(one, name, id),
    ensures
        is_namespace(other, name, id),
{
    let n = choose|n: int| 0 <= n < one.namespaces.len() && (#[trigger] one.namespaces[n]).name == name && one.namespaces[n].id == id;
    assert(other.namespaces[n].name == name);
}

/// The same tables say the same of a condition.
proof fn lemma_same_condition(one: DbState, other: DbState, condition: SkipIf)
    requires
        one.consistent(),
        other == (DbState { namespace_cache: other.namespace_cache, ..one }),
        names_cached_true(one),
        names_cached_true(other),
        tags_in_memory_true(one),
    ensures
        one.skips(condition) == other.skips(condition),
{
    match condition {
        SkipIf::FileTagRelationship(tag) => {
            lemma_lookup(one, tag@);
            lemma_lookup(other, tag@);
            assert(one.tag_id(tag@) == other.tag_id(tag@));
            if let Some(id) = one.tag_id(tag@) {
                if one.tag_has_files(id) {
                    let f = choose|f: u64| one.relationships.contains((f, id));
                    assert(other.relationships.contains((f, id)));
                }
                if other.tag_has_files(id) {
                    let f = choose|f: u64| other.relationships.contains((f, id));
                    assert(one.relationships.contains((f, id)));
                }
                assert(one.tag_has_files(id) == other.tag_has_files(id));
                assert(one.tag_has_files_by_cache(id) == other.tag_has_files_by_cache(id));
            }
        },
        SkipIf::ParentsRelate(tag) => {
            assert(one.relation_described(tag@) == other.relation_described(tag@));
        },
        SkipIf::ParentsRelateLimitto(relate_to, limit_to) => {
            assert(one.tag_id(relate_to@) == other.tag_id(relate_to@));
            assert(one.tag_id(limit_to@) == other.tag_id(limit_to@));
            assert(one.limited_relation_exists(relate_to@, limit_to@) == other.limited_relation_exists(relate_to@, limit_to@));
        },
        _ => {},
    }
}

/// A job is passed over exactly if one of its conditions holds.
pub proof fn jobs_are_passed_over_on_any_condition(state: DbState, conditions: Seq<SkipIf>, n: int)
    requires
        state.consistent(),
        names_cached_true(state),
        tags_in_memory_true(state),
        0 <= n <= conditions.len(),
    ensures
        state.skips_any(conditions, n) <==> exists|i: int| n <= i < conditions.len() && holds(state, #[trigger] conditions[i]),
        ({
            let after = state.with_conditions_checked(conditions, n);
            &&& after == (DbState { namespace_cache: after.namespace_cache, ..state })
            &&& after.consistent()
            &&& names_cached_true(after)
            &&& tags_in_memory_true(after)
        }),
    decreases conditions.len() - n,
{
    if n < conditions.len() {
        conditions_hold_by_the_rows(state, conditions[n]);
        lemma_checked(state, conditions[n]);
        let checked = state.with_condition_checked(conditions[n]);
        jobs_are_passed_over_on_any_condition(checked, conditions, n + 1);
        assert forall|i: int| 0 <= i < conditions.len() implies holds(state, #[trigger] conditions[i]) == holds(
            checked,
            conditions[i],
        ) by {
            conditions_hold_by_the_rows(state, conditions[i]);
            conditions_hold_by_the_rows(checked, conditions[i]);
            lemma_same_condition(state, checked, conditions[i]);
        }
        if exists|i: int| n <= i < conditions.len() && holds(state, #[trigger] conditions[i]) {
            let i = choose|i: int| n <= i < conditions.len() && holds(state, #[trigger] conditions[i]);
            if i > n {
                assert(holds(checked, conditions[i]));
            }
        }
        if exists|i: int| n + 1 <= i < conditions.len() && holds(checked, #[trigger] conditions[i]) {
            let i = choose|i: int| n + 1 <= i < conditions.len() && holds(checked, #[trigger] conditions[i]);
            assert(holds(state, conditions[i]));
        }
    }
}

/// Whether a job waits in the table: a row has its time, wait, site and parameters.
pub open spec fn waits(rows: Seq<DbJobView>, job: JobView) -> bool {
    exists|k: int|
        0 <= k < rows.len() && (#[trigger] rows[k]).config.time == job.time && rows[k].config.reptime == job.reptime
            && rows[k].config.site == job.site && rows[k].config.param == job.param
}

/// Whether one of the conditions of a job holds.
pub open spec fn passed_by(state: DbState, job: ScraperDataReturn) -> bool {
    exists|i: int| 0 <= i < job.skip_conditions@.len() && holds(state, #[trigger] job.skip_conditions@[i])
}

/// Adding a job makes it wait, and keeps the others waiting.
proof fn lemma_added_waits(rows: Seq<DbJobView>, job: JobView, other: JobView)
    ensures
        waits(job_added(rows, job), other) <==> waits(rows, other) || (other.time == job.time && other.reptime == job.reptime
            && other.site == job.site && other.param == job.param),
{
    let after = job_added(rows, job);
    let keys = crate::rows::job_keys(rows);
    lemma_pos(keys, crate::rows::job_key(job));
    let at = pos(keys, crate::rows::job_key(job));
    if at < rows.len() {
        assert(keys[at] == crate::rows::job_key(rows[at].config));
        assert(after[at].config.time == job.time);
    } else {
        assert(after[rows.len() as int].config == job);
    }
    if waits(rows, other) {
        let k = choose|k: int|
            0 <= k < rows.len() && (#[trigger] rows[k]).config.time == other.time && rows[k].config.reptime == other.reptime
                && rows[k].config.site == other.site && rows[k].config.param == other.param;
        assert(after[k].config.time == other.time);
    }
    if waits(after, other) {
        let k = choose|k: int|
            0 <= k < after.len() && (#[trigger] after[k]).config.time == other.time && after[k].config.reptime == other.reptime
                && after[k].config.site == other.site && after[k].config.param == other.param;
        if k < rows.len() && k != at {
            assert(rows[k].config.time == other.time);
        }
        if k == at && k < rows.len() {
            assert(rows[k].config.time == other.time);
        }
    }
}

/// After the jobs that a scraper asks for have been added, a job waits exactly if it waited before, or if one that is like
/// it was asked for and none of its conditions holds. Nothing changes but the jobs and the cache of namespaces.
pub proof fn scraped_jobs_wait_unless_passed_over(state: DbState, jobs: Seq<ScraperDataReturn>, other: JobView)
    requires
        state.consistent(),
        state.jobs.len() + jobs.len() <= u64::MAX,
        names_cached_true(state),
        tags_in_memory_true(state),
    ensures
        ({
            let after = state.with_scraped_jobs(jobs);
            &&& after == (DbState { jobs: after.jobs, namespace_cache: after.namespace_cache, ..state })
            &&& after.jobs.len() <= state.jobs.len() + jobs.len()
            &&& after.consistent()
            &&& names_cached_true(after)
            &&& tags_in_memory_true(after)
            &&& waits(after.jobs, other) <==> waits(state.jobs, other) || exists|j: int|
                0 <= j < jobs.len() && !passed_by(state, #[trigger] jobs[j]) && jobs[j].job@.time == other.time
                    && jobs[j].job@.reptime == other.reptime && jobs[j].job@.site == other.site && jobs[j].job@.param
                    == other.param
        }),
    decreases jobs.len(),
{
    if jobs.len() > 0 {
        let shorter = jobs.drop_last();
        scraped_jobs_wait_unless_passed_over(state, shorter, other);
        let before = state.with_scraped_jobs(shorter);
        let after = state.with_scraped_jobs(jobs);
        let last = jobs.last();
        assert(jobs[jobs.len() - 1] == last);
        let conditions = last.skip_conditions@;
        jobs_are_passed_over_on_any_condition(before, conditions, 0);
        let checked = before.with_conditions_checked(conditions, 0);
        assert forall|i: int| 0 <= i < conditions.len() implies holds(state, #[trigger] conditions[i]) == holds(
            before,
            conditions[i],
        ) by {
            lemma_holds_alike(state, before, conditions[i]);
        }
        assert(before.skips_any(conditions, 0) <==> passed_by(state, last)) by {
            if passed_by(state, last) {
                let i = choose|i: int| 0 <= i < last.skip_conditions@.len() && holds(state, #[trigger] last.skip_conditions@[i]);
                assert(holds(before, conditions[i]));
            }
            if before.skips_any(conditions, 0) {
                let i = choose|i: int| 0 <= i < conditions.len() && holds(before, #[trigger] conditions[i]);
                assert(holds(state, last.skip_conditions@[i]));
            }
        }
        lemma_added_waits(checked.jobs, last.job@, other);
        if !passed_by(state, last) {
            crate::consistency::adding_jobs_keeps_consistency(checked, last.job@);
            lemma_cache_true_alike(checked, after);
        }
        if exists|j: int|
            0 <= j < shorter.len() && !passed_by(state, #[trigger] shorter[j]) && shorter[j].job@.time == other.time
                && shorter[j].job@.reptime == other.reptime && shorter[j].job@.site == other.site && shorter[j].job@.param
                == other.param {
            let j = choose|j: int|
                0 <= j < shorter.len() && !passed_by(state, #[trigger] shorter[j]) && shorter[j].job@.time == other.time
                    && shorter[j].job@.reptime == other.reptime && shorter[j].job@.site == other.site && shorter[j].job@.param
                    == other.param;
            assert(jobs[j] == shorter[j]);
        }
        if exists|j: int|
            0 <= j < jobs.len() && !passed_by(state, #[trigger] jobs[j]) && jobs[j].job@.time == other.time
                && jobs[j].job@.reptime == other.reptime && jobs[j].job@.site == other.site && jobs[j].job@.param
                == other.param {
            let j = choose|j: int|
                0 <= j < jobs.len() && !passed_by(state, #[trigger] jobs[j]) && jobs[j].job@.time == other.time
                    && jobs[j].job@.reptime == other.reptime && jobs[j].job@.site == other.site && jobs[j].job@.param
                    == other.param;
            if j < shorter.len() {
                assert(shorter[j] == jobs[j]);
            }
        }
    }
}

proof fn lemma_cache_true_alike(one: DbState, other: DbState)
    requires
        names_cached_true(one),
        tags_in_memory_true(one),
        other == (DbState { jobs: other.jobs, ..one }),
    ensures
        names_cached_true(other),
        tags_in_memory_true(other),
{
    assert forall|c: int| 0 <= c < other.namespace_cache.len() implies is_namespace(
        other,
        (#[trigger] other.namespace_cache[c]).0,
        other.namespace_cache[c].1,
    ) by {
        assert(is_namespace(one, one.namespace_cache[c].0, one.namespace_cache[c].1));
        lemma_is_namespace(one, other, one.namespace_cache[c].0, one.namespace_cache[c].1);
    }
}

/// States that differ in their jobs and the cache of namespaces say the same of a condition.
proof fn lemma_holds_alike(one: DbState, other: DbState, condition: SkipIf)
    requires
        one.consistent(),
        other.consistent(),
        names_cached_true(one),
        names_cached_true(other),
        tags_in_memory_true(one),
        tags_in_memory_true(other),
        other == (DbState { jobs: other.jobs, namespace_cache: other.namespace_cache, ..one }),
    ensures
        holds(one, condition) == holds(other, condition),
{
    conditions_hold_by_the_rows(one, condition);
    conditions_hold_by_the_rows(other, condition);
    match condition {
        SkipIf::FileTagRelationship(tag) => {
            lemma_lookup(one, tag@);
            lemma_lookup(other, tag@);
            assert(one.tag_id(tag@) == other.tag_id(tag@));
        },
        SkipIf::ParentsRelate(tag) => {
            assert(one.relation_described(tag@) == other.relation_described(tag@));
        },
        _ => {},
    }
}

/// What is said of a source URL: it is dead exactly if it is among the dead URLs; and the file that is given is the one
/// with the smallest id of those that have the tag called like it, with what its row says of it. No file is given exactly
/// if none has the tag, or the row of that one is missing or has no hash.
pub proof fn source_urls_tell_their_first_file(state: DbState, namespace: u64, url: Seq<char>, i: int)
    requires
        state.consistent(),
        0 <= i < state.tags.len(),
        state.tags[i].name == url,
        state.tags[i].namespace == namespace,
    ensures
        ({
            let status = state.url_status(Some(namespace), url);
            &&& status.dead <==> state.dead_urls.contains(url)
            &&& status.file matches Some(file) ==> exists|r: int|
                0 <= r < state.files.len() && first_with(state, state.tags[i].id, (#[trigger] state.files[r]).id) && told_by(
                    file,
                    state.files[r],
                )
            &&& status.file is None ==> forall|r: int|
                0 <= r < state.files.len() && (#[trigger] state.files[r]).hash is Some ==> !first_with(
                    state,
                    state.tags[i].id,
                    state.files[r].id,
                )
        }),
{
    let keys = tag_keys(state.tags);
    lemma_pos(keys, (url, namespace));
    let at = pos(keys, (url, namespace));
    assert(keys[i] == (url, namespace));
    assert(keys[at] == (url, namespace));
    assert(at == i);
    let id = state.tags[i].id;
    assert(tag_id_of(state.tags, url, namespace) == Some(id));
    let ids = file_ids(state.files);
    if let Some(first) = first_file(state.relationships, id) {
        assert(is_first_file(state.relationships, id, first));
        lemma_pos(ids, first);
        let r = pos(ids, first);
        if r < state.files.len() {
            assert(ids[r] == state.files[r].id);
        }
        assert forall|q: int|
            0 <= q < state.files.len() && first_with(state, id, (#[trigger] state.files[q]).id) implies q == r by {
            assert(state.files[q].id == first);
            assert(ids[q] == first);
        }
    } else {
        assert forall|r: int| 0 <= r < state.files.len() implies !first_with(state, id, (#[trigger] state.files[r]).id) by {
            if first_with(state, id, state.files[r].id) {
                assert(is_first_file(state.relationships, id, state.files[r].id));
            }
        }
    }
}

/// Whether a file is the first that has a tag.
pub open spec fn first_with(state: DbState, tag_id: u64, file_id: u64) -> bool {
    state.relationships.contains((file_id, tag_id)) && forall|other: u64| #[trigger]
        state.relationships.contains((other, tag_id)) ==> file_id <= other
}

/// Whether a file is what a row says, with its size.
pub open spec fn told_by(file: FileView, row: crate::rows::FileRec) -> bool {
    &&& file.id == Some(row.id)
    &&& row.hash == Some(file.hash)
    &&& file.extension == row.extension
    &&& file.storage_id == row.storage_id
    &&& file.size_bytes == row.size_bytes
}

proof fn lemma_name_cached_true(before: DbState, after: DbState, name: Seq<char>, id: u64)
    requires
        names_cached_true(before),
        forall|other: Seq<char>, k: u64| #[trigger] is_namespace(before, other, k) ==> is_namespace(after, other, k),
        is_namespace(after, name, id),
        after.namespace_cache == name_cached(before.namespace_cache, name, id),
    ensures
        names_cached_true(after),
{
    lemma_pos(cached_names(before.namespace_cache), name);
    assert forall|c: int| 0 <= c < after.namespace_cache.len() implies is_namespace(
        after,
        (#[trigger] after.namespace_cache[c]).0,
        after.namespace_cache[c].1,
    ) by {
        if c < before.namespace_cache.len() {
            let held = before.namespace_cache[c];
            assert(is_namespace(before, held.0, held.1));
            assert(is_namespace(after, held.0, held.1));
        }
    }
}

proof fn lemma_namespace_true(state: DbState, namespace: NamespaceView)
    requires
        names_cached_true(state),
    ensures
        names_cached_true(state.with_namespace(namespace)),
        state.with_namespace(namespace).namespaces.len() >= state.namespaces.len(),
{
    let after = state.with_namespace(namespace);
    lemma_pos(namespace_names(state.namespaces), namespace.name);
    crate::namespace::lemma_namespace_upserted(state.namespaces, namespace);
    assert forall|other: Seq<char>, k: u64| #[trigger] is_namespace(state, other, k) implies is_namespace(after, other, k) by {
        let n = choose|n: int|
            0 <= n < state.namespaces.len() && (#[trigger] state.namespaces[n]).name == other && state.namespaces[n].id == k;
        assert(after.namespaces[n].name == other && after.namespaces[n].id == k);
    }
    let names = namespace_names(after.namespaces);
    lemma_pos(names, namespace.name);
    let at = pos(names, namespace.name);
    let id = namespace_id_of(after.namespaces, namespace.name)->0;
    assert(after.namespaces[at].name == namespace.name && after.namespaces[at].id == id);
    lemma_name_cached_true(state, after, namespace.name, id);
}

/// What the cache holds of namespaces stays what the table says: when namespaces are added, when one is
/// looked up, and when tags are added.
pub proof fn cached_namespaces_stay_true(
    state: DbState,
    namespaces: Seq<NamespaceView>,
    name: Seq<char>,
    tags: Seq<PluginTagView>,
)
    requires
        names_cached_true(state),
    ensures
        names_cached_true(state.with_namespaces(namespaces)),
        names_cached_true(state.with_namespace_looked_up(name)),
        names_cached_true(state.with_plugin_tags(tags)),
{
    lemma_namespaces_true(state, namespaces);
    lemma_namespaces_true(state, namespaces_of(tags));
    if let Some(id) = state.namespace_lookup(name) {
        let after = state.with_namespace_looked_up(name);
        let keys = cached_names(state.namespace_cache);
        lemma_pos(keys, name);
        let c = pos(keys, name);
        if c < state.namespace_cache.len() {
            assert(keys[c] == state.namespace_cache[c].0);
            assert(is_namespace(state, name, state.namespace_cache[c].1));
        } else {
            let names = namespace_names(state.namespaces);
            lemma_pos(names, name);
            let at = pos(names, name);
            assert(state.namespaces[at].name == name && state.namespaces[at].id == id);
        }
        assert forall|other: Seq<char>, k: u64| #[trigger] is_namespace(state, other, k) implies is_namespace(
            after,
            other,
            k,
        ) by {
            let n = choose|n: int|
                0 <= n < state.namespaces.len() && (#[trigger] state.namespaces[n]).name == other && state.namespaces[n].id
                    == k;
            assert(after.namespaces[n].name == other);
        }
        lemma_name_cached_true(state, after, name, id);
    }
    let named = state.with_namespaces(namespaces_of(tags));
    let after = state.with_plugin_tags(tags);
    lemma_spaces_after(state, tags);
    assert forall|c: int| 0 <= c < after.namespace_cache.len() implies is_namespace(
        after,
        (#[trigger] after.namespace_cache[c]).0,
        after.namespace_cache[c].1,
    ) by {
        let held = named.namespace_cache[c];
        assert(is_namespace(named, held.0, held.1));
        let n = choose|n: int|
            0 <= n < named.namespaces.len() && (#[trigger] named.namespaces[n]).name == held.0 && named.namespaces[n].id
                == held.1;
        assert(after.namespaces[n].name == held.0);
    }
}

proof fn lemma_namespaces_true(state: DbState, namespaces: Seq<NamespaceView>)
    requires
        names_cached_true(state),
    ensures
        names_cached_true(state.with_namespaces(namespaces)),
    decreases namespaces.len(),
{
    if namespaces.len() > 0 {
        lemma_namespaces_true(state, namespaces.drop_last());
        lemma_namespace_true(state.with_namespaces(namespaces.drop_last()), namespaces.last());
    }
}

proof fn lemma_spaces_after(state: DbState, tags: Seq<PluginTagView>)
    ensures
        state.with_plugin_tags(tags).namespaces == state.with_namespaces(namespaces_of(tags)).namespaces,
        state.with_plugin_tags(tags).namespace_cache == state.with_namespaces(namespaces_of(tags)).namespace_cache,
{
    reveal(DbState::with_plugin_tags);
    let wanted = distinct_tags(stored_tags_of(tags));
    if wanted.len() > 0 {
        let named = DbState { tag_search_dirty: true, ..state.with_namespaces(namespaces_of(tags)) };
        let added = DbState { tags: tags_upserted(named.tags, named.namespaces, wanted), ..named };
        let announced = DbState {
            regex_tags: match added.regex_tags {
                Some(waiting) => Some(waiting + newer_tags(added.with_ids(wanted), tag_max_id(named.tags))),
                None => None,
            },
            ..added
        };
        crate::parents::lemma_with_relations(announced, announced.relations_of(tags));
    }
}

} // verus!
