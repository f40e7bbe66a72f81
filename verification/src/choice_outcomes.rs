//! What settings, sites and rows decide, told of their texts and numbers.
use crate::backup_path::backup_goes_to;
use crate::bitmap_cache::{InternalCacheType, stored_set};
use crate::cache::default_cache_setting;
use crate::consistency::{namespaces_ok, tags_ok};
use crate::database::{CacheType, DbState};
use crate::row_outcomes::added_locations_stand_as_given;
use crate::rows::{StorageRec, TagRec, namespace_ids, tag_ids};
use crate::schema::indexed_tags;
use crate::settings::{file_location_setting, setting_set_then_get};
use crate::startup::{DB_VERSION, lemma_no_cache_mode, user_agent_setting, version_setting};
use crate::system_jobs::{SystemAction, is_action_of, system_job};
use crate::text::{lemma_filter_members, lemma_pos, pos};
use crate::types::{DbJobView, ParamView};
use vstd::prelude::*;

verus! {

/// Whether the setting that names the cache says this.
pub open spec fn cache_named(state: DbState, name: Seq<char>) -> bool {
    state.setting("SYSTEM_cachemode"@) matches Some(setting) && setting.param == Some(name)
}

/// Whether the setting that says from which count on a tag is popular gives this number.
pub open spec fn popular_from(state: DbState, count: u64) -> bool {
    state.setting("SYSTEM_tag_count_popular_division"@) matches Some(setting) && setting.num == Some(count)
}

/// Whether memory holds the files of a tag as they are stored.
pub open spec fn in_memory_as_stored(state: DbState, tag_id: u64) -> bool {
    &&& state.memory is Some
    &&& state.memory->0.tag_id.dom().contains(tag_id)
    &&& stored_set(state.bitmaps.tagid, tag_id) == Some(state.memory->0.tag_id[tag_id])
}

/// Whether memory holds nothing of a tag.
pub open spec fn not_in_memory(state: DbState, tag_id: u64) -> bool {
    state.memory matches Some(memory) ==> !memory.tag_id.dom().contains(tag_id)
}

/// Whether the files of a tag are stored.
pub open spec fn is_stored(state: DbState, tag_id: u64) -> bool {
    stored_set(state.bitmaps.tagid, tag_id) is Some
}

/// Whether the row with an id counts this many files, or more.
pub open spec fn counts_from(tags: Seq<TagRec>, tag_id: u64, count: u64) -> bool {
    exists|k: int| 0 <= k < tags.len() && (#[trigger] tags[k]).id == tag_id && tags[k].count >= count
}

/// The cache is the one that the setting names: none in memory for "Bare"; all stored tags for
/// "RelationshipRoaringFull"; none of them for "RelationshipRoaringTable"; for
/// "RelationshipRoaringPopular" the stored ones that were given as often as the number says. Where the
/// setting is missing or names none of these, all stored tags are held, and the setting says so.
pub proof fn caches_hold_what_the_setting_names(state: DbState, tag_id: u64, count: u64)
    requires
        tags_ok(state.tags, state.namespaces),
    ensures
        ({
            let after = state.with_cache_chosen();
            let full = cache_named(state, "RelationshipRoaringFull"@);
            let table = cache_named(state, "RelationshipRoaringTable"@);
            let popular = cache_named(state, "RelationshipRoaringPopular"@);
            let bare = cache_named(state, "Bare"@);
            &&& bare ==> after.memory is None && after.cache_type == CacheType::Bare
            &&& full ==> after.cache_type == CacheType::RelationshipRoaring(InternalCacheType::Full)
            &&& full && is_stored(state, tag_id) ==> in_memory_as_stored(after, tag_id)
            &&& full && !is_stored(state, tag_id) ==> not_in_memory(after, tag_id)
            &&& table ==> after.cache_type == CacheType::RelationshipRoaring(InternalCacheType::Table)
            &&& table ==> after.memory is Some && not_in_memory(after, tag_id)
            &&& popular && popular_from(state, count) ==> after.cache_type == CacheType::RelationshipRoaring(
                InternalCacheType::Popular(count),
            )
            &&& popular && popular_from(state, count) ==> if is_stored(state, tag_id) && counts_from(
                state.tags,
                tag_id,
                count,
            ) {
                in_memory_as_stored(after, tag_id)
            } else {
                not_in_memory(after, tag_id)
            }
            &&& bare || full || table || (popular && popular_from(state, count)) ==> after.settings == state.settings
            &&& !bare && !full && !table && !popular ==> cache_named(after, "RelationshipRoaringFull"@)
            &&& !bare && !full && !table && !popular && is_stored(state, tag_id) ==> in_memory_as_stored(after, tag_id)
            &&& !bare && !full && !table && !popular ==> after.cache_type == CacheType::RelationshipRoaring(
                InternalCacheType::Full,
            )
            &&& after.bitmaps == state.bitmaps && after.relationships == state.relationships && after.tags == state.tags
        }),
{
    lemma_cache_names();
    setting_set_then_get(state, default_cache_setting(), "SYSTEM_cachemode"@);
    let ids = tag_ids(state.tags);
    lemma_pos(ids, tag_id);
    let at = pos(ids, tag_id);
    if at < state.tags.len() {
        assert(state.tags[at].id == tag_id);
    }
    if counts_from(state.tags, tag_id, count) {
        let k = choose|k: int|
            0 <= k < state.tags.len() && (#[trigger] state.tags[k]).id == tag_id && state.tags[k].count >= count;
        assert(ids[k] == ids[at]);
    }
    if state.cache_asked_for() is None {
        let set = state.with_setting(default_cache_setting());
        assert(state.with_cache_chosen().setting("SYSTEM_cachemode"@) == set.setting("SYSTEM_cachemode"@));
    }
}

proof fn lemma_cache_names()
    ensures
        "Bare"@ != "RelationshipRoaringFull"@,
        "Bare"@ != "RelationshipRoaringTable"@,
        "Bare"@ != "RelationshipRoaringPopular"@,
        "RelationshipRoaringFull"@ != "RelationshipRoaringTable"@,
        "RelationshipRoaringFull"@ != "RelationshipRoaringPopular"@,
        "RelationshipRoaringTable"@ != "RelationshipRoaringPopular"@,
{
    reveal_strlit("Bare");
    reveal_strlit("RelationshipRoaringFull");
    reveal_strlit("RelationshipRoaringTable");
    reveal_strlit("RelationshipRoaringPopular");
    assert("Bare"@.len() == 4);
    assert("RelationshipRoaringFull"@.len() == 23);
    assert("RelationshipRoaringTable"@.len() == 24);
    assert("RelationshipRoaringPopular"@.len() == 26);
}

/// Whether the first parameter of a job is this plain text.
pub open spec fn first_param(job: DbJobView, text: Seq<char>) -> bool {
    job.config.param.len() > 0 && job.config.param[0] == ParamView::Normal(text)
}

/// Whether the first parameter of a job is a plain text.
pub open spec fn has_plain_param(job: DbJobView) -> bool {
    job.config.param.len() > 0 && job.config.param[0] is Normal
}

/// A job of the system does what its site says: it backs the database up below the path that it is
/// given, takes over the database at that path, looks sizes up, or computes digests; another job does
/// nothing, and none does anything once the program is about to end.
pub proof fn system_jobs_do_what_their_site_says(
    job: DbJobView,
    exiting: bool,
    seconds: u64,
    path: Seq<char>,
    action: SystemAction,
)
    requires
        is_action_of(job, exiting, seconds, action),
    ensures
        exiting ==> action is Nothing,
        !exiting && job.config.site == "SYSTEM_BACKUP"@ && first_param(job, path) ==> action is BackUp
            && backup_goes_to(path, seconds, action->BackUp_0@),
        !exiting && job.config.site == "SYSTEM_BACKUP"@ && !has_plain_param(job) ==> action is BackUpNowhere,
        !exiting && job.config.site == "SYSTEM_DB_SLURP"@ && first_param(job, path) ==> action is Slurp
            && action->Slurp_0@ == path,
        !exiting && job.config.site == "SYSTEM_DB_SLURP"@ && !has_plain_param(job) ==> action is SlurpNothing,
        !exiting && job.config.site == "SYSTEM_FILE_SIZE"@ ==> action is LookUpSizes,
        !exiting && job.config.site == "SYSTEM_FILE_HASH"@ ==> action is ComputeDigests,
        job.config.site != "SYSTEM_BACKUP"@ && job.config.site != "SYSTEM_DB_SLURP"@ && job.config.site
            != "SYSTEM_FILE_SIZE"@ && job.config.site != "SYSTEM_FILE_HASH"@ ==> action is Nothing,
{
    lemma_sites();
}

proof fn lemma_sites()
    ensures
        "SYSTEM_BACKUP"@ != "SYSTEM_DB_SLURP"@,
        "SYSTEM_BACKUP"@ != "SYSTEM_FILE_SIZE"@,
        "SYSTEM_BACKUP"@ != "SYSTEM_FILE_HASH"@,
        "SYSTEM_DB_SLURP"@ != "SYSTEM_FILE_SIZE"@,
        "SYSTEM_DB_SLURP"@ != "SYSTEM_FILE_HASH"@,
        "SYSTEM_FILE_SIZE"@ != "SYSTEM_FILE_HASH"@,
{
    reveal_strlit("SYSTEM_BACKUP");
    reveal_strlit("SYSTEM_DB_SLURP");
    reveal_strlit("SYSTEM_FILE_SIZE");
    reveal_strlit("SYSTEM_FILE_HASH");
    assert("SYSTEM_BACKUP"@.len() == 13);
    assert("SYSTEM_DB_SLURP"@.len() == 15);
    assert("SYSTEM_FILE_SIZE"@[12] == 'S');
    assert("SYSTEM_FILE_HASH"@[12] == 'H');
}

/// A job is one of the system if it has one of the five sites, or runs again and its site starts like
/// theirs.
pub proof fn system_jobs_are_told_by_their_site(job: DbJobView)
    ensures
        job.config.site == "SYSTEM_BACKUP"@ || job.config.site == "SYSTEM_DB_SLURP"@ || job.config.site
            == "SYSTEM_FILE_SIZE"@ || job.config.site == "SYSTEM_FILE_HASH"@ || job.config.site
            == "SYSTEM_STORAGE_CHECK"@ ==> system_job(job),
        job.config.recreation is Some && "SYSTEM_"@.is_prefix_of(job.config.site) ==> system_job(job),
        !"SYSTEM_"@.is_prefix_of(job.config.site) ==> !system_job(job),
        job.config.recreation is None && job.config.site != "SYSTEM_BACKUP"@ && job.config.site != "SYSTEM_DB_SLURP"@
            && job.config.site != "SYSTEM_FILE_SIZE"@ && job.config.site != "SYSTEM_FILE_HASH"@ && job.config.site
            != "SYSTEM_STORAGE_CHECK"@ ==> !system_job(job),
{
    reveal_strlit("SYSTEM_");
    reveal_strlit("SYSTEM_BACKUP");
    reveal_strlit("SYSTEM_DB_SLURP");
    reveal_strlit("SYSTEM_FILE_SIZE");
    reveal_strlit("SYSTEM_FILE_HASH");
    reveal_strlit("SYSTEM_STORAGE_CHECK");
    assert("SYSTEM_"@ =~= "SYSTEM_BACKUP"@.subrange(0, 7));
    assert("SYSTEM_"@ =~= "SYSTEM_DB_SLURP"@.subrange(0, 7));
    assert("SYSTEM_"@ =~= "SYSTEM_FILE_SIZE"@.subrange(0, 7));
    assert("SYSTEM_"@ =~= "SYSTEM_FILE_HASH"@.subrange(0, 7));
    assert("SYSTEM_"@ =~= "SYSTEM_STORAGE_CHECK"@.subrange(0, 7));
}

/// Whether a storage location is at a place.
pub open spec fn has_place(rows: Seq<StorageRec>, place: Seq<char>) -> bool {
    exists|i: int| 0 <= i < rows.len() && (#[trigger] rows[i]).location == place
}

proof fn lemma_place_added(rows: Seq<StorageRec>, place: Seq<char>)
    requires
        rows.len() < u64::MAX,
    ensures
        has_place(crate::settings::storage_added(rows, place), place),
        rows.is_prefix_of(crate::settings::storage_added(rows, place)),
        crate::settings::storage_added(rows, place).len() <= rows.len() + 1,
{
    let after = crate::settings::storage_added(rows, place);
    added_locations_stand_as_given(rows, place);
    if exists|i: int| 0 <= i < rows.len() && (#[trigger] rows[i]).location == place {
        assert(after == rows);
    } else {
        assert(after[after.len() - 1].location == place);
    }
}

/// The place for downloads is the one that the setting names, "files" where it names none; asking for it
/// adds it to the storage locations, and makes the setting where there is none.
pub proof fn downloads_go_where_the_setting_says(state: DbState, place: Seq<char>)
    requires
        state.storage.len() + 2 <= u64::MAX,
    ensures
        ({
            let name = "SYSTEM_file_location"@;
            let after = state.with_download_location();
            &&& state.setting(name) is Some && state.setting(name)->0.param == Some(place) ==> state.download_location()
                == place && has_place(after.storage, place)
            &&& state.setting(name) is Some && state.setting(name)->0.param is None ==> state.download_location()
                == "files"@ && has_place(after.storage, "files"@)
            &&& state.setting(name) is None ==> state.download_location() == "files"@ && has_place(after.storage, "files"@)
                && (after.setting(name) matches Some(made) && made.name == name && made.param == Some("files"@))
            &&& state.setting(name) is Some ==> after.settings == state.settings
            &&& state.storage.is_prefix_of(after.storage)
            &&& after.files == state.files && after.tags == state.tags && after.relationships == state.relationships
        }),
{
    let name = "SYSTEM_file_location"@;
    lemma_place_added(state.storage, "files"@);
    lemma_place_added(state.storage, state.download_location());
    setting_set_then_get(state, file_location_setting(), name);
    if state.setting(name) is None {
        let set = state.with_default_location();
        lemma_place_added(set.storage, "files"@);
        let made = state.with_setting(file_location_setting());
        assert(state.with_download_location().setting(name) == made.setting(name));
    }
}

/// A new database holds no row but its settings and the place for downloads; the settings say which
/// version the tables have, what downloads call themselves, where they go and which cache is used.
pub proof fn new_databases_hold_their_settings()
    ensures
        ({
            let new = DbState::started();
            &&& new.namespaces.len() == 0 && new.tags.len() == 0 && new.files.len() == 0 && new.parents.len() == 0
            &&& new.jobs.len() == 0 && new.hashes.len() == 0 && new.dead_urls.len() == 0
            &&& new.relationships == Set::<(u64, u64)>::empty()
            &&& has_place(new.storage, "files"@) && new.storage.len() == 1
            &&& new.setting("SYSTEM_VERSION"@) is Some && new.setting("SYSTEM_VERSION"@)->0.num == Some(6u64)
            &&& new.setting("SYSTEM_DEFAULT_USER_AGENT"@) is Some
            &&& new.setting("SYSTEM_DEFAULT_USER_AGENT"@)->0.param == Some("IntScrape V1.0"@)
            &&& new.setting("SYSTEM_file_location"@) is Some && new.setting("SYSTEM_file_location"@)->0.param == Some("files"@)
            &&& cache_named(new, "RelationshipRoaringFull"@)
            &&& new.cache_type == CacheType::RelationshipRoaring(InternalCacheType::Full)
        }),
{
    reveal_strlit("SYSTEM_cachemode");
    reveal_strlit("SYSTEM_file_location");
    reveal_strlit("SYSTEM_DEFAULT_USER_AGENT");
    reveal_strlit("SYSTEM_VERSION");
    let cache = "SYSTEM_cachemode"@;
    let location = "SYSTEM_file_location"@;
    let agent = "SYSTEM_DEFAULT_USER_AGENT"@;
    let version = "SYSTEM_VERSION"@;
    assert(cache.len() == 16 && location.len() == 20 && agent.len() == 25 && version.len() == 14);
    lemma_no_cache_mode();
    let blank = DbState::blank();
    assert(blank.setting(location) is None);
    let located = blank.with_setting(file_location_setting());
    setting_set_then_get(blank, file_location_setting(), location);
    lemma_place_added(blank.storage, "files"@);
    let placed = blank.with_default_location();
    assert(placed.setting(location) == located.setting(location));
    let named = placed.with_setting(user_agent_setting());
    setting_set_then_get(placed, user_agent_setting(), location);
    setting_set_then_get(named, version_setting(DB_VERSION), location);
    setting_set_then_get(named, version_setting(DB_VERSION), agent);
    let set = blank.set_up();
    let chosen = set.with_setting(default_cache_setting());
    setting_set_then_get(set, default_cache_setting(), location);
    setting_set_then_get(set, default_cache_setting(), agent);
    setting_set_then_get(set, default_cache_setting(), version);
    let new = DbState::started();
    assert(new.settings == chosen.settings && new.setting_cache == chosen.setting_cache);
    assert(new.setting(cache) == chosen.setting(cache));
    assert(new.setting(location) == chosen.setting(location));
    assert(new.setting(agent) == chosen.setting(agent));
    assert(new.setting(version) == chosen.setting(version));
}

/// The index of popular tags holds the tags that were given five times or more, with their names and
/// namespaces, and no other.
pub proof fn the_index_holds_the_popular_tags(tags: Seq<TagRec>, id: u64, name: Seq<char>, namespace: u64)
    ensures
        indexed_tags(tags).contains((id, name, namespace)) <==> exists|k: int|
            0 <= k < tags.len() && (#[trigger] tags[k]).id == id && tags[k].name == name && tags[k].namespace == namespace
                && tags[k].count >= 5,
{
    let keep = |row: TagRec| row.count >= crate::schema::HIGH_VALUE_COUNT;
    let popular = tags.filter(keep);
    let entry = (id, name, namespace);
    lemma_filter_members(tags, keep);
    assert(indexed_tags(tags) =~= Seq::new(
        popular.len(),
        |i: int| (popular[i].id, popular[i].name, popular[i].namespace),
    ));
    if indexed_tags(tags).contains(entry) {
        let i = choose|i: int| 0 <= i < indexed_tags(tags).len() && indexed_tags(tags)[i] == entry;
        assert(popular.contains(popular[i]));
        assert(tags.contains(popular[i]));
        let k = choose|k: int| 0 <= k < tags.len() && tags[k] == popular[i];
        assert(tags[k].id == id);
    }
    if exists|k: int|
        0 <= k < tags.len() && (#[trigger] tags[k]).id == id && tags[k].name == name && tags[k].namespace == namespace
            && tags[k].count >= 5 {
        let k = choose|k: int|
            0 <= k < tags.len() && (#[trigger] tags[k]).id == id && tags[k].name == name && tags[k].namespace == namespace
                && tags[k].count >= 5;
        assert(tags.contains(tags[k]));
        assert(popular.contains(tags[k]));
        let i = choose|i: int| 0 <= i < popular.len() && popular[i] == tags[k];
        assert(indexed_tags(tags)[i] == entry);
    }
}

/// A relationship is taken over from the one table if the row of its tag names a namespace that has a
/// row.
pub proof fn relationships_of_known_namespaces_are_taken_over(state: DbState, file_id: u64, tag_id: u64)
    requires
        namespaces_ok(state.namespaces),
        tag_ids(state.tags).no_duplicates(),
    ensures
        state.migrates((file_id, tag_id)) <==> exists|k: int, j: int|
            0 <= k < state.tags.len() && 0 <= j < state.namespaces.len() && (#[trigger] state.tags[k]).id == tag_id && (
            #[trigger] state.namespaces[j]).id == state.tags[k].namespace,
{
    let ids = tag_ids(state.tags);
    let spaces = namespace_ids(state.namespaces);
    lemma_pos(ids, tag_id);
    let at = pos(ids, tag_id);
    if at < state.tags.len() {
        let namespace = state.tags[at].namespace;
        lemma_pos(spaces, namespace);
        let n = pos(spaces, namespace);
        assert(ids[at] == state.tags[at].id);
        if n < state.namespaces.len() {
            assert(spaces[n] == state.namespaces[n].id);
            assert(state.tags[at].id == tag_id && state.namespaces[n].id == state.tags[at].namespace);
        }
    }
    if exists|k: int, j: int|
        0 <= k < state.tags.len() && 0 <= j < state.namespaces.len() && (#[trigger] state.tags[k]).id == tag_id && (
        #[trigger] state.namespaces[j]).id == state.tags[k].namespace {
        let (k, j) = choose|k: int, j: int|
            0 <= k < state.tags.len() && 0 <= j < state.namespaces.len() && (#[trigger] state.tags[k]).id == tag_id && (
            #[trigger] state.namespaces[j]).id == state.tags[k].namespace;
        assert(ids[k] == tag_id);
        assert(ids[at] == ids[k]);
        assert(spaces[j] == state.tags[k].namespace);
    }
}

} // verus!
