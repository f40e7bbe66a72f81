use intscrape::backup_path::{civil_date_from_days, dated_backup_destination};
use intscrape::bitmap_cache::{InternalCacheType, RelationshipStorage, RoaringTables, SearchQuery};
use intscrape::cli::{checked_time_conv, command_job, parse_string_to_scraperparam, scraper_param, time_conv};
use intscrape::database::{DbError, MainDatabase, PluginManager};
use intscrape::paths::{append_extension, can_shard, file_name_of, join_path, set_extension, sibling_of, stem_of};
use intscrape::processing::ScrapedFile;
use intscrape::rows::{FileRow, HashRow, TagRow, allocate_id};
use intscrape::schema::audit_migration;
use intscrape::slurp::{SourceDatabase, SourceFile, schema_has_column};
use intscrape::storage_check::{FileFinding, FileMove, FileProbe, StorageStep, probe_file};
use intscrape::system_jobs::{SystemAction, is_system_job, system_action};
use intscrape::tag_search::RankedTag;
use intscrape::text::{chars_of, decimal_text, padded_text, parse_u64};
use intscrape::types::{
    CheckFilesEnum, DbJobRecreation, DbJobsObj, DbSearchTypeEnum, DbSettingsObj, FileInternal, FileManager, FileTagAction,
    GenericNamespaceObj, HashesSupported, PluginJob, PluginTag, RelationContext, ScraperDataReturn, ScraperParam,
    SearchHolder, SearchObj, SkipIf, Tag, TagOperation, TagParents, TagSearch,
};
use intscrape::upkeep::hash_algorithms;
use std::collections::HashSet;

fn tag(name: &str, namespace: &str) -> Tag {
    Tag {
        name: name.to_string(),
        namespace: GenericNamespaceObj { name: namespace.to_string(), description: None },
    }
}

fn plugin_tag(name: &str, namespace: &str) -> PluginTag {
    PluginTag { tag: tag(name, namespace), ..Default::default() }
}

fn action(operation: TagOperation, tags: Vec<PluginTag>) -> FileTagAction {
    FileTagAction { operation, tags }
}

fn file(hash: &str) -> FileInternal {
    FileInternal { hash: hash.to_string(), extension: "jpg".to_string(), storage_id: 1, ..Default::default() }
}

fn add_file(db: &mut MainDatabase, hash: &str) -> u64 {
    db.internal_file_bulk_add(&vec![file(hash)])[0].id.unwrap()
}

fn add_tag(db: &mut MainDatabase, name: &str, namespace: &str) -> u64 {
    db.internal_tag_bulk_add(&vec![action(TagOperation::Add, vec![plugin_tag(name, namespace)])])[0].1
}

fn scraped(hash: &str, actions: Vec<FileTagAction>) -> ScrapedFile {
    ScrapedFile {
        manager: FileManager {
            internal: file(hash),
            identifying_hashes: vec![HashesSupported::Md5(format!("md5-{hash}"))],
        },
        actions,
    }
}

fn job(site: &str) -> PluginJob {
    PluginJob { site: site.to_string(), ..Default::default() }
}

fn search(searches: Vec<SearchHolder>) -> SearchObj {
    SearchObj { search_relate: None, searches }
}

fn count_of(db: &MainDatabase, id: u64) -> u64 {
    db.tags.iter().find(|row| row.id == id).unwrap().count
}

#[test]
fn ids_follow_the_largest_and_fill_gaps_at_the_end() {
    assert_eq!(allocate_id(&vec![]), 1);
    assert_eq!(allocate_id(&vec![3, 7, 5]), 8);
    assert_eq!(allocate_id(&vec![i64::MAX as u64, 0, 1, 3]), 2);
}

#[test]
fn numbers_are_written_and_read() {
    assert_eq!(decimal_text(0), "0");
    assert_eq!(decimal_text(u64::MAX), "18446744073709551615");
    assert_eq!(padded_text(7, 2), "07");
    assert_eq!(padded_text(1234, 2), "1234");
    assert_eq!(parse_u64(&chars_of("0042")), Some(42));
    assert_eq!(parse_u64(&chars_of("18446744073709551616")), None);
    assert_eq!(parse_u64(&chars_of("4x")), None);
}

#[test]
fn dates_and_backup_paths() {
    assert_eq!(civil_date_from_days(0), (1970, 1, 1));
    assert_eq!(civil_date_from_days(11_016), (2000, 2, 29));
    assert_eq!(civil_date_from_days(-1), (1969, 12, 31));
    assert_eq!(dated_backup_destination("backups", 951_782_400), "backups/2000/02/29/main.db");
}

#[test]
fn spans_of_time() {
    assert_eq!(time_conv("now"), 0);
    assert_eq!(time_conv("NOW"), 0);
    assert_eq!(time_conv("1d12h"), 129_600);
    assert_eq!(time_conv("1y2mo3w"), 31_557_600 + 2 * 2_629_800 + 3 * 604_800);
    assert_eq!(time_conv("90s"), 90);
    assert_eq!(time_conv("d"), 0);
    assert_eq!(time_conv(""), 0);
    assert_eq!(checked_time_conv("18446744073709551615y"), None);
    assert_eq!(checked_time_conv("2m"), Some(120));
}

#[test]
fn parameters_of_a_query() {
    assert_eq!(
        parse_string_to_scraperparam("https://EXAMPLE.com/a plain ftp://example.com/b"),
        vec![
            ScraperParam::Url("https://example.com/a".to_string()),
            ScraperParam::Normal("plain".to_string()),
            ScraperParam::Normal("ftp://example.com/b".to_string()),
        ]
    );
    assert_eq!(
        scraper_param(&"raw".to_string(), &Some(("http".to_string(), "http://raw/".to_string()))),
        ScraperParam::Url("http://raw/".to_string())
    );
    assert_eq!(scraper_param(&"raw".to_string(), &None), ScraperParam::Normal("raw".to_string()));
}

#[test]
fn jobs_from_the_command_line() {
    let job = command_job(
        &"site".to_string(),
        "a b",
        "1h",
        Some(DbJobRecreation::AlwaysTime(60, Some(2))),
        1_000,
    );
    assert_eq!(job.time, 1_000);
    assert_eq!(job.reptime, 3_600);
    assert_eq!(job.priority, 10);
    assert_eq!(job.recreation, Some(DbJobRecreation::AlwaysTime(60, Some(2))));
    assert_eq!(job.param, vec![ScraperParam::Normal("a".into()), ScraperParam::Normal("b".into())]);
    assert!(job.user_data.is_empty());
}

#[test]
fn parts_of_paths() {
    assert_eq!(join_path("a", "b"), "a/b");
    assert_eq!(join_path("a/", "b"), "a/b");
    assert_eq!(join_path("a", "/b"), "/b");
    assert_eq!(stem_of("name.tar.gz"), "name.tar");
    assert_eq!(stem_of(".hidden"), ".hidden");
    assert_eq!(set_extension("a.b/name.jpg", "png"), "a.b/name.png");
    assert_eq!(set_extension("a.b/name", "png"), "a.b/name.png");
    assert_eq!(set_extension("a/name.tar.gz", ""), "a/name.tar");
    assert_eq!(set_extension("a/..", "png"), "a/..");
    assert_eq!(append_extension("a/name.tar", "gz"), "a/name.tar.gz");
    assert_eq!(append_extension("a/name/", "gz"), "a/name.gz");
    assert_eq!(append_extension("a/name", ""), "a/name");
    assert_eq!(file_name_of("/a/b/"), Some("b".to_string()));
    assert_eq!(file_name_of("/a/.."), None);
    assert_eq!(file_name_of("/"), None);
    assert_eq!(sibling_of("/data/files", "dumpster"), "/data/dumpster");
    assert_eq!(sibling_of("files", "dumpster"), "dumpster");
    assert_eq!(sibling_of("/", "dumpster"), "/dumpster");
    assert!(can_shard("abcdef"));
    assert!(!can_shard("abcde"));
    assert!(!can_shard("a\u{e9}cdef"));
}

#[test]
fn bitmaps_are_stored_and_loaded() {
    let mut tables = RoaringTables::new();
    let mut storage = RelationshipStorage::new(InternalCacheType::Full);
    for (file, tag) in [(1, 10), (2, 10), (3, 10), (2, 20)] {
        storage.relationship_roaring_add(&mut tables, file, tag);
    }
    assert!(storage.tag_is_cached_in_memory(10));
    assert_eq!(storage.relationship_search_fileid_roaring(&tables, 10), vec![1, 2, 3]);
    assert_eq!(SearchQuery::new(&storage).and_search(&[10, 20]).sort().build(), vec![2]);
    assert_eq!(SearchQuery::new(&storage).and_search(&[10]).offset(1).limit(Some(1)).build(), vec![2]);
    assert_eq!(SearchQuery::new(&storage).or_search(&[10]).build(), Vec::<u64>::new());
    let found = storage.internal_search_item(&[10, 20], DbSearchTypeEnum::Or).unwrap();
    assert_eq!(found.iter().collect::<Vec<_>>(), vec![1, 2, 3]);

    let mut other = RelationshipStorage::new(InternalCacheType::Full);
    other.load_relationship_cache(&tables, &vec![]);
    assert_eq!(other.relationship_search_fileid_roaring_in_memory(20), Some(vec![2]));

    let mut table = RelationshipStorage::new(InternalCacheType::Table);
    assert_eq!(table.relationship_search_tagid_roaring(&tables, 2), vec![10, 20]);
    assert!(table.relationship_cache_relationship_exists(&tables, 2, 20));
    table.remove_roaring(&mut tables, 20, 2);
    assert!(!table.relationship_cache_relationship_exists(&tables, 2, 20));
    assert!(table.relationship_cache_tagid_exists(&tables, 10));

    table.recache_roaring(&mut tables, &vec![(7, 70)]);
    assert_eq!(table.relationship_search_fileid_roaring(&tables, 70), vec![7]);
    assert_eq!(table.relationship_search_fileid_roaring(&tables, 10), Vec::<u64>::new());

    tables.tagid.insert(99, vec![1, 2, 3]);
    assert!(!table.relationship_cache_tagid_exists(&tables, 99));
}

#[test]
fn popular_tags_are_loaded_by_their_count() {
    let mut tables = RoaringTables::new();
    tables.relationship_cache_add_sql_standalone(1, 10);
    tables.relationship_cache_add_sql_standalone(1, 20);
    let tags = vec![
        TagRow { id: 10, name: "a".into(), namespace: 1, count: 5 },
        TagRow { id: 20, name: "b".into(), namespace: 1, count: 4 },
    ];
    let mut storage = RelationshipStorage::new(InternalCacheType::Popular(5));
    storage.load_relationship_cache(&tables, &tags);
    assert!(storage.tag_is_cached_in_memory(10));
    assert!(!storage.tag_is_cached_in_memory(20));
    tables.relationship_cache_remove_sql_standalone(1, 20);
    assert_eq!(storage.relationship_search_fileid_roaring(&tables, 20), Vec::<u64>::new());
}

#[test]
fn adding_and_removing_relationships_keeps_caches_and_counts() {
    let mut db = MainDatabase::new();
    let one = add_file(&mut db, "hash-one");
    let two = add_file(&mut db, "hash-two");
    let red = add_tag(&mut db, "red", "colour");
    db.add_relationship_bulk(&vec![(one, red)]);
    db.add_relationship_bulk(&vec![(one, red)]);
    assert_eq!(count_of(&db, red), 1);
    assert_eq!(db.relationship_get_file_id_sync(&red), HashSet::from([one]));

    // While memory is busy only the stored bitmaps are written; memory follows when it is refreshed.
    db.roaring_memory_busy = true;
    db.add_relationship_bulk(&vec![(two, red)]);
    assert!(db.roaring_memory_dirty);
    db.roaring_memory_busy = false;
    assert_eq!(db.relationship_get_file_id_sync(&red), HashSet::from([one, two]));
    assert!(!db.roaring_memory_dirty);
    let with_memory = db.search_db_files_sync_old(&search(vec![SearchHolder::And(vec![red])]), &None);
    db.relationship_roaring_storage = None;
    let without_memory = db.search_db_files_sync_old(&search(vec![SearchHolder::And(vec![red])]), &None);
    assert_eq!(with_memory, vec![two, one]);
    assert_eq!(with_memory, without_memory);

    db.delete_relationship_bulk(&vec![(one, red), (two, red)]);
    assert_eq!(count_of(&db, red), 0);
    assert!(db.relationship_get_file_id_sync(&red).is_empty());
    db.delete_relationship_bulk(&vec![(one, red)]);
    assert_eq!(count_of(&db, red), 0);
}

#[test]
fn recaching_stores_what_the_table_holds() {
    let mut db = MainDatabase::new();
    let one = add_file(&mut db, "hash-one");
    let red = add_tag(&mut db, "red", "colour");
    db.add_relationship_bulk(&vec![(one, red)]);
    db.recache_roaring_db();
    let storage = RelationshipStorage::new(InternalCacheType::Table);
    assert_eq!(storage.relationship_search_fileid_roaring(&db.bitmaps, red), vec![one]);
    assert!(!db.relationship_roaring_storage.as_ref().unwrap().tag_is_cached_in_memory(red));
    assert_eq!(db.relationship_get_file_id_sync(&red), HashSet::from([one]));
}

#[test]
fn single_relationships_are_refused_without_tag_or_file() {
    let mut db = MainDatabase::new();
    assert_eq!(db.internal_relationship_add(1, 1), Err(DbError::QueryReturnedNoRows));
    let red = add_tag(&mut db, "red", "colour");
    assert_eq!(db.internal_relationship_add(1, red), Err(DbError::ForeignKey));
    let one = add_file(&mut db, "hash-one");
    assert_eq!(db.internal_relationship_add(one, red), Ok(()));
    assert!(db.internal_tag_has_files(red));
}

#[test]
fn relationships_of_missing_files_are_not_written() {
    let mut db = MainDatabase::new();
    let red = add_tag(&mut db, "red", "colour");
    db.internal_relationships_bulk_add(&vec![(99, red)]);
    assert!(db.relationships.is_empty());
    db.internal_relationships_bulk_add(&vec![(99, 12345)]);
    assert!(db.relationships.is_empty());
}

#[test]
fn storage_locations_are_unique() {
    let mut db = MainDatabase::new();
    assert_eq!(db.internal_file_storage_location_set("files"), Err(DbError::Unique));
    assert_eq!(db.internal_file_storage_location_set("/more"), Ok(()));
    let id = db.internal_file_storage_location_get("/more").unwrap();
    assert_eq!(db.internal_file_storage_location_get_or_create("/more"), id);
    assert_eq!(db.storage_base(id), Some("/more".to_string()));
    assert_eq!(db.candidate_bases(id), vec!["/more".to_string(), "files".to_string()]);
}

#[test]
fn scraped_files_get_replace_and_lose_tags() {
    let mut db = MainDatabase::new();
    db.process_scraper(
        &vec![scraped(
            "hash-one",
            vec![action(
                TagOperation::Add,
                vec![
                    plugin_tag("red", "colour"),
                    plugin_tag("blue", "colour"),
                    plugin_tag("round", "shape"),
                    plugin_tag("https://example.test", "source_url"),
                ],
            )],
        )],
        &vec![],
        "first scrape",
    );
    let names = |db: &mut MainDatabase| {
        let id = db.internal_file_get_all().unwrap()[0].id.unwrap();
        let ids = db.relationship_get_tag_id_sync(&id);
        let mut names = db.tag_id_get_tag_sync(&ids).into_values().map(|tag| tag.name).collect::<Vec<_>>();
        names.sort();
        names
    };
    assert_eq!(names(&mut db), vec!["blue", "https://example.test", "red", "round"]);
    assert_eq!(db.file_hashes_get(&1), vec![("MD5".to_string(), "md5-hash-one".to_string())]);

    // Replacing touches the namespaces it names only, keeps source URLs, and yields to what is added.
    db.process_scraper(
        &vec![scraped(
            "hash-one",
            vec![
                action(TagOperation::Replace, vec![plugin_tag("green", "colour"), plugin_tag("x", "source_url")]),
                action(TagOperation::Add, vec![plugin_tag("blue", "colour"), plugin_tag("red", "other")]),
                action(TagOperation::Del, vec![plugin_tag("red", "colour")]),
            ],
        )],
        &vec![],
        "another scrape",
    );
    assert_eq!(names(&mut db), vec!["blue", "green", "https://example.test", "red", "round"]);
    let red = db.internal_namespace_get_id(&"colour".to_string()).unwrap();
    let red = db.internal_tag_get_id(&"red".to_string(), red).unwrap();
    assert!(!db.internal_tag_has_files(red));

    // What is taken away is not added, whatever else says so.
    db.process_scraper(
        &vec![scraped(
            "hash-one",
            vec![
                action(TagOperation::Add, vec![plugin_tag("gone", "colour")]),
                action(TagOperation::Del, vec![plugin_tag("gone", "colour"), plugin_tag("round", "shape")]),
            ],
        )],
        &vec![],
        "another scrape",
    );
    assert_eq!(names(&mut db), vec!["blue", "green", "https://example.test", "red"]);
}

#[test]
fn many_scraped_files_are_written_in_parts() {
    let mut db = MainDatabase::new();
    let files = (0..101)
        .map(|n| scraped(&format!("hash-{n}"), vec![action(TagOperation::Add, vec![plugin_tag("all", "set")])]))
        .collect::<Vec<_>>();
    db.process_scraper(&files, &vec![], "many");
    assert_eq!(db.files.len(), 101);
    assert_eq!(db.relationships.len(), 101);
    assert_eq!(db.hashes.len(), 101);
}

#[test]
fn scraped_jobs_are_skipped_on_conditions() {
    let mut db = MainDatabase::new();
    let one = add_file(&mut db, "hash-one");
    let red = add_tag(&mut db, "red", "colour");
    db.add_relationship_bulk(&vec![(one, red)]);
    let child = PluginTag {
        tag: tag("child", "ns"),
        relates_to: Some(RelationContext { tag: tag("parent", "ns"), limit_to: Some(tag("limit", "ns")) }),
        ..Default::default()
    };
    db.tag_actions_add_sync(&vec![action(TagOperation::Add, vec![child.clone()])]);
    let wanted = |site: &str, condition: SkipIf| ScraperDataReturn { job: job(site), skip_conditions: vec![condition] };
    db.process_scraper(
        &vec![],
        &vec![
            wanted("tagged", SkipIf::FileTagRelationship(tag("red", "colour"))),
            wanted("related", SkipIf::ParentsRelate(child.clone())),
            wanted("limited", SkipIf::ParentsRelateLimitto(tag("parent", "ns"), tag("limit", "ns"))),
            wanted("untagged", SkipIf::FileTagRelationship(tag("blue", "colour"))),
            wanted("hash", SkipIf::FileHash(HashesSupported::Md5("x".into()))),
            wanted("number", SkipIf::FileNamespaceNumber(tag("a", "b"), tag("a", "b").namespace, 1)),
            wanted("none", SkipIf::NoFilesDownloaded),
        ],
        "jobs only",
    );
    assert_eq!(db.internal_jobs_get_all_sites(), vec!["untagged", "hash", "number", "none"]);
    assert!(db.should_skip_processing_job(&vec![SkipIf::FileTagRelationship(tag("red", "colour"))]));
    assert!(!db.should_skip_processing_job(&vec![]));
}

#[test]
fn urls_are_worth_downloading_once() {
    let mut db = MainDatabase::new();
    let url = "https://example.test/a".to_string();
    assert!(db.should_download_file(&url));
    let one = add_file(&mut db, "hash-one");
    assert!(db.file_relationship_tags_add_sync(
        &one,
        &vec![action(TagOperation::Add, vec![plugin_tag(&url, "source_url")])]
    ));
    assert!(!db.should_download_file(&url));
    assert!(!db.internal_should_download_file(&url));
    assert_eq!(db.dead_url_exist(&vec![url.clone()]), vec![(url, false)]);
}

#[test]
fn source_urls_of_one_file_are_all_found() {
    let mut db = MainDatabase::new();
    let one = add_file(&mut db, "hash-one");
    let a = add_tag(&mut db, "https://a.test", "source_url");
    let b = add_tag(&mut db, "https://b.test", "source_url");
    db.add_relationship_bulk(&vec![(one, a), (one, b)]);
    let found = db.source_url_files_get(&vec!["https://a.test".into(), "https://b.test".into()]);
    assert_eq!(found.len(), 2);
    assert!(found.iter().all(|(_, status)| status.file.as_ref().unwrap().id == Some(one)));
}

#[test]
fn tags_of_actions_reach_files() {
    let mut db = MainDatabase::new();
    let one = add_file(&mut db, "hash-one");
    let two = add_file(&mut db, "hash-two");
    assert!(db.file_relationship_tags_add_bulk_sync(&vec![
        (one, vec![action(TagOperation::Add, vec![plugin_tag("red", "colour")])]),
        (two, vec![action(TagOperation::Add, vec![plugin_tag("red", "colour"), plugin_tag("blue", "colour")])]),
    ]));
    assert_eq!(db.relationships.len(), 3);
    assert!(db.file_relationship_tags_add_bulk_sync(&vec![]));
    assert!(db.tags_add_bulk(&vec![], "nothing").is_empty());
    let ids = db.tags_add_bulk(&vec![action(TagOperation::Add, vec![plugin_tag("red", "colour")])], "again");
    assert_eq!(ids.len(), 1);
    assert_eq!(db.tags.len(), 2);
}

#[test]
fn new_tags_are_announced_to_the_plugins() {
    let mut db = MainDatabase::new();
    add_tag(&mut db, "before", "ns");
    db.set_plugin_manager(PluginManager { regex_tags: vec![] });
    let red = add_tag(&mut db, "red", "colour");
    add_tag(&mut db, "red", "colour");
    assert_eq!(db.plugin_manager.unwrap().regex_tags, vec![(tag("red", "colour"), red)]);
}

#[test]
fn removed_tags_take_their_rows_with_them() {
    let mut db = MainDatabase::new();
    let one = add_file(&mut db, "hash-one");
    let a = add_tag(&mut db, "a", "ns");
    let b = add_tag(&mut db, "b", "ns");
    let c = add_tag(&mut db, "c", "ns");
    db.add_relationship_bulk(&vec![(one, a), (one, b)]);
    db.internal_parents_bulk_add(&vec![
        TagParents { tag_id: a, relate_tag_id: b, limit_to: Some(c) },
        TagParents { tag_id: c, relate_tag_id: a, limit_to: None },
    ]);
    assert_eq!(db.internal_tag_bulk_delete(&vec![c, 999]), Ok(1));
    assert_eq!(db.parents.len(), 1);
    assert_eq!(db.parents[0].relation, TagParents { tag_id: a, relate_tag_id: b, limit_to: None });
    assert_eq!(db.internal_tag_bulk_delete(&vec![a]), Ok(1));
    assert!(db.parents.is_empty());
    assert_eq!(db.relationships, vec![(one, b)]);
}

#[test]
fn removal_that_would_repeat_a_relation_is_refused() {
    let mut db = MainDatabase::new();
    let a = add_tag(&mut db, "a", "ns");
    let b = add_tag(&mut db, "b", "ns");
    let c = add_tag(&mut db, "c", "other");
    db.internal_parents_bulk_add(&vec![
        TagParents { tag_id: a, relate_tag_id: b, limit_to: Some(c) },
        TagParents { tag_id: a, relate_tag_id: b, limit_to: None },
    ]);
    assert_eq!(db.internal_tag_bulk_delete(&vec![c]), Err(DbError::Unique));
    assert_eq!(db.tags.len(), 3);
    let other = db.internal_namespace_get_id(&"other".to_string()).unwrap();
    assert_eq!(db.internal_namespace_bulk_delete(&vec![other]), Err(DbError::Unique));
    let ns = db.internal_namespace_get_id(&"ns".to_string()).unwrap();
    assert_eq!(db.internal_namespace_bulk_delete(&vec![ns]), Ok(()));
    assert_eq!(db.tags.len(), 1);
    assert_eq!(db.namespaces.len(), 1);
    assert!(db.parents.is_empty());
}

#[test]
fn removal_in_statements_keeps_what_the_first_removed() {
    let mut db = MainDatabase::new();
    let a = add_tag(&mut db, "a", "ns");
    let b = add_tag(&mut db, "b", "ns");
    let c = add_tag(&mut db, "c", "ns");
    db.internal_parents_bulk_add(&vec![
        TagParents { tag_id: a, relate_tag_id: b, limit_to: Some(c) },
        TagParents { tag_id: a, relate_tag_id: b, limit_to: None },
    ]);
    let gone = add_tag(&mut db, "gone", "ns");
    let mut ids = vec![gone];
    ids.extend(1_000..1_799);
    ids.push(c);
    assert_eq!(ids.len(), 801);
    assert_eq!(db.internal_tag_bulk_delete(&ids), Err(DbError::Unique));
    assert_eq!(db.tags.iter().map(|row| row.id).collect::<Vec<_>>(), vec![a, b, c]);
    assert_eq!(db.parents.len(), 2);
}

#[test]
fn structural_relations_name_existing_tags() {
    let mut db = MainDatabase::new();
    let a = add_tag(&mut db, "a", "ns");
    let b = add_tag(&mut db, "b", "ns");
    let good = TagParents { tag_id: a, relate_tag_id: b, limit_to: None };
    let ids = db.internal_parents_bulk_add(&vec![
        good,
        good,
        TagParents { tag_id: a, relate_tag_id: a, limit_to: None },
        TagParents { tag_id: a, relate_tag_id: 999, limit_to: None },
    ]);
    assert_eq!(ids, vec![(good, 1), (good, 1)]);
    assert_eq!(db.parent_relationships_get_sync(&a), vec![good]);
    assert_eq!(db.child_relationships_get_sync(&b), vec![good]);
    assert_eq!(db.parent_relationship_get_sync(&a, &b), Some(good));
    assert_eq!(db.debug_print_parents()[1], format!("Tag ID: {a} -> Relate Tag ID: {b}"));
}

#[test]
fn relations_with_an_unknown_limit_do_not_exist() {
    let mut db = MainDatabase::new();
    let a = add_tag(&mut db, "a", "ns");
    let b = add_tag(&mut db, "b", "ns");
    db.internal_parents_bulk_add(&vec![TagParents { tag_id: a, relate_tag_id: b, limit_to: None }]);
    let described = |limit_to: Option<Tag>| PluginTag {
        relates_to: Some(RelationContext { tag: tag("b", "ns"), limit_to }),
        ..plugin_tag("a", "ns")
    };
    assert!(db.internal_parent_structure_exists(&described(None)));
    assert!(!db.internal_parent_structure_exists(&described(Some(tag("unknown", "ns")))));
    assert!(!db.internal_parent_structure_exists(&described(Some(tag("a", "ns")))));
    assert!(!db.internal_parent_structure_exists(&plugin_tag("a", "ns")));
    assert!(!db.should_skip_item(&SkipIf::ParentsRelate(described(Some(tag("unknown", "ns"))))));
    assert!(db.should_skip_item(&SkipIf::ParentsRelate(described(None))));
}

#[test]
fn changed_files_are_all_written_or_none() {
    let mut db = MainDatabase::new();
    let one = add_file(&mut db, "hash-one");
    let two = add_file(&mut db, "hash-two");
    let changed = |id: u64, hash: &str, storage_id: u64| FileInternal {
        id: Some(id),
        hash: hash.to_string(),
        extension: "png".to_string(),
        storage_id,
        size_bytes: None,
    };
    assert_eq!(
        db.internal_file_update_batch(&vec![changed(one, "hash-new", 1), changed(two, "hash-new", 1)]),
        Err(DbError::Unique)
    );
    assert_eq!(db.internal_file_id_get(&one).unwrap().hash, "hash-one");
    assert_eq!(db.internal_file_update_batch(&vec![changed(one, "hash-new", 77)]), Err(DbError::ForeignKey));
    assert_eq!(db.internal_file_update_batch(&vec![changed(one, "hash-new", 1), changed(99, "x", 1)]), Ok(()));
    assert_eq!(db.internal_file_id_get(&one).unwrap().hash, "hash-new");
    assert_eq!(db.internal_file_id_get(&one).unwrap().extension, "png");
}

#[test]
fn digests_are_recorded_once() {
    let mut db = MainDatabase::new();
    let one = add_file(&mut db, "hash-one");
    let md5 = "MD5".to_string();
    assert_eq!(db.internal_file_hash_add(&md5, &"aa".to_string(), &one), Ok(1));
    assert_eq!(db.internal_file_hash_add(&md5, &"bb".to_string(), &one), Ok(0));
    assert_eq!(db.internal_file_hash_add(&md5, &"".to_string(), &one), Ok(0));
    assert_eq!(db.internal_file_hash_add(&md5, &"cc".to_string(), &99), Err(DbError::ForeignKey));
    assert_eq!(db.contains_hash_sync(&HashesSupported::Md5("aa".into())).unwrap().id, Some(one));
    assert_eq!(db.contains_hash_sync(&HashesSupported::Sha1("aa".into())), None);
    assert_eq!(db.hashes_files_get_sync(&vec![HashesSupported::Md5("aa".into())]).len(), 1);
    assert_eq!(hash_algorithms().len(), 7);
}

#[test]
fn files_without_digests_are_hashed() {
    let mut db = MainDatabase::new();
    let one = add_file(&mut db, "hash-one");
    let two = add_file(&mut db, "hash-two");
    assert_eq!(db.next_unhashed_files(0), vec![one, two]);
    assert_eq!(db.next_unhashed_files(1), vec![two]);
    assert_eq!(db.next_unhashed_files(5), Vec::<u64>::new());
    let row = |file_id: u64, digest: &str| HashRow { file_id, algorithm: "SHA1".into(), digest: digest.into() };
    let wanted = db.next_missing_digests(0);
    assert_eq!(wanted.len(), 14);
    assert_eq!(wanted[1], (one, HashesSupported::Sha1(String::new())));
    assert_eq!(wanted[7], (two, HashesSupported::Md5(String::new())));
    let mut digests: Vec<Option<String>> = (0..7).map(|n| Some(format!("digest {n}"))).collect();
    digests.extend((0..7).map(|_| None));
    assert_eq!(db.hash_missing_file_hashes(0, &digests), Some(800));
    assert_eq!(db.hash_missing_file_hashes(800, &vec![]), None);
    assert_eq!(db.hashes.len(), 7);
    assert_eq!(db.contains_hash_sync(&HashesSupported::Sha1("digest 1".into())).unwrap().id, Some(one));
    assert_eq!(db.next_unhashed_files(0), vec![two]);
    assert_eq!(db.record_digests(&vec![row(two, "z"), row(99, "w")]), Err(DbError::ForeignKey));
    assert_eq!(db.next_unhashed_files(0), vec![two]);
}

#[test]
fn rows_without_a_hash_stand_for_no_file() {
    let mut db = MainDatabase::new();
    let one = add_file(&mut db, "hash-one");
    db.files.push(FileRow { id: 9, hash: None, extension: String::new(), storage_id: 0, size_bytes: None });
    assert_eq!(db.internal_file_id_get(&9), Err(DbError::MissingValue));
    assert_eq!(db.file_id_get(9), None);
    assert_eq!(db.internal_file_get_all().unwrap_err(), DbError::MissingValue);
    assert_eq!(db.internal_file_id_get_all(), HashSet::from([one, 9]));
    assert_eq!(db.internal_file_id_get_size_bytes_null(), HashSet::from([one, 9]));
    assert_eq!(db.next_unsized_files(0), vec![one]);
    assert_eq!(db.next_unhashed_files(0), vec![one, 9]);
    assert_eq!(db.internal_file_get_physical_path(&9, &vec![None]), Err(DbError::MissingValue));
    assert_eq!(
        db.fix_internal_files(CheckFilesEnum::Print, &vec![], &vec![], 0).unwrap_err(),
        DbError::MissingValue
    );
    let red = add_tag(&mut db, "red", "colour");
    db.internal_relationship_add(9, red).unwrap();
    assert_eq!(db.internal_tag_id_get_file_ids(&red), HashSet::from([9]));
    assert_eq!(db.tag_get_file_sync(&tag("red", "colour")), None);
    db.files.push(FileRow { id: 10, hash: None, extension: String::new(), storage_id: 0, size_bytes: None });
    assert_eq!(add_file(&mut db, "hash-two"), 11);
}

#[test]
fn legacy_pairs_need_their_files_only_where_they_migrate() {
    let mut db = MainDatabase::new();
    let one = add_file(&mut db, "hash-one");
    let red = add_tag(&mut db, "red", "colour");
    assert!(db.can_migrate_legacy(&vec![(one, red), (99, 1_000)]));
    assert!(!db.can_migrate_legacy(&vec![(one, red), (99, red)]));
    db.internal_relationship_migrate_legacy(&vec![(one, red), (99, 1_000)]);
    assert_eq!(db.relationships, vec![(one, red)]);
}

#[test]
fn files_without_sizes_are_listed_in_order() {
    let mut db = MainDatabase::new();
    let one = add_file(&mut db, "hash-one");
    let two = add_file(&mut db, "hash-two");
    db.files.swap(0, 1);
    assert_eq!(db.next_unsized_files(0), vec![one, two]);
    assert_eq!(db.next_unsized_files(one), vec![two]);
    assert_eq!(db.internal_file_id_get_size_bytes_null(), HashSet::from([one, two]));
    db.set_file_sizes(&vec![(one, 5)], true);
    db.set_file_sizes(&vec![(one, 6)], true);
    assert_eq!(db.internal_file_get_all().unwrap()[1].size_bytes, Some(5));
    db.set_file_sizes(&vec![(one, 6)], false);
    assert_eq!(db.internal_file_get_all().unwrap()[1].size_bytes, Some(6));
}

#[test]
fn physical_paths_are_the_first_found() {
    let mut db = MainDatabase::new();
    db.internal_file_storage_location_get_or_create("/more");
    let one = add_file(&mut db, "hash-one");
    assert_eq!(
        db.file_get_physical_path_sync(&one, &vec![None, Some("/more/x".into())]),
        Some("/more/x".to_string())
    );
    assert_eq!(db.file_get_physical_path_sync(&one, &vec![None, None]), None);
    assert_eq!(db.internal_file_get_physical_path(&99, &vec![None, None]), Err(DbError::QueryReturnedNoRows));
    assert_eq!(probe_file(true, true), FileProbe::Found);
    assert_eq!(probe_file(false, true), FileProbe::Rename);
    assert_eq!(probe_file(false, false), FileProbe::Missing);
}

#[test]
fn strayed_files_that_nobody_knows_are_put_aside() {
    let mut db = MainDatabase::new();
    db.internal_file_storage_location_get_or_create("/data/files");
    let moves = db.process_storage_check_chunk(
        &vec!["stray/file.bin".into(), "/stray/file.bin".into(), "unreadable".into()],
        &vec![Some("0123456789".into()), Some("0123456789".into()), None],
        &"/data/files".to_string(),
    );
    assert!(matches!(&moves[0], FileMove::Over(path) if path == "/data/dumpster/stray/file.bin"));
    assert!(matches!(&moves[1], FileMove::Over(path) if path == "/stray/file.bin"));
    assert!(matches!(moves[2], FileMove::Leave));
    let moves = db.process_storage_check_filename_chunk(
        &vec!["/stray/file.bin".into(), "/data/dumpster/file.bin".into(), "/".into()],
        &"/data/files".to_string(),
    );
    assert!(matches!(&moves[0], FileMove::IfFree(path) if path == "/data/dumpster/file.bin"));
    assert!(matches!(moves[1], FileMove::Leave));
    assert!(matches!(moves[2], FileMove::Leave));
}

#[test]
fn missing_files_are_queued_for_download() {
    let mut db = MainDatabase::new();
    db.set_plugin_manager(PluginManager { regex_tags: vec![] });
    let one = add_file(&mut db, "hash-one");
    add_file(&mut db, "hash-two");
    let url = "https://example.test/one".to_string();
    db.file_relationship_tags_add_sync(&one, &vec![action(TagOperation::Add, vec![plugin_tag(&url, "source_url")])]);
    let missing = FileFinding { path: None, size: None };
    let (survey, step) = db.fix_internal_files(
        CheckFilesEnum::Redownload,
        &vec![missing.clone(), missing.clone()],
        &vec![(url.clone(), "example".to_string())],
        77,
    ).unwrap();
    assert_eq!(survey.missing.len(), 2);
    assert_eq!(step, StorageStep::Finished);
    assert_eq!(db.jobs.len(), 1);
    let config = &db.jobs[0].config;
    assert_eq!(config.site, "example");
    assert_eq!(config.time, 77);
    assert_eq!(config.param, vec![ScraperParam::Url(url)]);
    assert_eq!(
        config.user_data,
        vec![
            ("INTSCRAPE_REDOWNLOAD".to_string(), "true".to_string()),
            ("INTSCRAPE_REDOWNLOAD_FILE_ID".to_string(), one.to_string()),
            ("INTSCRAPE_REDOWNLOAD_HASH".to_string(), "hash-one".to_string()),
            ("INTSCRAPE_REDOWNLOAD_STORAGE_ID".to_string(), "1".to_string()),
        ]
    );
    let (_, step) = db.fix_internal_files(CheckFilesEnum::Print, &vec![missing.clone(), missing], &vec![], 0).unwrap();
    assert_eq!(step, StorageStep::PrintMissing);
}

#[test]
fn sources_that_are_no_database_are_refused() {
    let mut db = MainDatabase::new();
    assert_eq!(db.db_slurp(&None), Err(DbError::SourceNotAFile));
    let source = SourceDatabase {
        storage: vec![],
        namespaces: vec![],
        tags: vec![],
        file_schema: None,
        files: vec![],
        hashes: None,
        partitions: vec![],
        relationships: None,
        parents: None,
    };
    assert_eq!(db.db_slurp(&Some(source)), Err(DbError::SourceWithoutFiles));
}

#[test]
fn sources_with_one_table_of_relationships_are_taken_over() {
    let mut db = MainDatabase::new();
    add_file(&mut db, "here");
    let source = SourceDatabase {
        storage: vec![],
        namespaces: vec![intscrape::rows::NamespaceRow { id: 5, name: "ns".into(), description: None }],
        tags: vec![
            TagRow { id: 8, name: "a".into(), namespace: 5, count: 0 },
            TagRow { id: 9, name: "".into(), namespace: 5, count: 0 },
        ],
        file_schema: Some("CREATE TABLE File (id INTEGER, hash TEXT, Size_Bytes INTEGER)".into()),
        files: vec![
            SourceFile { id: 3, hash: Some("there".into()), extension: "gif".into(), storage_id: None, size_bytes: Some(7) },
            SourceFile { id: 4, hash: None, extension: "".into(), storage_id: None, size_bytes: None },
        ],
        hashes: Some(vec![HashRow { file_id: 3, algorithm: "MD5".into(), digest: "d".into() }]),
        partitions: vec![],
        relationships: Some(vec![(3, 8), (3, 9), (4, 8)]),
        parents: None,
    };
    assert_eq!(db.db_slurp(&Some(source)), Ok((1, 1, 1)));
    let there = db.internal_file_get_all().unwrap().into_iter().find(|file| file.hash == "there").unwrap();
    assert_eq!(there.size_bytes, Some(7));
    let a = db.tags[0].id;
    assert_eq!(db.relationships, vec![(there.id.unwrap(), a)]);
    assert_eq!(db.file_hashes_get(&there.id.unwrap()), vec![("MD5".to_string(), "d".to_string())]);
}

#[test]
fn declarations_name_columns_as_words() {
    assert!(schema_has_column("CREATE TABLE File (id, \"SIZE_bytes\" INTEGER)", "size_bytes"));
    assert!(!schema_has_column("CREATE TABLE File (id, my_size_bytes INTEGER)", "size_bytes"));
    assert!(!schema_has_column("size_bytes2", "size_bytes"));
    assert!(schema_has_column("size_bytes", "size_bytes"));
}

#[test]
fn system_jobs_and_what_they_do() {
    let of = |site: &str, param: Vec<ScraperParam>| DbJobsObj {
        id: 1,
        isrunning: true,
        config: PluginJob { site: site.to_string(), param, ..Default::default() },
    };
    let path = || vec![ScraperParam::Normal("/backup".to_string())];
    assert!(matches!(
        system_action(&of("SYSTEM_BACKUP", path()), false, 0),
        SystemAction::BackUp(to) if to == "/backup/1970/01/01/main.db"
    ));
    assert!(matches!(system_action(&of("SYSTEM_BACKUP", vec![]), false, 0), SystemAction::BackUpNowhere));
    assert!(matches!(
        system_action(&of("SYSTEM_DB_SLURP", path()), false, 0),
        SystemAction::Slurp(from) if from == "/backup"
    ));
    assert!(matches!(
        system_action(&of("SYSTEM_DB_SLURP", vec![ScraperParam::Url("u".into())]), false, 0),
        SystemAction::SlurpNothing
    ));
    assert!(matches!(system_action(&of("SYSTEM_FILE_SIZE", vec![]), false, 0), SystemAction::LookUpSizes));
    assert!(matches!(system_action(&of("SYSTEM_FILE_HASH", vec![]), false, 0), SystemAction::ComputeDigests));
    assert!(matches!(system_action(&of("SYSTEM_FILE_HASH", vec![]), true, 0), SystemAction::Nothing));
    assert!(matches!(system_action(&of("other", vec![]), false, 0), SystemAction::Nothing));
    assert!(is_system_job(&of("SYSTEM_FILE_SIZE", vec![])));
    assert!(!is_system_job(&of("SYSTEM_other", vec![])));
    let mut again = of("SYSTEM_other", vec![]);
    again.config.recreation = Some(DbJobRecreation::AlwaysTime(1, None));
    assert!(is_system_job(&again));
    again.config.site = "other".to_string();
    assert!(!is_system_job(&again));
}

#[test]
fn finished_system_jobs_run_again_or_go() {
    let mut db = MainDatabase::new();
    let mut config = job("SYSTEM_FILE_SIZE");
    config.recreation = Some(DbJobRecreation::AlwaysTime(60, Some(1)));
    db.jobs_add_single_sync(&config);
    let row = db.jobs[0].clone();
    assert!(!db.finish_system_job(&row, &SystemAction::LookUpSizes, true, true, 10));
    assert_eq!(db.jobs[0], row);
    assert!(db.finish_system_job(&row, &SystemAction::LookUpSizes, true, false, 10));
    let row = db.jobs[0].clone();
    assert_eq!(row.config.time, 10);
    assert_eq!(row.config.reptime, 60);
    assert_eq!(row.config.recreation, Some(DbJobRecreation::AlwaysTime(60, Some(0))));
    assert!(!db.finish_system_job(&row, &SystemAction::LookUpSizes, false, false, 20));
    assert!(db.jobs.is_empty());
}

#[test]
fn jobs_are_due_when_their_time_has_come() {
    let mut db = MainDatabase::new();
    let mut later = job("site");
    later.time = 100;
    later.reptime = 50;
    let id = db.jobs_add_single_sync(&later);
    assert!(db.jobs_get_torun(&vec!["site".into()], 149).is_empty());
    let due = db.jobs_get_torun(&vec!["site".into()], 150);
    assert_eq!(due.len(), 1);
    assert!(db.jobs_get_torun_chunk(&vec!["other".into()], 5, 150).is_empty());
    db.job_set_is_running(&due[0]);
    assert!(db.jobs_get_torun(&vec!["site".into()], 150).is_empty());
    let mut changed = db.jobs_get_site(&"site".to_string())[0].clone();
    assert_eq!(changed.id, id);
    changed.isrunning = false;
    changed.config.priority = 9;
    db.jobs_update(&changed);
    assert_eq!(db.jobs[0].config.priority, 9);
    db.job_remove(&changed);
    assert!(db.jobs.is_empty());
}

#[test]
fn texts_about_tables() {
    let mut db = MainDatabase::new();
    assert_eq!(
        db.relationship_union_source("r"),
        "(SELECT NULL AS file_id, NULL AS tag_id WHERE 0) AS r"
    );
    add_tag(&mut db, "a", "one");
    add_tag(&mut db, "a", "two");
    db.namespaces.swap(0, 1);
    assert_eq!(
        db.relationship_union_source("r"),
        "(SELECT file_id, tag_id FROM Relationship_1 UNION ALL SELECT file_id, tag_id FROM Relationship_2) AS r"
    );
    assert_eq!(MainDatabase::relationship_partition_name(12), "Relationship_12");
    assert_eq!(
        MainDatabase::generate_file_search_sql(&7, &2),
        "SELECT file_id FROM Relationship_2 WHERE tag_id = 7"
    );
    let declarations = db.internal_table_create_relationship_v1();
    assert_eq!(declarations.len(), 2);
    assert!(declarations[0].starts_with("CREATE TABLE IF NOT EXISTS Relationship_1 ("));
    assert!(declarations[1].ends_with("idx_Relationship_2_tag_file ON Relationship_2(tag_id, file_id DESC)"));
    let plan = audit_migration(&vec!["id".into(), "entity_id".into(), "tag_id".into()]);
    assert!(plan.add_file_id && !plan.add_tag_id && plan.convert_entity_id && plan.compact);
    assert!(db.audit_get_sync(&None, &None).is_empty());
    db.tags[0].count = 5;
    db.tags[1].count = 4;
    assert_eq!(db.internal_update_fts_table(), vec![(db.tags[0].id, "a".to_string(), db.tags[0].namespace)]);
}

#[test]
fn relationships_of_the_one_table_are_migrated() {
    let mut db = MainDatabase::new();
    let one = add_file(&mut db, "hash-one");
    let red = add_tag(&mut db, "red", "colour");
    db.internal_relationship_migrate_legacy(&vec![(one, red), (one, red), (one, 999)]);
    assert_eq!(db.relationships, vec![(one, red)]);
    assert_eq!(count_of(&db, red), 0);
}

#[test]
fn tag_hits_are_merged_best_first() {
    let mut db = MainDatabase::new();
    let hit = |rank: u64, tag_id: u64| RankedTag { rank, hit: TagSearch { tag_id, name: format!("t{tag_id}"), count: 0 } };
    let ids = |hits: Vec<TagSearch>| hits.into_iter().map(|hit| hit.tag_id).collect::<Vec<_>>();
    // Memory holds every tag and nothing has changed: the table is not asked.
    assert_eq!(ids(db.search_db_tags_fts(&None, &vec![hit(2, 1)], &Some(vec![hit(1, 2)]))), vec![1]);
    add_tag(&mut db, "a", "ns");
    assert!(db.tag_search_dirty);
    assert_eq!(ids(db.search_db_tags_fts(&None, &vec![hit(2, 1)], &Some(vec![hit(1, 2), hit(0, 1)]))), vec![2, 1]);
    assert_eq!(ids(db.search_db_tags_fts(&Some(1), &vec![hit(2, 1)], &Some(vec![hit(1, 2)]))), vec![2]);
    assert_eq!(ids(db.search_db_tags_fts(&None, &vec![hit(2, 1)], &None)), vec![1]);
    assert_eq!(ids(db.search_db_tags_fts(&Some(0), &vec![hit(2, 1)], &None)), Vec::<u64>::new());
    db.refresh_tag_search_cache();
    assert!(!db.tag_search_dirty && db.tag_search_cache.complete);
    assert_eq!(db.tag_search_cache.entries.len(), 1);
}

#[test]
fn names_without_tags_find_nothing() {
    let mut db = MainDatabase::new();
    let one = add_file(&mut db, "hash-one");
    let red = add_tag(&mut db, "red", "colour");
    db.add_relationship_bulk(&vec![(one, red)]);
    assert_eq!(db.search_db_files_by_tags_sync(&vec![vec![red], vec![]], &None), Vec::<u64>::new());
    assert_eq!(
        db.search_db_files_by_tag_groups_sync(&vec![], &vec![], &vec![red], &vec![], &vec![], &vec![], &None),
        vec![one]
    );
}

#[test]
fn limits_give_the_newest_files() {
    let mut db = MainDatabase::new();
    let red = add_tag(&mut db, "red", "colour");
    let files = (0..5).map(|n| add_file(&mut db, &format!("hash-{n}"))).collect::<Vec<_>>();
    db.add_relationship_bulk(&files.iter().map(|file| (*file, red)).collect());
    let query = search(vec![SearchHolder::Or(vec![red])]);
    assert_eq!(db.search_db_files_sync(&query, &Some(2)), vec![files[4], files[3]]);
    assert_eq!(db.search_db_files_human_sync(&query, &None).len(), 5);
}

#[test]
fn cache_modes_follow_the_settings() {
    let mut db = MainDatabase::new();
    let one = add_file(&mut db, "hash-one");
    let red = add_tag(&mut db, "red", "colour");
    db.add_relationship_bulk(&vec![(one, red)]);
    let mode = |param: &str| DbSettingsObj {
        name: "SYSTEM_cachemode".into(),
        description: None,
        num: None,
        param: Some(param.into()),
    };
    db.setting_set_sync(&mode("Bare"));
    db.internal_load_caching();
    assert!(db.relationship_roaring_storage.is_none());
    db.setting_set_sync(&mode("RelationshipRoaringTable"));
    db.internal_load_caching();
    assert!(!db.relationship_roaring_storage.as_ref().unwrap().tag_is_cached_in_memory(red));
    db.setting_set_sync(&mode("unknown"));
    db.internal_load_caching();
    assert!(db.relationship_roaring_storage.as_ref().unwrap().tag_is_cached_in_memory(red));
    assert_eq!(
        db.setting_get_sync("SYSTEM_cachemode").unwrap().param,
        Some("RelationshipRoaringFull".to_string())
    );
}

#[test]
fn lookups_by_tag_and_file() {
    let mut db = MainDatabase::new();
    let one = add_file(&mut db, "hash-one");
    let red = add_tag(&mut db, "red", "colour");
    db.add_relationship_bulk(&vec![(one, red)]);
    let colour = db.search_db_namespace_sync(&"colour".to_string()).unwrap();
    assert_eq!(db.tag_get_file_id(&tag("red", "colour")), Some(one));
    assert_eq!(db.tag_get_file_sync(&tag("red", "colour")).unwrap().hash, "hash-one");
    assert_eq!(db.internal_tag_id_get_file_id(&red), Ok(one));
    assert_eq!(db.internal_tag_id_get_file_id(&99), Err(DbError::QueryReturnedNoRows));
    assert_eq!(db.get_namespace_id_from_tag_id(&99), Err(DbError::QueryReturnedNoRows));
    assert_eq!(db.tag_id_get_namespace_id(&colour), HashSet::from([red]));
    assert_eq!(db.tag_id_get_all(), HashSet::from([red]));
    assert_eq!(db.file_id_get_namespace_id_sync(&colour), HashSet::from([one]));
    assert_eq!(db.file_id_get_all_sync(), HashSet::from([one]));
    assert_eq!(db.internal_tag_id_get_file_ids(&red), HashSet::from([one]));
    assert!(db.tag_has_files_cached(red));
    let tags = db.file_ids_get_tags(&HashSet::from([one]));
    assert_eq!(tags[&one], vec![tag("red", "colour")]);
    assert_eq!(db.relationship_get_tag_id_many_sync(&HashSet::from([one]))[&one], HashSet::from([red]));
    assert_eq!(db.relationship_get_file_id_many_sync(&HashSet::from([red]))[&red], HashSet::from([one]));
}

#[test]
fn repeating_a_change_changes_nothing() {
    let mut db = MainDatabase::new();
    let child = PluginTag {
        tag: tag("child", "ns"),
        relates_to: Some(RelationContext { tag: tag("parent", "ns"), limit_to: None }),
        ..Default::default()
    };
    for _ in 0..2 {
        db.internal_tag_bulk_add(&vec![action(TagOperation::Add, vec![child.clone()])]);
        db.file_add_bulk(&vec![file("hash-one")]);
        db.internal_file_hash_add(&"MD5".to_string(), &"aa".to_string(), &1).unwrap();
        db.internal_dead_url_add(&"https://dead.test".to_string());
        db.jobs_add_single_sync(&job("site"));
        db.internal_setup_default_cache();
        db.internal_file_storage_location_get_or_create("/more");
        assert_eq!(
            (db.namespaces.len(), db.tags.len(), db.parents.len(), db.files.len(), db.hashes.len()),
            (1, 2, 1, 1, 1)
        );
        assert_eq!((db.dead_urls.len(), db.jobs.len(), db.storage.len()), (1, 1, 2));
    }
}

#[test]
fn groups_of_a_search_have_no_order() {
    let mut db = MainDatabase::new();
    let files = (0..4).map(|n| add_file(&mut db, &format!("hash-{n}"))).collect::<Vec<_>>();
    let red = add_tag(&mut db, "red", "colour");
    let blue = add_tag(&mut db, "blue", "colour");
    let old = add_tag(&mut db, "old", "age");
    db.add_relationship_bulk(&vec![
        (files[0], red),
        (files[1], red),
        (files[1], blue),
        (files[2], red),
        (files[2], old),
        (files[3], blue),
    ]);
    let and = SearchHolder::And(vec![red]);
    let or = SearchHolder::Or(vec![red, blue]);
    let not = SearchHolder::Not(vec![old]);
    for groups in [
        vec![and.clone(), or.clone(), not.clone()],
        vec![not.clone(), and.clone(), or.clone()],
        vec![or.clone(), not.clone(), and.clone()],
    ] {
        let query = search(groups);
        assert_eq!(db.search_db_files_human_sync(&query, &None), vec![files[1], files[0]]);
        assert_eq!(db.search_db_files_human_sync(&query, &Some(1)), vec![files[1]]);
    }
}

#[test]
fn reads_by_namespace_agree_with_reads_by_tag() {
    let mut db = MainDatabase::new();
    let one = add_file(&mut db, "hash-one");
    let two = add_file(&mut db, "hash-two");
    let three = add_file(&mut db, "hash-three");
    let red = add_tag(&mut db, "red", "colour");
    let blue = add_tag(&mut db, "blue", "colour");
    let old = add_tag(&mut db, "old", "age");
    db.add_relationship_bulk(&vec![(one, red), (two, blue), (two, old), (three, old)]);
    let colour = db.search_db_namespace_sync(&"colour".to_string()).unwrap();
    let age = db.search_db_namespace_sync(&"age".to_string()).unwrap();
    let colours = db.tag_id_get_namespace_id(&colour);
    let ages = db.tag_id_get_namespace_id(&age);
    assert!(colours.is_disjoint(&ages));
    assert_eq!(colours.union(&ages).copied().collect::<HashSet<_>>(), db.tag_id_get_all());
    let coloured = colours.iter().flat_map(|id| db.relationship_get_file_id_sync(id)).collect::<HashSet<_>>();
    assert_eq!(coloured, HashSet::from([one, two]));
    assert_eq!(db.file_id_get_namespace_id_sync(&colour), coloured);
    assert_eq!(db.internal_file_id_get_tag_ids_where_namespace_id(&two, &colour), HashSet::from([blue]));
    assert_eq!(db.relationship_get_tag_id_sync(&two), HashSet::from([blue, old]));
    db.internal_parents_bulk_add(&vec![TagParents { tag_id: red, relate_tag_id: old, limit_to: None }]);
    assert_eq!(db.relationship_get_parent_file_id_sync(&red), HashSet::from([one, two, three]));
}

#[test]
fn stored_bitmaps_follow_the_relationships_of_popular_tags() {
    let mut db = MainDatabase::new();
    let one = add_file(&mut db, "hash-one");
    let two = add_file(&mut db, "hash-two");
    let red = add_tag(&mut db, "red", "colour");
    let blue = add_tag(&mut db, "blue", "colour");
    db.relationship_roaring_storage = Some(RelationshipStorage::new(InternalCacheType::Popular(100)));
    db.add_relationship_bulk(&vec![(one, red), (two, red), (two, blue)]);
    let stored = RelationshipStorage::new(InternalCacheType::Table);
    assert_eq!(stored.relationship_search_fileid_roaring(&db.bitmaps, red), vec![one, two]);
    assert_eq!(stored.relationship_search_tagid_roaring(&db.bitmaps, two), vec![red, blue]);
    db.delete_relationship_bulk(&vec![(two, red)]);
    assert_eq!(stored.relationship_search_fileid_roaring(&db.bitmaps, red), vec![one]);
    assert_eq!(stored.relationship_search_tagid_roaring(&db.bitmaps, two), vec![blue]);
}

#[test]
fn tags_added_twice_keep_their_rows_and_ids() {
    let mut db = MainDatabase::new();
    let child = PluginTag {
        tag: tag("child", "ns"),
        relates_to: Some(RelationContext { tag: tag("parent", "other"), limit_to: Some(tag("limit", "ns")) }),
        ..Default::default()
    };
    let actions = vec![action(TagOperation::Add, vec![child, plugin_tag("plain", "ns")])];
    let first = db.internal_tag_bulk_add(&actions);
    let rows = format!("{:?} {:?} {:?}", db.namespaces, db.tags, db.parents);
    let second = db.internal_tag_bulk_add(&actions);
    assert_eq!(first, second);
    assert_eq!(rows, format!("{:?} {:?} {:?}", db.namespaces, db.tags, db.parents));
    assert_eq!(db.parents.len(), 1);
}

#[test]
fn tag_hits_are_cut_to_the_limit_and_come_once() {
    let mut db = MainDatabase::new();
    let hit = |rank: u64, tag_id: u64| RankedTag { rank, hit: TagSearch { tag_id, name: format!("t{tag_id}"), count: 0 } };
    let ids = |hits: Vec<TagSearch>| hits.into_iter().map(|hit| hit.tag_id).collect::<Vec<_>>();
    let cached = vec![hit(1, 1), hit(2, 2), hit(3, 3)];
    assert_eq!(ids(db.search_db_tags_fts(&Some(2), &cached, &None)), vec![1, 2]);
    add_tag(&mut db, "a", "ns");
    let found = vec![hit(1, 1), hit(0, 4), hit(2, 2)];
    let merged = ids(db.search_db_tags_fts(&Some(3), &cached, &Some(found)));
    assert_eq!(merged, vec![4, 1, 2]);
}

#[test]
fn changed_files_keep_their_ids() {
    let mut db = MainDatabase::new();
    let one = add_file(&mut db, "hash-one");
    let two = add_file(&mut db, "hash-two");
    let mut change = file("hash-three");
    change.id = Some(one);
    assert_eq!(db.internal_file_update_batch(&vec![change]), Ok(()));
    assert_eq!(db.file_id_get_all_sync(), HashSet::from([one, two]));
    assert_eq!(add_file(&mut db, "hash-three"), one);
}

#[test]
fn the_first_form_of_a_namespace_counts() {
    let mut db = MainDatabase::new();
    let plain = GenericNamespaceObj { name: "ns".into(), description: None };
    let told = GenericNamespaceObj { name: "ns".into(), description: Some("told".into()) };
    let ids = db.internal_namespace_bulk_add(&vec![plain.clone(), told.clone()]);
    assert_eq!(ids, vec![(plain.clone(), 1)]);
    assert_eq!(db.internal_namespace_get_generic(&1), Some(told.clone()));

    let in_form = |name: &str, namespace: &GenericNamespaceObj| Tag { name: name.into(), namespace: namespace.clone() };
    let relating = |name: &str, relation: Tag, limit_to: Option<Tag>| PluginTag {
        tag: in_form(name, &plain),
        relates_to: Some(RelationContext { tag: relation, limit_to }),
        ..Default::default()
    };
    let other = PluginTag { tag: in_form("b", &told), ..Default::default() };
    let tags = vec![
        relating("a", in_form("c", &plain), None),
        relating("d", in_form("e", &told), None),
        relating("f", in_form("g", &plain), Some(in_form("h", &told))),
        other,
    ];
    let ids = db.internal_tag_bulk_add(&vec![action(TagOperation::Add, tags.clone())]);
    let names = ids.iter().map(|(tag, _)| tag.name.as_str()).collect::<Vec<_>>();
    assert_eq!(names, vec!["a", "c", "d", "f", "g"]);
    assert_eq!(db.tags.len(), 5);
    assert_eq!(db.parents.len(), 1);
    assert_eq!(db.internal_namespace_get_generic(&1), Some(told));

    db.process_scraper(&vec![scraped("hash-one", vec![action(TagOperation::Add, tags)])], &vec![], "test");
    let one = db.internal_file_get_all().unwrap()[0].id.unwrap();
    let given = db.relationship_get_tag_id_sync(&one);
    assert_eq!(given, HashSet::from([ids[0].1, ids[2].1, ids[3].1]));
}

#[test]
fn another_form_of_a_namespace_replaces_nothing() {
    let mut db = MainDatabase::new();
    let old = plugin_tag("old", "ns");
    db.process_scraper(&vec![scraped("hash-one", vec![action(TagOperation::Add, vec![old.clone()])])], &vec![], "test");
    let mut new = plugin_tag("new", "ns");
    new.tag.namespace.description = Some("told".into());
    let actions = vec![action(TagOperation::Add, vec![old]), action(TagOperation::Replace, vec![new])];
    db.process_scraper(&vec![scraped("hash-one", actions)], &vec![], "test");
    let one = db.internal_file_get_all().unwrap()[0].id.unwrap();
    assert_eq!(db.tags.iter().map(|row| row.name.as_str()).collect::<Vec<_>>(), vec!["old"]);
    assert_eq!(db.relationship_get_tag_id_sync(&one), HashSet::from([db.tags[0].id]));
}

#[test]
fn recorded_files_move_the_next_page() {
    let mut db = MainDatabase::new();
    for id in 1..=1_700 {
        let hash = Some(format!("hash-{id}"));
        db.files.push(FileRow { id, hash, extension: "jpg".into(), storage_id: 1, size_bytes: None });
    }
    let digests = (0..800 * 7).map(|n| if n < 70 { Some(format!("digest {n}")) } else { None }).collect();
    assert_eq!(db.hash_missing_file_hashes(0, &digests), Some(800));
    assert_eq!(db.hashes.len(), 70);
    assert_eq!(db.next_unhashed_files(0)[0], 11);
    assert_eq!(db.next_unhashed_files(800), (811..=1_610).collect::<Vec<u64>>());
    assert_eq!(db.next_unhashed_files(1_600), (1_611..=1_700).collect::<Vec<u64>>());
}
