use intscrape::bitmap_cache::{InternalCacheType, RelationshipStorage};
use intscrape::database::{DbError, MainDatabase};
use intscrape::slurp::{SourceDatabase, SourceFile, SourcePartition};
use intscrape::rows::{NamespaceRow, StorageRow, TagRow};
use intscrape::startup::DB_VERSION;
use intscrape::storage_check::{FileFinding, FileMove, StorageStep};
use intscrape::types::{
    CheckFilesEnum, DbJobsObj, DbSettingsObj, FileInternal, FileTagAction, GenericNamespaceObj, PluginJob, PluginTag,
    RelationContext, SearchHolder, SearchObj, Tag, TagOperation, TagParents, TagType,
};
use std::collections::{HashMap, HashSet};

fn new_test() -> MainDatabase {
    MainDatabase::new()
}

fn namespace(name: &str, description: Option<&str>) -> GenericNamespaceObj {
    GenericNamespaceObj { name: name.to_string(), description: description.map(str::to_string) }
}

fn tag(name: &str, namespace_name: &str) -> Tag {
    Tag { name: name.to_string(), namespace: namespace(namespace_name, None) }
}

fn plugin_tag(name: &str, namespace_name: &str) -> PluginTag {
    PluginTag { tag: tag(name, namespace_name), ..Default::default() }
}

fn file_action(operation: TagOperation, tags: Vec<PluginTag>) -> FileTagAction {
    FileTagAction { operation, tags }
}

fn file(hash: &str, extension: &str) -> FileInternal {
    FileInternal { hash: hash.to_string(), extension: extension.to_string(), storage_id: 1, ..Default::default() }
}

fn job(site: &str, time: u64, reptime: u64) -> PluginJob {
    PluginJob { site: site.to_string(), time, reptime, ..Default::default() }
}

fn id_of(ids: &[(Tag, u64)], tag: &Tag) -> u64 {
    ids.iter().find(|(known, _)| known == tag).map(|(_, id)| *id).unwrap()
}

fn add_file(db: &mut MainDatabase, hash: &str, extension: &str) -> u64 {
    let added = db.internal_file_bulk_add(&vec![file(hash, extension)]);
    added[0].id.unwrap()
}

fn search(searches: Vec<SearchHolder>) -> SearchObj {
    SearchObj { search_relate: None, searches }
}

#[test]
fn main_test_database_initialization_and_settings() {
    let db = new_test();
    let system_version = db.internal_setting_get("SYSTEM_VERSION").expect("SYSTEM_VERSION setting should be configured");
    assert_eq!(system_version.num, Some(DB_VERSION));
    let user_agent = db.internal_setting_get("SYSTEM_DEFAULT_USER_AGENT").expect("Default user agent missing");
    assert_eq!(user_agent.param, Some("IntScrape V1.0".to_string()));
}

#[test]
fn main_test_internal_tag_bulk_add_ignores_duplicates() {
    let mut db = new_test();
    let ns = GenericNamespaceObj { name: "system".to_string(), description: None };
    let tag1 = FileTagAction {
        tags: vec![PluginTag {
            tag: Tag { name: "unique_tag".to_string(), namespace: ns.clone() },
            relates_to: None,
            ..Default::default()
        }],
        ..Default::default()
    };
    let tag2 = tag1.clone();
    db.internal_tag_bulk_add(&vec![tag1, tag2]);
    let tag_count = db.tags.iter().filter(|row| row.name == "unique_tag").count();
    assert_eq!(tag_count, 1, "a duplicate entry was not dropped");
}

#[test]
fn main_test_internal_tag_bulk_add_keeps_namespace_mapping() {
    let mut db = new_test();
    let first_namespace = GenericNamespaceObj { name: "first_namespace".to_string(), description: None };
    let second_namespace = GenericNamespaceObj { name: "second_namespace".to_string(), description: None };
    let actions = vec![
        FileTagAction {
            tags: vec![PluginTag {
                tag: Tag { name: "same value".to_string(), namespace: first_namespace.clone() },
                ..Default::default()
            }],
            ..Default::default()
        },
        FileTagAction {
            tags: vec![PluginTag {
                tag: Tag { name: "same value".to_string(), namespace: second_namespace.clone() },
                ..Default::default()
            }],
            ..Default::default()
        },
    ];
    let tag_map = db.internal_tag_bulk_add(&actions);
    let first_id = id_of(&tag_map, &actions[0].tags[0].tag);
    let second_id = id_of(&tag_map, &actions[1].tags[0].tag);
    let first_namespace_id = db.internal_namespace_get_id(&"first_namespace".to_string()).unwrap();
    let second_namespace_id = db.internal_namespace_get_id(&"second_namespace".to_string()).unwrap();
    assert_eq!(db.get_namespace_id_from_tag_id(&first_id), Ok(first_namespace_id));
    assert_eq!(db.get_namespace_id_from_tag_id(&second_id), Ok(second_namespace_id));
}

#[test]
fn main_test_internal_namespace_bulk_add_success_and_upsert() {
    let mut db = new_test();
    let ns1 = GenericNamespaceObj { name: "authors".to_string(), description: Some("Book creators".to_string()) };
    let ns2 = GenericNamespaceObj { name: "genres".to_string(), description: None };
    let ids = db.internal_namespace_bulk_add(&vec![ns1.clone(), ns2.clone()]);
    assert_eq!(ids.len(), 2);
    let find = |ids: &[(GenericNamespaceObj, u64)], ns: &GenericNamespaceObj| {
        ids.iter().find(|(known, _)| known == ns).map(|(_, id)| *id)
    };
    assert!(find(&ids, &ns1).is_some());
    assert!(find(&ids, &ns2).is_some());
    let cached = |db: &MainDatabase, name: &str| {
        db.namespace_cache.iter().find(|(known, _)| known == name).map(|(_, id)| *id)
    };
    assert_eq!(cached(&db, &ns1.name), find(&ids, &ns1));
    assert_eq!(cached(&db, &ns2.name), find(&ids, &ns2));

    let ns1_updated =
        GenericNamespaceObj { name: "authors".to_string(), description: Some("Updated Description".to_string()) };
    let updated_ids = db.internal_namespace_bulk_add(&vec![ns1_updated.clone()]);
    assert_eq!(find(&updated_ids, &ns1_updated), find(&ids, &ns1));
    let id = find(&ids, &ns1).unwrap();
    let stored = db.internal_namespace_get_generic(&id).unwrap();
    assert_eq!(stored.description, Some("Updated Description".to_string()));
}

#[test]
fn main_test_internal_parents_bulk_add_with_dynamic_tags() {
    let mut db = new_test();
    let ns = GenericNamespaceObj { name: "programming".to_string(), description: None };
    let t_rust = Tag { name: "Rust".to_string(), namespace: ns.clone() };
    let t_lang = Tag { name: "Language".to_string(), namespace: ns.clone() };
    let t_backend = Tag { name: "Backend".to_string(), namespace: ns.clone() };
    let complex_plugin_tag = FileTagAction {
        tags: vec![PluginTag {
            tag: t_rust.clone(),
            relates_to: Some(RelationContext { tag: t_lang.clone(), limit_to: Some(t_backend.clone()) }),
            ..Default::default()
        }],
        ..Default::default()
    };
    let tag_ids = db.internal_tag_bulk_add(&vec![complex_plugin_tag]);
    let rust_id = id_of(&tag_ids, &t_rust);
    let lang_id = id_of(&tag_ids, &t_lang);
    let backend_id = id_of(&tag_ids, &t_backend);
    let relation1 = TagParents { tag_id: rust_id, relate_tag_id: lang_id, limit_to: Some(backend_id) };
    let relation2 = TagParents { tag_id: lang_id, relate_tag_id: backend_id, limit_to: None };
    let parent_results = db.internal_parents_bulk_add(&vec![relation1, relation2]);
    assert_eq!(parent_results.len(), 2, "Failed to insert both relationships");
    assert!(parent_results.iter().any(|(relation, _)| *relation == relation1));
    assert!(parent_results.iter().any(|(relation, _)| *relation == relation2));
    assert_eq!(db.debug_print_parents().len(), 4);
    assert_eq!(db.parents.len(), 2);
}

#[test]
fn main_test_internal_tag_bulk_add_flatmaps_nested_namespaces() {
    let mut db = new_test();
    let ns_base = GenericNamespaceObj { name: "base_ns".to_string(), description: None };
    let ns_relate = GenericNamespaceObj { name: "relate_ns".to_string(), description: None };
    let ns_limit = GenericNamespaceObj { name: "limit_ns".to_string(), description: None };
    let complex_tag = FileTagAction {
        tags: vec![PluginTag {
            tag: Tag { name: "rust".to_string(), namespace: ns_base.clone() },
            relates_to: Some(RelationContext {
                tag: Tag { name: "programming".to_string(), namespace: ns_relate.clone() },
                limit_to: Some(Tag { name: "limit".to_string(), namespace: ns_limit.clone() }),
            }),
            ..Default::default()
        }],
        ..Default::default()
    };
    db.internal_tag_bulk_add(&vec![complex_tag]);
    assert_eq!(db.namespaces.len(), 3);
    assert_eq!(db.tags.len(), 3);
    let row = db.tags.iter().find(|row| row.name == "rust").unwrap();
    assert_eq!(db.internal_namespace_get_generic(&row.namespace).unwrap().name, "base_ns");
}

#[test]
fn main_test_namespace_lookup_and_empty_bulk_inputs() {
    let mut db = new_test();
    assert!(db.internal_namespace_bulk_add(&Vec::new()).is_empty());
    assert_eq!(db.internal_namespace_get_id(&"missing".to_string()), None);
    let original = namespace("edge", Some("first"));
    let id = db.internal_namespace_get_or_create(&original);
    assert_eq!(db.namespace_cache.iter().find(|(name, _)| name == "edge").map(|(_, id)| *id), Some(id));
    assert_eq!(db.internal_namespace_get_id(&"edge".to_string()), Some(id));
    assert_eq!(db.internal_namespace_get_generic(&id), Some(original));
    let updated = namespace("edge", Some("updated"));
    assert_eq!(db.internal_namespace_get_or_create(&updated), id);
}

#[test]
fn main_test_source_url_files_get_omits_missing_urls() {
    let mut db = new_test();
    let url = "https://example.test/missing".to_string();
    assert_eq!(db.source_url_files_get(&vec![url]), Vec::new());
}

#[test]
fn main_test_source_url_files_get_returns_existing_files() {
    let mut db = new_test();
    let url = "https://example.test/existing";
    let actions = vec![file_action(TagOperation::Add, vec![plugin_tag(url, "source_url")])];
    let tags = db.internal_tag_bulk_add(&actions);
    let tag_id = id_of(&tags, &tag(url, "source_url"));
    let file_id = add_file(&mut db, "source-url-hash", "jpg");
    db.internal_relationships_bulk_add(&vec![(file_id, tag_id)]);
    let existing = db.source_url_files_get(&vec![url.to_string()]);
    let (_, status) = existing.iter().find(|(known, _)| known == url).expect("source URL file should exist");
    let existing_file = status.file.as_ref().expect("file should exist");
    assert_eq!(existing_file.hash, "source-url-hash");
    assert_eq!(existing_file.extension, "jpg");
    assert_eq!(existing_file.id, Some(file_id));
}

#[test]
fn main_test_source_url_files_get_omits_urls_without_files() {
    let mut db = new_test();
    let url = "https://example.test/known";
    let actions = vec![file_action(TagOperation::Add, vec![plugin_tag(url, "source_url")])];
    db.internal_tag_bulk_add(&actions);
    assert_eq!(db.source_url_files_get(&vec![url.to_string()]), Vec::new());
}

#[test]
fn main_test_tag_bulk_add_filters_empty_and_non_normal_tags() {
    let mut db = new_test();
    let mut special_tag = plugin_tag("special", "tags");
    special_tag.tag_type = TagType::Special;
    let actions = vec![file_action(
        TagOperation::Add,
        vec![plugin_tag("", "tags"), special_tag, plugin_tag("valid", "tags"), plugin_tag("valid", "tags")],
    )];
    let result = db.internal_tag_bulk_add(&actions);
    assert_eq!(result.len(), 1);
    assert!(result.iter().any(|(known, _)| *known == tag("valid", "tags")));
    let tag_id = id_of(&result, &tag("valid", "tags"));
    assert_eq!(
        db.tag_cache.iter().find(|(id, _)| *id == tag_id).map(|(_, tag)| tag.clone()),
        Some(tag("valid", "tags"))
    );
    assert_eq!(db.tags.len(), 1);
}

#[test]
fn main_test_file_bulk_add_upserts_and_empty_input() {
    let mut db = new_test();
    assert!(db.internal_file_bulk_add(&Vec::new()).is_empty());
    let first = file("abcdef123", "jpg");
    let inserted = db.internal_file_bulk_add(&vec![first]);
    assert_eq!(inserted.len(), 1);
    assert!(inserted[0].id.is_some());
    let updated = file("abcdef123", "png");
    let upserted = db.internal_file_bulk_add(&vec![updated]);
    assert_eq!(upserted[0].id, inserted[0].id);
    assert_eq!(upserted[0].extension, "png");
    assert_eq!(db.internal_file_get_all().unwrap().len(), 1);
}

#[test]
fn main_test_relationships_are_deduplicated_and_filtered() {
    let mut db = new_test();
    let file_id = add_file(&mut db, "relhash123", "jpg");
    let tag_ids = db.internal_tag_bulk_add(&vec![
        file_action(TagOperation::Add, vec![plugin_tag("one", "a")]),
        file_action(TagOperation::Add, vec![plugin_tag("two", "b")]),
    ]);
    let one_id = id_of(&tag_ids, &tag("one", "a"));
    let two_id = id_of(&tag_ids, &tag("two", "b"));
    let relationships = vec![(file_id, one_id), (file_id, one_id), (file_id, two_id)];
    db.internal_relationships_bulk_add(&relationships);
    assert_eq!(db.internal_file_id_get_tag_ids(&file_id), HashSet::from([one_id, two_id]));
    assert_eq!(db.internal_file_id_get_tag_ids_bulk(&vec![file_id, 999]).len(), 1);
    assert!(db.internal_tag_has_files(one_id));
    assert!(!db.internal_tag_has_files(999));
    let namespace_id = db.internal_namespace_get_id(&"a".to_string()).unwrap();
    assert_eq!(
        db.internal_file_id_get_tag_ids_where_namespace_id(&file_id, &namespace_id),
        HashSet::from([one_id])
    );
    db.internal_relationship_bulk_delete(&vec![(file_id, one_id)]);
    assert_eq!(db.internal_file_id_get_tag_ids(&file_id), HashSet::from([two_id]));
}

#[test]
fn main_test_tag_and_file_lookup_empty_and_missing_inputs() {
    let mut db = new_test();
    assert!(db.internal_tag_id_get_tag(&HashSet::new()).is_empty());
    assert!(db.internal_file_ids_get_tags(&HashSet::new()).is_empty());
    assert_eq!(db.internal_file_id_get(&999), Err(DbError::QueryReturnedNoRows));
    assert_eq!(db.internal_tag_get_file_id(&tag("missing", "missing")), None);
}

#[test]
fn main_test_search_supports_and_or_not_and_limit() {
    let mut db = new_test();
    let mut ids = HashMap::new();
    for hash in ["searchaaa", "searchbbb", "searchccc"] {
        ids.insert(hash.to_string(), add_file(&mut db, hash, "jpg"));
    }
    let tags = db.internal_tag_bulk_add(&vec![
        file_action(TagOperation::Add, vec![plugin_tag("red", "color"), plugin_tag("round", "shape")]),
        file_action(TagOperation::Add, vec![plugin_tag("blue", "color"), plugin_tag("round", "shape")]),
        file_action(TagOperation::Add, vec![plugin_tag("red", "color"), plugin_tag("square", "shape")]),
    ]);
    let red = id_of(&tags, &tag("red", "color"));
    let blue = id_of(&tags, &tag("blue", "color"));
    let round = id_of(&tags, &tag("round", "shape"));
    let square = id_of(&tags, &tag("square", "shape"));
    db.internal_relationships_bulk_add(&vec![
        (ids["searchaaa"], red),
        (ids["searchaaa"], round),
        (ids["searchbbb"], blue),
        (ids["searchbbb"], round),
        (ids["searchccc"], red),
        (ids["searchccc"], square),
    ]);
    let and = search(vec![SearchHolder::And(vec![red, round])]);
    assert_eq!(db.search_db_files_sync(&and, &None), vec![ids["searchaaa"]]);
    let or = search(vec![SearchHolder::Or(vec![blue, square])]);
    assert_eq!(
        db.search_db_files_sync(&or, &None).into_iter().collect::<HashSet<_>>(),
        HashSet::from([ids["searchbbb"], ids["searchccc"]])
    );
    let not = search(vec![SearchHolder::And(vec![red]), SearchHolder::Not(vec![square])]);
    let not_results = db.search_db_files_sync(&not, &Some(1));
    assert_eq!(not_results, vec![ids["searchaaa"]]);
    let empty = search(vec![]);
    assert!(db.search_db_files_sync(&empty, &None).is_empty());
}

#[test]
fn main_test_search_malformed_inputs_do_not_panic() {
    let db = new_test();
    let not_only = search(vec![SearchHolder::Not(vec![u64::MAX])]);
    assert!(db.search_db_files_sync(&not_only, &None).is_empty());
    let empty_groups =
        search(vec![SearchHolder::And(Vec::new()), SearchHolder::Or(Vec::new()), SearchHolder::Not(Vec::new())]);
    assert!(db.search_db_files_sync(&empty_groups, &None).is_empty());
    let extreme_limit = search(vec![SearchHolder::And(vec![u64::MAX])]);
    assert!(db.search_db_files_sync(&extreme_limit, &Some(u64::MAX)).is_empty());
}

#[test]
fn main_test_not_only_search_deduplicates_file_ids() {
    let mut db = new_test();
    let file_id = add_file(&mut db, "not-only", "jpg");
    let tags = db.internal_tag_bulk_add(&vec![file_action(
        TagOperation::Add,
        vec![plugin_tag("keep-one", "test"), plugin_tag("keep-two", "test"), plugin_tag("excluded", "test")],
    )]);
    let keep_one = id_of(&tags, &tag("keep-one", "test"));
    let keep_two = id_of(&tags, &tag("keep-two", "test"));
    let excluded = id_of(&tags, &tag("excluded", "test"));
    db.internal_relationships_bulk_add(&vec![(file_id, keep_one), (file_id, keep_two)]);
    let search = search(vec![SearchHolder::Not(vec![excluded])]);
    assert_eq!(db.search_db_files_sync(&search, &None), vec![file_id]);
}

#[test]
fn main_test_search_boolean_operators_exclude_not_matches() {
    let mut db = new_test();
    let mut file_ids = HashMap::new();
    for hash in ["and_only", "or_only", "and_and_or", "and_and_not", "unrelated"] {
        let file_id = add_file(&mut db, hash, "jpg");
        file_ids.insert(hash, file_id);
    }
    let tags = db.internal_tag_bulk_add(&vec![file_action(
        TagOperation::Add,
        vec![plugin_tag("and", "test"), plugin_tag("or", "test"), plugin_tag("not", "test")],
    )]);
    let and_tag = id_of(&tags, &tag("and", "test"));
    let or_tag = id_of(&tags, &tag("or", "test"));
    let not_tag = id_of(&tags, &tag("not", "test"));
    db.internal_relationships_bulk_add(&vec![
        (file_ids["and_only"], and_tag),
        (file_ids["or_only"], or_tag),
        (file_ids["and_and_or"], and_tag),
        (file_ids["and_and_or"], or_tag),
        (file_ids["and_and_not"], and_tag),
        (file_ids["and_and_not"], not_tag),
    ]);
    let run = |searches| {
        db.search_db_files_sync(&search(searches), &None).into_iter().collect::<HashSet<_>>()
    };
    assert_eq!(
        run(vec![SearchHolder::And(vec![and_tag])]),
        HashSet::from([file_ids["and_only"], file_ids["and_and_or"], file_ids["and_and_not"]])
    );
    assert_eq!(
        run(vec![SearchHolder::Or(vec![and_tag, or_tag])]),
        HashSet::from([
            file_ids["and_only"],
            file_ids["or_only"],
            file_ids["and_and_or"],
            file_ids["and_and_not"],
        ])
    );
    assert_eq!(
        run(vec![SearchHolder::And(vec![and_tag]), SearchHolder::Not(vec![not_tag])]),
        HashSet::from([file_ids["and_only"], file_ids["and_and_or"]])
    );
    assert_eq!(
        run(vec![
            SearchHolder::And(vec![and_tag]),
            SearchHolder::Or(vec![or_tag]),
            SearchHolder::Not(vec![not_tag]),
        ]),
        HashSet::from([file_ids["and_and_or"]])
    );
}

#[test]
fn main_test_search_db_files_by_tag_groups_resolves_ids_and_names() {
    let mut db = new_test();
    let mut file_ids = HashMap::new();
    for hash in ["grouped-and", "grouped-global", "grouped-excluded"] {
        file_ids.insert(hash, add_file(&mut db, hash, "jpg"));
    }
    let tags = db.internal_tag_bulk_add(&vec![file_action(
        TagOperation::Add,
        vec![
            plugin_tag("required", "test"),
            plugin_tag("female", "e6"),
            plugin_tag("female", "e6ai"),
            plugin_tag("excluded", "test"),
        ],
    )]);
    let required = id_of(&tags, &tag("required", "test"));
    let female_e6 = id_of(&tags, &tag("female", "e6"));
    let female_e6ai = id_of(&tags, &tag("female", "e6ai"));
    let excluded = id_of(&tags, &tag("excluded", "test"));
    db.internal_relationships_bulk_add(&vec![
        (file_ids["grouped-and"], required),
        (file_ids["grouped-global"], required),
        (file_ids["grouped-global"], female_e6),
        (file_ids["grouped-excluded"], required),
        (file_ids["grouped-excluded"], female_e6ai),
        (file_ids["grouped-excluded"], excluded),
    ]);
    let female = db.tags.iter().filter(|row| row.name == "female").map(|row| row.id).collect::<Vec<_>>();
    let results = db.search_db_files_by_tag_groups_sync(
        &vec![required],
        &vec![female],
        &vec![],
        &vec![],
        &vec![excluded],
        &vec![],
        &None,
    );
    assert_eq!(results, vec![file_ids["grouped-global"]]);
}

#[test]
fn main_test_partial_roaring_cache_falls_back_to_sqlite() {
    let mut db = new_test();
    let mut ids = HashMap::new();
    for hash in ["partialaaa", "partialbbb"] {
        ids.insert(hash.to_string(), add_file(&mut db, hash, "jpg"));
    }
    let tags = db.internal_tag_bulk_add(&vec![
        file_action(TagOperation::Add, vec![plugin_tag("popular", "cache"), plugin_tag("uncached", "cache")]),
        file_action(TagOperation::Add, vec![plugin_tag("popular", "cache")]),
    ]);
    let popular = id_of(&tags, &tag("popular", "cache"));
    let uncached = id_of(&tags, &tag("uncached", "cache"));
    db.internal_relationships_bulk_add(&vec![
        (ids["partialaaa"], popular),
        (ids["partialaaa"], uncached),
        (ids["partialbbb"], popular),
    ]);
    let mut partial_cache = RelationshipStorage::new(InternalCacheType::Popular(2));
    partial_cache.load_relationship_cache(&db.bitmaps, &db.tags);
    db.relationship_roaring_storage = Some(partial_cache);
    let and = search(vec![SearchHolder::And(vec![popular, uncached])]);
    assert_eq!(db.search_db_files_sync(&and, &None), vec![ids["partialaaa"]]);
    let or = search(vec![SearchHolder::Or(vec![popular, uncached])]);
    assert_eq!(
        db.search_db_files_sync(&or, &None).into_iter().collect::<HashSet<_>>(),
        HashSet::from([ids["partialaaa"], ids["partialbbb"]])
    );
}

#[test]
fn main_test_db_slurp_imports_supported_rows_and_relationships() {
    let mut destination = new_test();
    destination.namespace_add_sync(&namespace("existing", Some("existing")));
    for index in 0..49 {
        destination.tags.push(TagRow { id: index + 1, name: format!("existing-{index}"), namespace: 1, count: 0 });
    }
    let source = SourceDatabase {
        storage: vec![
            StorageRow { id: 1, location: "files".to_string() },
            StorageRow { id: 2, location: "/tmp".to_string() },
        ],
        namespaces: vec![NamespaceRow { id: 1, name: "source".to_string(), description: Some("test".to_string()) }],
        tags: vec![
            TagRow { id: 1, name: "female".to_string(), namespace: 1, count: 0 },
            TagRow { id: 2, name: "large_female".to_string(), namespace: 1, count: 0 },
        ],
        file_schema: Some(
            "CREATE TABLE \"File\" (id INTEGER PRIMARY KEY NOT NULL, hash TEXT UNIQUE, extension TEXT, storage_id INTEGER)"
                .to_string(),
        ),
        files: vec![SourceFile {
            id: 1,
            hash: Some("slurp-hash".to_string()),
            extension: "jpg".to_string(),
            storage_id: Some(1),
            size_bytes: Some(42),
        }],
        hashes: Some(Vec::new()),
        partitions: vec![SourcePartition { namespace: 1, rows: vec![(1, 1), (1, 2)] }],
        relationships: None,
        parents: Some(vec![TagParents { tag_id: 1, relate_tag_id: 2, limit_to: None }]),
    };
    assert_eq!(destination.db_slurp(&Some(source)).unwrap(), (1, 2, 1));
    assert_eq!(destination.tags.iter().filter(|row| row.count == 1).count(), 2);
    assert_eq!(destination.parents.len(), 1);
    let female_id = destination.internal_tag_get_id(&"female".to_string(), 2).unwrap();
    let large_female_id = destination.internal_tag_get_id(&"large_female".to_string(), 2).unwrap();
    assert_eq!(female_id, 50);
    assert_eq!(large_female_id, 51);
    assert_eq!(
        (destination.parents[0].relation.tag_id, destination.parents[0].relation.relate_tag_id),
        (female_id, large_female_id)
    );
    assert_eq!(destination.internal_file_get_all().unwrap()[0].size_bytes, None);
}

#[test]
fn main_test_update_missing_file_sizes_updates_only_existing_files() {
    let mut db = new_test();
    let hash = "size-job-hash";
    db.internal_file_storage_location_set("/storage").unwrap();
    db.internal_file_bulk_add(&vec![
        FileInternal { id: None, hash: hash.into(), extension: "jpg".into(), storage_id: 1, size_bytes: None },
        FileInternal { id: None, hash: "absent-hash".into(), extension: "jpg".into(), storage_id: 1, size_bytes: None },
    ]);
    let contents = b"file-size";
    let ids = db.next_unsized_files(0);
    assert_eq!(ids.len(), 2);
    let last = db.update_missing_file_sizes(0, &vec![Some(contents.len() as u64), None]);
    assert_eq!(last, Some(ids[1]));
    let size = |db: &MainDatabase, hash: &str| {
        db.internal_file_get_all().unwrap().into_iter().find(|file| file.hash == hash).unwrap().size_bytes
    };
    assert_eq!(size(&db, hash), Some(9));
    assert_eq!(size(&db, "absent-hash"), None);
    assert_eq!(db.update_missing_file_sizes(ids[1], &vec![]), None);
}

#[test]
fn main_test_tag_name_search_groups_same_names_across_namespaces() {
    let mut db = new_test();
    let tags = db.internal_tag_bulk_add(&vec![
        file_action(TagOperation::Add, vec![plugin_tag("female", "e6")]),
        file_action(TagOperation::Add, vec![plugin_tag("female", "e6ai")]),
        file_action(TagOperation::Add, vec![plugin_tag("tank", "e6")]),
    ]);
    let female_e6 = id_of(&tags, &tag("female", "e6"));
    let female_e6ai = id_of(&tags, &tag("female", "e6ai"));
    let tank = id_of(&tags, &tag("tank", "e6"));
    let mut file_ids = Vec::new();
    for index in 1..=4 {
        file_ids.push(add_file(&mut db, &format!("same-name-{index}"), "jpg"));
    }
    db.internal_relationships_bulk_add(&vec![
        (file_ids[0], female_e6),
        (file_ids[1], female_e6ai),
        (file_ids[2], female_e6),
        (file_ids[2], tank),
        (file_ids[3], tank),
    ]);
    let results = db.search_db_files_by_tags_sync(&vec![vec![female_e6, female_e6ai], vec![tank]], &None);
    assert_eq!(results.into_iter().collect::<HashSet<_>>(), HashSet::from([file_ids[2]]));
}

#[test]
fn main_test_settings_and_dead_urls_round_trip() {
    let mut db = new_test();
    let setting = DbSettingsObj {
        name: "TEST_SETTING".into(),
        description: Some("first".into()),
        num: Some(1),
        param: Some("a".into()),
    };
    assert!(!db.setting_set_sync(&setting));
    assert_eq!(db.setting_get_sync("TEST_SETTING").unwrap().param, Some("a".into()));
    let updated = DbSettingsObj {
        description: Some("second".into()),
        num: Some(2),
        param: Some("b".into()),
        ..setting
    };
    let _ = db.setting_set_sync(&updated);
    assert_eq!(db.setting_get_sync("TEST_SETTING").unwrap().description, Some("second".into()));
    assert!(db.setting_get_sync("missing").is_none());

    let url = "https://example.test/a?x=1".to_string();
    assert!(!db.dead_url_add_sync(&url));
    let status = db.dead_url_get_sync(&vec![url.clone(), "https://example.test/missing".into()]);
    let of = |url: &str| status.iter().find(|(known, _)| known == url).map(|(_, dead)| *dead);
    assert_eq!(of(&url), Some(true));
    assert_eq!(of("https://example.test/missing"), Some(false));
}

#[test]
fn main_test_storage_location_and_file_path_edge_cases() {
    let mut db = new_test();
    assert_eq!(db.file_download_location_get_sync("short", "jpg"), None);
    assert_eq!(db.file_download_location_get_sync("abcdef", "jpg"), None);
    let (base, storage_id) = db.file_download_location_main_sync().unwrap();
    assert_eq!(base, "files");
    assert!(storage_id > 0);
    let (path, _) = db.file_download_location_get_sync("abcdef123456", "jpg").unwrap();
    assert_eq!(path, "files/ab/cd/ef/abcdef123456.jpg");

    let file = file("abcdef123456", "jpg");
    let location = MainDatabase::get_file_location(&file, &"missing-base".into()).unwrap();
    assert_eq!(location.full, "missing-base/ab/cd/ef/abcdef123456.jpg");
    assert_eq!(location.bare, "missing-base/ab/cd/ef/abcdef123456");
    assert_eq!(
        intscrape::storage_check::probe_file(
            std::path::Path::new(&location.full).exists(),
            std::path::Path::new(&location.bare).exists()
        ),
        intscrape::storage_check::FileProbe::Missing
    );
}

#[test]
fn main_test_fix_internal_files_moves_misplaced_file_to_recorded_storage() {
    let mut db = new_test();
    let hash = "5a1b8c0000000000";
    db.storage.clear();
    db.internal_file_storage_location_set("/source").unwrap();
    let target_storage_id = db.internal_file_storage_location_get_or_create("/target");
    let mut stored = file(hash, "bin");
    stored.storage_id = target_storage_id;
    db.internal_file_bulk_add(&vec![stored]);
    let (survey, step) = db.fix_internal_files(
        CheckFilesEnum::StorageCheck,
        &vec![FileFinding { path: None, size: None }],
        &vec![],
        0,
    ).unwrap();
    assert_eq!(survey.missing.len(), 1);
    assert_eq!(step, StorageStep::ScanContents);
    let moves = db.process_storage_check_chunk(
        &vec![format!("/source/5a/1b/8c/{hash}.bin")],
        &vec![Some(hash.to_string())],
        &"/target".to_string(),
    );
    assert!(matches!(&moves[0], FileMove::IfFree(path) if *path == format!("/target/5a/1b/8c/{hash}.bin")));
}

#[test]
fn main_test_fix_internal_files_leaves_file_in_recorded_storage() {
    let mut db = new_test();
    let hash = "0badc0ffee00";
    db.storage.clear();
    let storage_id = db.internal_file_storage_location_get_or_create("/storage");
    let mut stored = file(hash, "bin");
    stored.storage_id = storage_id;
    db.internal_file_bulk_add(&vec![stored]);
    let path = format!("/storage/0b/ad/c0/{hash}.bin");
    let (survey, _) = db.fix_internal_files(
        CheckFilesEnum::StorageCheck,
        &vec![FileFinding { path: Some(path.clone()), size: Some(21) }],
        &vec![],
        0,
    ).unwrap();
    assert!(survey.missing.is_empty());
    assert_eq!(survey.valid_paths, vec![path.clone()]);
    let moves = db.process_storage_check_chunk(&vec![path], &vec![Some(hash.to_string())], &"/storage".to_string());
    assert!(matches!(moves[0], FileMove::Leave));
    assert_eq!(db.internal_file_get_all().unwrap()[0].size_bytes, Some(21));
}

#[test]
fn main_test_job_lifecycle_and_duplicate_upsert() {
    let mut db = new_test();
    let config = job("site", 0, 0);
    let id = db.internal_jobs_add(&config);
    let duplicate_id = db.internal_jobs_add(&config);
    assert_eq!(id, duplicate_id);
    assert_eq!(db.internal_jobs_get_all_sites(), vec!["site"]);
    assert_eq!(db.internal_jobs_get_site(&"missing".to_string()), Vec::<DbJobsObj>::new());
    db.internal_jobs_set_isrunning(id);
    assert!(db.internal_jobs_get_site(&"site".to_string())[0].isrunning);
    db.internal_jobs_reset_isrunning();
    assert!(!db.internal_jobs_get_site(&"site".to_string())[0].isrunning);
    assert_eq!(db.internal_jobs_get_torun(&vec!["site".into()], 1).len(), 1);
    db.internal_job_remove(id);
    assert!(db.internal_jobs_get_site(&"site".to_string()).is_empty());
}

#[test]
fn main_test_parent_constraints_distinguish_limit_to() {
    let mut db = new_test();
    let child = plugin_tag("child", "ns");
    let parent = plugin_tag("parent", "ns");
    let limit = plugin_tag("limit", "ns");
    let actions = vec![file_action(
        TagOperation::Add,
        vec![
            PluginTag {
                relates_to: Some(RelationContext { tag: parent.tag.clone(), limit_to: Some(limit.tag.clone()) }),
                ..child.clone()
            },
            parent.clone(),
            limit.clone(),
        ],
    )];
    let ids = db.internal_tag_bulk_add(&actions);
    let relation = TagParents {
        tag_id: id_of(&ids, &child.tag),
        relate_tag_id: id_of(&ids, &parent.tag),
        limit_to: Some(id_of(&ids, &limit.tag)),
    };
    db.internal_parents_bulk_add(&vec![relation]);
    assert!(db.internal_parent_structure_exists(&PluginTag {
        relates_to: Some(RelationContext { tag: parent.tag.clone(), limit_to: Some(limit.tag.clone()) }),
        ..child.clone()
    }));
    assert!(db.internal_parent_relate_limit_exists(&parent.tag, &limit.tag));
    assert!(!db.internal_parent_structure_exists(&PluginTag {
        relates_to: Some(RelationContext { tag: parent.tag, limit_to: None }),
        ..child
    }));
}
