//! The tables of relationships, one for each namespace, and texts about the tables.
use crate::database::{DbState, MainDatabase, PluginManager};
use crate::relationship::{file_exists, holds_relationship, namespace_of_tag, tag_namespace};
use crate::rows::{
    NamespaceRec, NamespaceRow, ParentRow, TagRec, file_ids, find_file_id, find_namespace_id, namespace_ids,
};
use crate::text::{
    decimal, decimal_is_injective, decimal_text, lemma_filter_step, lemma_pos, lemma_push_contains, pos, views,
};
use crate::types::AuditLogEntry;
use vstd::prelude::*;

verus! {

/// The name of the table for a namespace.
pub open spec fn partition_name(namespace_id: u64) -> Seq<char> {
    "Relationship_"@ + decimal(namespace_id as nat)
}

/// Namespaces with different ids have tables with different names.
pub proof fn partition_names_differ(one: u64, other: u64)
    requires
        partition_name(one) == partition_name(other),
    ensures
        one == other,
{
    let start = "Relationship_"@;
    let a = decimal(one as nat);
    let b = decimal(other as nat);
    assert((start + a).skip(start.len() as int) =~= a);
    assert((start + b).skip(start.len() as int) =~= b);
    decimal_is_injective(one as nat, other as nat);
}

/// The query for the relationships of some namespaces.
pub open spec fn union_query(ids: Seq<u64>) -> Seq<char>
    decreases ids.len(),
{
    if ids.len() == 0 {
        Seq::empty()
    } else {
        let last = "SELECT file_id, tag_id FROM "@ + partition_name(ids.last());
        if ids.len() == 1 {
            last
        } else {
            union_query(ids.drop_last()) + " UNION ALL "@ + last
        }
    }
}

/// The source of all relationships, under another name, given the ids of the namespaces.
pub open spec fn union_source(ids: Seq<u64>, alias: Seq<char>) -> Seq<char> {
    let source = if ids.len() == 0 {
        "SELECT NULL AS file_id, NULL AS tag_id WHERE 0"@
    } else {
        union_query(ids)
    };
    "("@ + source + ") AS "@ + alias
}

/// Whether numbers stand in order, each once.
pub open spec fn ascending(ids: Seq<u64>) -> bool {
    forall|i: int, k: int| 0 <= i < k < ids.len() ==> #[trigger] ids[i] < #[trigger] ids[k]
}

/// Whether a list holds the ids of the namespaces in order, each once.
pub open spec fn lists_namespaces(ids: Seq<u64>, rows: Seq<NamespaceRec>) -> bool {
    ascending(ids) && forall|id: u64| #[trigger] ids.contains(id) <==> namespace_ids(rows).contains(id)
}

/// There is one list of the ids of the namespaces in order.
pub proof fn namespaces_are_listed_in_one_way(one: Seq<u64>, other: Seq<u64>, rows: Seq<NamespaceRec>)
    requires
        lists_namespaces(one, rows),
        lists_namespaces(other, rows),
    ensures
        one == other,
    decreases one.len(),
{
    let keys = namespace_ids(rows);
    assert(forall|id: u64| one.contains(id) <==> keys.contains(id));
    assert(forall|id: u64| other.contains(id) <==> keys.contains(id));
    lemma_same_ascending(one, other);
}

proof fn lemma_same_ascending(one: Seq<u64>, other: Seq<u64>)
    requires
        ascending(one),
        ascending(other),
        forall|id: u64| #[trigger] one.contains(id) <==> other.contains(id),
    ensures
        one == other,
    decreases one.len(),
{
    if one.len() == 0 {
        if other.len() > 0 {
            assert(other.contains(other[0]));
            assert(one.contains(other[0]));
        }
        assert(one =~= other);
    } else {
        assert(one.contains(one.last()));
        assert(other.contains(one.last()));
        assert(other.contains(other.last()));
        assert(one.contains(other.last()));
        let a = choose|a: int| 0 <= a < one.len() && one[a] == other.last();
        let b = choose|b: int| 0 <= b < other.len() && other[b] == one.last();
        assert(one.last() == other.last());
        let x = one.drop_last();
        let y = other.drop_last();
        assert forall|id: u64| #[trigger] x.contains(id) <==> y.contains(id) by {
            if x.contains(id) {
                let i = choose|i: int| 0 <= i < x.len() && x[i] == id;
                assert(one[i] == id && one[i] < one[one.len() - 1]);
                assert(one.contains(id));
                assert(other.contains(id));
                let k = choose|k: int| 0 <= k < other.len() && other[k] == id;
                assert(y[k] == id);
            }
            if y.contains(id) {
                let i = choose|i: int| 0 <= i < y.len() && y[i] == id;
                assert(other[i] == id && other[i] < other[other.len() - 1]);
                assert(other.contains(id));
                assert(one.contains(id));
                let k = choose|k: int| 0 <= k < one.len() && one[k] == id;
                assert(x[k] == id);
            }
        }
        lemma_same_ascending(x, y);
        assert(one =~= x.push(one.last()));
        assert(other =~= y.push(other.last()));
    }
}

/// The declaration of the table for a namespace.
pub open spec fn partition_schema(namespace_id: u64) -> Seq<char> {
    let table = partition_name(namespace_id);
    "CREATE TABLE IF NOT EXISTS "@ + table
        + " (file_id INTEGER NOT NULL, tag_id INTEGER NOT NULL, PRIMARY KEY (file_id, tag_id), FOREIGN KEY (file_id) REFERENCES File(id) ON DELETE CASCADE ON UPDATE CASCADE, FOREIGN KEY (tag_id) REFERENCES Tags(id) ON DELETE CASCADE ON UPDATE CASCADE) WITHOUT ROWID; CREATE INDEX IF NOT EXISTS idx_"@
        + table + "_tag_file ON "@ + table + "(tag_id, file_id DESC)"@
}

/// A line about a structural relation.
pub open spec fn parent_line(row: ParentRow) -> Seq<char> {
    let line = "Tag ID: "@ + decimal(row.relation.tag_id as nat) + " -> Relate Tag ID: "@ + decimal(
        row.relation.relate_tag_id as nat,
    );
    match row.relation.limit_to {
        Some(limit) => line + " (Limited To: "@ + decimal(limit as nat) + ")"@,
        None => line,
    }
}

/// How often a tag must have been given to stand in the index of popular tags.
pub const HIGH_VALUE_COUNT: u64 = 5;

/// The rows of the index of popular tags: id, name and namespace.
pub open spec fn indexed_tags(tags: Seq<TagRec>) -> Seq<(u64, Seq<char>, u64)> {
    let popular = tags.filter(|row: TagRec| row.count >= HIGH_VALUE_COUNT);
    Seq::new(popular.len(), |i: int| (popular[i].id, popular[i].name, popular[i].namespace))
}

/// What has to be done to a log of changes, by the columns that it has.
#[derive(Debug, Clone, Copy, PartialEq, Eq, Structural)]
pub struct AuditMigration {
    pub add_file_id: bool,
    pub add_tag_id: bool,
    /// The ids in the column that was for all kinds of entries go to those that are for one.
    pub convert_entity_id: bool,
    /// The columns that are no longer used go.
    pub compact: bool,
}

/// What has to be done to a log of changes with these columns.
pub fn audit_migration(columns: &Vec<String>) -> (migration: AuditMigration)
    ensures
        migration.add_file_id == !views(columns@).contains("file_id"@),
        migration.add_tag_id == !views(columns@).contains("tag_id"@),
        migration.convert_entity_id == views(columns@).contains("entity_id"@),
        migration.compact == (views(columns@).contains("entity_id"@) || views(columns@).contains("before_json"@)
            || views(columns@).contains("after_json"@)),
{
    let entity_id = holds_text(columns, "entity_id");
    AuditMigration {
        add_file_id: !holds_text(columns, "file_id"),
        add_tag_id: !holds_text(columns, "tag_id"),
        convert_entity_id: entity_id,
        compact: entity_id || holds_text(columns, "before_json") || holds_text(columns, "after_json"),
    }
}

/// Whether a list holds a text.
fn holds_text(texts: &Vec<String>, text: &str) -> (found: bool)
    ensures
        found == views(texts@).contains(text@),
{
    let ghost all = views(texts@);
    let mut i: usize = 0;
    while i < texts.len()
        invariant
            i <= texts.len(),
            all == views(texts@),
            forall|k: int| 0 <= k < i ==> all[k] != text@,
        decreases texts.len() - i,
    {
        assert(all[i as int] == texts@[i as int]@);
        if crate::text::text_is(&texts[i], text) {
            return true;
        }
        i += 1;
    }
    false
}

/// Puts a number where it belongs in an ordered list, unless it is there.
fn insert_ascending(ids: &mut Vec<u64>, id: u64)
    requires
        ascending(old(ids)@),
    ensures
        ascending(final(ids)@),
        forall|other: u64| #[trigger] final(ids)@.contains(other) <==> old(ids)@.contains(other) || other == id,
{
    let ghost before = ids@;
    let mut at: usize = 0;
    while at < ids.len() && ids[at] < id
        invariant
            at <= ids.len(),
            ids@ == before,
            ascending(before),
            forall|k: int| 0 <= k < at ==> before[k] < id,
        decreases ids.len() - at,
    {
        at += 1;
    }
    if at < ids.len() && ids[at] == id {
        assert(before[at as int] == id);
        return;
    }
    ids.insert(at, id);
    proof {
        let after = before.insert(at as int, id);
        assert(ids@ == after);
        assert forall|i: int, k: int| 0 <= i < k < after.len() implies #[trigger] after[i] < #[trigger] after[k] by {
            if i == at {
                assert(after[k] == before[k - 1]);
                if k - 1 > at {
                    assert(before[at as int] < before[k - 1]);
                }
            }
        }
        assert forall|other: u64| #[trigger] after.contains(other) <==> before.contains(other) || other == id by {
            if before.contains(other) {
                let k = choose|k: int| 0 <= k < before.len() && before[k] == other;
                if k < at {
                    assert(after[k] == other);
                } else {
                    assert(after[k + 1] == other);
                }
            }
            assert(after[at as int] == id);
        }
    }
}

/// The ids of the namespaces in order.
fn ordered_namespaces(rows: &Vec<NamespaceRow>) -> (ids: Vec<u64>)
    ensures
        lists_namespaces(ids@, views(rows@)),
{
    let ghost keys = namespace_ids(views(rows@));
    let mut ids: Vec<u64> = Vec::new();
    let mut i: usize = 0;
    while i < rows.len()
        invariant
            i <= rows.len(),
            keys == namespace_ids(views(rows@)),
            ascending(ids@),
            forall|id: u64| #[trigger] ids@.contains(id) <==> keys.take(i as int).contains(id),
        decreases rows.len() - i,
    {
        proof {
            assert(keys.take(i + 1) =~= keys.take(i as int).push(keys[i as int]));
            lemma_push_contains(keys.take(i as int), keys[i as int]);
            assert(keys[i as int] == rows@[i as int].id);
        }
        insert_ascending(&mut ids, rows[i].id);
        i += 1;
    }
    assert(keys.take(i as int) =~= keys);
    ids
}

impl MainDatabase {
    /// The name of the table for a namespace.
    pub fn relationship_partition_name(namespace_id: u64) -> (name: String)
        ensures
            name@ == partition_name(namespace_id),
    {
        let mut name = "Relationship_".to_owned();
        name.append(decimal_text(namespace_id).as_str());
        name
    }

    /// The declaration of the table for a namespace.
    pub fn internal_relationship_partition_create(namespace_id: u64) -> (declaration: String)
        ensures
            declaration@ == partition_schema(namespace_id),
    {
        let table = MainDatabase::relationship_partition_name(namespace_id);
        let mut declaration = "CREATE TABLE IF NOT EXISTS ".to_owned();
        declaration.append(table.as_str());
        declaration.append(
            " (file_id INTEGER NOT NULL, tag_id INTEGER NOT NULL, PRIMARY KEY (file_id, tag_id), FOREIGN KEY (file_id) REFERENCES File(id) ON DELETE CASCADE ON UPDATE CASCADE, FOREIGN KEY (tag_id) REFERENCES Tags(id) ON DELETE CASCADE ON UPDATE CASCADE) WITHOUT ROWID; CREATE INDEX IF NOT EXISTS idx_",
        );
        declaration.append(table.as_str());
        declaration.append("_tag_file ON ");
        declaration.append(table.as_str());
        declaration.append("(tag_id, file_id DESC)");
        declaration
    }

    /// The declarations of the tables for all namespaces, in the order of their ids.
    pub fn internal_table_create_relationship_v1(&self) -> (declarations: Vec<String>)
        ensures
            exists|ids: Seq<u64>| #[trigger]
                lists_namespaces(ids, self@.namespaces) && views(declarations@) == ids.map_values(
                    |id: u64| partition_schema(id),
                ),
    {
        let ids = ordered_namespaces(&self.namespaces);
        let mut declarations: Vec<String> = Vec::new();
        let mut i: usize = 0;
        while i < ids.len()
            invariant
                i <= ids.len(),
                lists_namespaces(ids@, self@.namespaces),
                declarations@.len() == i,
                forall|k: int| 0 <= k < i ==> (#[trigger] declarations@[k])@ == partition_schema(ids@[k]),
            decreases ids.len() - i,
        {
            declarations.push(MainDatabase::internal_relationship_partition_create(ids[i]));
            i += 1;
        }
        assert(views(declarations@) =~= ids@.map_values(|id: u64| partition_schema(id)));
        declarations
    }

    /// The source of all relationships, under another name.
    pub fn relationship_union_source(&self, alias: &str) -> (source: String)
        ensures
            exists|ids: Seq<u64>| #[trigger]
                lists_namespaces(ids, self@.namespaces) && source@ == union_source(ids, alias@),
    {
        let ids = ordered_namespaces(&self.namespaces);
        let mut query = String::new();
        let mut i: usize = 0;
        assert(query@ =~= union_query(ids@.take(0)));
        while i < ids.len()
            invariant
                i <= ids.len(),
                lists_namespaces(ids@, self@.namespaces),
                query@ == union_query(ids@.take(i as int)),
            decreases ids.len() - i,
        {
            let ghost before = query@;
            assert(ids@.take(i + 1).drop_last() =~= ids@.take(i as int));
            if i > 0 {
                query.append(" UNION ALL ");
            }
            query.append("SELECT file_id, tag_id FROM ");
            query.append(MainDatabase::relationship_partition_name(ids[i]).as_str());
            assert(query@ =~= union_query(ids@.take(i + 1)));
            i += 1;
        }
        assert(ids@.take(i as int) =~= ids@);
        let mut source = "(".to_owned();
        if ids.is_empty() {
            source.append("SELECT NULL AS file_id, NULL AS tag_id WHERE 0");
        } else {
            source.append(query.as_str());
        }
        source.append(") AS ");
        source.append(alias);
        assert(source@ =~= union_source(ids@, alias@));
        source
    }

    /// The query for the files that have a tag of a namespace.
    pub fn generate_file_search_sql(tag_id: &u64, namespace_id: &u64) -> (query: String)
        ensures
            query@ == "SELECT file_id FROM Relationship_"@ + decimal(*namespace_id as nat) + " WHERE tag_id = "@
                + decimal(*tag_id as nat),
    {
        let mut query = "SELECT file_id FROM Relationship_".to_owned();
        query.append(decimal_text(*namespace_id).as_str());
        query.append(" WHERE tag_id = ");
        query.append(decimal_text(*tag_id).as_str());
        query
    }

    /// Whether the files exist of those rows of the one table that all relationships were in that are to be
    /// taken over.
    pub fn can_migrate_legacy(&self, rows: &Vec<(u64, u64)>) -> (can: bool)
        ensures
            can == forall|i: int|
                0 <= i < rows@.len() && self@.migrates(#[trigger] rows@[i]) ==> file_exists(self@.files, rows@[i].0),
    {
        let mut i: usize = 0;
        while i < rows.len()
            invariant
                i <= rows.len(),
                forall|k: int|
                    0 <= k < i && self@.migrates(#[trigger] rows@[k]) ==> file_exists(self@.files, rows@[k].0),
            decreases rows.len() - i,
        {
            let (file_id, tag_id) = rows[i];
            proof {
                lemma_pos(file_ids(self@.files), file_id);
                assert(rows@[i as int] == (file_id, tag_id));
            }
            if let Some(namespace) = namespace_of_tag(&self.tags, tag_id) {
                if find_namespace_id(&self.namespaces, namespace) < self.namespaces.len() && find_file_id(
                    &self.files,
                    file_id,
                ) == self.files.len() {
                    assert(self@.migrates(rows@[i as int]));
                    return false;
                }
            }
            i += 1;
        }
        true
    }

    /// Takes the rows of the one table that all relationships were in over: those whose tag is in a
    /// namespace that exists.
    pub fn internal_relationship_migrate_legacy(&mut self, rows: &Vec<(u64, u64)>)
        requires
            forall|i: int|
                0 <= i < rows@.len() && old(self)@.migrates(#[trigger] rows@[i]) ==> file_exists(
                    old(self)@.files,
                    rows@[i].0,
                ),
        ensures
            final(self)@ == (DbState {
                relationships: old(self)@.relationships.union(
                    rows@.to_set().filter(|r: (u64, u64)| old(self)@.migrates(r)),
                ),
                ..old(self)@
            }),
    {
        let ghost start = self@;
        let ghost before = self.relationships@;
        let mut i: usize = 0;
        while i < rows.len()
            invariant
                i <= rows.len(),
                self@ == (DbState { relationships: self@.relationships, ..start }),
                forall|r: (u64, u64)| #[trigger]
                    self.relationships@.contains(r) <==> before.contains(r) || (rows@.take(i as int).contains(r)
                        && start.migrates(r)),
            decreases rows.len() - i,
        {
            let (file_id, tag_id) = rows[i];
            proof {
                assert(rows@.take(i + 1) =~= rows@.take(i as int).push(rows@[i as int]));
                lemma_push_contains(rows@.take(i as int), rows@[i as int]);
                lemma_push_contains(self.relationships@, (file_id, tag_id));
            }
            if let Some(namespace) = namespace_of_tag(&self.tags, tag_id) {
                if find_namespace_id(&self.namespaces, namespace) < self.namespaces.len() && !holds_relationship(
                    &self.relationships,
                    file_id,
                    tag_id,
                ) {
                    self.relationships.push((file_id, tag_id));
                }
            }
            i += 1;
        }
        proof {
            assert(rows@.take(i as int) =~= rows@);
            let wanted = start.relationships.union(rows@.to_set().filter(|r: (u64, u64)| start.migrates(r)));
            assert forall|r: (u64, u64)| self@.relationships.contains(r) <==> wanted.contains(r) by {
                assert(self.relationships@.to_set().contains(r) == self.relationships@.contains(r));
                assert(before.to_set().contains(r) == before.contains(r));
                assert(rows@.to_set().contains(r) == rows@.contains(r));
            }
            assert(self@.relationships =~= wanted);
        }
    }

    /// A line about each structural relation, between two rules.
    pub fn debug_print_parents(&self) -> (lines: Vec<String>)
        ensures
            lines@.len() == self@.parents.len() + 2,
            lines@[0]@ == "--- Parents Table Contents ---"@,
            lines@.last()@ == "------------------------------"@,
            forall|i: int| 0 <= i < self@.parents.len() ==> (#[trigger] lines@[i + 1])@ == parent_line(self@.parents[i]),
    {
        let mut lines: Vec<String> = Vec::new();
        lines.push("--- Parents Table Contents ---".to_owned());
        let mut i: usize = 0;
        while i < self.parents.len()
            invariant
                i <= self.parents.len(),
                lines@.len() == i + 1,
                lines@[0]@ == "--- Parents Table Contents ---"@,
                forall|k: int| 1 <= k <= i ==> (#[trigger] lines@[k])@ == parent_line(self@.parents[k - 1]),
            decreases self.parents.len() - i,
        {
            let relation = self.parents[i].relation;
            let mut line = "Tag ID: ".to_owned();
            line.append(decimal_text(relation.tag_id).as_str());
            line.append(" -> Relate Tag ID: ");
            line.append(decimal_text(relation.relate_tag_id).as_str());
            if let Some(limit) = relation.limit_to {
                line.append(" (Limited To: ");
                line.append(decimal_text(limit).as_str());
                line.append(")");
            }
            assert(line@ == parent_line(self@.parents[i as int]));
            lines.push(line);
            i += 1;
        }
        lines.push("------------------------------".to_owned());
        lines
    }

    /// The rows that the index of popular tags is filled with: id, name and namespace of each tag that was
    /// given often enough.
    pub fn internal_update_fts_table(&self) -> (rows: Vec<(u64, String, u64)>)
        ensures
            Seq::new(rows@.len(), |i: int| (rows@[i].0, rows@[i].1@, rows@[i].2)) == indexed_tags(self@.tags),
    {
        let ghost all = self@.tags;
        let ghost keep = |row: TagRec| row.count >= HIGH_VALUE_COUNT;
        let mut rows: Vec<(u64, String, u64)> = Vec::new();
        let mut i: usize = 0;
        assert(all.take(0).filter(keep) =~= Seq::<TagRec>::empty()) by {
            reveal(Seq::filter);
        }
        while i < self.tags.len()
            invariant
                i <= self.tags.len(),
                all == self@.tags,
                keep == (|row: TagRec| row.count >= HIGH_VALUE_COUNT),
                rows@.len() == all.take(i as int).filter(keep).len(),
                forall|k: int|
                    0 <= k < rows@.len() ==> (#[trigger] rows@[k]).0 == all.take(i as int).filter(keep)[k].id
                        && rows@[k].1@ == all.take(i as int).filter(keep)[k].name && rows@[k].2 == all.take(
                        i as int,
                    ).filter(keep)[k].namespace,
            decreases self.tags.len() - i,
        {
            proof {
                lemma_filter_step(all, i as int, keep);
                assert(all[i as int] == self.tags@[i as int]@);
            }
            if self.tags[i].count >= HIGH_VALUE_COUNT {
                rows.push((self.tags[i].id, self.tags[i].name.clone(), self.tags[i].namespace));
            }
            i += 1;
        }
        assert(all.take(i as int) =~= all);
        assert(Seq::new(rows@.len(), |i: int| (rows@[i].0, rows@[i].1@, rows@[i].2)) =~= indexed_tags(all));
        rows
    }

    /// Lets the plugins know of new tags from now on.
    pub fn set_plugin_manager(&mut self, plugin_manager_add: PluginManager)
        ensures
            final(self)@ == (DbState { regex_tags: Some(plugin_manager_add@), ..old(self)@ }),
    {
        self.plugin_manager = Some(plugin_manager_add);
    }

    /// The changes of a file or of a tag. None are kept.
    pub fn audit_get_sync(&self, _file_id: &Option<u64>, _tag_id: &Option<u64>) -> (entries: Vec<AuditLogEntry>)
        ensures
            entries@.len() == 0,
    {
        Vec::new()
    }
}

impl DbState {
    /// Whether a relationship is taken over from the one table: its tag is in a namespace that exists.
    pub open spec fn migrates(self, r: (u64, u64)) -> bool {
        match tag_namespace(self.tags, r.1) {
            Some(namespace) => pos(namespace_ids(self.namespaces), namespace) < self.namespaces.len(),
            None => false,
        }
    }
}

} // verus!
