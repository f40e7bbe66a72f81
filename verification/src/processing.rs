//! What scrapers bring: files with their digests and tags, and further jobs.
use crate::coherence::{added_relationships_are_there, removed_relationships_are_gone};
use crate::consistency::{
    adding_files_keeps_consistency, lemma_entry_digests_ok, lemma_plugin_tags_storage,
    removing_relationships_keeps_consistency,
};
use crate::database::{DbState, MainDatabase};
use crate::file::{file_id_of, files_keep_their_ids, files_upserted};
use crate::parents::tag_exists;
use crate::relationship::{file_exists, holds_relationship, lemma_counted_down};
use crate::rows::{file_hashes, file_ids, find_file, tag_ids, tag_keys};
use crate::tag::{added_tags_have_their_ids, all_plugin_tags};
use crate::text::{lemma_pos, lemma_push_contains, pos, pos_from, text_is, views};
use crate::types::{
    ActionView, DigestView, FileInternal, FileManager, FileTagAction, FileView, HashesSupported, ManagerView,
    PluginTag, PluginTagView, ScraperDataReturn, Tag, TagOperation, TagView, hashessupportedtokey,
};
use vstd::prelude::*;

verus! {

broadcast use vstd::std_specs::hash::group_hash_axioms;

/// How many files are written in one go.
pub const PROCESS_CHUNK_SIZE: usize = 100;

/// A file that a scraper brings, and what is to be done with its tags.
#[derive(Debug, Clone)]
pub struct ScrapedFile {
    pub manager: FileManager,
    pub actions: Vec<FileTagAction>,
}

/// The view of a [`ScrapedFile`].
pub struct ScrapedView {
    pub manager: ManagerView,
    pub actions: Seq<ActionView>,
}

impl View for ScrapedFile {
    type V = ScrapedView;

    open spec fn view(&self) -> ScrapedView {
        ScrapedView { manager: self.manager@, actions: views(self.actions@) }
    }
}

/// The files of some entries.
pub open spec fn scraped_files(entries: Seq<ScrapedView>) -> Seq<FileView> {
    Seq::new(entries.len(), |i: int| entries[i].manager.internal)
}

/// The tags of some entries, in order.
pub open spec fn scraped_tags(entries: Seq<ScrapedView>) -> Seq<PluginTagView>
    decreases entries.len(),
{
    if entries.len() == 0 {
        Seq::empty()
    } else {
        scraped_tags(entries.drop_last()) + all_plugin_tags(entries.last().actions)
    }
}

/// Whether the tags of a namespace can be replaced: those of source URLs, and of the namespace without
/// a name, are kept.
pub open spec fn replaceable(namespace: Seq<char>) -> bool {
    namespace.len() > 0 && namespace != "source_url"@
}

/// Whether an action has an effect for one of its tags.
pub open spec fn effective(operation: TagOperation, tag: PluginTagView) -> bool {
    &&& tag.tag_type.stored()
    &&& tag.tag.name.len() > 0
    &&& operation is Replace ==> replaceable(tag.tag.namespace.name)
}

/// The tags of a list that gives each its id.
pub open spec fn tags_among(ids: Seq<(TagView, u64)>) -> Seq<TagView> {
    Seq::new(ids.len(), |i: int| ids[i].0)
}

/// The id that a list gives a tag; the tag must be in it with the same form of its namespace.
pub open spec fn id_among(ids: Seq<(TagView, u64)>, tag: TagView) -> Option<u64> {
    let at = pos(tags_among(ids), tag);
    if at < ids.len() {
        Some(ids[at].1)
    } else {
        None
    }
}

/// The tags that an action has an effect for.
pub open spec fn action_tags(action: ActionView, ids: Seq<(TagView, u64)>) -> Set<u64> {
    Set::new(
        |t: u64|
            exists|i: int|
                0 <= i < action.tags.len() && effective(action.operation, #[trigger] action.tags[i]) && id_among(
                    ids,
                    action.tags[i].tag,
                ) == Some(t),
    )
}

/// Whether one of the actions with an operation has an effect for a tag.
pub open spec fn acted_on(actions: Seq<ActionView>, ids: Seq<(TagView, u64)>, operation: TagOperation, tag_id: u64) -> bool {
    exists|i: int|
        0 <= i < actions.len() && (#[trigger] actions[i]).operation == operation && action_tags(actions[i], ids).contains(
            tag_id,
        )
}

/// Whether a replacing action names a tag of this namespace that is among `ids`.
pub open spec fn targets(action: ActionView, ids: Seq<(TagView, u64)>, namespace: Seq<char>) -> bool {
    exists|i: int|
        0 <= i < action.tags.len() && effective(action.operation, #[trigger] action.tags[i]) && id_among(
            ids,
            action.tags[i].tag,
        ) is Some && action.tags[i].tag.namespace.name == namespace
}

/// Whether an action replaces a tag: it names other tags of the same namespace, and not this one.
pub open spec fn replaces(action: ActionView, ids: Seq<(TagView, u64)>, tag_id: u64) -> bool {
    &&& action.operation is Replace
    &&& !action_tags(action, ids).contains(tag_id)
    &&& exists|k: int|
        0 <= k < ids.len() && (#[trigger] ids[k]).1 == tag_id && targets(action, ids, ids[k].0.namespace.name)
}

/// Whether one of the actions replaces a tag.
pub open spec fn replaced(actions: Seq<ActionView>, ids: Seq<(TagView, u64)>, tag_id: u64) -> bool {
    exists|i: int| 0 <= i < actions.len() && replaces(#[trigger] actions[i], ids, tag_id)
}

/// Whether the actions of an entry give a tag to its file.
pub open spec fn entry_adds(entry: ScrapedView, ids: Seq<(TagView, u64)>, tag_id: u64) -> bool {
    acted_on(entry.actions, ids, TagOperation::Add, tag_id) || acted_on(
        entry.actions,
        ids,
        TagOperation::Replace,
        tag_id,
    )
}

impl DbState {
    /// The state after the digests of a file have been recorded, one after the other.
    pub open spec fn with_digests(self, file_id: u64, digests: Seq<DigestView>) -> DbState
        decreases digests.len(),
    {
        if digests.len() == 0 {
            self
        } else {
            self.with_digests(file_id, digests.drop_last()).with_digest(
                file_id,
                digests.last().algorithm,
                digests.last().digest,
            )
        }
    }

    /// The state after the digests of the files of some entries have been recorded.
    pub open spec fn with_entry_digests(self, entries: Seq<ScrapedView>) -> DbState
        decreases entries.len(),
    {
        if entries.len() == 0 {
            self
        } else {
            self.with_entry_digests(entries.drop_last()).with_digests(
                file_id_of(self.files, entries.last().manager.internal.hash)->0,
                entries.last().manager.identifying_hashes,
            )
        }
    }

    /// Whether the actions of an entry take a tag from its file: they say so, or they replace a tag that
    /// the file has and do not add it.
    ///
    /// Of the tags that the file has, those can be replaced that are among `ids`.
    pub open spec fn entry_removes(self, entry: ScrapedView, ids: Seq<(TagView, u64)>, tag_id: u64) -> bool {
        ||| acted_on(entry.actions, ids, TagOperation::Del, tag_id)
        ||| {
            &&& self.tags_of_file(file_id_of(self.files, entry.manager.internal.hash)->0).contains(tag_id)
            &&& replaced(entry.actions, ids, tag_id)
            &&& !acted_on(entry.actions, ids, TagOperation::Add, tag_id)
        }
    }

    /// Whether one of some entries removes a relationship.
    pub open spec fn removed_by(self, entries: Seq<ScrapedView>, ids: Seq<(TagView, u64)>, r: (u64, u64)) -> bool {
        exists|i: int|
            0 <= i < entries.len() && file_id_of(self.files, (#[trigger] entries[i]).manager.internal.hash) == Some(r.0)
                && self.entry_removes(entries[i], ids, r.1)
    }

    /// Whether one of some entries adds a relationship.
    pub open spec fn added_by(self, entries: Seq<ScrapedView>, ids: Seq<(TagView, u64)>, r: (u64, u64)) -> bool {
        exists|i: int|
            0 <= i < entries.len() && file_id_of(self.files, (#[trigger] entries[i]).manager.internal.hash) == Some(r.0)
                && entry_adds(entries[i], ids, r.1)
    }

    /// The relationships that some entries remove.
    pub open spec fn removals(self, entries: Seq<ScrapedView>, ids: Seq<(TagView, u64)>) -> Set<(u64, u64)> {
        Set::new(|r: (u64, u64)| self.removed_by(entries, ids, r))
    }

    /// The relationships that some entries add, but for those that one of them removes.
    pub open spec fn additions(self, entries: Seq<ScrapedView>, ids: Seq<(TagView, u64)>) -> Set<(u64, u64)> {
        Set::new(|r: (u64, u64)| self.added_by(entries, ids, r) && !self.removed_by(entries, ids, r))
    }

    /// The state after the files, the digests and the tags of some entries have been added.
    pub open spec fn with_entries_known(self, entries: Seq<ScrapedView>) -> DbState {
        let filed = DbState { files: files_upserted(self.files, scraped_files(entries)), ..self };
        filed.with_entry_digests(entries).with_plugin_tags(scraped_tags(entries))
    }

    /// The tags of some entries, with their ids.
    pub open spec fn entry_tag_ids(self, entries: Seq<ScrapedView>) -> Seq<(TagView, u64)> {
        let filed = DbState { files: files_upserted(self.files, scraped_files(entries)), ..self };
        filed.with_entry_digests(entries).plugin_tag_ids(scraped_tags(entries))
    }

    /// The state after relationships have been removed, and others added.
    pub open spec fn with_changes(self, removed: Seq<(u64, u64)>, added: Seq<(u64, u64)>) -> DbState {
        let without = self.without_relationships(removed);
        if added.len() == 0 {
            without
        } else {
            without.with_relationships(added)
        }
    }
}

/// Whether `list` holds exactly the relationships of `set`, each once.
pub open spec fn lists(list: Seq<(u64, u64)>, set: Set<(u64, u64)>) -> bool {
    list.no_duplicates() && list.to_set() == set
}

/// Whether processing some entries leads from one state to another.
///
/// The order in which the relationships are written is left open.
pub open spec fn entries_processed(before: DbState, entries: Seq<ScrapedView>, after: DbState) -> bool {
    if entries.len() == 0 {
        after == before
    } else {
        let known = before.with_entries_known(entries);
        let ids = before.entry_tag_ids(entries);
        exists|removed: Seq<(u64, u64)>, added: Seq<(u64, u64)>|
            lists(removed, known.removals(entries, ids)) && lists(added, known.additions(entries, ids)) && after
                == #[trigger] known.with_changes(removed, added)
    }
}

/// The `n`th part of some entries that is written in one go.
pub open spec fn entry_chunk(entries: Seq<ScrapedView>, n: int) -> Seq<ScrapedView> {
    let from = n * PROCESS_CHUNK_SIZE;
    let to = from + PROCESS_CHUNK_SIZE;
    entries.subrange(
        from,
        if to < entries.len() {
            to
        } else {
            entries.len() as int
        },
    )
}

/// Whether one state follows another when a part of the entries is written. After that, memory is
/// brought up to date where it is marked for that.
pub open spec fn part_processed(before: DbState, part: Seq<ScrapedView>, after: DbState) -> bool {
    exists|written: DbState| #[trigger] entries_processed(before, part, written) && after == written.refreshed()
}

/// Whether each state follows the one before it when the parts of some entries are written.
pub open spec fn parts_follow(states: Seq<DbState>, entries: Seq<ScrapedView>) -> bool {
    forall|n: int|
        0 <= n < states.len() - 1 ==> part_processed(#[trigger] states[n], entry_chunk(entries, n), states[n + 1])
}

/// Whether some states are those that come up when all parts of some entries are written.
pub open spec fn processed_in_parts(states: Seq<DbState>, entries: Seq<ScrapedView>) -> bool {
    &&& states.len() == (entries.len() + PROCESS_CHUNK_SIZE - 1) / PROCESS_CHUNK_SIZE as int + 1
    &&& parts_follow(states, entries)
}

fn push_relationship(list: &mut Vec<(u64, u64)>, file_id: u64, tag_id: u64)
    requires
        old(list)@.no_duplicates(),
    ensures
        final(list)@.no_duplicates(),
        forall|r: (u64, u64)| #[trigger] final(list)@.contains(r) <==> old(list)@.contains(r) || r == (file_id, tag_id),
{
    proof {
        lemma_push_contains(list@, (file_id, tag_id));
    }
    if !holds_relationship(list, file_id, tag_id) {
        list.push((file_id, tag_id));
    }
}

fn push_tag(list: &mut Vec<u64>, tag_id: u64)
    ensures
        forall|t: u64| #[trigger] final(list)@.contains(t) <==> old(list)@.contains(t) || t == tag_id,
{
    proof {
        lemma_push_contains(list@, tag_id);
    }
    list.push(tag_id);
}

fn is_replaceable(namespace: &String) -> (replaceable: bool)
    ensures
        replaceable == self::replaceable(namespace@),
{
    !namespace.as_str().is_empty() && !text_is(namespace, "source_url")
}

fn is_effective(operation: TagOperation, tag: &PluginTag) -> (is: bool)
    ensures
        is == effective(operation, tag@),
{
    let replacing = match operation {
        TagOperation::Replace => true,
        _ => false,
    };
    tag.tag_type.is_stored() && !tag.tag.name.as_str().is_empty() && (!replacing || is_replaceable(
        &tag.tag.namespace.name,
    ))
}

/// The id that a list gives a tag.
fn find_id_among(ids: &Vec<(Tag, u64)>, tag: &Tag) -> (id: Option<u64>)
    ensures
        id == id_among(views(ids@), tag@),
{
    let ghost keys = tags_among(views(ids@));
    let mut i: usize = 0;
    while i < ids.len()
        invariant
            i <= ids.len(),
            keys == tags_among(views(ids@)),
            pos(keys, tag@) == pos_from(keys, tag@, i as int),
        decreases ids.len() - i,
    {
        assert(views(ids@)[i as int] == ids@[i as int]@);
        if ids[i].0.same(tag) {
            return Some(ids[i].1);
        }
        i += 1;
    }
    None
}

fn action_targets(action: &FileTagAction, ids: &Vec<(Tag, u64)>, namespace: &String) -> (found: bool)
    ensures
        found == targets(action@, views(ids@), namespace@),
{
    let mut i: usize = 0;
    while i < action.tags.len()
        invariant
            i <= action.tags.len(),
            forall|k: int|
                0 <= k < i ==> !(effective(action.operation, #[trigger] action@.tags[k]) && id_among(
                    views(ids@),
                    action@.tags[k].tag,
                ) is Some && action@.tags[k].tag.namespace.name == namespace@),
        decreases action.tags.len() - i,
    {
        let tag = &action.tags[i];
        assert(action@.tags[i as int] == tag@);
        if is_effective(action.operation, tag) && tag.tag.namespace.name == *namespace && find_id_among(
            ids,
            &tag.tag,
        ).is_some() {
            return true;
        }
        i += 1;
    }
    false
}

/// The tags that an action has an effect for.
fn tags_acted_on(action: &FileTagAction, ids: &Vec<(Tag, u64)>) -> (tags: Vec<u64>)
    ensures
        forall|t: u64| #[trigger] tags@.contains(t) <==> action_tags(action@, views(ids@)).contains(t),
{
    let ghost all = views(ids@);
    let mut tags: Vec<u64> = Vec::new();
    let mut i: usize = 0;
    while i < action.tags.len()
        invariant
            i <= action.tags.len(),
            all == views(ids@),
            forall|t: u64| #[trigger]
                tags@.contains(t) <==> exists|k: int|
                    0 <= k < i && effective(action.operation, #[trigger] action@.tags[k]) && id_among(
                        all,
                        action@.tags[k].tag,
                    ) == Some(t),
        decreases action.tags.len() - i,
    {
        let ghost before = tags@;
        assert(action@.tags[i as int] == action.tags@[i as int]@);
        if is_effective(action.operation, &action.tags[i]) {
            if let Some(id) = find_id_among(ids, &action.tags[i].tag) {
                push_tag(&mut tags, id);
            }
        }
        assert forall|t: u64| #[trigger] tags@.contains(t) <==> exists|k: int|
            0 <= k < i + 1 && effective(action.operation, #[trigger] action@.tags[k]) && id_among(
                all,
                action@.tags[k].tag,
            ) == Some(t) by {
            if before.contains(t) {
                let k = choose|k: int|
                    0 <= k < i && effective(action.operation, #[trigger] action@.tags[k]) && id_among(
                        all,
                        action@.tags[k].tag,
                    ) == Some(t);
                assert(effective(action.operation, action@.tags[k]));
            }
            if tags@.contains(t) && !before.contains(t) {
                assert(effective(action.operation, action@.tags[i as int]));
            }
        }
        i += 1;
    }
    tags
}

/// The tags among `ids` that an action replaces.
fn tags_replaced(action: &FileTagAction, ids: &Vec<(Tag, u64)>) -> (tags: Vec<u64>)
    ensures
        forall|t: u64| #[trigger] tags@.contains(t) <==> replaces(action@, views(ids@), t),
{
    let mut tags: Vec<u64> = Vec::new();
    match action.operation {
        TagOperation::Replace => {},
        _ => {
            return tags;
        },
    }
    let ghost all = views(ids@);
    let named = tags_acted_on(action, ids);
    let mut i: usize = 0;
    while i < ids.len()
        invariant
            i <= ids.len(),
            all == views(ids@),
            action.operation is Replace,
            forall|t: u64| #[trigger] named@.contains(t) <==> action_tags(action@, all).contains(t),
            forall|t: u64| #[trigger]
                tags@.contains(t) <==> !action_tags(action@, all).contains(t) && exists|k: int|
                    0 <= k < i && (#[trigger] all[k]).1 == t && targets(action@, all, all[k].0.namespace.name),
        decreases ids.len() - i,
    {
        let ghost before = tags@;
        let id: u64 = ids[i].1;
        assert(all[i as int] == ids@[i as int]@);
        let hit = action_targets(action, ids, &ids[i].0.namespace.name) && !crate::relationship::holds_number(
            &named,
            id,
        );
        if hit {
            push_tag(&mut tags, id);
        }
        assert forall|t: u64| #[trigger] tags@.contains(t) <==> !action_tags(action@, all).contains(t) && exists|k: int|
            0 <= k < i + 1 && (#[trigger] all[k]).1 == t && targets(action@, all, all[k].0.namespace.name) by {
            if before.contains(t) {
                let k = choose|k: int|
                    0 <= k < i && (#[trigger] all[k]).1 == t && targets(action@, all, all[k].0.namespace.name);
                assert(all[k].1 == t);
            }
            if tags@.contains(t) && !before.contains(t) {
                assert(all[i as int].1 == t);
            }
        }
        i += 1;
    }
    tags
}

/// Collects what the actions of an entry do, tag by tag: those it adds or sets, those it adds, those
/// it takes away, and those it replaces.
fn sort_actions(actions: &Vec<FileTagAction>, ids: &Vec<(Tag, u64)>) -> (sorted: (
    Vec<u64>,
    Vec<u64>,
    Vec<u64>,
    Vec<u64>,
))
    ensures
        forall|t: u64| #[trigger]
            sorted.0@.contains(t) <==> acted_on(views(actions@), views(ids@), TagOperation::Replace, t),
        forall|t: u64| #[trigger] sorted.1@.contains(t) <==> acted_on(views(actions@), views(ids@), TagOperation::Add, t),
        forall|t: u64| #[trigger] sorted.2@.contains(t) <==> acted_on(views(actions@), views(ids@), TagOperation::Del, t),
        forall|t: u64| #[trigger] sorted.3@.contains(t) <==> replaced(views(actions@), views(ids@), t),
{
    let ghost all = views(actions@);
    let mut set: Vec<u64> = Vec::new();
    let mut added: Vec<u64> = Vec::new();
    let mut taken: Vec<u64> = Vec::new();
    let mut gone: Vec<u64> = Vec::new();
    let mut i: usize = 0;
    assert(all.take(0) =~= Seq::<ActionView>::empty());
    while i < actions.len()
        invariant
            i <= actions.len(),
            all == views(actions@),
            forall|t: u64| #[trigger]
                set@.contains(t) <==> acted_on(all.take(i as int), views(ids@), TagOperation::Replace, t),
            forall|t: u64| #[trigger]
                added@.contains(t) <==> acted_on(all.take(i as int), views(ids@), TagOperation::Add, t),
            forall|t: u64| #[trigger]
                taken@.contains(t) <==> acted_on(all.take(i as int), views(ids@), TagOperation::Del, t),
            forall|t: u64| #[trigger] gone@.contains(t) <==> replaced(all.take(i as int), views(ids@), t),
        decreases actions.len() - i,
    {
        let action = &actions[i];
        let tags = tags_acted_on(action, ids);
        let out = tags_replaced(action, ids);
        proof {
            lemma_actions_step(all, views(ids@), i as int);
            assert(all[i as int] == action@);
        }
        match action.operation {
            TagOperation::Add => {
                append(&mut added, &tags);
            },
            TagOperation::Replace => {
                append(&mut set, &tags);
            },
            TagOperation::Del => {
                append(&mut taken, &tags);
            },
        }
        append(&mut gone, &out);
        i += 1;
    }
    assert(all.take(i as int) =~= all);
    (set, added, taken, gone)
}

fn append(list: &mut Vec<u64>, more: &Vec<u64>)
    ensures
        forall|t: u64| #[trigger] final(list)@.contains(t) <==> old(list)@.contains(t) || more@.contains(t),
{
    let ghost before = list@;
    let mut i: usize = 0;
    while i < more.len()
        invariant
            i <= more.len(),
            forall|t: u64| #[trigger] list@.contains(t) <==> before.contains(t) || more@.take(i as int).contains(t),
        decreases more.len() - i,
    {
        proof {
            assert(more@.take(i + 1) =~= more@.take(i as int).push(more@[i as int]));
            lemma_push_contains(more@.take(i as int), more@[i as int]);
        }
        push_tag(list, more[i]);
        i += 1;
    }
    assert(more@.take(i as int) =~= more@);
}

proof fn lemma_actions_step(all: Seq<ActionView>, ids: Seq<(TagView, u64)>, i: int)
    requires
        0 <= i < all.len(),
    ensures
        forall|op: TagOperation, t: u64| #[trigger]
            acted_on(all.take(i + 1), ids, op, t) <==> acted_on(all.take(i), ids, op, t) || (all[i].operation == op
                && action_tags(all[i], ids).contains(t)),
        forall|t: u64| #[trigger]
            replaced(all.take(i + 1), ids, t) <==> replaced(all.take(i), ids, t) || replaces(
                all[i],
                ids,
                t,
            ),
{
    let short = all.take(i);
    let long = all.take(i + 1);
    assert forall|op: TagOperation, t: u64| #[trigger] acted_on(long, ids, op, t) <==> acted_on(short, ids, op, t) || (
    all[i].operation == op && action_tags(all[i], ids).contains(t)) by {
        if acted_on(short, ids, op, t) {
            let k = choose|k: int|
                0 <= k < short.len() && (#[trigger] short[k]).operation == op && action_tags(short[k], ids).contains(t);
            assert(long[k] == short[k]);
        }
        if all[i].operation == op && action_tags(all[i], ids).contains(t) {
            assert(long[i] == all[i]);
        }
        if acted_on(long, ids, op, t) {
            let k = choose|k: int|
                0 <= k < long.len() && (#[trigger] long[k]).operation == op && action_tags(long[k], ids).contains(t);
            if k < i {
                assert(short[k] == long[k]);
            }
        }
    }
    assert forall|t: u64| #[trigger] replaced(long, ids, t) <==> replaced(short, ids, t) || replaces(
        all[i],
        ids,
        t,
    ) by {
        if replaced(short, ids, t) {
            let k = choose|k: int| 0 <= k < short.len() && replaces(#[trigger] short[k], ids, t);
            assert(long[k] == short[k]);
        }
        if replaces(all[i], ids, t) {
            assert(long[i] == all[i]);
        }
        if replaced(long, ids, t) {
            let k = choose|k: int| 0 <= k < long.len() && replaces(#[trigger] long[k], ids, t);
            if k < i {
                assert(short[k] == long[k]);
            }
        }
    }
}

proof fn lemma_entries_step(state: DbState, all: Seq<ScrapedView>, ids: Seq<(TagView, u64)>, i: int)
    requires
        0 <= i < all.len(),
    ensures
        forall|r: (u64, u64)| #[trigger]
            state.removed_by(all.take(i + 1), ids, r) <==> state.removed_by(all.take(i), ids, r) || (file_id_of(
                state.files,
                all[i].manager.internal.hash,
            ) == Some(r.0) && state.entry_removes(all[i], ids, r.1)),
        forall|r: (u64, u64)| #[trigger]
            state.added_by(all.take(i + 1), ids, r) <==> state.added_by(all.take(i), ids, r) || (file_id_of(
                state.files,
                all[i].manager.internal.hash,
            ) == Some(r.0) && entry_adds(all[i], ids, r.1)),
{
    let short = all.take(i);
    let long = all.take(i + 1);
    assert forall|r: (u64, u64)| #[trigger] state.removed_by(long, ids, r) <==> state.removed_by(short, ids, r) || (
    file_id_of(state.files, all[i].manager.internal.hash) == Some(r.0) && state.entry_removes(all[i], ids, r.1)) by {
        if state.removed_by(short, ids, r) {
            let k = choose|k: int|
                0 <= k < short.len() && file_id_of(state.files, (#[trigger] short[k]).manager.internal.hash) == Some(r.0)
                    && state.entry_removes(short[k], ids, r.1);
            assert(long[k] == short[k]);
        }
        assert(long[i] == all[i]);
        if state.removed_by(long, ids, r) {
            let k = choose|k: int|
                0 <= k < long.len() && file_id_of(state.files, (#[trigger] long[k]).manager.internal.hash) == Some(r.0)
                    && state.entry_removes(long[k], ids, r.1);
            if k < i {
                assert(short[k] == long[k]);
            }
        }
    }
    assert forall|r: (u64, u64)| #[trigger] state.added_by(long, ids, r) <==> state.added_by(short, ids, r) || (file_id_of(
        state.files,
        all[i].manager.internal.hash,
    ) == Some(r.0) && entry_adds(all[i], ids, r.1)) by {
        if state.added_by(short, ids, r) {
            let k = choose|k: int|
                0 <= k < short.len() && file_id_of(state.files, (#[trigger] short[k]).manager.internal.hash) == Some(r.0)
                    && entry_adds(short[k], ids, r.1);
            assert(long[k] == short[k]);
        }
        assert(long[i] == all[i]);
        if state.added_by(long, ids, r) {
            let k = choose|k: int|
                0 <= k < long.len() && file_id_of(state.files, (#[trigger] long[k]).manager.internal.hash) == Some(r.0)
                    && entry_adds(long[k], ids, r.1);
            if k < i {
                assert(short[k] == long[k]);
            }
        }
    }
}

/// The files of some entries.
fn files_of_entries(entries: &[ScrapedFile]) -> (files: Vec<FileInternal>)
    ensures
        views(files@) == scraped_files(views(entries@)),
{
    let ghost all = views(entries@);
    let mut files: Vec<FileInternal> = Vec::new();
    let mut i: usize = 0;
    while i < entries.len()
        invariant
            i <= entries.len(),
            all == views(entries@),
            files@.len() == i,
            forall|k: int| 0 <= k < i ==> (#[trigger] files@[k])@ == all[k].manager.internal,
        decreases entries.len() - i,
    {
        files.push(entries[i].manager.internal.copy());
        i += 1;
    }
    assert(views(files@) =~= scraped_files(all));
    files
}

/// The tags of the actions of an entry, behind those that `tags` holds.
fn push_tags_of<'a>(tags: &mut Vec<&'a PluginTag>, actions: &'a Vec<FileTagAction>)
    ensures
        views(final(tags)@) == views(old(tags)@) + all_plugin_tags(views(actions@)),
{
    let ghost all = views(actions@);
    let ghost before = views(tags@);
    let mut i: usize = 0;
    assert(all.take(0) =~= Seq::<ActionView>::empty());
    assert(before + all_plugin_tags(all.take(0)) =~= before);
    while i < actions.len()
        invariant
            i <= actions.len(),
            all == views(actions@),
            views(tags@) == before + all_plugin_tags(all.take(i as int)),
        decreases actions.len() - i,
    {
        let action = &actions[i];
        let ghost start = views(tags@);
        let mut k: usize = 0;
        assert(start + action@.tags.take(0) =~= start);
        while k < action.tags.len()
            invariant
                k <= action.tags.len(),
                views(tags@) == start + action@.tags.take(k as int),
            decreases action.tags.len() - k,
        {
            let ghost held = tags@;
            tags.push(&action.tags[k]);
            proof {
                assert(action@.tags[k as int] == action.tags@[k as int]@);
                assert(action@.tags.take(k + 1) =~= action@.tags.take(k as int).push(action@.tags[k as int]));
                assert(views(tags@) =~= views(held).push(action.tags@[k as int]@));
                assert(views(tags@) =~= start + action@.tags.take(k + 1));
            }
            k += 1;
        }
        proof {
            assert(action@.tags.take(k as int) =~= action@.tags);
            assert(all.take(i + 1).drop_last() =~= all.take(i as int));
            assert(all.take(i + 1).last() == action@);
            assert(views(tags@) =~= before + all_plugin_tags(all.take(i + 1)));
        }
        i += 1;
    }
    assert(all.take(i as int) =~= all);
}

/// The tags of some entries, in order.
fn tags_of_entries(entries: &[ScrapedFile]) -> (tags: Vec<&PluginTag>)
    ensures
        views(tags@) == scraped_tags(views(entries@)),
{
    let ghost all = views(entries@);
    let mut tags: Vec<&PluginTag> = Vec::new();
    let mut i: usize = 0;
    assert(all.take(0) =~= Seq::<ScrapedView>::empty());
    assert(views(tags@) =~= scraped_tags(all.take(0)));
    while i < entries.len()
        invariant
            i <= entries.len(),
            all == views(entries@),
            views(tags@) == scraped_tags(all.take(i as int)),
        decreases entries.len() - i,
    {
        push_tags_of(&mut tags, &entries[i].actions);
        proof {
            assert(all.take(i + 1).drop_last() =~= all.take(i as int));
            assert(all.take(i + 1).last() == entries@[i as int]@);
        }
        i += 1;
    }
    assert(all.take(i as int) =~= all);
    tags
}

/// Takes the relationships out of a list that another list holds.
fn take_out(list: &Vec<(u64, u64)>, others: &Vec<(u64, u64)>) -> (rest: Vec<(u64, u64)>)
    ensures
        rest@.no_duplicates(),
        forall|r: (u64, u64)| #[trigger] rest@.contains(r) <==> list@.contains(r) && !others@.contains(r),
{
    let mut rest: Vec<(u64, u64)> = Vec::new();
    let mut i: usize = 0;
    while i < list.len()
        invariant
            i <= list.len(),
            rest@.no_duplicates(),
            forall|r: (u64, u64)| #[trigger]
                rest@.contains(r) <==> list@.take(i as int).contains(r) && !others@.contains(r),
        decreases list.len() - i,
    {
        proof {
            assert(list@.take(i + 1) =~= list@.take(i as int).push(list@[i as int]));
            lemma_push_contains(list@.take(i as int), list@[i as int]);
        }
        let (file_id, tag_id) = list[i];
        if !holds_relationship(others, file_id, tag_id) {
            push_relationship(&mut rest, file_id, tag_id);
        }
        i += 1;
    }
    assert(list@.take(i as int) =~= list@);
    rest
}

/// Adds a relationship of a file with each of some tags to a list.
fn push_relationships(list: &mut Vec<(u64, u64)>, file_id: u64, tags: &Vec<u64>)
    requires
        old(list)@.no_duplicates(),
    ensures
        final(list)@.no_duplicates(),
        forall|r: (u64, u64)| #[trigger]
            final(list)@.contains(r) <==> old(list)@.contains(r) || (r.0 == file_id && tags@.contains(r.1)),
{
    let ghost before = list@;
    let mut i: usize = 0;
    while i < tags.len()
        invariant
            i <= tags.len(),
            list@.no_duplicates(),
            forall|r: (u64, u64)| #[trigger]
                list@.contains(r) <==> before.contains(r) || (r.0 == file_id && tags@.take(i as int).contains(r.1)),
        decreases tags.len() - i,
    {
        proof {
            assert(tags@.take(i + 1) =~= tags@.take(i as int).push(tags@[i as int]));
            lemma_push_contains(tags@.take(i as int), tags@[i as int]);
        }
        push_relationship(list, file_id, tags[i]);
        i += 1;
    }
    assert(tags@.take(i as int) =~= tags@);
}

impl MainDatabase {
    /// Records digests of a file, one after the other.
    fn add_digests(&mut self, file_id: u64, digests: &Vec<HashesSupported>)
        ensures
            final(self)@ == old(self)@.with_digests(file_id, views(digests@)),
            final(self)@.files == old(self)@.files,
    {
        let ghost start = self@;
        let ghost all = views(digests@);
        let mut i: usize = 0;
        assert(all.take(0) =~= Seq::<DigestView>::empty());
        while i < digests.len()
            invariant
                i <= digests.len(),
                all == views(digests@),
                self@ == start.with_digests(file_id, all.take(i as int)),
                self@.files == start.files,
            decreases digests.len() - i,
        {
            proof {
                assert(all.take(i + 1).drop_last() =~= all.take(i as int));
                assert(all.take(i + 1).last() == digests@[i as int]@);
            }
            let (algorithm, digest) = hashessupportedtokey(&digests[i]);
            let _ = self.internal_file_hash_add(&algorithm, &digest, &file_id);
            i += 1;
        }
        assert(all.take(i as int) =~= all);
    }

    /// Records the digests of the files of some entries.
    fn add_entry_digests(&mut self, entries: &[ScrapedFile])
        requires
            forall|i: int|
                0 <= i < entries@.len() ==> file_id_of(
                    old(self)@.files,
                    (#[trigger] entries@[i]).manager.internal.hash@,
                ) is Some,
        ensures
            final(self)@ == old(self)@.with_entry_digests(views(entries@)),
    {
        let ghost start = self@;
        let ghost all = views(entries@);
        let mut i: usize = 0;
        assert(all.take(0) =~= Seq::<ScrapedView>::empty());
        while i < entries.len()
            invariant
                i <= entries.len(),
                all == views(entries@),
                self@ == start.with_entry_digests(all.take(i as int)),
                self@.files == start.files,
                forall|k: int|
                    0 <= k < entries@.len() ==> file_id_of(
                        start.files,
                        (#[trigger] entries@[k]).manager.internal.hash@,
                    ) is Some,
            decreases entries.len() - i,
        {
            let entry = &entries[i];
            proof {
                assert(all.take(i + 1).drop_last() =~= all.take(i as int));
                assert(all.take(i + 1).last() == entry@);
                assert(file_id_of(start.files, entries@[i as int].manager.internal.hash@) is Some);
            }
            let at: usize = find_file(&self.files, &entry.manager.internal.hash);
            let file_id: u64 = self.files[at].id;
            self.add_digests(file_id, &entry.manager.identifying_hashes);
            i += 1;
        }
        assert(all.take(i as int) =~= all);
    }

    /// What an entry removes from its file, and what it adds to it.
    fn changes_of_entry(&self, file_id: u64, entry: &ScrapedFile, ids: &Vec<(Tag, u64)>) -> (changes: (
        Vec<u64>,
        Vec<u64>,
    ))
        requires
            file_id_of(self@.files, entry@.manager.internal.hash) == Some(file_id),
        ensures
            forall|t: u64| #[trigger] changes.0@.contains(t) <==> self@.entry_removes(entry@, views(ids@), t),
            forall|t: u64| #[trigger] changes.1@.contains(t) <==> entry_adds(entry@, views(ids@), t),
    {
        let current = self.internal_file_id_get_tag_ids(&file_id);
        let (set, mut added, taken, gone) = sort_actions(&entry.actions, ids);
        let mut removed: Vec<u64> = Vec::new();
        append(&mut removed, &taken);
        let mut i: usize = 0;
        while i < gone.len()
            invariant
                i <= gone.len(),
                forall|t: u64| #[trigger]
                    removed@.contains(t) <==> taken@.contains(t) || (gone@.take(i as int).contains(t)
                        && current@.contains(t) && !added@.contains(t)),
            decreases gone.len() - i,
        {
            let tag_id: u64 = gone[i];
            proof {
                assert(gone@.take(i + 1) =~= gone@.take(i as int).push(tag_id));
                lemma_push_contains(gone@.take(i as int), tag_id);
            }
            if current.contains(&tag_id) && !crate::relationship::holds_number(&added, tag_id) {
                push_tag(&mut removed, tag_id);
            }
            i += 1;
        }
        assert(gone@.take(i as int) =~= gone@);
        append(&mut added, &set);
        (removed, added)
    }

    /// The relationships that some entries remove, and those that they add.
    fn changes_of_entries(&self, entries: &[ScrapedFile], ids: &Vec<(Tag, u64)>) -> (changes: (
        Vec<(u64, u64)>,
        Vec<(u64, u64)>,
    ))
        ensures
            lists(changes.0@, self@.removals(views(entries@), views(ids@))),
            lists(changes.1@, self@.additions(views(entries@), views(ids@))),
    {
        let ghost all = views(entries@);
        let mut removed: Vec<(u64, u64)> = Vec::new();
        let mut wanted: Vec<(u64, u64)> = Vec::new();
        let mut i: usize = 0;
        assert(all.take(0) =~= Seq::<ScrapedView>::empty());
        while i < entries.len()
            invariant
                i <= entries.len(),
                all == views(entries@),
                removed@.no_duplicates(),
                wanted@.no_duplicates(),
                forall|r: (u64, u64)| #[trigger]
                    removed@.contains(r) <==> self@.removed_by(all.take(i as int), views(ids@), r),
                forall|r: (u64, u64)| #[trigger] wanted@.contains(r) <==> self@.added_by(all.take(i as int), views(ids@), r),
            decreases entries.len() - i,
        {
            let entry = &entries[i];
            proof {
                lemma_entries_step(self@, all, views(ids@), i as int);
                assert(all[i as int] == entry@);
            }
            let at: usize = find_file(&self.files, &entry.manager.internal.hash);
            if at < self.files.len() {
                let file_id: u64 = self.files[at].id;
                let (gone, added) = self.changes_of_entry(file_id, entry, ids);
                push_relationships(&mut removed, file_id, &gone);
                push_relationships(&mut wanted, file_id, &added);
            }
            i += 1;
        }
        assert(all.take(i as int) =~= all);
        let added = take_out(&wanted, &removed);
        proof {
            assert(removed@.to_set() =~= self@.removals(all, views(ids@)));
            assert(added@.to_set() =~= self@.additions(all, views(ids@)));
        }
        (removed, added)
    }

    /// Writes some scraped files in one go: the files, their digests, their tags and what is done
    /// with those.
    ///
    /// What an action removes is never added, whatever another says; what is added is not replaced. No log
    /// of changes is kept, so that the reason goes nowhere.
    pub fn process_scraper_chunk(&mut self, entries: &[ScrapedFile], _audit_reason: &str)
        ensures
            entries_processed(old(self)@, views(entries@), final(self)@),
    {
        if entries.len() == 0 {
            return;
        }
        let ghost start = self@;
        let ghost all = views(entries@);
        let files = files_of_entries(entries);
        let _ = self.internal_file_bulk_add(&files);
        proof {
            files_keep_their_ids(start.files, scraped_files(all));
            assert forall|i: int| 0 <= i < entries@.len() implies file_id_of(
                self@.files,
                (#[trigger] entries@[i]).manager.internal.hash@,
            ) is Some by {
                assert(scraped_files(all)[i].hash == entries@[i].manager.internal.hash@);
            }
        }
        self.add_entry_digests(entries);
        let tags = tags_of_entries(entries);
        let ids = self.add_plugin_tags(&tags);
        let ghost known = self@;
        let (removed, added) = self.changes_of_entries(entries, &ids);
        self.delete_relationship_bulk(&removed);
        self.add_relationship_bulk(&added);
        proof {
            assert(known == start.with_entries_known(all));
            assert(views(ids@) == start.entry_tag_ids(all));
            assert(self@ == known.with_changes(removed@, added@));
        }
    }

    /// Writes what a scraper brings: its jobs, then its files, part by part.
    pub fn process_scraper(&mut self, map: &Vec<ScrapedFile>, jobs: &Vec<ScraperDataReturn>, audit_reason: &str)
        ensures
            map@.len() == 0 && jobs@.len() == 0 ==> final(self)@ == old(self)@,
            map@.len() > 0 || jobs@.len() > 0 ==> exists|states: Seq<DbState>|
                #[trigger] processed_in_parts(states, views(map@)) && states[0] == old(self)@.refreshed().with_scraped_jobs(
                    jobs@,
                ) && states.last() == final(self)@,
    {
        if map.is_empty() && jobs.is_empty() {
            return;
        }
        self.refresh_roaring_memory_if_dirty();
        self.add_scraped_jobs(jobs);
        self.process_parts(map, audit_reason);
    }

    /// Writes scraped files part by part.
    fn process_parts(&mut self, map: &Vec<ScrapedFile>, audit_reason: &str)
        ensures
            exists|states: Seq<DbState>|
                #[trigger] processed_in_parts(states, views(map@)) && states[0] == old(self)@ && states.last() == final(self)@,
    {
        let ghost all = views(map@);
        let ghost mut states: Seq<DbState> = seq![self@];
        let mut from: usize = 0;
        while from < map.len()
            invariant
                from <= map.len(),
                all == views(map@),
                states.len() > 0,
                from == (states.len() - 1) * PROCESS_CHUNK_SIZE || from == map.len(),
                states.len() == (from + PROCESS_CHUNK_SIZE - 1) / PROCESS_CHUNK_SIZE as int + 1,
                states[0] == old(self)@,
                states.last() == self@,
                parts_follow(states, all),
            decreases map.len() - from,
        {
            let to: usize = if map.len() - from > PROCESS_CHUNK_SIZE {
                from + PROCESS_CHUNK_SIZE
            } else {
                map.len()
            };
            let ghost n = states.len() - 1;
            let part = vstd::slice::slice_subrange(map.as_slice(), from, to);
            assert(views(part@) =~= entry_chunk(all, n));
            self.process_part(part, audit_reason);
            proof {
                lemma_part_follows(states, all, self@);
                states = states.push(self@);
            }
            from = to;
        }
        assert(processed_in_parts(states, all));
    }

    /// Writes one part of some scraped files, and reloads memory where that is needed.
    fn process_part(&mut self, part: &[ScrapedFile], audit_reason: &str)
        ensures
            part_processed(old(self)@, views(part@), final(self)@),
    {
        self.process_scraper_chunk(part, audit_reason);
        let ghost written = self@;
        self.refresh_roaring_memory_if_dirty();
        assert(entries_processed(old(self)@, views(part@), written));
    }
}

/// One more state follows where one more part has been written.
proof fn lemma_part_follows(states: Seq<DbState>, entries: Seq<ScrapedView>, after: DbState)
    requires
        states.len() > 0,
        parts_follow(states, entries),
        part_processed(states.last(), entry_chunk(entries, states.len() - 1), after),
    ensures
        parts_follow(states.push(after), entries),
{
    let more = states.push(after);
    assert forall|n: int| 0 <= n < more.len() - 1 implies part_processed(
        #[trigger] more[n],
        entry_chunk(entries, n),
        more[n + 1],
    ) by {
        if n < states.len() - 1 {
            assert(part_processed(states[n], entry_chunk(entries, n), states[n + 1]));
        }
    }
}

/// What entries remove they do not add: removal wins over addition, in whatever order they come.
pub proof fn removed_is_not_added(state: DbState, entries: Seq<ScrapedView>, ids: Seq<(TagView, u64)>)
    ensures
        state.removals(entries, ids).disjoint(state.additions(entries, ids)),
{
}

/// Adding a tag overrides replacing it: it is only removed where an action takes it away.
pub proof fn adding_overrides_replacing(state: DbState, entry: ScrapedView, ids: Seq<(TagView, u64)>, tag_id: u64)
    requires
        acted_on(entry.actions, ids, TagOperation::Add, tag_id),
        !acted_on(entry.actions, ids, TagOperation::Del, tag_id),
    ensures
        entry_adds(entry, ids, tag_id),
        !state.entry_removes(entry, ids, tag_id),
{
}

/// Replacing leaves the tags of the namespaces alone that it does not name.
pub proof fn other_namespaces_are_kept(state: DbState, entry: ScrapedView, ids: Seq<(TagView, u64)>, tag_id: u64)
    requires
        !acted_on(entry.actions, ids, TagOperation::Del, tag_id),
        forall|k: int, i: int|
            0 <= k < ids.len() && ids[k].1 == tag_id && 0 <= i < entry.actions.len() && entry.actions[i].operation
                is Replace ==> !targets(#[trigger] entry.actions[i], ids, (#[trigger] ids[k]).0.namespace.name),
    ensures
        !state.entry_removes(entry, ids, tag_id),
{
    if replaced(entry.actions, ids, tag_id) {
        let i = choose|i: int|
            0 <= i < entry.actions.len() && replaces(#[trigger] entry.actions[i], ids, tag_id);
        let k = choose|k: int|
            0 <= k < ids.len() && (#[trigger] ids[k]).1 == tag_id && targets(
                entry.actions[i],
                ids,
                ids[k].0.namespace.name,
            );
        assert(targets(entry.actions[i], ids, ids[k].0.namespace.name));
    }
}

/// Source URLs are never replaced.
pub proof fn source_urls_are_kept(action: ActionView, ids: Seq<(TagView, u64)>)
    requires
        action.operation is Replace,
    ensures
        !targets(action, ids, "source_url"@),
{
}

/// Where no tag is taken away or replaced, nothing is removed.
pub proof fn adding_removes_nothing(state: DbState, entries: Seq<ScrapedView>, ids: Seq<(TagView, u64)>)
    requires
        forall|i: int, k: int|
            #![trigger entries[i].actions[k]]
            0 <= i < entries.len() && 0 <= k < entries[i].actions.len() ==> entries[i].actions[k].operation is Add,
    ensures
        state.removals(entries, ids) == Set::<(u64, u64)>::empty(),
{
    assert forall|r: (u64, u64)| !state.removed_by(entries, ids, r) by {
        if state.removed_by(entries, ids, r) {
            let i = choose|i: int|
                0 <= i < entries.len() && file_id_of(state.files, (#[trigger] entries[i]).manager.internal.hash) == Some(
                    r.0,
                ) && state.entry_removes(entries[i], ids, r.1);
            assert(forall|k: int|
                0 <= k < entries[i].actions.len() ==> (#[trigger] entries[i].actions[k]).operation is Add);
        }
    }
    assert(state.removals(entries, ids) =~= Set::<(u64, u64)>::empty());
}

proof fn lemma_named_tag_exists(state: DbState, tag: TagView, id: u64)
    requires
        state.tag_id(tag) == Some(id),
    ensures
        tag_exists(state.tags, id),
{
    let namespace = crate::namespace::namespace_id_of(state.namespaces, tag.namespace.name)->0;
    let keys = tag_keys(state.tags);
    lemma_pos(keys, (tag.name, namespace));
    let at = pos(keys, (tag.name, namespace));
    assert(tag_ids(state.tags)[at] == id);
    lemma_pos(tag_ids(state.tags), id);
}

/// Whether tags are found by the ids that a list gives them.
pub open spec fn ids_stand(state: DbState, ids: Seq<(TagView, u64)>) -> bool {
    forall|i: int| 0 <= i < ids.len() ==> state.tag_id((#[trigger] ids[i]).0) == Some(ids[i].1)
}

proof fn lemma_acted_on_exists(
    state: DbState,
    actions: Seq<ActionView>,
    ids: Seq<(TagView, u64)>,
    operation: TagOperation,
    tag_id: u64,
)
    requires
        ids_stand(state, ids),
        acted_on(actions, ids, operation, tag_id),
    ensures
        tag_exists(state.tags, tag_id),
{
    let i = choose|i: int|
        0 <= i < actions.len() && (#[trigger] actions[i]).operation == operation && action_tags(actions[i], ids).contains(
            tag_id,
        );
    let tags = actions[i].tags;
    let k = choose|k: int|
        0 <= k < tags.len() && effective(actions[i].operation, #[trigger] tags[k]) && id_among(ids, tags[k].tag) == Some(
            tag_id,
        );
    let at = pos(tags_among(ids), tags[k].tag);
    lemma_pos(tags_among(ids), tags[k].tag);
    assert(tags_among(ids)[at] == ids[at].0);
    lemma_named_tag_exists(state, ids[at].0, tag_id);
}

/// The file that a hash stands for exists.
pub proof fn lemma_hashed_file_exists(state: DbState, hash: Seq<char>, id: u64)
    requires
        file_id_of(state.files, hash) == Some(id),
    ensures
        file_exists(state.files, id),
{
    lemma_pos(file_hashes(state.files), Some(hash));
    let at = pos(file_hashes(state.files), Some(hash));
    assert(file_ids(state.files)[at] == id);
    lemma_pos(file_ids(state.files), id);
}

/// Writing scraped files leaves, of the relationships, those that were there and are not removed, and those
/// that are added.
pub proof fn scraped_files_get_their_tags(before: DbState, entries: Seq<ScrapedView>, after: DbState)
    requires
        entries.len() > 0,
        entries_processed(before, entries, after),
        before.with_entries_known(entries).consistent(),
    ensures
        ({
            let known = before.with_entries_known(entries);
            let ids = before.entry_tag_ids(entries);
            after.relationships == known.relationships.difference(known.removals(entries, ids)).union(
                known.additions(entries, ids),
            )
        }),
{
    let known = before.with_entries_known(entries);
    let ids = before.entry_tag_ids(entries);
    lemma_entry_ids_stand(before, entries);
    let (removed, added) = choose|removed: Seq<(u64, u64)>, added: Seq<(u64, u64)>|
        lists(removed, known.removals(entries, ids)) && lists(added, known.additions(entries, ids)) && after
            == #[trigger] known.with_changes(removed, added);
    removed_relationships_are_gone(known, removed);
    removing_relationships_keeps_consistency(known, removed);
    let without = known.without_relationships(removed);
    let less = known.relationships.difference(known.removals(entries, ids));
    assert forall|r: (u64, u64)| without.relationships.contains(r) <==> less.contains(r) by {
        assert(removed.to_set().contains(r) == known.removals(entries, ids).contains(r));
    }
    assert(without.relationships =~= less);
    let wanted = less.union(known.additions(entries, ids));
    assert forall|r: (u64, u64)| known.additions(entries, ids).contains(r) implies file_exists(known.files, r.0)
        && tag_exists(known.tags, r.1) by {
        lemma_additions_exist(known, entries, ids, r);
    }
    lemma_removal_keeps_tags(known, removed);
    if added.len() > 0 {
        assert forall|i: int| 0 <= i < added.len() implies file_exists(without.files, (#[trigger] added[i]).0)
            && tag_exists(without.tags, added[i].1) by {
            assert(added.contains(added[i]));
            assert(added.to_set().contains(added[i]));
        }
        added_relationships_are_there(without, added);
        assert forall|r: (u64, u64)| after.relationships.contains(r) <==> wanted.contains(r) by {
            assert(added.to_set().contains(r) == known.additions(entries, ids).contains(r));
        }
    } else {
        assert forall|r: (u64, u64)| after.relationships.contains(r) <==> wanted.contains(r) by {
            assert(added.to_set().contains(r) == known.additions(entries, ids).contains(r));
            assert(added.to_set().contains(r) == added.contains(r));
        }
    }
    assert(after.relationships =~= wanted);
}

/// Writing scraped files keeps a relationship cache that could be relied on one to rely on, and the stored
/// bitmaps those of the relationships.
pub proof fn processing_keeps_caches_current(before: DbState, entries: Seq<ScrapedView>, after: DbState)
    requires
        entries_processed(before, entries, after),
        before.consistent(),
        before.files.len() + entries.len() <= u64::MAX,
        before.with_entries_known(entries).consistent(),
    ensures
        before.caches_current() ==> after.caches_current(),
        before.stored_current() ==> after.stored_current(),
{
    if entries.len() > 0 {
        let filed = DbState { files: files_upserted(before.files, scraped_files(entries)), ..before };
        adding_files_keeps_consistency(before, scraped_files(entries));
        lemma_entry_digests_ok(filed, entries);
        lemma_plugin_tags_storage(filed.with_entry_digests(entries), scraped_tags(entries));
        let known = before.with_entries_known(entries);
        assert(before.caches_current() ==> known.caches_current());
        assert(before.stored_current() ==> known.stored_current());
        let ids = before.entry_tag_ids(entries);
        lemma_entry_ids_stand(before, entries);
        let (removed, added) = choose|removed: Seq<(u64, u64)>, added: Seq<(u64, u64)>|
            lists(removed, known.removals(entries, ids)) && lists(added, known.additions(entries, ids)) && after
                == #[trigger] known.with_changes(removed, added);
        removed_relationships_are_gone(known, removed);
        lemma_removal_keeps_tags(known, removed);
        let without = known.without_relationships(removed);
        if added.len() > 0 {
            assert forall|i: int|
                0 <= i < added.len() && tag_exists(without.tags, (#[trigger] added[i]).1) implies file_exists(
                without.files,
                added[i].0,
            ) by {
                assert(added.contains(added[i]));
                assert(added.to_set().contains(added[i]));
                lemma_additions_exist(known, entries, ids, added[i]);
            }
            added_relationships_are_there(without, added);
        }
    }
}

proof fn lemma_entry_ids_stand(before: DbState, entries: Seq<ScrapedView>)
    ensures
        ids_stand(before.with_entries_known(entries), before.entry_tag_ids(entries)),
{
    let filed = DbState { files: files_upserted(before.files, scraped_files(entries)), ..before };
    added_tags_have_their_ids(filed.with_entry_digests(entries), scraped_tags(entries));
}

/// The files and tags of what entries add exist.
proof fn lemma_additions_exist(known: DbState, entries: Seq<ScrapedView>, ids: Seq<(TagView, u64)>, r: (u64, u64))
    requires
        ids_stand(known, ids),
        known.additions(entries, ids).contains(r),
    ensures
        file_exists(known.files, r.0),
        tag_exists(known.tags, r.1),
{
    let i = choose|i: int|
        0 <= i < entries.len() && file_id_of(known.files, (#[trigger] entries[i]).manager.internal.hash) == Some(r.0)
            && entry_adds(entries[i], ids, r.1);
    lemma_hashed_file_exists(known, entries[i].manager.internal.hash, r.0);
    if acted_on(entries[i].actions, ids, TagOperation::Add, r.1) {
        lemma_acted_on_exists(known, entries[i].actions, ids, TagOperation::Add, r.1);
    } else {
        lemma_acted_on_exists(known, entries[i].actions, ids, TagOperation::Replace, r.1);
    }
}

proof fn lemma_removal_keeps_tags(state: DbState, list: Seq<(u64, u64)>)
    ensures
        forall|t: u64| #[trigger] tag_exists(state.without_relationships(list).tags, t) == tag_exists(state.tags, t),
{
    reveal(DbState::without_relationships);
    lemma_removal_counted_ids(state, list, list);
}

proof fn lemma_removal_counted_ids(state: DbState, all: Seq<(u64, u64)>, list: Seq<(u64, u64)>)
    ensures
        tag_ids(state.removal_counted(all, list)) == tag_ids(state.tags),
        state.removal_counted(all, list).len() == state.tags.len(),
    decreases list.len(),
{
    if list.len() > 0 {
        lemma_removal_counted_ids(state, all, list.drop_last());
        let before = state.removal_counted(all, list.drop_last());
        lemma_counted_down(before, list.last().1);
        assert(tag_ids(before).len() == before.len());
        assert(tag_ids(crate::relationship::counted_down(before, list.last().1)).len()
            == crate::relationship::counted_down(before, list.last().1).len());
    }
}

} // verus!
