//! Tags: adding them with their namespaces and relations, and looking them up.
use crate::database::{DbState, MainDatabase};
use crate::namespace::{
    described_once, distinct_forms, first_forms, forms_view, lemma_distinct_forms, lemma_first_forms,
    lemma_namespace_upserted, lemma_one_form, namespace_id_of,
};
use crate::parents::lemma_with_relations;
use crate::rows::{
    NamespaceRec, NamespaceRow, TagRec, TagRow, allocate_id, cached_ids, collect_tag_ids, find_cached_id,
    find_namespace, find_tag, max_id, next_id, tag_ids, tag_keys,
};
use crate::text::{lemma_pos, pos, views};
use crate::types::{
    ActionView, FileTagAction, GenericNamespaceObj, NamespaceView, PluginTag, PluginTagView, Tag, TagParents, TagView,
};
use vstd::prelude::*;

verus! {

/// All the tags of some actions, in order.
pub open spec fn all_plugin_tags(actions: Seq<ActionView>) -> Seq<PluginTagView>
    decreases actions.len(),
{
    if actions.len() == 0 {
        Seq::empty()
    } else {
        all_plugin_tags(actions.drop_last()) + actions.last().tags
    }
}

/// The namespaces that a tag names: its own, its parent's, and that of the limiting tag.
pub open spec fn tag_namespaces(tag: PluginTagView) -> Seq<NamespaceView> {
    match tag.relates_to {
        None => seq![tag.tag.namespace],
        Some(relation) => match relation.limit_to {
            None => seq![tag.tag.namespace, relation.tag.namespace],
            Some(limit) => seq![tag.tag.namespace, relation.tag.namespace, limit.namespace],
        },
    }
}

/// The namespaces that some tags name, in order.
pub open spec fn namespaces_named(tags: Seq<PluginTagView>) -> Seq<NamespaceView>
    decreases tags.len(),
{
    if tags.len() == 0 {
        Seq::empty()
    } else {
        namespaces_named(tags.drop_last()) + tag_namespaces(tags.last())
    }
}

/// The namespaces that some tags name, in order, each form once.
pub open spec fn namespaces_of(tags: Seq<PluginTagView>) -> Seq<NamespaceView> {
    distinct_forms(namespaces_named(tags))
}

/// The forms of the namespaces that count for some tags: the first of each name.
pub open spec fn forms_of(tags: Seq<PluginTagView>) -> Seq<NamespaceView> {
    first_forms(namespaces_of(tags))
}

/// Whether a tag can be stored: it has a name, and its namespace comes in a form that counts.
pub open spec fn storable_tag(forms: Seq<NamespaceView>, tag: TagView) -> bool {
    tag.name.len() > 0 && forms.contains(tag.namespace)
}

/// The tags to store for a plugin's tag: itself, its parent, and the limiting tag.
///
/// A tag that cannot be stored is left out, and what comes after it.
pub open spec fn stored_tags(forms: Seq<NamespaceView>, tag: PluginTagView) -> Seq<TagView> {
    if !tag.tag_type.stored() || !storable_tag(forms, tag.tag) {
        Seq::empty()
    } else {
        match tag.relates_to {
            None => seq![tag.tag],
            Some(relation) => if !storable_tag(forms, relation.tag) {
                seq![tag.tag]
            } else {
                match relation.limit_to {
                    None => seq![tag.tag, relation.tag],
                    Some(limit) => if !storable_tag(forms, limit) {
                        seq![tag.tag, relation.tag]
                    } else {
                        seq![tag.tag, relation.tag, limit]
                    },
                }
            },
        }
    }
}

/// The tags to store for some plugin's tags, in order, where these forms of their namespaces count.
pub open spec fn stored_among(forms: Seq<NamespaceView>, tags: Seq<PluginTagView>) -> Seq<TagView>
    decreases tags.len(),
{
    if tags.len() == 0 {
        Seq::empty()
    } else {
        stored_among(forms, tags.drop_last()) + stored_tags(forms, tags.last())
    }
}

/// The tags to store for some plugin's tags, in order.
pub open spec fn stored_tags_of(tags: Seq<PluginTagView>) -> Seq<TagView> {
    stored_among(forms_of(tags), tags)
}

/// What tells one tag from another: its name and the name of its namespace.
pub open spec fn tag_key(tag: TagView) -> (Seq<char>, Seq<char>) {
    (tag.name, tag.namespace.name)
}

/// The keys of some tags.
pub open spec fn keys_of_tags(tags: Seq<TagView>) -> Seq<(Seq<char>, Seq<char>)> {
    Seq::new(tags.len(), |i: int| tag_key(tags[i]))
}

/// `tags` with one more, unless one with its key is there.
pub open spec fn with_distinct(tags: Seq<TagView>, tag: TagView) -> Seq<TagView> {
    if pos(keys_of_tags(tags), tag_key(tag)) < tags.len() {
        tags
    } else {
        tags.push(tag)
    }
}

/// The first tag of each key.
pub open spec fn distinct_tags(tags: Seq<TagView>) -> Seq<TagView>
    decreases tags.len(),
{
    if tags.len() == 0 {
        Seq::empty()
    } else {
        with_distinct(distinct_tags(tags.drop_last()), tags.last())
    }
}

/// The id of a tag, where the table has it.
pub open spec fn tag_id_of(rows: Seq<TagRec>, name: Seq<char>, namespace: u64) -> Option<u64> {
    let at = pos(tag_keys(rows), (name, namespace));
    if at < rows.len() {
        Some(rows[at].id)
    } else {
        None
    }
}

/// The tag table after a tag has been added, unless it is there.
pub open spec fn tag_upserted(rows: Seq<TagRec>, name: Seq<char>, namespace: u64) -> Seq<TagRec> {
    if tag_id_of(rows, name, namespace) is Some {
        rows
    } else {
        rows.push(TagRec { id: next_id(tag_ids(rows)), name, namespace, count: 0 })
    }
}

/// The tag table after tags have been added, one after the other.
pub open spec fn tags_upserted(rows: Seq<TagRec>, namespaces: Seq<NamespaceRec>, tags: Seq<TagView>) -> Seq<TagRec>
    decreases tags.len(),
{
    if tags.len() == 0 {
        rows
    } else {
        tag_upserted(
            tags_upserted(rows, namespaces, tags.drop_last()),
            tags.last().name,
            namespace_id_of(namespaces, tags.last().namespace.name)->0,
        )
    }
}

/// The tags with an id above `threshold`, in order.
pub open spec fn newer_tags(ids: Seq<(TagView, u64)>, threshold: u64) -> Seq<(TagView, u64)> {
    ids.filter(|entry: (TagView, u64)| entry.1 > threshold)
}

/// A cache of tags after a tag has been put in under its id.
pub open spec fn tag_cached(cache: Seq<(u64, TagView)>, id: u64, tag: TagView) -> Seq<(u64, TagView)> {
    let at = pos(cached_ids(cache), id);
    if at < cache.len() {
        cache.update(at, (id, tag))
    } else {
        cache.push((id, tag))
    }
}

/// A cache of tags after tags have been put in, one after the other.
pub open spec fn tags_cached(cache: Seq<(u64, TagView)>, ids: Seq<(TagView, u64)>) -> Seq<(u64, TagView)>
    decreases ids.len(),
{
    if ids.len() == 0 {
        cache
    } else {
        tag_cached(tags_cached(cache, ids.drop_last()), ids.last().1, ids.last().0)
    }
}

/// The largest id of a tag; one where there is no tag.
pub open spec fn tag_max_id(rows: Seq<TagRec>) -> u64 {
    if rows.len() == 0 {
        1
    } else {
        max_id(tag_ids(rows))
    }
}

impl DbState {
    /// The id of a tag, found by its name and the name of its namespace.
    pub open spec fn tag_id(self, tag: TagView) -> Option<u64> {
        match namespace_id_of(self.namespaces, tag.namespace.name) {
            Some(namespace) => tag_id_of(self.tags, tag.name, namespace),
            None => None,
        }
    }

    /// Some tags with their ids.
    pub open spec fn with_ids(self, tags: Seq<TagView>) -> Seq<(TagView, u64)> {
        Seq::new(tags.len(), |i: int| (tags[i], self.tag_id(tags[i])->0))
    }

    /// The relation that a plugin's tag asks for.
    pub open spec fn relation_of(self, forms: Seq<NamespaceView>, tag: PluginTagView) -> Option<TagParents> {
        if stored_tags(forms, tag).len() < 2 {
            None
        } else {
            let relation = tag.relates_to->0;
            let tag_id = self.tag_id(tag.tag)->0;
            let relate_tag_id = self.tag_id(relation.tag)->0;
            match relation.limit_to {
                None => Some(TagParents { tag_id, relate_tag_id, limit_to: None }),
                Some(limit) => if !storable_tag(forms, limit) {
                    None
                } else {
                    Some(TagParents { tag_id, relate_tag_id, limit_to: Some(self.tag_id(limit)->0) })
                },
            }
        }
    }

    /// The relations that some plugin's tags ask for, in order, where these forms of their namespaces count.
    pub open spec fn relations_among(self, forms: Seq<NamespaceView>, tags: Seq<PluginTagView>) -> Seq<TagParents>
        decreases tags.len(),
    {
        if tags.len() == 0 {
            Seq::empty()
        } else {
            let before = self.relations_among(forms, tags.drop_last());
            match self.relation_of(forms, tags.last()) {
                Some(relation) => before.push(relation),
                None => before,
            }
        }
    }

    /// The relations that some plugin's tags ask for, in order.
    pub open spec fn relations_of(self, tags: Seq<PluginTagView>) -> Seq<TagParents> {
        self.relations_among(forms_of(tags), tags)
    }

    /// The state after some plugin's tags, their namespaces and relations have been added.
    #[verifier::opaque]
    pub open spec fn with_plugin_tags(self, tags: Seq<PluginTagView>) -> DbState {
        let wanted = distinct_tags(stored_tags_of(tags));
        let named = DbState { tag_search_dirty: true, ..self.with_namespaces(namespaces_of(tags)) };
        if wanted.len() == 0 {
            named
        } else {
            let added = DbState { tags: tags_upserted(named.tags, named.namespaces, wanted), ..named };
            let ids = added.with_ids(wanted);
            let announced = DbState {
                regex_tags: match added.regex_tags {
                    Some(waiting) => Some(waiting + newer_tags(ids, tag_max_id(named.tags))),
                    None => None,
                },
                ..added
            };
            let related = announced.with_relations(announced.relations_of(tags));
            DbState { tag_cache: tags_cached(related.tag_cache, ids), ..related }
        }
    }

    /// The tags that are added with some plugin's tags, with their ids.
    pub open spec fn plugin_tag_ids(self, tags: Seq<PluginTagView>) -> Seq<(TagView, u64)> {
        self.with_plugin_tags(tags).with_ids(distinct_tags(stored_tags_of(tags)))
    }

    /// The state after the tags of some actions, their namespaces and relations have been added.
    pub open spec fn with_tag_actions(self, actions: Seq<ActionView>) -> DbState {
        self.with_plugin_tags(all_plugin_tags(actions))
    }

    /// The tags that are added with some actions, with their ids.
    pub open spec fn tag_action_ids(self, actions: Seq<ActionView>) -> Seq<(TagView, u64)> {
        self.plugin_tag_ids(all_plugin_tags(actions))
    }
}

/// An added tag has an id afterwards, and the ids of the others stay.
pub proof fn lemma_tag_upserted(rows: Seq<TagRec>, name: Seq<char>, namespace: u64)
    ensures
        tag_id_of(tag_upserted(rows, name, namespace), name, namespace) is Some,
        forall|n: Seq<char>, s: u64|
            tag_id_of(rows, n, s) is Some ==> #[trigger] tag_id_of(tag_upserted(rows, name, namespace), n, s)
                == tag_id_of(rows, n, s),
{
    let after = tag_upserted(rows, name, namespace);
    let keys = tag_keys(rows);
    let after_keys = tag_keys(after);
    lemma_pos(keys, (name, namespace));
    lemma_pos(after_keys, (name, namespace));
    if tag_id_of(rows, name, namespace) is None {
        assert(after_keys[rows.len() as int] == (name, namespace));
    }
    assert forall|n: Seq<char>, s: u64| tag_id_of(rows, n, s) is Some implies #[trigger] tag_id_of(after, n, s)
        == tag_id_of(rows, n, s) by {
        lemma_pos(keys, (n, s));
        lemma_pos(after_keys, (n, s));
        let i = pos(keys, (n, s));
        let k = pos(after_keys, (n, s));
        assert(after_keys[i] == keys[i]);
        if k < i {
            assert(after_keys[k] == keys[k]);
        }
    }
}

/// Added tags have ids afterwards, and the ids of the others stay.
pub proof fn lemma_tags_upserted(rows: Seq<TagRec>, namespaces: Seq<NamespaceRec>, tags: Seq<TagView>)
    ensures
        forall|i: int|
            0 <= i < tags.len() ==> tag_id_of(
                tags_upserted(rows, namespaces, tags),
                (#[trigger] tags[i]).name,
                namespace_id_of(namespaces, tags[i].namespace.name)->0,
            ) is Some,
        forall|n: Seq<char>, s: u64|
            tag_id_of(rows, n, s) is Some ==> #[trigger] tag_id_of(tags_upserted(rows, namespaces, tags), n, s)
                == tag_id_of(rows, n, s),
    decreases tags.len(),
{
    if tags.len() > 0 {
        let shorter = tags.drop_last();
        lemma_tags_upserted(rows, namespaces, shorter);
        let before = tags_upserted(rows, namespaces, shorter);
        lemma_tag_upserted(
            before,
            tags.last().name,
            namespace_id_of(namespaces, tags.last().namespace.name)->0,
        );
        assert forall|i: int| 0 <= i < tags.len() implies tag_id_of(
            tags_upserted(rows, namespaces, tags),
            (#[trigger] tags[i]).name,
            namespace_id_of(namespaces, tags[i].namespace.name)->0,
        ) is Some by {
            if i < tags.len() - 1 {
                assert(shorter[i] == tags[i]);
            }
        }
        assert forall|n: Seq<char>, s: u64| tag_id_of(rows, n, s) is Some implies #[trigger] tag_id_of(
            tags_upserted(rows, namespaces, tags),
            n,
            s,
        ) == tag_id_of(rows, n, s) by {
            assert(tag_id_of(before, n, s) is Some);
        }
    }
}

/// Added namespaces have ids afterwards.
pub proof fn lemma_with_namespaces(state: DbState, namespaces: Seq<NamespaceView>)
    ensures
        ({
            let after = state.with_namespaces(namespaces);
            &&& after == (DbState {
                namespaces: after.namespaces,
                namespace_cache: after.namespace_cache,
                ..state
            })
            &&& forall|i: int|
                0 <= i < namespaces.len() ==> namespace_id_of(after.namespaces, (#[trigger] namespaces[i]).name) is Some
            &&& forall|name: Seq<char>|
                namespace_id_of(state.namespaces, name) is Some ==> #[trigger] namespace_id_of(after.namespaces, name)
                    == namespace_id_of(state.namespaces, name)
        }),
    decreases namespaces.len(),
{
    if namespaces.len() > 0 {
        let shorter = namespaces.drop_last();
        lemma_with_namespaces(state, shorter);
        let before = state.with_namespaces(shorter);
        let after = state.with_namespaces(namespaces);
        lemma_namespace_upserted(before.namespaces, namespaces.last());
        assert forall|i: int| 0 <= i < namespaces.len() implies namespace_id_of(
            after.namespaces,
            (#[trigger] namespaces[i]).name,
        ) is Some by {
            if i < namespaces.len() - 1 {
                assert(shorter[i] == namespaces[i]);
            }
        }
        assert forall|name: Seq<char>|
            namespace_id_of(state.namespaces, name) is Some implies #[trigger] namespace_id_of(after.namespaces, name)
            == namespace_id_of(state.namespaces, name) by {
            assert(namespace_id_of(before.namespaces, name) is Some);
        }
    }
}

/// Whether the namespace of every tag of `tags` is among `namespaces`.
pub open spec fn namespaces_cover(namespaces: Seq<NamespaceView>, tags: Seq<TagView>) -> bool {
    forall|i: int| 0 <= i < tags.len() ==> namespaces.contains((#[trigger] tags[i]).namespace)
}

/// The namespaces of the tags to store are among the forms that count.
proof fn lemma_stored_among(forms: Seq<NamespaceView>, tags: Seq<PluginTagView>)
    ensures
        namespaces_cover(forms, stored_among(forms, tags)),
    decreases tags.len(),
{
    if tags.len() > 0 {
        let shorter = tags.drop_last();
        lemma_stored_among(forms, shorter);
        let before = stored_among(forms, shorter);
        let stored = stored_among(forms, tags);
        assert forall|i: int| 0 <= i < stored.len() implies forms.contains((#[trigger] stored[i]).namespace) by {
            if i < before.len() {
                assert(before[i] == stored[i]);
            } else {
                assert(stored_tags(forms, tags.last())[i - before.len()] == stored[i]);
            }
        }
    }
}

/// The namespaces of the tags to store are among the namespaces that the plugin's tags name.
pub proof fn lemma_stored_tags_named(tags: Seq<PluginTagView>)
    ensures
        namespaces_cover(namespaces_of(tags), stored_tags_of(tags)),
        namespaces_cover(namespaces_of(tags), distinct_tags(stored_tags_of(tags))),
{
    let stored = stored_tags_of(tags);
    lemma_stored_among(forms_of(tags), tags);
    lemma_first_forms(namespaces_of(tags));
    assert forall|i: int| 0 <= i < stored.len() implies namespaces_of(tags).contains((#[trigger] stored[i]).namespace) by {
        assert(forms_of(tags).contains(stored[i].namespace));
    }
    lemma_distinct_covered(namespaces_of(tags), stored);
}

proof fn lemma_distinct_covered(namespaces: Seq<NamespaceView>, tags: Seq<TagView>)
    requires
        namespaces_cover(namespaces, tags),
    ensures
        namespaces_cover(namespaces, distinct_tags(tags)),
    decreases tags.len(),
{
    if tags.len() > 0 {
        let shorter = tags.drop_last();
        assert(namespaces_cover(namespaces, shorter)) by {
            assert forall|i: int| 0 <= i < shorter.len() implies namespaces.contains((#[trigger] shorter[i]).namespace) by {
                assert(shorter[i] == tags[i]);
            }
        }
        lemma_distinct_covered(namespaces, shorter);
        let before = distinct_tags(shorter);
        let after = distinct_tags(tags);
        assert forall|i: int| 0 <= i < after.len() implies namespaces.contains((#[trigger] after[i]).namespace) by {
            if i < before.len() {
                assert(after[i] == before[i]);
            } else {
                assert(after[i] == tags[tags.len() - 1]);
            }
        }
    }
}

/// Every tag of `tags` has a tag with the same key in `distinct_tags(tags)`.
pub proof fn lemma_distinct_complete(tags: Seq<TagView>, i: int)
    requires
        0 <= i < tags.len(),
    ensures
        exists|k: int|
            0 <= k < distinct_tags(tags).len() && tag_key(#[trigger] distinct_tags(tags)[k]) == tag_key(tags[i]),
    decreases tags.len(),
{
    let before = distinct_tags(tags.drop_last());
    let after = distinct_tags(tags);
    if i < tags.len() - 1 {
        lemma_distinct_complete(tags.drop_last(), i);
        let k = choose|k: int|
            0 <= k < before.len() && tag_key(#[trigger] before[k]) == tag_key(tags.drop_last()[i]);
        assert(after[k] == before[k]);
    } else {
        lemma_pos(keys_of_tags(before), tag_key(tags.last()));
        let at = pos(keys_of_tags(before), tag_key(tags.last()));
        if at < before.len() {
            assert(tag_key(after[at]) == tag_key(tags[i]));
        } else {
            assert(tag_key(after[before.len() as int]) == tag_key(tags[i]));
        }
    }
}

/// Each tag that is added with a plugin's tags is found by its id afterwards.
pub proof fn added_tags_have_their_ids(state: DbState, tags: Seq<PluginTagView>)
    ensures
        ({
            let after = state.with_plugin_tags(tags);
            let ids = state.plugin_tag_ids(tags);
            forall|i: int| 0 <= i < ids.len() ==> after.tag_id((#[trigger] ids[i]).0) == Some(ids[i].1)
        }),
{
    reveal(DbState::with_plugin_tags);
    let names = namespaces_of(tags);
    let wanted = distinct_tags(stored_tags_of(tags));
    let named = DbState { tag_search_dirty: true, ..state.with_namespaces(names) };
    let after = state.with_plugin_tags(tags);
    let ids = state.plugin_tag_ids(tags);
    if wanted.len() > 0 {
        lemma_with_namespaces(state, names);
        lemma_stored_tags_named(tags);
        lemma_tags_upserted(named.tags, named.namespaces, wanted);
        let added = DbState { tags: tags_upserted(named.tags, named.namespaces, wanted), ..named };
        let announced = DbState {
            regex_tags: match added.regex_tags {
                Some(waiting) => Some(waiting + newer_tags(added.with_ids(wanted), tag_max_id(named.tags))),
                None => None,
            },
            ..added
        };
        lemma_with_relations(announced, announced.relations_of(tags));
        assert forall|i: int| 0 <= i < ids.len() implies after.tag_id((#[trigger] ids[i]).0) == Some(ids[i].1) by {
            assert(names.contains(wanted[i].namespace));
            let k = choose|k: int| 0 <= k < names.len() && names[k] == wanted[i].namespace;
            assert(namespace_id_of(named.namespaces, names[k].name) is Some);
        }
    }
}

fn flatten_tags<'a>(actions: &'a Vec<FileTagAction>) -> (tags: Vec<&'a PluginTag>)
    ensures
        views(tags@) == all_plugin_tags(views(actions@)),
{
    let mut tags: Vec<&'a PluginTag> = Vec::new();
    let ghost all = views(actions@);
    let mut i: usize = 0;
    assert(all.take(0) =~= Seq::<ActionView>::empty());
    assert(views(tags@) =~= all_plugin_tags(all.take(0)));
    while i < actions.len()
        invariant
            i <= actions.len(),
            all == views(actions@),
            views(tags@) == all_plugin_tags(all.take(i as int)),
        decreases actions.len() - i,
    {
        let mut k: usize = 0;
        let ghost before = views(tags@);
        assert(before + all[i as int].tags.take(0) =~= before);
        while k < actions[i].tags.len()
            invariant
                i < actions.len(),
                k <= actions[i as int].tags.len(),
                all == views(actions@),
                views(tags@) == before + all[i as int].tags.take(k as int),
            decreases actions[i as int].tags.len() - k,
        {
            let ghost shorter = views(tags@);
            tags.push(&actions[i].tags[k]);
            proof {
                assert(views(tags@) =~= shorter.push(actions@[i as int].tags@[k as int]@));
                assert(all[i as int].tags[k as int] == actions@[i as int].tags@[k as int]@);
                assert(all[i as int].tags.take(k + 1) =~= all[i as int].tags.take(k as int).push(
                    all[i as int].tags[k as int],
                ));
            }
            k += 1;
            assert(views(tags@) =~= before + all[i as int].tags.take(k as int));
        }
        proof {
            assert(all[i as int].tags.take(k as int) =~= all[i as int].tags);
            assert(all.take(i + 1).drop_last() =~= all.take(i as int));
        }
        i += 1;
    }
    assert(all.take(i as int) =~= all);
    tags
}

/// Whether a namespace is in a list with the same description.
fn holds_form(namespaces: &Vec<GenericNamespaceObj>, namespace: &GenericNamespaceObj) -> (holds: bool)
    ensures
        holds == views(namespaces@).contains(namespace@),
{
    let ghost all = views(namespaces@);
    let mut i: usize = 0;
    while i < namespaces.len()
        invariant
            i <= namespaces.len(),
            all == views(namespaces@),
            forall|k: int| 0 <= k < i ==> #[trigger] all[k] != namespace@,
        decreases namespaces.len() - i,
    {
        assert(all[i as int] == namespaces@[i as int]@);
        if namespaces[i].same(namespace) {
            return true;
        }
        i += 1;
    }
    false
}

/// Adds a namespace to the forms of those that were named so far.
fn push_form(namespaces: &mut Vec<GenericNamespaceObj>, namespace: &GenericNamespaceObj, Ghost(named): Ghost<
    Seq<NamespaceView>,
>)
    requires
        views(old(namespaces)@) == distinct_forms(named),
    ensures
        views(final(namespaces)@) == distinct_forms(named.push(namespace@)),
{
    assert(named.push(namespace@).drop_last() =~= named);
    if !holds_form(namespaces, namespace) {
        namespaces.push(namespace.copy());
        assert(views(namespaces@) =~= views(old(namespaces)@).push(namespace@));
    }
}

fn collect_namespaces(tags: &Vec<&PluginTag>) -> (namespaces: Vec<GenericNamespaceObj>)
    ensures
        views(namespaces@) == namespaces_of(views(tags@)),
{
    let mut namespaces: Vec<GenericNamespaceObj> = Vec::new();
    let ghost all = views(tags@);
    let mut i: usize = 0;
    assert(all.take(0) =~= Seq::<PluginTagView>::empty());
    assert(views(namespaces@) =~= namespaces_of(all.take(0)));
    while i < tags.len()
        invariant
            i <= tags.len(),
            all == views(tags@),
            views(namespaces@) == namespaces_of(all.take(i as int)),
        decreases tags.len() - i,
    {
        let tag = tags[i];
        let ghost before = namespaces_named(all.take(i as int));
        proof {
            assert(all[i as int] == tag@);
            assert(all.take(i + 1).drop_last() =~= all.take(i as int));
        }
        let ghost one = before.push(tag.tag.namespace@);
        push_form(&mut namespaces, &tag.tag.namespace, Ghost(before));
        if let Some(relation) = &tag.relates_to {
            let ghost two = one.push(relation.tag.namespace@);
            push_form(&mut namespaces, &relation.tag.namespace, Ghost(one));
            if let Some(limit) = &relation.limit_to {
                push_form(&mut namespaces, &limit.namespace, Ghost(two));
                assert(two.push(limit.namespace@) =~= before + tag_namespaces(tag@));
            } else {
                assert(two =~= before + tag_namespaces(tag@));
            }
        } else {
            assert(one =~= before + tag_namespaces(tag@));
        }
        i += 1;
    }
    assert(all.take(i as int) =~= all);
    namespaces
}

/// Whether a tag can be stored.
fn is_storable_tag(forms: &Vec<(GenericNamespaceObj, u64)>, tag: &Tag) -> (is: bool)
    ensures
        is == storable_tag(forms_view(forms@), tag@),
{
    if tag.name.as_str().is_empty() {
        return false;
    }
    let ghost all = forms_view(forms@);
    let mut i: usize = 0;
    while i < forms.len()
        invariant
            i <= forms.len(),
            all == forms_view(forms@),
            tag.name@.len() > 0,
            forall|k: int| 0 <= k < i ==> #[trigger] all[k] != tag.namespace@,
        decreases forms.len() - i,
    {
        assert(all[i as int] == forms@[i as int].0@);
        if forms[i].0.same(&tag.namespace) {
            return true;
        }
        i += 1;
    }
    false
}

fn find_same_key(tags: &Vec<Tag>, tag: &Tag) -> (at: usize)
    ensures
        at == pos(keys_of_tags(views(tags@)), tag_key(tag@)),
        at <= tags.len(),
{
    let ghost keys = keys_of_tags(views(tags@));
    let mut i: usize = 0;
    while i < tags.len()
        invariant
            i <= tags.len(),
            keys == keys_of_tags(views(tags@)),
            pos(keys, tag_key(tag@)) == crate::text::pos_from(keys, tag_key(tag@), i as int),
        decreases tags.len() - i,
    {
        if tags[i].name == tag.name && tags[i].namespace.name == tag.namespace.name {
            return i;
        }
        i += 1;
    }
    i
}

fn push_distinct(tags: &mut Vec<Tag>, tag: &Tag)
    ensures
        views(final(tags)@) == with_distinct(views(old(tags)@), tag@),
{
    if find_same_key(tags, tag) == tags.len() {
        tags.push(tag.copy());
        assert(views(tags@) =~= views(old(tags)@).push(tag@));
    }
}

proof fn lemma_distinct_push(tags: Seq<TagView>, tag: TagView)
    ensures
        distinct_tags(tags.push(tag)) == with_distinct(distinct_tags(tags), tag),
{
    assert(tags.push(tag).drop_last() =~= tags);
}

fn collect_tags(forms: &Vec<(GenericNamespaceObj, u64)>, tags: &Vec<&PluginTag>) -> (wanted: Vec<Tag>)
    ensures
        views(wanted@) == distinct_tags(stored_among(forms_view(forms@), views(tags@))),
{
    let mut wanted: Vec<Tag> = Vec::new();
    let ghost all = views(tags@);
    let ghost counted = forms_view(forms@);
    let mut i: usize = 0;
    assert(all.take(0) =~= Seq::<PluginTagView>::empty());
    assert(views(wanted@) =~= distinct_tags(stored_among(counted, all.take(0))));
    while i < tags.len()
        invariant
            i <= tags.len(),
            all == views(tags@),
            counted == forms_view(forms@),
            views(wanted@) == distinct_tags(stored_among(counted, all.take(i as int))),
        decreases tags.len() - i,
    {
        let tag = tags[i];
        let ghost stored = stored_among(counted, all.take(i as int));
        proof {
            assert(all[i as int] == tag@);
            assert(all.take(i + 1).drop_last() =~= all.take(i as int));
            assert(stored_among(counted, all.take(i + 1)) == stored + stored_tags(counted, tag@));
        }
        if tag.tag_type.is_stored() && is_storable_tag(forms, &tag.tag) {
            push_distinct(&mut wanted, &tag.tag);
            proof {
                lemma_distinct_push(stored, tag.tag@);
            }
            let ghost one = stored.push(tag.tag@);
            let mut done = true;
            if let Some(relation) = &tag.relates_to {
                if is_storable_tag(forms, &relation.tag) {
                    push_distinct(&mut wanted, &relation.tag);
                    proof {
                        lemma_distinct_push(one, relation.tag@);
                    }
                    let ghost two = one.push(relation.tag@);
                    done = false;
                    if let Some(limit) = &relation.limit_to {
                        if is_storable_tag(forms, limit) {
                            push_distinct(&mut wanted, limit);
                            proof {
                                lemma_distinct_push(two, limit@);
                                assert(two.push(limit@) =~= stored + stored_tags(counted, tag@));
                            }
                        } else {
                            assert(two =~= stored + stored_tags(counted, tag@));
                        }
                    } else {
                        assert(two =~= stored + stored_tags(counted, tag@));
                    }
                }
            }
            if done {
                assert(one =~= stored + stored_tags(counted, tag@));
            }
        } else {
            assert(stored =~= stored + stored_tags(counted, tag@));
        }
        i += 1;
    }
    assert(all.take(i as int) =~= all);
    wanted
}

fn upsert_tag(rows: &mut Vec<TagRow>, name: &String, namespace: u64) -> (id: u64)
    ensures
        views(final(rows)@) == tag_upserted(views(old(rows)@), name@, namespace),
        tag_id_of(views(final(rows)@), name@, namespace) == Some(id),
{
    let at: usize = find_tag(rows, name, namespace);
    let ghost before = views(rows@);
    proof {
        lemma_pos(tag_keys(before), (name@, namespace));
    }
    if at < rows.len() {
        rows[at].id
    } else {
        let ids = collect_tag_ids(rows);
        let id: u64 = allocate_id(&ids);
        rows.push(TagRow { id, name: name.clone(), namespace, count: 0 });
        assert(views(rows@) =~= tag_upserted(before, name@, namespace));
        proof {
            let keys = tag_keys(views(rows@));
            lemma_pos(keys, (name@, namespace));
            let k = pos(keys, (name@, namespace));
            assert(keys[before.len() as int] == (name@, namespace));
            if k < before.len() {
                assert(keys[k] == tag_keys(before)[k]);
            }
        }
        id
    }
}

fn cache_tag(cache: &mut Vec<(u64, Tag)>, id: u64, tag: &Tag)
    ensures
        views(final(cache)@) == tag_cached(views(old(cache)@), id, tag@),
{
    let at: usize = find_cached_id(cache, id);
    if at < cache.len() {
        cache.set(at, (id, tag.copy()));
    } else {
        cache.push((id, tag.copy()));
    }
    assert(views(cache@) =~= tag_cached(views(old(cache)@), id, tag@));
}

/// The id of a tag, found by its name and the name of its namespace.
pub fn lookup_tag(namespaces: &Vec<NamespaceRow>, tags: &Vec<TagRow>, tag: &Tag) -> (id: Option<u64>)
    ensures
        id == (match namespace_id_of(views(namespaces@), tag.namespace.name@) {
            Some(namespace) => tag_id_of(views(tags@), tag.name@, namespace),
            None => None,
        }),
{
    let at: usize = find_namespace(namespaces, &tag.namespace.name);
    if at < namespaces.len() {
        let row: usize = find_tag(tags, &tag.name, namespaces[at].id);
        if row < tags.len() {
            Some(tags[row].id)
        } else {
            None
        }
    } else {
        None
    }
}

/// The relation that a plugin's tag asks for, with the ids that the tables give.
fn relation_asked(
    namespaces: &Vec<NamespaceRow>,
    tags: &Vec<TagRow>,
    forms: &Vec<(GenericNamespaceObj, u64)>,
    tag: &PluginTag,
    Ghost(state): Ghost<DbState>,
) -> (relation: Option<TagParents>)
    requires
        state.namespaces == views(namespaces@),
        state.tags == views(tags@),
        forall|i: int|
            0 <= i < stored_tags(forms_view(forms@), tag@).len() ==> state.tag_id(
                #[trigger] stored_tags(forms_view(forms@), tag@)[i],
            ) is Some,
    ensures
        relation == state.relation_of(forms_view(forms@), tag@),
{
    let ghost counted = forms_view(forms@);
    if !tag.tag_type.is_stored() || !is_storable_tag(forms, &tag.tag) {
        return None;
    }
    if let Some(relation) = &tag.relates_to {
        if !is_storable_tag(forms, &relation.tag) {
            return None;
        }
        assert(stored_tags(counted, tag@)[0] == tag.tag@);
        assert(stored_tags(counted, tag@)[1] == relation.tag@);
        let tag_id: u64 = lookup_tag(namespaces, tags, &tag.tag).unwrap();
        let relate_tag_id: u64 = lookup_tag(namespaces, tags, &relation.tag).unwrap();
        if let Some(limit) = &relation.limit_to {
            if !is_storable_tag(forms, limit) {
                return None;
            }
            assert(stored_tags(counted, tag@)[2] == limit@);
            let limit_to: u64 = lookup_tag(namespaces, tags, limit).unwrap();
            Some(TagParents { tag_id, relate_tag_id, limit_to: Some(limit_to) })
        } else {
            Some(TagParents { tag_id, relate_tag_id, limit_to: None })
        }
    } else {
        None
    }
}

/// Each tag to store is found by its key once the distinct ones have been added.
proof fn lemma_stored_tags_found(state: DbState, forms: Seq<NamespaceView>, tags: Seq<PluginTagView>)
    requires
        forall|i: int|
            0 <= i < distinct_tags(stored_among(forms, tags)).len() ==> state.tag_id(
                #[trigger] distinct_tags(stored_among(forms, tags))[i],
            ) is Some,
    ensures
        forall|i: int, k: int|
            #![trigger stored_tags(forms, tags[i])[k]]
            0 <= i < tags.len() && 0 <= k < stored_tags(forms, tags[i]).len() ==> state.tag_id(stored_tags(forms, tags[i])[k]) is Some,
{
    let stored = stored_among(forms, tags);
    assert forall|i: int, k: int|
        #![trigger stored_tags(forms, tags[i])[k]]
        0 <= i < tags.len() && 0 <= k < stored_tags(forms, tags[i]).len() implies state.tag_id(stored_tags(forms, tags[i])[k]) is Some by {
        let tag = stored_tags(forms, tags[i])[k];
        lemma_stored_member(forms, tags, i, k);
        let j = choose|j: int| 0 <= j < stored.len() && stored[j] == tag;
        lemma_distinct_complete(stored, j);
        let m = choose|m: int|
            0 <= m < distinct_tags(stored).len() && tag_key(#[trigger] distinct_tags(stored)[m]) == tag_key(stored[j]);
        assert(state.tag_id(distinct_tags(stored)[m]) is Some);
        assert(tag_key(distinct_tags(stored)[m]) == tag_key(tag));
    }
}

proof fn lemma_stored_member(forms: Seq<NamespaceView>, tags: Seq<PluginTagView>, i: int, k: int)
    requires
        0 <= i < tags.len(),
        0 <= k < stored_tags(forms, tags[i]).len(),
    ensures
        stored_among(forms, tags).contains(stored_tags(forms, tags[i])[k]),
    decreases tags.len(),
{
    let shorter = tags.drop_last();
    let before = stored_among(forms, shorter);
    let after = stored_among(forms, tags);
    let tag = stored_tags(forms, tags[i])[k];
    if i < tags.len() - 1 {
        lemma_stored_member(forms, shorter, i, k);
        let j = choose|j: int| 0 <= j < before.len() && before[j] == tag;
        assert(after[j] == tag);
    } else {
        assert(after[before.len() + k] == tag);
    }
}

impl MainDatabase {
    /// The largest id of a tag; one where there is no tag.
    pub fn internal_tag_get_max_id(&self) -> (id: u64)
        ensures
            id == tag_max_id(self@.tags),
    {
        if self.tags.is_empty() {
            return 1;
        }
        let ids = collect_tag_ids(&self.tags);
        let mut max: u64 = 0;
        let mut i: usize = 0;
        while i < ids.len()
            invariant
                i <= ids.len(),
                max == max_id(ids@.take(i as int)),
            decreases ids.len() - i,
        {
            assert(ids@.take(i + 1).drop_last() =~= ids@.take(i as int));
            if ids[i] > max {
                max = ids[i];
            }
            i += 1;
        }
        assert(ids@.take(i as int) =~= ids@);
        max
    }

    /// Adds the tags of some actions, their namespaces and their relations, and gives each tag its id.
    ///
    /// Tags that are not stored, or have no name, are passed over. Tags that are new are announced
    /// to the plugins. Where a namespace comes with several descriptions, the first form of it counts: tags in
    /// another form of it are passed over too.
    pub fn internal_tag_bulk_add(&mut self, tag_actions: &Vec<FileTagAction>) -> (ids: Vec<(Tag, u64)>)
        ensures
            final(self)@ == old(self)@.with_tag_actions(views(tag_actions@)),
            views(ids@) == old(self)@.tag_action_ids(views(tag_actions@)),
            forall|i: int|
                0 <= i < ids@.len() ==> final(self)@.tag_id((#[trigger] ids@[i]).0@) == Some(ids@[i].1),
    {
        let tags = flatten_tags(tag_actions);
        self.add_plugin_tags(&tags)
    }

    /// Adds some plugin's tags, their namespaces and their relations, and gives each tag its id.
    pub fn add_plugin_tags(&mut self, tags: &Vec<&PluginTag>) -> (ids: Vec<(Tag, u64)>)
        ensures
            final(self)@ == old(self)@.with_plugin_tags(views(tags@)),
            views(ids@) == old(self)@.plugin_tag_ids(views(tags@)),
            forall|i: int|
                0 <= i < ids@.len() ==> final(self)@.tag_id((#[trigger] ids@[i]).0@) == Some(ids@[i].1),
            forall|i: int, k: int|
                #![trigger stored_tags(forms_of(views(tags@)), views(tags@)[i])[k]]
                0 <= i < tags@.len() && 0 <= k < stored_tags(forms_of(views(tags@)), views(tags@)[i]).len()
                    ==> final(self)@.tag_id(stored_tags(forms_of(views(tags@)), views(tags@)[i])[k]) is Some,
    {
        let ghost start = self@;
        let ghost all = views(tags@);
        let namespaces = collect_namespaces(tags);
        let forms = self.internal_namespace_bulk_add(&namespaces);
        let ghost counted = forms_of(all);
        self.tag_search_dirty = true;
        let wanted = collect_tags(&forms, tags);
        let ghost want = views(wanted@);
        let ghost named = self@;
        let mut ids: Vec<(Tag, u64)> = Vec::new();
        proof {
            reveal(DbState::with_plugin_tags);
            lemma_with_namespaces(start, namespaces_of(all));
            lemma_stored_tags_named(all);
            assert forall|i: int| 0 <= i < want.len() implies namespace_id_of(
                named.namespaces,
                (#[trigger] want[i]).namespace.name,
            ) is Some by {
                let names = namespaces_of(all);
                let k = choose|k: int| 0 <= k < names.len() && names[k] == want[i].namespace;
                assert(namespace_id_of(named.namespaces, names[k].name) is Some);
            }
        }
        if wanted.is_empty() {
            assert(views(ids@) =~= old(self)@.plugin_tag_ids(all));
            proof {
                lemma_stored_tags_found(self@, counted, all);
            }
            return ids;
        }
        let threshold: u64 = self.internal_tag_get_max_id();
        let mut i: usize = 0;
        assert(want.take(0) =~= Seq::<TagView>::empty());
        while i < wanted.len()
            invariant
                i <= wanted.len(),
                want == views(wanted@),
                forall|k: int|
                    0 <= k < want.len() ==> namespace_id_of(
                        named.namespaces,
                        (#[trigger] want[k]).namespace.name,
                    ) is Some,
                self@ == (DbState { tags: tags_upserted(named.tags, named.namespaces, want.take(i as int)), ..named }),
            decreases wanted.len() - i,
        {
            let at: usize = find_namespace(&self.namespaces, &wanted[i].namespace.name);
            proof {
                assert(namespace_id_of(named.namespaces, want[i as int].namespace.name) is Some);
                assert(want.take(i + 1).drop_last() =~= want.take(i as int));
            }
            let namespace: u64 = self.namespaces[at].id;
            upsert_tag(&mut self.tags, &wanted[i].name, namespace);
            i += 1;
        }
        proof {
            assert(want.take(i as int) =~= want);
            lemma_tags_upserted(named.tags, named.namespaces, want);
        }
        let ghost added = self@;
        assert forall|k: int| 0 <= k < want.len() implies added.tag_id(#[trigger] want[k]) is Some by {
            assert(namespace_id_of(named.namespaces, want[k].namespace.name) is Some);
        }
        let mut k: usize = 0;
        while k < wanted.len()
            invariant
                k <= wanted.len(),
                want == views(wanted@),
                self@ == added,
                ids@.len() == k,
                forall|j: int| 0 <= j < want.len() ==> added.tag_id(#[trigger] want[j]) is Some,
                forall|j: int| 0 <= j < k ==> (#[trigger] ids@[j])@ == added.with_ids(want)[j],
            decreases wanted.len() - k,
        {
            assert(added.tag_id(want[k as int]) is Some);
            let id: u64 = lookup_tag(&self.namespaces, &self.tags, &wanted[k]).unwrap();
            ids.push((wanted[k].copy(), id));
            k += 1;
        }
        assert(views(ids@) =~= added.with_ids(want));
        if let Some(manager) = &mut self.plugin_manager {
            announce(manager, &ids, threshold);
        }
        let ghost announced = self@;
        proof {
            lemma_stored_tags_found(announced, counted, all);
        }
        let mut relations: Vec<TagParents> = Vec::new();
        let mut m: usize = 0;
        assert(all.take(0) =~= Seq::<PluginTagView>::empty());
        while m < tags.len()
            invariant
                m <= tags.len(),
                all == views(tags@),
                self@ == announced,
                forall|i: int, k: int|
                    #![trigger stored_tags(counted, all[i])[k]]
                    0 <= i < all.len() && 0 <= k < stored_tags(counted, all[i]).len() ==> announced.tag_id(
                        stored_tags(counted, all[i])[k],
                    ) is Some,
                counted == forms_view(forms@),
                relations@ == announced.relations_among(counted, all.take(m as int)),
            decreases tags.len() - m,
        {
            proof {
                assert(all[m as int] == tags@[m as int]@);
                assert(all.take(m + 1).drop_last() =~= all.take(m as int));
            }
            if let Some(relation) = relation_asked(&self.namespaces, &self.tags, &forms, tags[m], Ghost(announced)) {
                relations.push(relation);
            }
            m += 1;
        }
        assert(all.take(m as int) =~= all);
        self.internal_parents_bulk_add(&relations);
        let ghost related = self@;
        proof {
            lemma_with_relations(announced, relations@);
        }
        let ghost out = views(ids@);
        let mut c: usize = 0;
        assert(out.take(0) =~= Seq::<(TagView, u64)>::empty());
        while c < ids.len()
            invariant
                c <= ids.len(),
                out == views(ids@),
                self@ == (DbState { tag_cache: tags_cached(related.tag_cache, out.take(c as int)), ..related }),
            decreases ids.len() - c,
        {
            cache_tag(&mut self.tag_cache, ids[c].1, &ids[c].0);
            proof {
                assert(out.take(c + 1).drop_last() =~= out.take(c as int));
            }
            c += 1;
        }
        assert(out.take(c as int) =~= out);
        assert(views(ids@) =~= old(self)@.plugin_tag_ids(all));
        assert forall|j: int| 0 <= j < ids@.len() implies self@.tag_id((#[trigger] ids@[j]).0@) == Some(ids@[j].1) by {
            assert(views(ids@)[j] == ids@[j]@);
            assert(added.tag_id(want[j]) is Some);
        }
        proof {
            assert forall|j: int| 0 <= j < want.len() implies self@.tag_id(#[trigger] want[j]) is Some by {
                assert(added.tag_id(want[j]) is Some);
            }
            lemma_stored_tags_found(self@, counted, all);
        }
        ids
    }
}

fn announce(manager: &mut crate::database::PluginManager, ids: &Vec<(Tag, u64)>, threshold: u64)
    ensures
        final(manager)@ == old(manager)@ + newer_tags(views(ids@), threshold),
{
    let ghost keep = |entry: (TagView, u64)| entry.1 > threshold;
    let ghost all = views(ids@);
    let mut i: usize = 0;
    assert(all.take(0).filter(keep) =~= Seq::<(TagView, u64)>::empty()) by {
        reveal(Seq::filter);
    }
    assert(manager@ =~= old(manager)@ + all.take(0).filter(keep));
    while i < ids.len()
        invariant
            i <= ids.len(),
            all == views(ids@),
            keep == (|entry: (TagView, u64)| entry.1 > threshold),
            manager@ == old(manager)@ + all.take(i as int).filter(keep),
        decreases ids.len() - i,
    {
        let ghost before = manager@;
        proof {
            crate::text::lemma_filter_step(all, i as int, keep);
        }
        if ids[i].1 > threshold {
            manager.regex_tags.push((ids[i].0.copy(), ids[i].1));
            assert(manager@ =~= before.push(all[i as int]));
        }
        assert(manager@ =~= old(manager)@ + all.take(i + 1).filter(keep));
        i += 1;
    }
    assert(all.take(i as int) =~= all);
}

/// Tags that were there keep their ids when others are added, and those that can be stored have ids.
pub proof fn tags_keep_their_ids(state: DbState, tags: Seq<PluginTagView>)
    ensures
        forall|tag: TagView|
            state.tag_id(tag) is Some ==> #[trigger] state.with_plugin_tags(tags).tag_id(tag) == state.tag_id(tag),
        forall|i: int|
            0 <= i < tags.len() && (#[trigger] tags[i]).tag_type.stored() && storable_tag(forms_of(tags), tags[i].tag)
                ==> state.with_plugin_tags(tags).tag_id(tags[i].tag) is Some,
        forall|i: int, k: int|
            #![trigger stored_tags(forms_of(tags), tags[i])[k]]
            0 <= i < tags.len() && 0 <= k < stored_tags(forms_of(tags), tags[i]).len() ==> state.with_plugin_tags(
                tags,
            ).tag_id(stored_tags(forms_of(tags), tags[i])[k]) is Some,
{
    reveal(DbState::with_plugin_tags);
    let names = namespaces_of(tags);
    let wanted = distinct_tags(stored_tags_of(tags));
    lemma_with_namespaces(state, names);
    let named = DbState { tag_search_dirty: true, ..state.with_namespaces(names) };
    let after = state.with_plugin_tags(tags);
    lemma_stored_tags_named(tags);
    assert forall|i: int| 0 <= i < wanted.len() implies namespace_id_of(
        named.namespaces,
        (#[trigger] wanted[i]).namespace.name,
    ) is Some by {
        let k = choose|k: int| 0 <= k < names.len() && names[k] == wanted[i].namespace;
        assert(namespace_id_of(named.namespaces, names[k].name) is Some);
    }
    if wanted.len() > 0 {
        let added = DbState { tags: tags_upserted(named.tags, named.namespaces, wanted), ..named };
        lemma_tags_upserted(named.tags, named.namespaces, wanted);
        let announced = DbState {
            regex_tags: match added.regex_tags {
                Some(waiting) => Some(waiting + newer_tags(added.with_ids(wanted), tag_max_id(named.tags))),
                None => None,
            },
            ..added
        };
        lemma_with_relations(announced, announced.relations_of(tags));
        assert(after.tags == added.tags && after.namespaces == named.namespaces);
    }
    assert forall|tag: TagView| state.tag_id(tag) is Some implies #[trigger] after.tag_id(tag) == state.tag_id(tag) by {
        let namespace = namespace_id_of(state.namespaces, tag.namespace.name);
        assert(namespace is Some);
        assert(namespace_id_of(named.namespaces, tag.namespace.name) == namespace);
        assert(tag_id_of(state.tags, tag.name, namespace->0) is Some);
    }
    assert forall|i: int| 0 <= i < wanted.len() implies after.tag_id(#[trigger] wanted[i]) is Some by {
        assert(namespace_id_of(named.namespaces, wanted[i].namespace.name) is Some);
    }
    lemma_stored_tags_found(after, forms_of(tags), tags);
    assert forall|i: int|
        0 <= i < tags.len() && (#[trigger] tags[i]).tag_type.stored() && storable_tag(
            forms_of(tags),
            tags[i].tag,
        ) implies after.tag_id(tags[i].tag) is Some by {
        assert(stored_tags(forms_of(tags), tags[i])[0] == tags[i].tag);
    }
}

/// Where each namespace comes with one description, every tag with a name can be stored.
pub proof fn named_tags_are_stored(tags: Seq<PluginTagView>)
    requires
        described_once(namespaces_of(tags)),
    ensures
        forall|i: int|
            0 <= i < tags.len() && (#[trigger] tags[i]).tag.name.len() > 0 ==> storable_tag(forms_of(tags), tags[i].tag),
        forall|i: int, k: int|
            #![trigger tag_namespaces(tags[i])[k]]
            0 <= i < tags.len() && 0 <= k < tag_namespaces(tags[i]).len() ==> forms_of(tags).contains(
                tag_namespaces(tags[i])[k],
            ),
{
    lemma_one_form(namespaces_of(tags));
    lemma_distinct_forms(namespaces_named(tags));
    assert forall|i: int| 0 <= i < tags.len() && (#[trigger] tags[i]).tag.name.len() > 0 implies storable_tag(
        forms_of(tags),
        tags[i].tag,
    ) by {
        assert(tag_namespaces(tags[i])[0] == tags[i].tag.namespace);
        lemma_named(tags, i, 0);
        assert(namespaces_of(tags).contains(tags[i].tag.namespace));
    }
    assert forall|i: int, k: int|
        #![trigger tag_namespaces(tags[i])[k]]
        0 <= i < tags.len() && 0 <= k < tag_namespaces(tags[i]).len() implies forms_of(tags).contains(
        tag_namespaces(tags[i])[k],
    ) by {
        lemma_named(tags, i, k);
        assert(namespaces_of(tags).contains(tag_namespaces(tags[i])[k]));
    }
}

/// The namespaces that a tag names are among those that the tags name.
pub proof fn lemma_named(tags: Seq<PluginTagView>, i: int, k: int)
    requires
        0 <= i < tags.len(),
        0 <= k < tag_namespaces(tags[i]).len(),
    ensures
        namespaces_named(tags).contains(tag_namespaces(tags[i])[k]),
    decreases tags.len(),
{
    let before = namespaces_named(tags.drop_last());
    let after = namespaces_named(tags);
    if i < tags.len() - 1 {
        lemma_named(tags.drop_last(), i, k);
        let n = choose|n: int| 0 <= n < before.len() && before[n] == tag_namespaces(tags[i])[k];
        assert(after[n] == tag_namespaces(tags[i])[k]);
    } else {
        assert(after[before.len() + k] == tag_namespaces(tags[i])[k]);
    }
}

} // verus!
