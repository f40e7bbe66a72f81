//! How the answers to different questions fit together.
use crate::coherence::reads_see_the_relationships;
use crate::database::DbState;
use crate::lookup::tags_in_namespace;
use crate::relationship::tag_namespace;
use crate::rows::{TagRec, namespace_ids, tag_ids};
use crate::text::{lemma_pos, pos};
use vstd::prelude::*;

verus! {

/// Where each tag has an id of its own, its namespace is the one of the row with that id.
proof fn lemma_tag_in_namespace(tags: Seq<TagRec>, id: u64, namespace: u64)
    requires
        tag_ids(tags).no_duplicates(),
    ensures
        tags_in_namespace(tags, namespace).contains(id) <==> tag_namespace(tags, id) == Some(namespace),
{
    lemma_pos(tag_ids(tags), id);
    let at = pos(tag_ids(tags), id);
    if tags_in_namespace(tags, namespace).contains(id) {
        let i = choose|i: int| 0 <= i < tags.len() && (#[trigger] tags[i]).id == id && tags[i].namespace == namespace;
        assert(tag_ids(tags)[i] == id);
        assert(tag_ids(tags)[at] == id);
        assert(i == at);
    }
    if at < tags.len() {
        assert(tag_ids(tags)[at] == tags[at].id);
    }
}

/// The tags are those of the namespaces, and no tag is in two of them.
pub proof fn tags_are_those_of_the_namespaces(state: DbState)
    requires
        state.consistent(),
    ensures
        forall|id: u64| #[trigger]
            tag_ids(state.tags).to_set().contains(id) <==> exists|namespace: u64|
                namespace_ids(state.namespaces).contains(namespace) && #[trigger] tags_in_namespace(
                    state.tags,
                    namespace,
                ).contains(id),
        forall|one: u64, other: u64|
            one != other ==> #[trigger] tags_in_namespace(state.tags, one).disjoint(
                #[trigger] tags_in_namespace(state.tags, other),
            ),
{
    let ids = tag_ids(state.tags);
    assert forall|id: u64| #[trigger] ids.to_set().contains(id) <==> exists|namespace: u64|
        namespace_ids(state.namespaces).contains(namespace) && #[trigger] tags_in_namespace(
            state.tags,
            namespace,
        ).contains(id) by {
        assert(ids.to_set().contains(id) == ids.contains(id));
        if ids.contains(id) {
            let i = choose|i: int| 0 <= i < ids.len() && ids[i] == id;
            let namespace = state.tags[i].namespace;
            assert(state.tags[i].id == id);
            assert(namespace_ids(state.namespaces).contains(namespace));
            assert(tags_in_namespace(state.tags, namespace).contains(id));
        }
        if exists|namespace: u64|
            namespace_ids(state.namespaces).contains(namespace) && #[trigger] tags_in_namespace(
                state.tags,
                namespace,
            ).contains(id) {
            let namespace = choose|namespace: u64|
                namespace_ids(state.namespaces).contains(namespace) && #[trigger] tags_in_namespace(
                    state.tags,
                    namespace,
                ).contains(id);
            let i = choose|i: int|
                0 <= i < state.tags.len() && (#[trigger] state.tags[i]).id == id && state.tags[i].namespace == namespace;
            assert(ids[i] == id);
        }
    }
    assert forall|one: u64, other: u64| one != other implies #[trigger] tags_in_namespace(state.tags, one).disjoint(
        #[trigger] tags_in_namespace(state.tags, other),
    ) by {
        assert forall|id: u64|
            !(tags_in_namespace(state.tags, one).contains(id) && tags_in_namespace(state.tags, other).contains(id)) by {
            lemma_tag_in_namespace(state.tags, id, one);
            lemma_tag_in_namespace(state.tags, id, other);
        }
    }
}

/// The files of a namespace are those of its tags, also where memory answers for a tag.
pub proof fn files_of_a_namespace_are_those_of_its_tags(state: DbState, namespace: u64)
    requires
        tag_ids(state.tags).no_duplicates(),
        state.refreshed().memory_agrees(),
    ensures
        forall|f: u64| #[trigger]
            state.files_of_namespace(namespace).contains(f) <==> exists|t: u64|
                tags_in_namespace(state.tags, namespace).contains(t) && (#[trigger] state.refreshed().files_of_tag(
                    t,
                )).contains(f),
{
    let after = state.refreshed();
    reads_see_the_relationships(after);
    assert forall|f: u64| #[trigger] state.files_of_namespace(namespace).contains(f) <==> exists|t: u64|
        tags_in_namespace(state.tags, namespace).contains(t) && (#[trigger] after.files_of_tag(t)).contains(f) by {
        if state.files_of_namespace(namespace).contains(f) {
            let t = choose|t: u64|
                state.relationships.contains((f, t)) && tag_namespace(state.tags, t) == Some(namespace);
            lemma_tag_in_namespace(state.tags, t, namespace);
            assert(after.files_of_tag(t).contains(f));
        }
        if exists|t: u64|
            tags_in_namespace(state.tags, namespace).contains(t) && (#[trigger] after.files_of_tag(t)).contains(f) {
            let t = choose|t: u64|
                tags_in_namespace(state.tags, namespace).contains(t) && (#[trigger] after.files_of_tag(t)).contains(f);
            lemma_tag_in_namespace(state.tags, t, namespace);
            assert(state.relationships.contains((f, t)));
        }
    }
}

/// The tags of a file in a namespace are those of the file that are among those of the namespace, also where
/// memory answers for the file.
pub proof fn tags_of_a_file_in_a_namespace(state: DbState, file_id: u64, namespace: u64)
    requires
        tag_ids(state.tags).no_duplicates(),
        state.refreshed().memory_agrees(),
    ensures
        state.tags_of_file_in(file_id, namespace) == state.refreshed().tags_of_file(file_id).intersect(
            tags_in_namespace(state.tags, namespace),
        ),
{
    let after = state.refreshed();
    reads_see_the_relationships(after);
    let both = after.tags_of_file(file_id).intersect(tags_in_namespace(state.tags, namespace));
    assert forall|t: u64| state.tags_of_file_in(file_id, namespace).contains(t) <==> both.contains(t) by {
        lemma_tag_in_namespace(state.tags, t, namespace);
    }
    assert(state.tags_of_file_in(file_id, namespace) =~= both);
}

/// The files of a tag and its parents are the files of the tag and those of each tag that a relation names as
/// its parent, also where memory answers for a tag.
pub proof fn files_of_a_family_are_those_of_its_tags(state: DbState, tag_id: u64)
    requires
        state.refreshed().memory_agrees(),
    ensures
        forall|f: u64| #[trigger]
            state.files_of_family(tag_id).contains(f) <==> state.refreshed().files_of_tag(tag_id).contains(f)
                || exists|i: int|
                0 <= i < state.parents.len() && (#[trigger] state.parents[i]).relation.tag_id == tag_id
                    && state.refreshed().files_of_tag(state.parents[i].relation.relate_tag_id).contains(f),
{
    let after = state.refreshed();
    reads_see_the_relationships(after);
    assert forall|f: u64| #[trigger] state.files_of_family(tag_id).contains(f) <==> after.files_of_tag(tag_id).contains(f)
        || exists|i: int|
        0 <= i < state.parents.len() && (#[trigger] state.parents[i]).relation.tag_id == tag_id && after.files_of_tag(
            state.parents[i].relation.relate_tag_id,
        ).contains(f) by {
        if state.files_of_family(tag_id).contains(f) {
            let t = choose|t: u64| #[trigger]
                state.relationships.contains((f, t)) && (t == tag_id || state.has_parent(tag_id, t));
            assert(after.files_of_tag(t).contains(f));
            if t != tag_id {
                let i = choose|i: int|
                    0 <= i < state.parents.len() && (#[trigger] state.parents[i]).relation.tag_id == tag_id
                        && state.parents[i].relation.relate_tag_id == t;
                assert(state.parents[i].relation.tag_id == tag_id);
            }
        }
        if after.files_of_tag(tag_id).contains(f) {
            assert(state.relationships.contains((f, tag_id)));
        }
        if exists|i: int|
            0 <= i < state.parents.len() && (#[trigger] state.parents[i]).relation.tag_id == tag_id
                && after.files_of_tag(state.parents[i].relation.relate_tag_id).contains(f) {
            let i = choose|i: int|
                0 <= i < state.parents.len() && (#[trigger] state.parents[i]).relation.tag_id == tag_id
                    && after.files_of_tag(state.parents[i].relation.relate_tag_id).contains(f);
            let t = state.parents[i].relation.relate_tag_id;
            assert(state.has_parent(tag_id, t));
            assert(state.relationships.contains((f, t)));
        }
    }
}

} // verus!
