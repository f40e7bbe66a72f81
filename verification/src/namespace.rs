//! Namespaces: looking them up, adding them, removing them.
use crate::database::{DbState, MainDatabase};
use crate::rows::{
    NamespaceRec, NamespaceRow, allocate_id, cached_names, collect_namespace_ids, find_cached_name, find_namespace,
    find_namespace_id, namespace_ids, namespace_names, next_id,
};
use crate::text::{lemma_pos, lemma_push_contains, opt_text_copy, pos, views};
use crate::types::{GenericNamespaceObj, NamespaceView};
use vstd::prelude::*;

verus! {

/// The namespace table after a namespace has been added, or its description brought up to date.
pub open spec fn namespace_upserted(rows: Seq<NamespaceRec>, namespace: NamespaceView) -> Seq<NamespaceRec> {
    let at = pos(namespace_names(rows), namespace.name);
    if at < rows.len() {
        rows.update(at, NamespaceRec { description: namespace.description, ..rows[at] })
    } else {
        rows.push(
            NamespaceRec {
                id: next_id(namespace_ids(rows)),
                name: namespace.name,
                description: namespace.description,
            },
        )
    }
}

/// The id of the namespace called `name`, where the table has it.
pub open spec fn namespace_id_of(rows: Seq<NamespaceRec>, name: Seq<char>) -> Option<u64> {
    let at = pos(namespace_names(rows), name);
    if at < rows.len() {
        Some(rows[at].id)
    } else {
        None
    }
}

/// A cache of ids after `name` has got `id`.
pub open spec fn name_cached(cache: Seq<(Seq<char>, u64)>, name: Seq<char>, id: u64) -> Seq<(Seq<char>, u64)> {
    let at = pos(cached_names(cache), name);
    if at < cache.len() {
        cache.update(at, (name, id))
    } else {
        cache.push((name, id))
    }
}

/// The id that a cache holds for `name`.
pub open spec fn cached_id_of(cache: Seq<(Seq<char>, u64)>, name: Seq<char>) -> Option<u64> {
    let at = pos(cached_names(cache), name);
    if at < cache.len() {
        Some(cache[at].1)
    } else {
        None
    }
}

/// `forms` with one more namespace, unless it is there with the same description.
pub open spec fn with_form(forms: Seq<NamespaceView>, namespace: NamespaceView) -> Seq<NamespaceView> {
    if forms.contains(namespace) {
        forms
    } else {
        forms.push(namespace)
    }
}

/// Some namespaces, each once. One that comes with two descriptions comes in two forms.
pub open spec fn distinct_forms(namespaces: Seq<NamespaceView>) -> Seq<NamespaceView>
    decreases namespaces.len(),
{
    if namespaces.len() == 0 {
        Seq::empty()
    } else {
        with_form(distinct_forms(namespaces.drop_last()), namespaces.last())
    }
}

/// The names of some namespaces.
pub open spec fn form_names(forms: Seq<NamespaceView>) -> Seq<Seq<char>> {
    Seq::new(forms.len(), |i: int| forms[i].name)
}

/// `forms` with one more namespace, unless one of its name is there.
pub open spec fn with_first_form(forms: Seq<NamespaceView>, namespace: NamespaceView) -> Seq<NamespaceView> {
    if pos(form_names(forms), namespace.name) < forms.len() {
        forms
    } else {
        forms.push(namespace)
    }
}

/// Of some namespaces, the first form of each name.
pub open spec fn first_forms(namespaces: Seq<NamespaceView>) -> Seq<NamespaceView>
    decreases namespaces.len(),
{
    if namespaces.len() == 0 {
        Seq::empty()
    } else {
        with_first_form(first_forms(namespaces.drop_last()), namespaces.last())
    }
}

/// The namespaces of a list that gives each its id.
pub open spec fn forms_view(ids: Seq<(GenericNamespaceObj, u64)>) -> Seq<NamespaceView> {
    Seq::new(ids.len(), |i: int| ids[i].0@)
}

/// Whether namespaces that share a name share their description.
pub open spec fn described_once(namespaces: Seq<NamespaceView>) -> bool {
    forall|i: int, k: int|
        0 <= i < namespaces.len() && 0 <= k < namespaces.len() && (#[trigger] namespaces[i]).name == (
        #[trigger] namespaces[k]).name ==> namespaces[i].description == namespaces[k].description
}

/// Each form is kept once, and no other.
pub proof fn lemma_distinct_forms(namespaces: Seq<NamespaceView>)
    ensures
        forall|namespace: NamespaceView| #[trigger]
            distinct_forms(namespaces).contains(namespace) <==> namespaces.contains(namespace),
    decreases namespaces.len(),
{
    if namespaces.len() > 0 {
        let shorter = namespaces.drop_last();
        lemma_distinct_forms(shorter);
        lemma_push_contains(shorter, namespaces.last());
        lemma_push_contains(distinct_forms(shorter), namespaces.last());
        assert(shorter.push(namespaces.last()) =~= namespaces);
    }
}

/// Where each namespace comes with one description, every one is a first form.
pub proof fn lemma_one_form(namespaces: Seq<NamespaceView>)
    requires
        described_once(namespaces),
    ensures
        forall|namespace: NamespaceView| #[trigger]
            namespaces.contains(namespace) ==> first_forms(namespaces).contains(namespace),
    decreases namespaces.len(),
{
    if namespaces.len() > 0 {
        let shorter = namespaces.drop_last();
        let last = namespaces.last();
        assert(described_once(shorter)) by {
            assert forall|i: int, k: int|
                0 <= i < shorter.len() && 0 <= k < shorter.len() && (#[trigger] shorter[i]).name == (
                #[trigger] shorter[k]).name implies shorter[i].description == shorter[k].description by {
                assert(namespaces[i] == shorter[i] && namespaces[k] == shorter[k]);
            }
        }
        lemma_one_form(shorter);
        let before = first_forms(shorter);
        lemma_first_forms(shorter);
        lemma_push_contains(shorter, last);
        lemma_push_contains(before, last);
        assert(shorter.push(last) =~= namespaces);
        lemma_pos(form_names(before), last.name);
        let at = pos(form_names(before), last.name);
        if at < before.len() {
            assert(form_names(before)[at] == last.name);
            assert(before.contains(before[at]));
            let j = choose|j: int| 0 <= j < shorter.len() && shorter[j] == before[at];
            assert(namespaces[j] == before[at]);
            assert(namespaces[namespaces.len() - 1] == last);
            assert(before[at] == last);
        }
    }
}

/// First forms are among the namespaces that they are the first forms of.
pub proof fn lemma_first_forms(namespaces: Seq<NamespaceView>)
    ensures
        forall|namespace: NamespaceView| #[trigger]
            first_forms(namespaces).contains(namespace) ==> namespaces.contains(namespace),
    decreases namespaces.len(),
{
    if namespaces.len() > 0 {
        let shorter = namespaces.drop_last();
        lemma_first_forms(shorter);
        assert forall|namespace: NamespaceView| #[trigger] first_forms(namespaces).contains(namespace) implies namespaces.contains(
            namespace,
        ) by {
            let before = first_forms(shorter);
            let after = first_forms(namespaces);
            let k = choose|k: int| 0 <= k < after.len() && after[k] == namespace;
            if k < before.len() {
                assert(before[k] == namespace);
                assert(before.contains(namespace));
                let j = choose|j: int| 0 <= j < shorter.len() && shorter[j] == namespace;
                assert(namespaces[j] == namespace);
            } else {
                assert(namespaces[namespaces.len() - 1] == namespace);
            }
        }
    }
}

/// The position of a name in a list of namespaces with their ids.
fn find_form_name(ids: &Vec<(GenericNamespaceObj, u64)>, name: &String) -> (at: usize)
    ensures
        at == pos(form_names(forms_view(ids@)), name@),
        at <= ids.len(),
{
    let ghost keys = form_names(forms_view(ids@));
    let mut i: usize = 0;
    while i < ids.len()
        invariant
            i <= ids.len(),
            keys == form_names(forms_view(ids@)),
            pos(keys, name@) == crate::text::pos_from(keys, name@, i as int),
        decreases ids.len() - i,
    {
        if ids[i].0.name == *name {
            return i;
        }
        i += 1;
    }
    i
}

impl DbState {
    /// The state after one namespace has been added.
    pub open spec fn with_namespace(self, namespace: NamespaceView) -> DbState {
        let rows = namespace_upserted(self.namespaces, namespace);
        DbState {
            namespaces: rows,
            namespace_cache: name_cached(
                self.namespace_cache,
                namespace.name,
                namespace_id_of(rows, namespace.name)->0,
            ),
            ..self
        }
    }

    /// The state after namespaces have been added, one after the other.
    pub open spec fn with_namespaces(self, namespaces: Seq<NamespaceView>) -> DbState
        decreases namespaces.len(),
    {
        if namespaces.len() == 0 {
            self
        } else {
            self.with_namespaces(namespaces.drop_last()).with_namespace(namespaces.last())
        }
    }

    /// The id of a namespace: from the cache, else from the table.
    pub open spec fn namespace_lookup(self, name: Seq<char>) -> Option<u64> {
        match cached_id_of(self.namespace_cache, name) {
            Some(id) => Some(id),
            None => namespace_id_of(self.namespaces, name),
        }
    }

    /// The state after a namespace has been asked for and, where no cache knows it, added.
    pub open spec fn with_namespace_asked(self, namespace: NamespaceView) -> DbState {
        match cached_id_of(self.namespace_cache, namespace.name) {
            Some(id) => self,
            None => self.with_namespace(namespace),
        }
    }
}

/// What an added namespace is called has an id afterwards.
pub proof fn lemma_namespace_upserted(rows: Seq<NamespaceRec>, namespace: NamespaceView)
    ensures
        namespace_id_of(namespace_upserted(rows, namespace), namespace.name) is Some,
        forall|name: Seq<char>|
            namespace_id_of(rows, name) is Some ==> #[trigger] namespace_id_of(
                namespace_upserted(rows, namespace),
                name,
            ) == namespace_id_of(rows, name),
{
    let after = namespace_upserted(rows, namespace);
    lemma_pos(namespace_names(rows), namespace.name);
    lemma_pos(namespace_names(after), namespace.name);
    let at = pos(namespace_names(rows), namespace.name);
    if at < rows.len() {
        assert(namespace_names(after) =~= namespace_names(rows));
    } else {
        assert(namespace_names(after)[rows.len() as int] == namespace.name);
    }
    assert forall|name: Seq<char>| namespace_id_of(rows, name) is Some implies #[trigger] namespace_id_of(
        after,
        name,
    ) == namespace_id_of(rows, name) by {
        lemma_pos(namespace_names(rows), name);
        lemma_pos(namespace_names(after), name);
        let i = pos(namespace_names(rows), name);
        let k = pos(namespace_names(after), name);
        if at < rows.len() {
        } else {
            assert(namespace_names(after)[i] == namespace_names(rows)[i]);
            if k < i {
                assert(namespace_names(after)[k] == namespace_names(rows)[k]);
            }
        }
    }
}

fn upsert_namespace(rows: &mut Vec<NamespaceRow>, namespace: &GenericNamespaceObj) -> (id: u64)
    ensures
        views(final(rows)@) == namespace_upserted(views(old(rows)@), namespace@),
        namespace_id_of(views(final(rows)@), namespace.name@) == Some(id),
{
    let at: usize = find_namespace(rows, &namespace.name);
    let ghost before = views(rows@);
    proof {
        lemma_namespace_upserted(before, namespace@);
    }
    if at < rows.len() {
        let id: u64 = rows[at].id;
        let name = rows[at].name.clone();
        rows.set(at, NamespaceRow { id, name, description: opt_text_copy(&namespace.description) });
        assert(views(rows@) =~= namespace_upserted(before, namespace@));
        assert(namespace_id_of(before, namespace.name@) == Some(id));
        id
    } else {
        let ids = collect_namespace_ids(rows);
        let id: u64 = allocate_id(&ids);
        rows.push(
            NamespaceRow { id, name: namespace.name.clone(), description: opt_text_copy(&namespace.description) },
        );
        assert(views(rows@) =~= namespace_upserted(before, namespace@));
        proof {
            lemma_pos(namespace_names(before), namespace.name@);
            lemma_pos(namespace_names(views(rows@)), namespace.name@);
            let k = pos(namespace_names(views(rows@)), namespace.name@);
            if k < before.len() {
                assert(namespace_names(views(rows@))[k] == namespace_names(before)[k]);
            }
        }
        id
    }
}

fn cache_name(cache: &mut Vec<(String, u64)>, name: &String, id: u64)
    ensures
        views(final(cache)@) == name_cached(views(old(cache)@), name@, id),
{
    let at: usize = find_cached_name(cache, name);
    if at < cache.len() {
        cache.set(at, (name.clone(), id));
    } else {
        cache.push((name.clone(), id));
    }
    assert(views(cache@) =~= name_cached(views(old(cache)@), name@, id));
}

impl MainDatabase {
    /// The id of a namespace, from the cache or from the table.
    pub fn search_db_namespace_sync(&self, name: &String) -> (id: Option<u64>)
        ensures
            id == self@.namespace_lookup(name@),
    {
        let cached: usize = find_cached_name(&self.namespace_cache, name);
        if cached < self.namespace_cache.len() {
            return Some(self.namespace_cache[cached].1);
        }
        let at: usize = find_namespace(&self.namespaces, name);
        if at < self.namespaces.len() {
            Some(self.namespaces[at].id)
        } else {
            None
        }
    }

    /// The id of a namespace; one that the table had to tell is cached.
    pub fn internal_namespace_get_id(&mut self, namespace_name: &String) -> (id: Option<u64>)
        ensures
            id == old(self)@.namespace_lookup(namespace_name@),
            final(self)@ == (match id {
                Some(found) => DbState {
                    namespace_cache: name_cached(old(self)@.namespace_cache, namespace_name@, found),
                    ..old(self)@
                },
                None => old(self)@,
            }),
    {
        let id = self.search_db_namespace_sync(namespace_name);
        if let Some(found) = id {
            cache_name(&mut self.namespace_cache, namespace_name, found);
        }
        id
    }

    /// The namespace with an id.
    pub fn internal_namespace_get_generic(&self, ns_id: &u64) -> (namespace: Option<GenericNamespaceObj>)
        ensures
            ({
                let at = pos(namespace_ids(self@.namespaces), *ns_id);
                match namespace {
                    Some(found) => at < self@.namespaces.len() && found@ == (NamespaceView {
                        name: self@.namespaces[at].name,
                        description: self@.namespaces[at].description,
                    }),
                    None => at == self@.namespaces.len(),
                }
            }),
    {
        let at: usize = find_namespace_id(&self.namespaces, *ns_id);
        if at < self.namespaces.len() {
            Some(
                GenericNamespaceObj {
                    name: self.namespaces[at].name.clone(),
                    description: opt_text_copy(&self.namespaces[at].description),
                },
            )
        } else {
            None
        }
    }

    /// The id of a namespace, which is added where the cache does not know it.
    pub fn internal_namespace_get_or_create(&mut self, namespace: &GenericNamespaceObj) -> (id: u64)
        ensures
            final(self)@ == old(self)@.with_namespace_asked(namespace@),
            final(self)@.namespace_lookup(namespace.name@) == Some(id),
            cached_id_of(old(self)@.namespace_cache, namespace.name@) matches Some(cached) ==> id == cached,
            cached_id_of(old(self)@.namespace_cache, namespace.name@) is None ==> namespace_id_of(
                final(self)@.namespaces,
                namespace.name@,
            ) == Some(id),
    {
        let cached: usize = find_cached_name(&self.namespace_cache, &namespace.name);
        if cached < self.namespace_cache.len() {
            return self.namespace_cache[cached].1;
        }
        let id: u64 = upsert_namespace(&mut self.namespaces, namespace);
        cache_name(&mut self.namespace_cache, &namespace.name, id);
        proof {
            lemma_name_cached(old(self)@.namespace_cache, namespace.name@, id);
        }
        id
    }

    /// Adds a namespace.
    pub fn namespace_add_sync(&mut self, namespace: &GenericNamespaceObj) -> (id: u64)
        ensures
            final(self)@ == old(self)@.with_namespace_asked(namespace@),
            final(self)@.namespace_lookup(namespace.name@) == Some(id),
            cached_id_of(old(self)@.namespace_cache, namespace.name@) matches Some(cached) ==> id == cached,
            cached_id_of(old(self)@.namespace_cache, namespace.name@) is None ==> namespace_id_of(
                final(self)@.namespaces,
                namespace.name@,
            ) == Some(id),
    {
        self.internal_namespace_get_or_create(namespace)
    }

    /// The id of the namespace of source URLs, which is added where the cache does not know it.
    pub fn internal_namespace_sourceurl_get(&mut self) -> (id: u64)
        ensures
            final(self)@ == old(self)@.with_namespace_asked(source_url_namespace()),
            final(self)@.namespace_lookup("source_url"@) == Some(id),
    {
        self.internal_namespace_get_or_create(
            &GenericNamespaceObj {
                name: "source_url".to_owned(),
                description: Some("A source for a file".to_owned()),
            },
        )
    }

    /// Adds namespaces, and gives each its id. Of one that comes with several descriptions the first form gets
    /// the id and the last gives the description; the other forms get none.
    pub fn internal_namespace_bulk_add(&mut self, namespaces: &Vec<GenericNamespaceObj>) -> (ids: Vec<
        (GenericNamespaceObj, u64),
    >)
        ensures
            final(self)@ == old(self)@.with_namespaces(views(namespaces@)),
            forms_view(ids@) == first_forms(views(namespaces@)),
            forall|i: int|
                0 <= i < ids@.len() ==> namespace_id_of(
                    final(self)@.namespaces,
                    (#[trigger] ids@[i]).0.name@,
                ) == Some(ids@[i].1),
    {
        let mut ids: Vec<(GenericNamespaceObj, u64)> = Vec::new();
        let mut i: usize = 0;
        let ghost all = views(namespaces@);
        assert(all.take(0) =~= Seq::<NamespaceView>::empty());
        assert(forms_view(ids@) =~= first_forms(all.take(0)));
        while i < namespaces.len()
            invariant
                i <= namespaces.len(),
                all == views(namespaces@),
                self@ == old(self)@.with_namespaces(all.take(i as int)),
                forms_view(ids@) == first_forms(all.take(i as int)),
                forall|k: int|
                    0 <= k < ids@.len() ==> namespace_id_of(self@.namespaces, (#[trigger] ids@[k]).0.name@) == Some(
                        ids@[k].1,
                    ),
            decreases namespaces.len() - i,
        {
            let ghost before = self@.namespaces;
            let id: u64 = upsert_namespace(&mut self.namespaces, &namespaces[i]);
            cache_name(&mut self.namespace_cache, &namespaces[i].name, id);
            proof {
                lemma_namespace_upserted(before, namespaces@[i as int]@);
                assert(all.take(i + 1).drop_last() =~= all.take(i as int));
                assert(all.take(i + 1).last() == namespaces@[i as int]@);
            }
            if find_form_name(&ids, &namespaces[i].name) == ids.len() {
                let ghost forms = forms_view(ids@);
                ids.push((namespaces[i].copy(), id));
                assert(forms_view(ids@) =~= forms.push(namespaces@[i as int]@));
            }
            i += 1;
        }
        assert(all.take(i as int) =~= all);
        ids
    }
}

/// The namespace that source URLs are kept in.
pub open spec fn source_url_namespace() -> NamespaceView {
    NamespaceView { name: "source_url"@, description: Some("A source for a file"@) }
}

/// What has been cached is found in the cache.
pub proof fn lemma_name_cached(cache: Seq<(Seq<char>, u64)>, name: Seq<char>, id: u64)
    ensures
        cached_id_of(name_cached(cache, name, id), name) == Some(id),
{
    let after = name_cached(cache, name, id);
    lemma_pos(cached_names(cache), name);
    lemma_pos(cached_names(after), name);
    let at = pos(cached_names(cache), name);
    if at < cache.len() {
        assert(cached_names(after) =~= cached_names(cache));
    } else {
        assert(cached_names(after)[cache.len() as int] == name);
        let k = pos(cached_names(after), name);
        if k < cache.len() {
            assert(cached_names(after)[k] == cached_names(cache)[k]);
        }
    }
}

} // verus!
