//! What is known of source URLs.
use crate::database::{DbState, MainDatabase};
use crate::file::lookup_file;
use crate::rows::find_text;
use crate::tag::tag_id_of;
use crate::text::{lemma_pos, views};
use crate::types::{FileView, SourceUrlFileStatus};
use vstd::prelude::*;

verus! {

/// The view of a [`SourceUrlFileStatus`].
pub struct UrlStatusView {
    pub file: Option<FileView>,
    pub dead: bool,
}

impl View for SourceUrlFileStatus {
    type V = UrlStatusView;

    open spec fn view(&self) -> UrlStatusView {
        UrlStatusView {
            file: match self.file {
                Some(file) => Some(file@),
                None => None,
            },
            dead: self.dead,
        }
    }
}

/// Whether a file is the one with the smallest id that has a tag.
pub open spec fn is_first_file(relationships: Set<(u64, u64)>, tag_id: u64, file_id: u64) -> bool {
    &&& relationships.contains((file_id, tag_id))
    &&& forall|other: u64| #[trigger] relationships.contains((other, tag_id)) ==> file_id <= other
}

/// The smallest id of a file that has a tag.
pub open spec fn first_file(relationships: Set<(u64, u64)>, tag_id: u64) -> Option<u64> {
    if exists|file_id: u64| is_first_file(relationships, tag_id, file_id) {
        Some(choose|file_id: u64| is_first_file(relationships, tag_id, file_id))
    } else {
        None
    }
}

impl DbState {
    /// What is known of a source URL: whether it is dead, and the first file that has it as a tag of the
    /// namespace of source URLs.
    pub open spec fn url_status(self, namespace: Option<u64>, url: Seq<char>) -> UrlStatusView {
        UrlStatusView {
            file: if namespace is None {
                None
            } else if tag_id_of(self.tags, url, namespace->0) is None {
                None
            } else {
                match first_file(self.relationships, tag_id_of(self.tags, url, namespace->0)->0) {
                    Some(file_id) => match self.file(file_id) {
                        Some(row) => row.file(),
                        None => None,
                    },
                    None => None,
                }
            },
            dead: self.dead_urls.contains(url),
        }
    }

    /// What is known of some source URLs; those of which nothing is known are left out.
    pub open spec fn url_statuses(self, namespace: Option<u64>, urls: Seq<Seq<char>>) -> Seq<(Seq<char>, UrlStatusView)>
        decreases urls.len(),
    {
        if urls.len() == 0 {
            Seq::empty()
        } else {
            let before = self.url_statuses(namespace, urls.drop_last());
            let status = self.url_status(namespace, urls.last());
            if status.dead || status.file is Some {
                before.push((urls.last(), status))
            } else {
                before
            }
        }
    }
}

/// The smallest id of a file that has a tag.
fn find_first_file(relationships: &Vec<(u64, u64)>, tag_id: u64) -> (file: Option<u64>)
    ensures
        file == first_file(relationships@.to_set(), tag_id),
{
    let mut file: Option<u64> = None;
    let mut i: usize = 0;
    while i < relationships.len()
        invariant
            i <= relationships.len(),
            match file {
                Some(f) => relationships@.contains((f, tag_id)) && forall|k: int|
                    0 <= k < i && (#[trigger] relationships@[k]).1 == tag_id ==> f <= relationships@[k].0,
                None => forall|k: int| 0 <= k < i ==> (#[trigger] relationships@[k]).1 != tag_id,
            },
        decreases relationships.len() - i,
    {
        let (f, t) = relationships[i];
        if t == tag_id {
            assert(relationships@[i as int] == (f, tag_id));
            match file {
                Some(least) => {
                    if f < least {
                        file = Some(f);
                    }
                },
                None => {
                    file = Some(f);
                },
            }
        }
        i += 1;
    }
    proof {
        match file {
            Some(f) => {
                assert forall|other: u64| #[trigger] relationships@.contains((other, tag_id)) implies f <= other by {
                    let k = choose|k: int| 0 <= k < relationships@.len() && relationships@[k] == (other, tag_id);
                    assert(relationships@[k].1 == tag_id);
                }
                assert(is_first_file(relationships@.to_set(), tag_id, f)) by {
                    assert(forall|r: (u64, u64)| #[trigger] relationships@.to_set().contains(r) <==> relationships@.contains(r));
                }
                let g = choose|g: u64| is_first_file(relationships@.to_set(), tag_id, g);
                assert(relationships@.to_set().contains((g, tag_id)));
                assert(relationships@.to_set().contains((f, tag_id)));
            },
            None => {
                assert forall|f: u64| !is_first_file(relationships@.to_set(), tag_id, f) by {
                    if relationships@.contains((f, tag_id)) {
                        let k = choose|k: int| 0 <= k < relationships@.len() && relationships@[k] == (f, tag_id);
                        assert(relationships@[k].1 == tag_id);
                    }
                }
            },
        }
    }
    file
}

impl MainDatabase {
    /// What is known of a source URL.
    fn source_url_status(&self, namespace: Option<u64>, url: &String) -> (status: SourceUrlFileStatus)
        ensures
            status@ == self@.url_status(namespace, url@),
    {
        proof {
            lemma_pos(self@.dead_urls, url@);
        }
        let dead = find_text(&self.dead_urls, url) < self.dead_urls.len();
        let mut status = SourceUrlFileStatus { file: None, dead };
        if let Some(namespace_id) = namespace {
            if let Some(tag_id) = self.internal_tag_get_id(url, namespace_id) {
                if let Some(file_id) = find_first_file(&self.relationships, tag_id) {
                    status.file = lookup_file(&self.files, file_id);
                }
            }
        }
        status
    }

    /// What is known of some source URLs, in the order of the URLs. Those that are neither dead nor the
    /// source of a file are left out.
    pub fn source_url_files_get(&mut self, url_set: &Vec<String>) -> (statuses: Vec<(String, SourceUrlFileStatus)>)
        ensures
            final(self)@ == old(self)@.with_namespace_looked_up("source_url"@),
            views(statuses@) == final(self)@.url_statuses(old(self)@.namespace_lookup("source_url"@), views(url_set@)),
    {
        let name = "source_url".to_owned();
        let namespace = self.internal_namespace_get_id(&name);
        let ghost all = views(url_set@);
        let mut statuses: Vec<(String, SourceUrlFileStatus)> = Vec::new();
        let mut i: usize = 0;
        assert(all.take(0) =~= Seq::<Seq<char>>::empty());
        assert(views(statuses@) =~= self@.url_statuses(namespace, all.take(0)));
        while i < url_set.len()
            invariant
                i <= url_set.len(),
                all == views(url_set@),
                views(statuses@) == self@.url_statuses(namespace, all.take(i as int)),
            decreases url_set.len() - i,
        {
            let url = &url_set[i];
            proof {
                assert(all.take(i + 1).drop_last() =~= all.take(i as int));
                assert(all.take(i + 1).last() == url@);
            }
            let ghost before = statuses@;
            let status = self.source_url_status(namespace, url);
            if status.dead || status.file.is_some() {
                statuses.push((url.clone(), status));
                assert(views(statuses@) =~= views(before).push((url@, status@)));
            }
            i += 1;
        }
        assert(all.take(i as int) =~= all);
        statuses
    }
}

/// A URL is listed once for each time that it is asked for, exactly where something is known of it.
pub proof fn known_urls_are_listed(state: DbState, namespace: Option<u64>, urls: Seq<Seq<char>>)
    ensures
        forall|url: Seq<char>, status: UrlStatusView| #[trigger]
            state.url_statuses(namespace, urls).contains((url, status)) <==> urls.contains(url) && status
                == state.url_status(namespace, url) && (status.dead || status.file is Some),
    decreases urls.len(),
{
    if urls.len() > 0 {
        let shorter = urls.drop_last();
        known_urls_are_listed(state, namespace, shorter);
        let before = state.url_statuses(namespace, shorter);
        let last = state.url_status(namespace, urls.last());
        crate::text::lemma_push_contains(before, (urls.last(), last));
        crate::text::lemma_push_contains(shorter, urls.last());
        assert(shorter.push(urls.last()) =~= urls);
    }
}

} // verus!
