//! Walking the sets and maps of numbers that std offers.
use crate::text::lemma_push_contains;
use std::collections::{HashMap, HashSet};
use vstd::prelude::*;

verus! {

broadcast use vstd::std_specs::hash::group_hash_axioms;

/// The members of a set, each once, in some order.
pub fn set_members(set: &HashSet<u64>) -> (members: Vec<u64>)
    ensures
        members@.to_set() == set@,
        members@.no_duplicates(),
{
    let mut members: Vec<u64> = Vec::new();
    let ghost all = vstd::std_specs::iter::IteratorSpec::remaining(
        &vstd::std_specs::hash::spec_hash_keys_iter(set),
    ).unref();
    for key in iter: set.iter()
        invariant
            iter.seq().unref() == all,
            members@ == all.take(iter.index()),
    {
        members.push(*key);
        assert(all.take(iter.index() + 1) =~= all.take(iter.index()).push(*key));
    }
    proof {
        assert(all.take(all.len() as int) =~= all);
        let refs = vstd::std_specs::iter::IteratorSpec::remaining(
        &vstd::std_specs::hash::spec_hash_keys_iter(set),
    );
        assert forall|i: int, j: int| 0 <= i < all.len() && 0 <= j < all.len() && i != j implies all[i] != all[j] by {
            assert(refs[i] != refs[j]);
        }
    }
    members
}

/// The keys of a map, each once, in some order.
pub fn map_keys(map: &HashMap<u64, Vec<u8>>) -> (keys: Vec<u64>)
    ensures
        keys@.to_set() == map@.dom(),
        keys@.no_duplicates(),
{
    let mut keys: Vec<u64> = Vec::new();
    let ghost all = vstd::std_specs::iter::IteratorSpec::remaining(
        &vstd::std_specs::hash::spec_keys_iter(map),
    ).unref();
    for key in iter: map.keys()
        invariant
            iter.seq().unref() == all,
            keys@ == all.take(iter.index()),
    {
        keys.push(*key);
        assert(all.take(iter.index() + 1) =~= all.take(iter.index()).push(*key));
    }
    proof {
        assert(all.take(all.len() as int) =~= all);
        let refs = vstd::std_specs::iter::IteratorSpec::remaining(
        &vstd::std_specs::hash::spec_keys_iter(map),
    );
        assert forall|i: int, j: int| 0 <= i < all.len() && 0 <= j < all.len() && i != j implies all[i] != all[j] by {
            assert(refs[i] != refs[j]);
        }
    }
    keys
}

/// The set of the numbers in a list.
pub fn set_of(list: &Vec<u64>) -> (set: HashSet<u64>)
    ensures
        set@ == list@.to_set(),
{
    let mut set: HashSet<u64> = HashSet::new();
    let mut i: usize = 0;
    assert(list@.take(0).to_set() =~= Set::<u64>::empty());
    while i < list.len()
        invariant
            i <= list.len(),
            set@ == list@.take(i as int).to_set(),
        decreases list.len() - i,
    {
        set.insert(list[i]);
        proof {
            assert(list@.take(i + 1) =~= list@.take(i as int).push(list@[i as int]));
            lemma_push_contains(list@.take(i as int), list@[i as int]);
            assert(set@ =~= list@.take(i + 1).to_set());
        }
        i += 1;
    }
    assert(list@.take(i as int) =~= list@);
    set
}

} // verus!
