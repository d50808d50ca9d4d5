//! Walking hash tables: their entries as lists, each entry once, in the
//! order in which the table yields them.

use std::collections::{HashMap, HashSet};
use vstd::prelude::*;
use vstd::std_specs::hash::{spec_hash_keys_iter, spec_hash_map_iter};
use vstd::std_specs::iter::IteratorSpec;

verus! {

broadcast use vstd::std_specs::hash::group_hash_axioms;

/// `list` holds the entries of `m`, each key once.
pub open spec fn lists_map<V>(list: Seq<(usize, V)>, m: Map<usize, V>) -> bool {
    &&& forall|i: int|
        0 <= i < list.len() ==> m.contains_key((#[trigger] list[i]).0) && m[list[i].0] == list[i].1
    &&& forall|k: usize|
        m.contains_key(k) ==> exists|i: int| 0 <= i < list.len() && (#[trigger] list[i]).0 == k
    &&& forall|i: int, j: int|
        0 <= i < j < list.len() ==> (#[trigger] list[i]).0 != (#[trigger] list[j]).0
}

/// The entries of a map.
pub fn pairs_of<V: Copy>(m: &HashMap<usize, V>) -> (v: Vec<(usize, V)>)
    ensures
        lists_map(v@, m@),
{
    let mut v: Vec<(usize, V)> = Vec::new();
    let ghost all = spec_hash_map_iter(m).remaining();
    for (k, c) in it: m.iter()
        invariant
            it.seq() == all,
            all.no_duplicates(),
            v@.len() == it.index(),
            forall|i: int| 0 <= i < v@.len() ==> #[trigger] v@[i] == (*all[i].0, *all[i].1),
    {
        v.push((*k, *c));
    }
    assert forall|i: int, j: int| 0 <= i < j < v@.len() implies (#[trigger] v@[i]).0 != (
    #[trigger] v@[j]).0 by {
        if v@[i].0 == v@[j].0 {
            assert(m@[*all[i].0] == *all[i].1);
            assert(m@[*all[j].0] == *all[j].1);
            assert(all[i] == all[j]);
        }
    }
    assert forall|k: usize| m@.contains_key(k) implies exists|i: int|
        0 <= i < v@.len() && (#[trigger] v@[i]).0 == k by {
        assert(all.contains((&k, &m@[k])));
        let i = choose|i: int| 0 <= i < all.len() && all[i] == (&k, &m@[k]);
        assert(v@[i].0 == k);
    }
    v
}

/// The elements of a set.
pub fn members(set: &HashSet<usize>) -> (v: Vec<usize>)
    ensures
        v@.no_duplicates(),
        forall|x: usize| v@.contains(x) <==> set@.contains(x),
{
    let mut v: Vec<usize> = Vec::new();
    let ghost all = spec_hash_keys_iter(set).remaining();
    for x in it: set.iter()
        invariant
            it.seq() == all,
            v@.len() == it.index(),
            forall|i: int| 0 <= i < v@.len() ==> v@[i] == *(#[trigger] all[i]),
    {
        v.push(*x);
    }
    proof {
        assert(v@ =~= all.unref());
        assert(all.unref().to_set() == set@);
        assert forall|i: int, j: int| 0 <= i < j < v@.len() implies v@[i] != v@[j] by {
            if v@[i] == v@[j] {
                assert(all[i] == all[j]);
            }
        }
        assert forall|x: usize| v@.contains(x) <==> set@.contains(x) by {
            assert(all.unref().to_set().contains(x) == all.unref().contains(x));
        }
    }
    v
}

} // verus!
