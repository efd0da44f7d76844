//! Walking an ordered map by ascending key.

use std::collections::BTreeMap;
use vstd::prelude::*;
use vstd::std_specs::btree::increasing_seq;
use vstd::std_specs::cmp::OrdSpec;
use vstd::std_specs::iter::IteratorSpec;

verus! {

/// The entries of `map`, each once, by ascending key.
pub fn in_key_order(map: &BTreeMap<u16, usize>) -> (pairs: Vec<(u16, usize)>)
    ensures
        forall|i: int|
            0 <= i < pairs@.len() ==> map@.contains_key((#[trigger] pairs@[i]).0)
                && map@[pairs@[i].0] == pairs@[i].1,
        forall|key: u16| #[trigger]
            map@.contains_key(key) ==> exists|i: int|
                0 <= i < pairs@.len() && (#[trigger] pairs@[i]).0 == key,
        forall|i: int, j: int|
            0 <= i < j < pairs@.len() ==> (#[trigger] pairs@[i]).0 < (#[trigger] pairs@[j]).0,
{
    let iter = map.iter();
    let ghost all = iter.remaining();
    let ghost keys = all.map_values(|kv: (&u16, &usize)| *kv.0);
    proof {
        assert(increasing_seq(keys));
        assert forall|i: int, j: int| 0 <= i < j < all.len() implies *(#[trigger] all[i]).0 < *(
        #[trigger] all[j]).0 by {
            assert(keys[i] == *all[i].0);
            assert(keys[j] == *all[j].0);
            assert(keys[i].cmp_spec(&keys[j]) is Less);
        }
        assert forall|key: u16| #[trigger] map@.contains_key(key) implies exists|i: int|
            0 <= i < all.len() && *(#[trigger] all[i]).0 == key by {
            let found = (&key, &map@[key]);
            assert(all.contains(found));
            let i = choose|i: int| 0 <= i < all.len() && all[i] == found;
            assert(*all[i].0 == key);
        }
    }
    let mut pairs: Vec<(u16, usize)> = Vec::new();
    for pair in it: iter
        invariant
            it.seq() == all,
            pairs@.len() == it.index(),
            forall|i: int|
                0 <= i < all.len() ==> map@.contains_key(*(#[trigger] all[i]).0)
                    && map@[*all[i].0] == *all[i].1,
            forall|i: int|
                0 <= i < pairs@.len() ==> (#[trigger] pairs@[i]).0 == *all[i].0 && pairs@[i].1
                    == *all[i].1,
    {
        pairs.push((*pair.0, *pair.1));
    }
    proof {
        assert forall|key: u16| #[trigger] map@.contains_key(key) implies exists|i: int|
            0 <= i < pairs@.len() && (#[trigger] pairs@[i]).0 == key by {
            let i = choose|i: int| 0 <= i < all.len() && *(#[trigger] all[i]).0 == key;
            assert(pairs@[i].0 == key);
        }
    }
    pairs
}

} // verus!
