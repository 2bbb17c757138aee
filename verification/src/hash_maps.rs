//! Walking and merging hash maps with integer keys.
use std::collections::hash_map::RandomState;
use std::collections::HashMap;
use vstd::prelude::*;
use vstd::std_specs::hash::{builds_valid_hashers, obeys_key_model};

verus! {

broadcast use vstd::std_specs::hash::group_hash_axioms;

/// Whether a list holds every entry of a map once, in whatever order.
pub open spec fn lists_map<K, V>(entries: Seq<(K, &V)>, map: Map<K, V>) -> bool {
    &&& forall|i: int|
        0 <= i < entries.len() ==> map.contains_key((#[trigger] entries[i]).0)
            && map[entries[i].0] == *entries[i].1
    &&& forall|i: int, j: int|
        0 <= i < j < entries.len() ==> (#[trigger] entries[i]).0 != (#[trigger] entries[j]).0
    &&& forall|k: K| #[trigger]
        map.contains_key(k) ==> exists|i: int| 0 <= i < entries.len() && (#[trigger] entries[i]).0
            == k
}

/// The entries of a map, in no particular order.
pub fn entries_of<K: Copy, V>(map: &HashMap<K, V>) -> (entries: Vec<(K, &V)>)
    requires
        obeys_key_model::<K>(),
        builds_valid_hashers::<RandomState>(),
    ensures
        lists_map(entries@, map@),
{
    let mut entries: Vec<(K, &V)> = Vec::new();
    for entry in it: map.iter()
        invariant
            obeys_key_model::<K>(),
            entries@.len() == it.index(),
            it.seq().no_duplicates(),
            forall|i: int|
                0 <= i < it.seq().len() ==> map@.contains_key(*(#[trigger] it.seq()[i]).0)
                    && map@[*it.seq()[i].0] == *it.seq()[i].1,
            forall|k: K| #[trigger] map@.contains_key(k) ==> it.seq().contains((&k, &map@[k])),
            forall|i: int|
                0 <= i < it.index() ==> (#[trigger] entries@[i]).0 == *it.seq()[i].0
                    && *entries@[i].1 == *it.seq()[i].1,
            forall|i: int|
                0 <= i < entries@.len() ==> map@.contains_key((#[trigger] entries@[i]).0)
                    && map@[entries@[i].0] == *entries@[i].1,
            forall|i: int, j: int|
                0 <= i < j < entries@.len() ==> (#[trigger] entries@[i]).0 != (
                #[trigger] entries@[j]).0,
            forall|k: K| #[trigger]
                map@.contains_key(k) ==> {
                    ||| exists|i: int| 0 <= i < entries@.len() && (#[trigger] entries@[i]).0 == k
                    ||| exists|i: int|
                        it.index() <= i < it.seq().len() && *(#[trigger] it.seq()[i]).0 == k
                },
    {
        let ghost before = entries@;
        entries.push((*entry.0, entry.1));
        proof {
            let n = it.index();
            assert forall|i: int| 0 <= i < n implies (#[trigger] entries@[i]).0
                != entries@[n].0 by {
                if entries@[i].0 == entries@[n].0 {
                    assert(it.seq()[i] == it.seq()[n]);
                }
            }
            assert forall|k: K| #[trigger] map@.contains_key(k) implies {
                ||| exists|i: int| 0 <= i < entries@.len() && (#[trigger] entries@[i]).0 == k
                ||| exists|i: int|
                    n + 1 <= i < it.seq().len() && *(#[trigger] it.seq()[i]).0 == k
            } by {
                if exists|i: int| 0 <= i < before.len() && (#[trigger] before[i]).0 == k {
                    let i = choose|i: int| 0 <= i < before.len() && (#[trigger] before[i]).0 == k;
                    assert(entries@[i].0 == k);
                } else {
                    let i = choose|i: int|
                        n <= i < it.seq().len() && *(#[trigger] it.seq()[i]).0 == k;
                    if i == n {
                        assert(entries@[n].0 == k);
                    }
                }
            }
        }
    }
    entries
}

/// Adds the entries of one map to another. Where both have a key, the added entry counts.
pub fn extend_map(map: &mut HashMap<u64, u64>, added: &HashMap<u64, u64>)
    ensures
        final(map)@ == old(map)@.union_prefer_right(added@),
{
    let entries = entries_of(added);
    let ghost before = map@;
    let mut i: usize = 0;
    while i < entries.len()
        invariant
            i <= entries@.len(),
            lists_map(entries@, added@),
            forall|k: u64| #[trigger]
                map@.contains_key(k) <==> before.contains_key(k) || exists|j: int|
                    0 <= j < i && (#[trigger] entries@[j]).0 == k,
            forall|j: int| 0 <= j < i ==> map@[(#[trigger] entries@[j]).0] == *entries@[j].1,
            forall|k: u64|
                before.contains_key(k) && (forall|j: int|
                    0 <= j < i ==> (#[trigger] entries@[j]).0 != k) ==> #[trigger] map@[k]
                    == before[k],
        decreases entries@.len() - i,
    {
        let ghost last = map@;
        let entry = entries[i];
        map.insert(entry.0, *entry.1);
        proof {
            assert forall|k: u64| #[trigger]
                map@.contains_key(k) <==> before.contains_key(k) || exists|j: int|
                    0 <= j < i + 1 && (#[trigger] entries@[j]).0 == k by {
                if k == entry.0 {
                    assert(entries@[i as int].0 == k);
                } else {
                    assert(map@.contains_key(k) == last.contains_key(k));
                }
            }
        }
        i += 1;
    }
    proof {
        let merged = before.union_prefer_right(added@);
        assert forall|k: u64| map@.contains_key(k) == #[trigger] merged.contains_key(k) by {
            assert(map@.contains_key(k) <==> before.contains_key(k) || exists|j: int|
                0 <= j < i && (#[trigger] entries@[j]).0 == k);
        }
        assert forall|k: u64| #[trigger] merged.contains_key(k) implies map@[k] == merged[k] by {
            if added@.contains_key(k) {
                let j = choose|j: int| 0 <= j < entries@.len() && (#[trigger] entries@[j]).0 == k;
                assert(map@[entries@[j].0] == *entries@[j].1);
            } else {
                assert(forall|j: int|
                    0 <= j < i ==> added@.contains_key((#[trigger] entries@[j]).0));
            }
        }
        assert(map@ =~= merged);
    }
}

} // verus!
