//! Ordered maps: their keys in order, and their values in place.

use std::collections::BTreeMap;
use vstd::laws_cmp::obeys_cmp;
use vstd::prelude::*;
use vstd::std_specs::btree::{increasing_seq, spec_btree_map_iter};
use vstd::std_specs::cmp::{OrdSpec, PartialOrdSpec};
use vstd::std_specs::iter::IteratorSpec;

verus! {

broadcast use vstd::std_specs::btree::group_btree_axioms;

/// Whether keys of this type are ordered in a way a map can rely on.
pub open spec fn ordered<K: Ord>() -> bool {
    obeys_cmp::<K>()
}

/// Whether every key comes before those that follow it.
pub open spec fn ascending<K: Ord>(keys: Seq<K>) -> bool {
    forall|i: int, j: int|
        #![trigger keys[i], keys[j]]
        0 <= i < j < keys.len() ==> keys[i].cmp_spec(&keys[j]) is Less
}

pub proof fn lemma_ascending_is_increasing<K: Ord>(keys: Seq<K>)
    requires
        ordered::<K>(),
    ensures
        ascending(keys) <==> increasing_seq(keys),
{
}

/// Keys picked out of an ascending sequence in the order they stand there are
/// ascending too, and no key is picked twice.
pub proof fn lemma_pick_ascending<K: Ord>(keys: Seq<K>, picked: Seq<K>, from: int)
    requires
        ordered::<K>(),
        ascending(keys),
        0 <= from < keys.len(),
        ascending(picked),
        forall|i: int| 0 <= i < picked.len() ==> keys.take(from).contains(#[trigger] picked[i]),
    ensures
        ascending(picked.push(keys[from])),
{
    let all = picked.push(keys[from]);
    assert forall|i: int, j: int|
        #![trigger all[i], all[j]]
        0 <= i < j < all.len() implies all[i].cmp_spec(&all[j]) is Less by {
        if j == picked.len() {
            assert(keys.take(from).contains(picked[i]));
            let at = choose|at: int| 0 <= at < from && keys.take(from)[at] == picked[i];
            assert(keys[at].cmp_spec(&keys[from]) is Less);
        }
    }
}

pub proof fn lemma_ascending_distinct<K: Ord>(keys: Seq<K>)
    requires
        ordered::<K>(),
        ascending(keys),
    ensures
        keys.no_duplicates(),
{
    reveal(vstd::laws_cmp::obeys_cmp_ord);
    reveal(vstd::laws_cmp::obeys_cmp_partial_ord);
    reveal(vstd::laws_cmp::obeys_partial_cmp_spec_properties);
    reveal(vstd::laws_eq::obeys_eq_spec_properties);
    assert forall|i: int, j: int| 0 <= i < j < keys.len() implies keys[i] != keys[j] by {
        let (x, y) = (keys[i], keys[j]);
        assert(x.cmp_spec(&y) is Less);
        if x == y {
            assert(x.partial_cmp_spec(&y) == Some(x.cmp_spec(&y)));
        }
    }
}

pub proof fn lemma_ascending_u32(keys: Seq<u32>)
    requires
        ascending(keys),
    ensures
        forall|i: int, j: int| 0 <= i < j < keys.len() ==> keys[i] < keys[j],
{
    assert forall|i: int, j: int| 0 <= i < j < keys.len() implies keys[i] < keys[j] by {
        assert(keys[i].cmp_spec(&keys[j]) is Less);
    }
}

pub proof fn lemma_ascending_u64(keys: Seq<u64>)
    requires
        ascending(keys),
    ensures
        forall|i: int, j: int| 0 <= i < j < keys.len() ==> keys[i] < keys[j],
{
    assert forall|i: int, j: int| 0 <= i < j < keys.len() implies keys[i] < keys[j] by {
        assert(keys[i].cmp_spec(&keys[j]) is Less);
    }
}

pub proof fn lemma_push_contains<A>(s: Seq<A>, a: A)
    ensures
        forall|b: A| #[trigger] s.push(a).contains(b) <==> s.contains(b) || a == b,
{
    assert forall|b: A| #[trigger] s.push(a).contains(b) <==> s.contains(b) || a == b by {
        if s.contains(b) {
            let j = choose|j: int| 0 <= j < s.len() && s[j] == b;
            assert(s.push(a)[j] == b);
        }
        if a == b {
            assert(s.push(a)[s.len() as int] == b);
        }
        if s.push(a).contains(b) {
            let j = choose|j: int| 0 <= j < s.len() + 1 && s.push(a)[j] == b;
            if j < s.len() {
                assert(s[j] == b);
            }
        }
    }
}

/// The keys of a map, in order.
pub fn keys_in_order<K: Ord + Copy, V>(entries: &BTreeMap<K, V>) -> (keys: Vec<K>)
    requires
        ordered::<K>(),
    ensures
        ascending(keys@),
        keys@.no_duplicates(),
        keys@.to_set() == entries@.dom(),
{
    let mut keys: Vec<K> = Vec::new();
    let ghost all = spec_btree_map_iter(entries).remaining();
    for (key, _value) in it: entries.iter()
        invariant
            it.seq() == all,
            keys@.len() == it.index(),
            forall|i: int| 0 <= i < keys@.len() ==> keys@[i] == *all[i].0,
    {
        keys.push(*key);
    }
    proof {
        assert(keys@ =~= all.map_values(|entry: (&K, &V)| *entry.0));
        lemma_ascending_is_increasing(keys@);
        lemma_ascending_distinct(keys@);
        assert forall|key: K| entries@.contains_key(key) implies keys@.contains(key) by {
            let i = choose|i: int|
                0 <= i < all.len() && all[i] == (&key, &entries@[key]);
            assert(keys@[i] == key);
        }
        assert forall|key: K| keys@.contains(key) implies entries@.contains_key(key) by {
            let i = choose|i: int| 0 <= i < keys@.len() && keys@[i] == key;
            assert(entries@.contains_key(*all[i].0));
        }
        assert(keys@.to_set() =~= entries@.dom());
    }
    keys
}

/// Calls `<[u64]>::sort_unstable`: the same numbers, in ascending order.
#[verifier::external_body]
pub(crate) fn sort_unstable(values: &mut Vec<u64>)
    ensures
        final(values)@.to_multiset() == old(values)@.to_multiset(),
        forall|i: int, j: int|
            0 <= i <= j < final(values)@.len() ==> final(values)@[i] <= final(values)@[j],
{
    values.sort_unstable()
}

/// Calls `BTreeMap::get_mut`: the value under `key` where there is one, to be
/// changed in place. The rest of the map stays as it was.
#[verifier::external_body]
pub(crate) fn entry_mut<'a, K: Ord, V>(map: &'a mut BTreeMap<K, V>, key: &K) -> (value: Option<
    &'a mut V,
>)
    requires
        ordered::<K>(),
    ensures
        value is Some <==> old(map)@.contains_key(*key),
        value is None ==> final(map)@ == old(map)@,
        value matches Some(value) ==> {
            &&& *value == old(map)@[*key]
            &&& final(map)@ == old(map)@.insert(*key, *final(value))
        },
{
    map.get_mut(key)
}

} // verus!
