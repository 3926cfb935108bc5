//! A map whose entries age out on the clock.
//!
//! Every key in this crate that could drive eviction — slot numbers, erasure
//! batch indices — comes off the wire unauthenticated, so nothing key-derived
//! (like the highest slot seen) can be trusted to: one spoofed shred would
//! freeze eviction for good. Entries therefore age out on when they were last
//! touched, and a cap bounds what spoofed keys can pin in memory until they do.

use crate::clock::{between, MILLISECOND};
use crate::maps::{entry_mut, keys_in_order, sort_unstable};
use std::collections::BTreeMap;
use vstd::prelude::*;

verus! {

broadcast use vstd::std_specs::btree::group_btree_axioms;

/// Sweeping every entry on every insert would dominate the packet path.
pub const SWEEP_INTERVAL: u64 = 200 * MILLISECOND;

pub struct AgedMap<K, V> {
    entries: BTreeMap<K, Aged<V>>,
    retention: u64,
    cap: usize,
    /// What the entries are, for whoever reports that the cap forced drops.
    label: &'static str,
    last_swept: u64,
}

pub struct Aged<V> {
    /// When this entry last saw an insert, which is what it ages out on.
    pub updated: u64,
    pub value: V,
}

/// What one call of [`AgedMap::sweep`] did.
pub struct Swept<K, V> {
    /// Whether the sweep ran at all, so anything that only needs refreshing per
    /// sweep (a gauge, say) can key off it.
    pub ran: bool,
    /// The entries that aged out, in key order.
    pub expired: Vec<(K, V)>,
    /// How many more the cap forced out.
    pub dropped: usize,
}

impl<K, V> View for AgedMap<K, V> {
    type V = Map<K, Aged<V>>;

    closed spec fn view(&self) -> Map<K, Aged<V>> {
        self.entries@
    }
}

/// The entries touched less than `retention` ago.
pub open spec fn fresh<K, V>(entries: Map<K, Aged<V>>, now: u64, retention: u64) -> Map<
    K,
    Aged<V>,
> {
    entries.restrict(
        Set::new(
            |key: K|
                entries.contains_key(key) && crate::clock::passed(entries[key].updated, now)
                    < retention,
        ),
    )
}

/// The keys touched at `at` or later.
spec fn touched_since<K, V>(entries: Map<K, Aged<V>>, at: u64) -> Set<K> {
    entries.dom().filter(|key: K| entries[key].updated >= at)
}

/// The keys touched later than `at`.
spec fn touched_after<K, V>(entries: Map<K, Aged<V>>, at: u64) -> Set<K> {
    entries.dom().filter(|key: K| entries[key].updated > at)
}

/// Whether `at` is when the `cap`-th most recently touched entry was touched.
spec fn is_cutoff<K, V>(entries: Map<K, Aged<V>>, cap: nat, at: u64) -> bool {
    &&& touched_since(entries, at).len() >= cap
    &&& touched_after(entries, at).len() < cap
}

/// Whether `kept` is what the cap leaves of `entries`: all of them where they
/// are within it, and as many as it allows where they are not, none of which was
/// touched before one that had to go. Which of several entries touched at one
/// moment stay is left open.
pub open spec fn is_capped<K, V>(
    entries: Map<K, Aged<V>>,
    cap: nat,
    kept: Map<K, Aged<V>>,
) -> bool {
    if entries.len() <= cap {
        kept == entries
    } else {
        &&& forall|key: K| #[trigger]
            kept.contains_key(key) ==> entries.contains_key(key) && kept[key] == entries[key]
        &&& kept.len() == cap
        &&& forall|stays: K, goes: K|
            #![trigger kept.contains_key(stays), entries.contains_key(goes)]
            kept.contains_key(stays) && entries.contains_key(goes) && !kept.contains_key(goes)
                ==> entries[goes].updated <= entries[stays].updated
    }
}

/// Whether `expired` lists, in key order, the entries of `entries` that are not
/// in `kept`.
pub open spec fn lists_expired<K: Ord, V>(
    entries: Map<K, Aged<V>>,
    kept: Map<K, Aged<V>>,
    expired: Seq<(K, V)>,
) -> bool {
    &&& crate::maps::ascending(expired.map_values(|entry: (K, V)| entry.0))
    &&& forall|key: K|
        entries.contains_key(key) && !kept.contains_key(key) <==> exists|i: int|
            0 <= i < expired.len() && #[trigger] expired[i].0 == key
    &&& forall|i: int|
        0 <= i < expired.len() ==> entries.contains_key(#[trigger] expired[i].0) && expired[i].1
            == entries[expired[i].0].value
}

impl<K: Ord + Copy, V> AgedMap<K, V> {
    /// Whether the keys are ordered in a way the map can rely on, as integers
    /// and tuples of them are.
    pub closed spec fn wf(&self) -> bool {
        crate::maps::ordered::<K>()
    }

    pub closed spec fn retention(&self) -> u64 {
        self.retention
    }

    pub closed spec fn cap(&self) -> usize {
        self.cap
    }

    pub closed spec fn last_swept(&self) -> u64 {
        self.last_swept
    }

    pub closed spec fn called(&self) -> Seq<char> {
        self.label@
    }

    /// Everything but the entries and when they were last swept is the same.
    pub open spec fn same_setup(&self, other: &Self) -> bool {
        &&& self.called() == other.called()
        &&& self.retention() == other.retention()
        &&& self.cap() == other.cap()
    }

    /// Whether a sweep at `now` has anything to do.
    pub open spec fn sweep_due(&self, now: u64) -> bool {
        ||| crate::clock::passed(self.last_swept(), now) >= SWEEP_INTERVAL
        ||| self@.len() > self.cap()
    }

    pub fn new(retention: u64, cap: usize, label: &'static str, now: u64) -> (map: Self)
        requires
            crate::maps::ordered::<K>(),
        ensures
            map.wf(),
            map@ == Map::<K, Aged<V>>::empty(),
            map.retention() == retention,
            map.cap() == cap,
            map.called() == label@,
            map.last_swept() == now,
    {
        AgedMap { entries: BTreeMap::new(), retention, cap, label, last_swept: now }
    }

    /// What the entries are.
    pub fn label(&self) -> (label: &'static str)
        ensures
            label@ == self.called(),
    {
        self.label
    }

    /// A map holds finitely many entries.
    pub proof fn lemma_finite(&self)
        ensures
            self@.dom().finite(),
    {
    }

    pub fn len(&self) -> (len: usize)
        requires
            self.wf(),
        ensures
            len == self@.len(),
    {
        self.entries.len()
    }

    pub fn get(&self, key: &K) -> (value: Option<&V>)
        requires
            self.wf(),
        ensures
            value is Some <==> self@.contains_key(*key),
            value matches Some(value) ==> *value == self@[*key].value,
    {
        match self.entries.get(key) {
            Some(aged) => Some(&aged.value),
            None => None,
        }
    }

    pub fn get_mut(&mut self, key: &K) -> (value: Option<&mut V>)
        requires
            old(self).wf(),
        ensures
            final(self).wf(),
            final(self).same_setup(old(self)),
            final(self).last_swept() == old(self).last_swept(),
            value is Some <==> old(self)@.contains_key(*key),
            value is None ==> final(self)@ == old(self)@,
            value matches Some(value) ==> {
                &&& *value == old(self)@[*key].value
                &&& final(self)@ == old(self)@.insert(
                    *key,
                    Aged { updated: old(self)@[*key].updated, value: *final(value) },
                )
            },
    {
        match entry_mut(&mut self.entries, key) {
            Some(aged) => Some(&mut aged.value),
            None => None,
        }
    }

    /// The entry under `key`, created if absent, stamped as touched either way.
    pub fn upsert(&mut self, key: K, now: u64, create: impl FnOnce() -> V) -> (value: &mut V)
        requires
            old(self).wf(),
            call_requires(create, ()),
        ensures
            final(self).wf(),
            final(self).same_setup(old(self)),
            final(self).last_swept() == old(self).last_swept(),
            old(self)@.contains_key(key) ==> *value == old(self)@[key].value,
            !old(self)@.contains_key(key) ==> call_ensures(create, (), *value),
            final(self)@ == old(self)@.insert(key, Aged { updated: now, value: *final(value) }),
    {
        if !self.entries.contains_key(&key) {
            let value = create();
            self.entries.insert(key, Aged { updated: now, value });
        }
        match entry_mut(&mut self.entries, &key) {
            Some(aged) => {
                aged.updated = now;
                &mut aged.value
            },
            None => unreached(),
        }
    }
}

/// Removes the entries under `keys` and hands them over in that order.
fn remove_all<K: Ord + Copy, V>(entries: &mut BTreeMap<K, Aged<V>>, keys: &Vec<K>) -> (removed: Vec<
    (K, V),
>)
    requires
        crate::maps::ordered::<K>(),
        keys@.no_duplicates(),
        forall|i: int| 0 <= i < keys@.len() ==> old(entries)@.contains_key(#[trigger] keys@[i]),
    ensures
        final(entries)@ == old(entries)@.remove_keys(keys@.to_set()),
        final(entries)@.len() == old(entries)@.len() - keys@.len(),
        removed@.len() == keys@.len(),
        forall|i: int|
            0 <= i < keys@.len() ==> (#[trigger] removed@[i]).0 == keys@[i] && removed@[i].1
                == old(entries)@[keys@[i]].value,
{
    let ghost before = entries@;
    let mut removed: Vec<(K, V)> = Vec::new();
    let mut i: usize = 0;
    assert(entries@ =~= before.remove_keys(keys@.take(0).to_set()));
    while i < keys.len()
        invariant
            i <= keys@.len(),
            crate::maps::ordered::<K>(),
            keys@.no_duplicates(),
            forall|j: int| 0 <= j < keys@.len() ==> before.contains_key(#[trigger] keys@[j]),
            entries@ == before.remove_keys(keys@.take(i as int).to_set()),
            removed@.len() == i,
            forall|j: int|
                0 <= j < i ==> (#[trigger] removed@[j]).0 == keys@[j] && removed@[j].1
                    == before[keys@[j]].value,
        decreases keys@.len() - i,
    {
        let key = keys[i];
        let ghost gone = keys@.take(i as int);
        assert(!gone.contains(key));
        assert(entries@.contains_key(key));
        if let Some(aged) = entries.remove(&key) {
            removed.push((key, aged.value));
        }
        proof {
            assert(keys@.take(i + 1) =~= gone.push(key));
            crate::maps::lemma_push_contains(gone, key);
            assert(gone.push(key).to_set() =~= gone.to_set().insert(key));
            assert(entries@ =~= before.remove_keys(keys@.take(i + 1).to_set()));
        }
        i = i + 1;
    }
    proof {
        assert(keys@.take(i as int) =~= keys@);
        keys@.unique_seq_to_set();
        let gone = keys@.to_set();
        assert forall|key: K| gone.contains(key) implies before.contains_key(key) by {
            let j = choose|j: int| 0 <= j < keys@.len() && keys@[j] == key;
            assert(before.contains_key(keys@[j]));
        }
        assert(before.dom() =~= entries@.dom().union(gone));
        assert(entries@.dom().disjoint(gone));
        vstd::set_lib::lemma_set_disjoint_lens(entries@.dom(), gone);
    }
    removed
}

/// Which entries a sweep lets go of.
enum Leaving {
    /// Those not touched for `retention` or longer.
    Expired { now: u64, retention: u64 },
    /// Those last touched before `cutoff`.
    Quiet { cutoff: u64 },
    /// Those last touched at `cutoff`.
    Level { cutoff: u64 },
}

impl Leaving {
    spec fn takes(&self, updated: u64) -> bool {
        match self {
            Leaving::Expired { now, retention } => crate::clock::passed(updated, *now)
                >= *retention,
            Leaving::Quiet { cutoff } => updated < *cutoff,
            Leaving::Level { cutoff } => updated == *cutoff,
        }
    }

    fn covers(&self, updated: u64) -> (covers: bool)
        ensures
            covers == self.takes(updated),
    {
        match self {
            Leaving::Expired { now, retention } => between(updated, *now) >= *retention,
            Leaving::Quiet { cutoff } => updated < *cutoff,
            Leaving::Level { cutoff } => updated == *cutoff,
        }
    }
}

/// The keys of the entries that are leaving, in order.
fn keys_leaving<K: Ord + Copy, V>(
    entries: &BTreeMap<K, Aged<V>>,
    leaving: &Leaving,
) -> (picked: Vec<K>)
    requires
        crate::maps::ordered::<K>(),
    ensures
        crate::maps::ascending(picked@),
        picked@.no_duplicates(),
        forall|key: K| #[trigger]
            picked@.contains(key) <==> entries@.contains_key(key) && leaving.takes(
                entries@[key].updated,
            ),
{
    let keys = keys_in_order(entries);
    let mut picked: Vec<K> = Vec::new();
    let mut i: usize = 0;
    while i < keys.len()
        invariant
            i <= keys@.len(),
            crate::maps::ordered::<K>(),
            crate::maps::ascending(keys@),
            keys@.to_set() == entries@.dom(),
            crate::maps::ascending(picked@),
            forall|key: K| #[trigger]
                picked@.contains(key) <==> keys@.take(i as int).contains(key) && leaving.takes(
                    entries@[key].updated,
                ),
        decreases keys@.len() - i,
    {
        let key = keys[i];
        proof {
            assert(keys@.contains(key));
            assert(keys@.to_set().contains(key));
            assert(entries@.contains_key(key));
            assert(keys@.take(i + 1) =~= keys@.take(i as int).push(key));
            crate::maps::lemma_push_contains(keys@.take(i as int), key);
            crate::maps::lemma_push_contains(picked@, key);
            assert forall|j: int| 0 <= j < picked@.len() implies keys@.take(i as int).contains(
                #[trigger] picked@[j],
            ) by {
                assert(picked@.contains(picked@[j]));
            }
        }
        if let Some(aged) = entries.get(&key) {
            if leaving.covers(aged.updated) {
                proof {
                    crate::maps::lemma_pick_ascending(keys@, picked@, i as int);
                }
                picked.push(key);
            }
        }
        i = i + 1;
    }
    proof {
        assert(keys@.take(i as int) =~= keys@);
        crate::maps::lemma_ascending_distinct(picked@);
        assert forall|key: K| #[trigger] keys@.contains(key) <==> entries@.contains_key(key) by {
            assert(keys@.to_set().contains(key) <==> entries@.dom().contains(key));
        }
    }
    picked
}

/// How many of `times` satisfy `p`.
spec fn count(times: Seq<u64>, p: spec_fn(u64) -> bool) -> nat
    decreases times.len(),
{
    if times.len() == 0 {
        0
    } else {
        count(times.drop_last(), p) + if p(times.last()) {
            1nat
        } else {
            0
        }
    }
}

/// Reordering does not change how many there are.
proof fn lemma_count_multiset(times: Seq<u64>, p: spec_fn(u64) -> bool)
    ensures
        times.to_multiset().filter(p).len() == count(times, p),
    decreases times.len(),
{
    broadcast use vstd::multiset::group_multiset_axioms;
    broadcast use vstd::seq_lib::group_to_multiset_ensures;

    if times.len() == 0 {
        assert(times.to_multiset().filter(p) =~= vstd::multiset::Multiset::empty());
    } else {
        let front = times.drop_last();
        lemma_count_multiset(front, p);
        assert(times =~= front.push(times.last()));
        let (all, rest) = (times.to_multiset(), front.to_multiset());
        assert(all == rest.insert(times.last()));
        if p(times.last()) {
            assert(all.filter(p) =~= rest.filter(p).insert(times.last()));
        } else {
            assert(all.filter(p) =~= rest.filter(p));
        }
    }
}

/// Counting times counts keys.
proof fn lemma_count_keys<K, V>(
    entries: Map<K, Aged<V>>,
    keys: Seq<K>,
    times: Seq<u64>,
    p: spec_fn(u64) -> bool,
)
    requires
        keys.no_duplicates(),
        keys.len() == times.len(),
        forall|i: int| 0 <= i < keys.len() ==> times[i] == entries[#[trigger] keys[i]].updated,
    ensures
        keys.to_set().filter(|key: K| p(entries[key].updated)).finite(),
        keys.to_set().filter(|key: K| p(entries[key].updated)).len() == count(times, p),
    decreases keys.len(),
{
    let chosen = keys.to_set().filter(|key: K| p(entries[key].updated));
    if keys.len() == 0 {
        assert(chosen =~= Set::empty());
    } else {
        let (front, last) = (keys.drop_last(), keys.last());
        let rest = front.to_set().filter(|key: K| p(entries[key].updated));
        lemma_count_keys(entries, front, times.drop_last(), p);
        assert(keys =~= front.push(last));
        crate::maps::lemma_push_contains(front, last);
        assert(!front.contains(last));
        assert(times.last() == entries[keys[keys.len() - 1]].updated);
        if p(times.last()) {
            assert(chosen =~= rest.insert(last));
        } else {
            assert(chosen =~= rest);
        }
    }
}

/// Where everything from `from` on satisfies `p`, at least that many do; where
/// nothing before `from` does, at most that many do.
proof fn lemma_count_bounds(times: Seq<u64>, p: spec_fn(u64) -> bool, from: int)
    requires
        0 <= from <= times.len(),
    ensures
        (forall|i: int| from <= i < times.len() ==> p(#[trigger] times[i])) ==> count(times, p)
            >= times.len() - from,
        (forall|i: int| 0 <= i < from ==> !p(#[trigger] times[i])) ==> count(times, p)
            <= times.len() - from,
    decreases times.len(),
{
    if times.len() > 0 {
        let front = times.drop_last();
        if from <= front.len() {
            lemma_count_bounds(front, p, from);
        } else {
            lemma_count_bounds(front, p, front.len() as int);
        }
        if forall|i: int| from <= i < times.len() ==> p(#[trigger] times[i]) {
            assert(forall|i: int| from <= i < front.len() ==> p(#[trigger] front[i]));
            if from < times.len() {
                assert(p(times[times.len() - 1]));
            }
        }
        if forall|i: int| 0 <= i < from ==> !p(#[trigger] times[i]) {
            assert forall|i: int| 0 <= i < from && i < front.len() implies !p(
                #[trigger] front[i],
            ) by {
                assert(!p(times[i]));
            }
            if from == times.len() {
                assert(!p(times[times.len() - 1]));
            }
        }
    }
}

/// When the `cap`-th most recently touched entry was touched.
fn cutoff<K: Ord + Copy, V>(entries: &BTreeMap<K, Aged<V>>, cap: usize) -> (at: u64)
    requires
        crate::maps::ordered::<K>(),
        0 < cap < entries@.len(),
    ensures
        is_cutoff(entries@, cap as nat, at),
{
    let keys = keys_in_order(entries);
    let mut updated: Vec<u64> = Vec::new();
    let mut i: usize = 0;
    while i < keys.len()
        invariant
            i <= keys@.len(),
            crate::maps::ordered::<K>(),
            keys@.to_set() == entries@.dom(),
            updated@.len() == i,
            forall|j: int| 0 <= j < i ==> updated@[j] == entries@[#[trigger] keys@[j]].updated,
        decreases keys@.len() - i,
    {
        let key = keys[i];
        proof {
            assert(keys@.contains(key));
            assert(keys@.to_set().contains(key));
            assert(entries@.contains_key(key));
        }
        if let Some(aged) = entries.get(&key) {
            updated.push(aged.updated);
        }
        i = i + 1;
    }
    let ghost times = updated@;
    sort_unstable(&mut updated);
    proof {
        keys@.unique_seq_to_set();
        times.to_multiset_ensures();
        updated@.to_multiset_ensures();
    }
    let at: u64 = updated[updated.len() - cap];
    proof {
        let from = updated@.len() - cap;
        let since = |time: u64| time >= at;
        let after = |time: u64| time > at;
        lemma_count_bounds(updated@, since, from);
        lemma_count_bounds(updated@, after, from + 1);
        lemma_count_multiset(updated@, since);
        lemma_count_multiset(updated@, after);
        lemma_count_multiset(times, since);
        lemma_count_multiset(times, after);
        lemma_count_keys(entries@, keys@, times, since);
        lemma_count_keys(entries@, keys@, times, after);
        assert(touched_since(entries@, at) =~= keys@.to_set().filter(
            |key: K| since(entries@[key].updated),
        ));
        assert(touched_after(entries@, at) =~= keys@.to_set().filter(
            |key: K| after(entries@[key].updated),
        ));
    }
    at
}

impl<K: Ord + Copy, V> AgedMap<K, V> {
    /// Ages out entries past retention, handing them over, then enforces the
    /// cap. Gated on an interval so callers can run it on every insert.
    ///
    /// Nothing legitimate reaches the cap, so when it is hit the entries to give
    /// up are the ones that have gone quiet.
    pub fn sweep(&mut self, now: u64) -> (swept: Swept<K, V>)
        requires
            old(self).wf(),
            old(self).cap() > 0,
        ensures
            final(self).wf(),
            final(self).same_setup(old(self)),
            final(self)@.len() <= old(self).cap(),
            swept.ran == old(self).sweep_due(now),
            !swept.ran ==> {
                &&& final(self)@ == old(self)@
                &&& final(self).last_swept() == old(self).last_swept()
                &&& swept.expired@.len() == 0
                &&& swept.dropped == 0
            },
            swept.ran ==> {
                let kept = fresh(old(self)@, now, old(self).retention());
                &&& lists_expired(old(self)@, kept, swept.expired@)
                &&& is_capped(kept, old(self).cap() as nat, final(self)@)
                &&& final(self).last_swept() == now
                &&& swept.dropped == kept.len() - final(self)@.len()
            },
    {
        if between(self.last_swept, now) < SWEEP_INTERVAL && self.entries.len() <= self.cap {
            return Swept { ran: false, expired: Vec::new(), dropped: 0 };
        }
        self.last_swept = now;
        let ghost before = self.entries@;
        let ghost kept = fresh(before, now, self.retention);

        let stale = keys_leaving(
            &self.entries,
            &Leaving::Expired { now, retention: self.retention },
        );
        proof {
            assert forall|i: int| 0 <= i < stale@.len() implies self.entries@.contains_key(
                #[trigger] stale@[i],
            ) by {
                assert(stale@.contains(stale@[i]));
            }
        }
        let expired = remove_all(&mut self.entries, &stale);
        proof {
            assert(self.entries@ =~= kept);
            assert(expired@.map_values(|entry: (K, V)| entry.0) =~= stale@);
            assert forall|key: K| before.contains_key(key) && !kept.contains_key(key) <==> exists|
                i: int,
            |
                0 <= i < expired@.len() && #[trigger] expired@[i].0 == key by {
                assert(stale@.contains(key) <==> before.contains_key(key) && !kept.contains_key(
                    key,
                ));
                if stale@.contains(key) {
                    let i = choose|i: int| 0 <= i < stale@.len() && stale@[i] == key;
                    assert(expired@[i].0 == key);
                }
                if exists|i: int| 0 <= i < expired@.len() && #[trigger] expired@[i].0 == key {
                    let i = choose|i: int|
                        0 <= i < expired@.len() && #[trigger] expired@[i].0 == key;
                    assert(stale@[i] == key);
                }
            }
        }

        let held: usize = self.entries.len();
        if held <= self.cap {
            return Swept { ran: true, expired, dropped: 0 };
        }
        let at: u64 = cutoff(&self.entries, self.cap);
        let quiet = keys_leaving(&self.entries, &Leaving::Quiet { cutoff: at });
        proof {
            assert forall|i: int| 0 <= i < quiet@.len() implies self.entries@.contains_key(
                #[trigger] quiet@[i],
            ) by {
                assert(quiet@.contains(quiet@[i]));
            }
        }
        let _quiet = remove_all(&mut self.entries, &quiet);
        let ghost since = self.entries@;
        // Entries touched at the cutoff itself may be more than there is room
        // for, so as many of them go as it takes.
        proof {
            assert(since =~= kept.restrict(touched_since(kept, at)));
            assert(since.dom() =~= touched_since(kept, at));
        }
        let surplus: usize = self.entries.len() - self.cap;
        let mut level = keys_leaving(&self.entries, &Leaving::Level { cutoff: at });
        proof {
            let after = touched_after(kept, at);
            level@.unique_seq_to_set();
            assert(since.dom() =~= after.union(level@.to_set()));
            assert(after.disjoint(level@.to_set()));
            vstd::set_lib::lemma_set_disjoint_lens(after, level@.to_set());
        }
        let ghost tied = level@;
        level.truncate(surplus);
        proof {
            assert forall|i: int| 0 <= i < level@.len() implies self.entries@.contains_key(
                #[trigger] level@[i],
            ) by {
                assert(level@[i] == tied[i]);
                assert(tied.contains(tied[i]));
            }
            assert(level@.no_duplicates());
        }
        let _level = remove_all(&mut self.entries, &level);
        proof {
            assert forall|stays: K, goes: K|
                #![trigger self.entries@.contains_key(stays), kept.contains_key(goes)]
                self.entries@.contains_key(stays) && kept.contains_key(goes)
                    && !self.entries@.contains_key(goes) implies kept[goes].updated
                <= kept[stays].updated by {
                assert(since.contains_key(stays));
                if since.contains_key(goes) {
                    assert(level@.to_set().contains(goes));
                    let i = choose|i: int| 0 <= i < level@.len() && level@[i] == goes;
                    assert(tied[i] == goes);
                    assert(tied.contains(goes));
                }
            }
        }
        Swept { ran: true, expired, dropped: held - self.cap }
    }
}

/// The cap holds: no more than `cap` entries outlive a sweep, exactly `cap` where
/// there were that many, and nothing comes of it that was not there.
pub proof fn a_sweep_enforces_the_cap<K, V>(
    entries: Map<K, Aged<V>>,
    cap: nat,
    kept: Map<K, Aged<V>>,
)
    requires
        is_capped(entries, cap, kept),
    ensures
        kept.len() <= cap,
        entries.len() >= cap ==> kept.len() == cap,
        kept.submap_of(entries),
{
}

/// Whether an entry ages out is settled by when it was touched and nothing
/// else, so no other key, spoofed or not, can keep it or cost it its place.
pub proof fn no_key_ages_out_another<K, V>(
    entries: Map<K, Aged<V>>,
    others: Map<K, Aged<V>>,
    key: K,
    now: u64,
    retention: u64,
)
    requires
        entries.contains_key(key),
        others.contains_key(key),
        entries[key] == others[key],
    ensures
        fresh(entries, now, retention).contains_key(key) <==> fresh(
            others,
            now,
            retention,
        ).contains_key(key),
        fresh(entries, now, retention).contains_key(key) <==> crate::clock::passed(
            entries[key].updated,
            now,
        ) < retention,
{
}

impl<K: Ord + Copy, V> AgedMap<K, V> {
    /// Every value held, in key order.
    pub fn values(&self) -> (values: Vec<&V>)
        requires
            self.wf(),
        ensures
            exists|keys: Seq<K>| #[trigger]
                crate::maps::ascending(keys) && keys.to_set() == self@.dom() && values@.len()
                    == keys.len() && forall|i: int|
                    0 <= i < keys.len() ==> *(#[trigger] values@[i]) == self@[keys[i]].value,
    {
        let keys = keys_in_order(&self.entries);
        let mut values: Vec<&V> = Vec::new();
        let mut i: usize = 0;
        while i < keys.len()
            invariant
                i <= keys@.len(),
                crate::maps::ordered::<K>(),
                keys@.to_set() == self@.dom(),
                values@.len() == i,
                forall|j: int| 0 <= j < i ==> *(#[trigger] values@[j]) == self@[keys@[j]].value,
            decreases keys@.len() - i,
        {
            proof {
                assert(keys@.contains(keys@[i as int]));
                assert(keys@.to_set().contains(keys@[i as int]));
            }
            if let Some(aged) = self.entries.get(&keys[i]) {
                values.push(&aged.value);
            }
            i = i + 1;
        }
        values
    }
}

/// An entry lives for as long as it is touched, and no longer. One touched less than
/// `retention` before a sweep outlives it, where the cap leaves room for all, and is
/// not among what the sweep hands over; one that was not is gone, and handed over
/// once.
pub proof fn entries_live_as_long_as_they_are_touched<K: Ord, V>(
    entries: Map<K, Aged<V>>,
    now: u64,
    retention: u64,
    cap: nat,
    kept: Map<K, Aged<V>>,
    expired: Seq<(K, V)>,
    key: K,
)
    requires
        is_capped(fresh(entries, now, retention), cap, kept),
        lists_expired(entries, fresh(entries, now, retention), expired),
        entries.dom().finite(),
        entries.contains_key(key),
        entries[key].updated <= now,
    ensures
        now - entries[key].updated < retention ==> {
            &&& entries.len() <= cap ==> kept.contains_key(key) && kept[key] == entries[key]
            &&& forall|i: int| 0 <= i < expired.len() ==> (#[trigger] expired[i]).0 != key
        },
        now - entries[key].updated >= retention ==> {
            &&& !kept.contains_key(key)
            &&& exists|i: int|
                0 <= i < expired.len() && #[trigger] expired[i] == (key, entries[key].value)
        },
{
    let live = fresh(entries, now, retention);
    assert(live.dom().subset_of(entries.dom()));
    vstd::set_lib::lemma_len_subset(live.dom(), entries.dom());
    if now - entries[key].updated < retention {
        assert(live.contains_key(key));
        assert forall|i: int| 0 <= i < expired.len() implies (#[trigger] expired[i]).0 != key by {
            if expired[i].0 == key {
                assert(entries.contains_key(key) && !live.contains_key(key));
            }
        }
    } else {
        assert(!live.contains_key(key));
        let i = choose|i: int| 0 <= i < expired.len() && #[trigger] expired[i].0 == key;
        assert(expired[i] == (key, entries[key].value));
        if kept.contains_key(key) {
            assert(live.contains_key(key));
        }
    }
}

/// Where there are more than the cap allows, the ones touched last stay: an entry
/// later than `cap` others were touched outlives the sweep whatever else there is.
pub proof fn the_cap_takes_the_quiet_ones<K, V>(
    entries: Map<K, Aged<V>>,
    cap: nat,
    kept: Map<K, Aged<V>>,
    stays: K,
    goes: K,
)
    requires
        is_capped(entries, cap, kept),
        entries.contains_key(stays),
        entries.contains_key(goes),
        entries[goes].updated < entries[stays].updated,
        kept.contains_key(goes),
    ensures
        kept.contains_key(stays),
        kept[stays] == entries[stays],
{
}

/// A sweep runs every 200 milliseconds, and at once where the cap is passed.
pub proof fn sweeps_run_on_an_interval<K: Ord + Copy, V>(map: AgedMap<K, V>, now: u64)
    requires
        map.last_swept() <= now,
    ensures
        map.sweep_due(now) <==> now - map.last_swept() >= 200_000_000 || map@.len() > map.cap(),
{
}

/// A sweep keeps as many of the live entries as the cap allows, all of them where it
/// allows all, each as it is; it hands over those that are not live, and says how many
/// live ones had to go.
pub proof fn a_sweep_keeps_as_many_as_it_may<K: Ord + Copy, V>(
    map: &mut AgedMap<K, V>,
    now: u64,
    swept: Swept<K, V>,
    live: Set<K>,
)
    requires
        call_ensures(AgedMap::<K, V>::sweep, (map, now), swept),
        old(map).last_swept() <= now,
        now - old(map).last_swept() >= 200_000_000,
        old(map)@.dom().finite(),
        forall|key: K| #[trigger]
            live.contains(key) <==> old(map)@.contains_key(key) && old(map).retention() > 0 && now
                < old(map)@[key].updated + old(map).retention(),
    ensures
        swept.ran,
        final(map)@.len() == if live.len() <= old(map).cap() {
            live.len() as int
        } else {
            old(map).cap() as int
        },
        forall|key: K| #[trigger]
            final(map)@.contains_key(key) ==> live.contains(key) && final(map)@[key] == old(
                map
            )@[key],
        swept.dropped == live.len() - final(map)@.len(),
        forall|i: int|
            0 <= i < swept.expired@.len() ==> old(map)@.contains_key(
                (#[trigger] swept.expired@[i]).0,
            ) && !live.contains(swept.expired@[i].0) && swept.expired@[i].1 == old(
                map
            )@[swept.expired@[i].0].value,
        forall|key: K| #[trigger]
            old(map)@.contains_key(key) && !live.contains(key) ==> exists|i: int|
                0 <= i < swept.expired@.len() && (#[trigger] swept.expired@[i]).0 == key,
        final(map).last_swept() == now,
{
    let kept = fresh(old(map)@, now, old(map).retention());
    assert(kept.dom() =~= live) by {
        assert forall|key: K| kept.dom().contains(key) <==> live.contains(key) by {
            assert(live.contains(key) || !live.contains(key));
        }
    }
    assert forall|key: K| #[trigger] final(map)@.contains_key(key) implies live.contains(key)
        && final(map)@[key] == old(map)@[key] by {
        assert(kept.contains_key(key));
    }
    assert forall|i: int| 0 <= i < swept.expired@.len() implies old(map)@.contains_key(
        (#[trigger] swept.expired@[i]).0,
    ) && !live.contains(swept.expired@[i].0) && swept.expired@[i].1 == old(
        map
    )@[swept.expired@[i].0].value by {
        let key = swept.expired@[i].0;
        assert(old(map)@.contains_key(key) && !kept.contains_key(key));
    }
    assert forall|key: K| #[trigger] old(map)@.contains_key(key) && !live.contains(
        key,
    ) implies exists|i: int|
        0 <= i < swept.expired@.len() && (#[trigger] swept.expired@[i]).0 == key by {
        assert(!kept.contains_key(key));
    }
}

} // verus!
