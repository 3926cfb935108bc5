//! Reed-Solomon recovery of data shreds lost in turbine.
//!
//! The leader groups shreds into erasure batches, typically 32 data shreds and
//! 32 coding shreds, and any `num_data` of the 64 reconstruct the batch. We
//! already receive the coding shreds, so gaps can be filled locally without
//! asking anyone for a repair.

use crate::aged::{fresh, is_capped, lists_expired, Aged, AgedMap};
use crate::clock::{Clock, SECOND};
use crate::fec::{
    all_at_hand, at_hand, bodies, drawn_from, encodable, lost_shards, missing, parity, Attempt,
    AttemptView, FecSet, FecView, Layout, MAX_SHARDS,
};
use crate::metrics::Event;
use crate::shred::{CodingShred, CodingView, DataShred, DataView};
use vstd::prelude::*;

verus! {

broadcast use {vstd::std_specs::btree::group_btree_axioms, vstd::laws_cmp::group_laws_cmp};

/// Turbine delivers a batch within its slot, so one still short of shreds
/// after this long is never completing. Recovered shreds have to land in a
/// slot the assembler still holds, which is far longer than this.
pub const BATCH_LIFETIME: u64 = 2 * SECOND;

/// A slot holds a few dozen batches, so this leaves room for the batches in
/// flight while capping what spoofed slot numbers can pin in memory.
pub const MAX_FEC_SETS: usize = 1024;

pub struct Recovery {
    pub sets: AgedMap<(u64, u32), FecSet>,
    /// What there is to say about the shreds inserted so far, until somebody
    /// takes it.
    pub events: Vec<Event>,
    pub clock: Clock,
}

/// What there is to say about an erasure batch being let go: nothing, unless it
/// was still waiting for shreds.
pub open spec fn leaving_events(set: FecView) -> Seq<Event> {
    if !set.resolved && set.layout is Some {
        seq![Event::FecSetIncomplete]
    } else {
        Seq::empty()
    }
}

/// The same for a run of batches, one after the other.
pub open spec fn all_leaving_events(sets: Seq<((u64, u32), FecSet)>) -> Seq<Event>
    decreases sets.len(),
{
    if sets.len() == 0 {
        Seq::empty()
    } else {
        all_leaving_events(sets.drop_last()) + leaving_events(sets.last().1@)
    }
}

/// What there is to say about an attempt to recover a batch.
pub open spec fn attempt_events(attempt: AttemptView) -> Seq<Event> {
    match attempt {
        AttemptView::Untried => Seq::empty(),
        AttemptView::Failed => seq![Event::FecSetIncomplete],
        AttemptView::Rebuilt(rebuilt) => seq![Event::Recovered(rebuilt.len() as u64)],
    }
}

/// The bodies an attempt yields.
pub open spec fn attempt_bodies(attempt: AttemptView) -> Seq<Seq<u8>> {
    match attempt {
        AttemptView::Rebuilt(rebuilt) => rebuilt,
        _ => Seq::empty(),
    }
}

/// Where in its erasure batch a data shred stands, if it can stand there at all.
pub open spec fn offset_of(shred: DataView) -> Option<usize> {
    if shred.fec_set_index <= shred.index && shred.index - shred.fec_set_index < MAX_SHARDS {
        Some((shred.index - shred.fec_set_index) as usize)
    } else {
        None
    }
}

/// Whether a coding shred describes a batch it could belong to.
pub open spec fn plausible(shred: CodingView) -> bool {
    &&& 0 < shred.num_data
    &&& 0 < shred.num_coding
    &&& shred.num_data + shred.num_coding <= MAX_SHARDS
    &&& shred.position < shred.num_coding
}

/// The layout a coding shred gives its batch.
pub open spec fn layout_of(shred: CodingView) -> Layout {
    Layout {
        num_data: shred.num_data,
        num_coding: shred.num_coding,
        shard_len: shred.shard.len() as usize,
    }
}

impl Recovery {
    /// Every layout held is one a batch can have, and there is a cap on how many
    /// batches there are.
    pub closed spec fn wf(&self) -> bool {
        &&& self.sets.wf()
        &&& self.sets.cap() == MAX_FEC_SETS
        &&& forall|key: (u64, u32)| #[trigger]
            self.sets@.contains_key(key) ==> self.sets@[key].value@.sound()
    }

    /// What is held of a batch.
    pub open spec fn set(&self, key: (u64, u32)) -> FecView {
        if self.sets@.contains_key(key) {
            self.sets@[key].value@
        } else {
            FecView::empty()
        }
    }

    /// Whether `post` is this recovery once batches past their time have been
    /// let go.
    pub open spec fn evicted(self, now: u64, post: Recovery) -> bool {
        &&& post.clock == self.clock
        &&& post.sets.same_setup(&self.sets)
        &&& if self.sets.sweep_due(now) {
            let kept = fresh(self.sets@, now, self.sets.retention());
            &&& is_capped(kept, self.sets.cap() as nat, post.sets@)
            &&& post.sets.last_swept() == now
            &&& exists|expired: Seq<((u64, u32), FecSet)>| #[trigger]
                lists_expired(self.sets@, kept, expired) && post.events@ == self.events@
                    + all_leaving_events(expired)
        } else {
            &&& post.sets@ == self.sets@
            &&& post.sets.last_swept() == self.sets.last_swept()
            &&& post.events@ == self.events@
        }
    }

    /// Whether `post` is this recovery once a shred of the batch under `key` has
    /// been taken in, where `stored` is that batch with the shred in it, and
    /// `rebuilt` what could be recovered with it. A batch that is resolved
    /// already takes nothing in.
    pub open spec fn took_in(
        self,
        key: (u64, u32),
        stored: FecView,
        now: u64,
        post: Recovery,
        rebuilt: Seq<Seq<u8>>,
    ) -> bool {
        let before = self.set(key);
        let set = post.sets@[key].value;
        &&& post.clock == self.clock
        &&& post.sets.same_setup(&self.sets)
        &&& post.sets.last_swept() == self.sets.last_swept()
        &&& post.sets@ == self.sets@.insert(key, Aged { updated: now, value: set })
        &&& if before.resolved {
            &&& set@ == before
            &&& post.events@ == self.events@
            &&& rebuilt == Seq::<Seq<u8>>::empty()
        } else {
            &&& set@ == stored.recover().0
            &&& post.events@ == self.events@ + attempt_events(stored.recover().1)
            &&& rebuilt == attempt_bodies(stored.recover().1)
            &&& stored.recover().1 is Rebuilt ==> stored.restores(rebuilt)
        }
    }

    /// Whether `post` is this recovery once it has dealt with a data shred
    /// arriving at `now`, and `rebuilt` the bodies that made recoverable.
    pub open spec fn took_data(
        self,
        shred: DataView,
        now: u64,
        post: Recovery,
        rebuilt: Seq<Seq<u8>>,
    ) -> bool {
        let key = (shred.slot, shred.fec_set_index);
        match offset_of(shred) {
            Some(offset) => exists|evicted: Recovery| #[trigger]
                self.evicted(now, evicted) && evicted.took_in(
                    key,
                    evicted.set(key).with_data(offset, shred.shard),
                    now,
                    post,
                    rebuilt,
                ),
            None => self == post && rebuilt == Seq::<Seq<u8>>::empty(),
        }
    }

    /// The same for a coding shred.
    pub open spec fn took_coding(
        self,
        shred: CodingView,
        now: u64,
        post: Recovery,
        rebuilt: Seq<Seq<u8>>,
    ) -> bool {
        let key = (shred.slot, shred.fec_set_index);
        if plausible(shred) {
            exists|evicted: Recovery| #[trigger]
                self.evicted(now, evicted) && evicted.took_in(
                    key,
                    evicted.set(key).with_coding(shred.position, layout_of(shred), shred.shard),
                    now,
                    post,
                    rebuilt,
                )
        } else {
            self == post && rebuilt == Seq::<Seq<u8>>::empty()
        }
    }

    pub fn new(retention: u64, clock: Clock) -> (recovery: Recovery)
        ensures
            recovery.wf(),
            recovery.sets@ == Map::<(u64, u32), Aged<FecSet>>::empty(),
            recovery.sets.retention() == if retention <= BATCH_LIFETIME {
                retention
            } else {
                BATCH_LIFETIME
            },
            recovery.events@.len() == 0,
            recovery.clock == clock,
            clock.can_read(recovery.sets.last_swept()),
    {
        let lifetime: u64 = if retention <= BATCH_LIFETIME {
            retention
        } else {
            BATCH_LIFETIME
        };
        Recovery {
            sets: AgedMap::new(lifetime, MAX_FEC_SETS, "erasure batches", clock.now()),
            events: Vec::new(),
            clock,
        }
    }

    /// Batches age out on the same clock as the slots they belong to, so a
    /// recovered shred always lands in a slot the assembler still holds. Slot
    /// numbers cannot drive this: they arrive unauthenticated, and anchoring
    /// on the highest one seen would let a single spoofed shred freeze eviction.
    fn evict(&mut self, now: u64)
        requires
            old(self).wf(),
        ensures
            final(self).wf(),
            old(self).evicted(now, *final(self)),
            final(self).clock == old(self).clock,
    {
        let ghost before = *self;
        let swept = self.sets.sweep(now);
        if !swept.ran {
            return ;
        }
        let expired = swept.expired;
        let ghost sets = self.sets;
        assert(self.events@ =~= before.events@ + all_leaving_events(expired@.take(0)));
        let mut i: usize = 0;
        while i < expired.len()
            invariant
                i <= expired@.len(),
                self.sets == sets,
                self.clock == before.clock,
                self.events@ == before.events@ + all_leaving_events(expired@.take(i as int)),
            decreases expired@.len() - i,
        {
            let set = &expired[i].1;
            proof {
                assert(expired@.take(i + 1).drop_last() =~= expired@.take(i as int));
                assert(expired@.take(i + 1).last() == expired@[i as int]);
            }
            let ghost noted = self.events@;
            if !set.resolved && set.layout.is_some() {
                self.events.push(Event::FecSetIncomplete);
            }
            assert(self.events@ =~= noted + leaving_events(set@));
            i = i + 1;
        }
        assert(expired@.take(i as int) =~= expired@);
    }

    /// Tries to recover a batch that has just taken in a shred.
    fn attempt(set: &mut FecSet, events: &mut Vec<Event>) -> (rebuilt: Vec<Vec<u8>>)
        requires
            old(set)@.sound(),
        ensures
            final(set)@ == old(set)@.recover().0,
            final(events)@ == old(events)@ + attempt_events(old(set)@.recover().1),
            bodies(rebuilt@) == attempt_bodies(old(set)@.recover().1),
            old(set)@.recover().1 is Rebuilt ==> old(set)@.restores(bodies(rebuilt@)),
    {
        let ghost noted = events@;
        let attempt = set.recover();
        let ghost view = attempt@;
        let rebuilt: Vec<Vec<u8>> = match attempt {
            Attempt::Untried => Vec::new(),
            Attempt::Failed => {
                events.push(Event::FecSetIncomplete);
                Vec::new()
            },
            Attempt::Rebuilt(rebuilt) => {
                events.push(Event::Recovered(rebuilt.len() as u64));
                rebuilt
            },
        };
        proof {
            assert(events@ =~= noted + attempt_events(view));
            assert(bodies(rebuilt@) =~= attempt_bodies(view));
        }
        rebuilt
    }

    /// Returns the bodies of any data shreds this insert made recoverable.
    pub fn insert_data(&mut self, shred: &DataShred<'_>) -> (rebuilt: Vec<Vec<u8>>)
        requires
            old(self).wf(),
        ensures
            final(self).wf(),
            exists|now: u64|
                old(self).clock.can_read(now) && #[trigger] old(self).took_data(
                    shred@,
                    now,
                    *final(self),
                    bodies(rebuilt@),
                ),
    {
        let now: u64 = self.clock.now();
        self.insert_data_at(shred, now)
    }

    /// The same at a given time.
    pub fn insert_data_at(&mut self, shred: &DataShred<'_>, now: u64) -> (rebuilt: Vec<Vec<u8>>)
        requires
            old(self).wf(),
        ensures
            final(self).wf(),
            old(self).took_data(shred@, now, *final(self), bodies(rebuilt@)),
    {
        if shred.fec_set_index > shred.index || (shred.index - shred.fec_set_index) as usize
            >= MAX_SHARDS {
            let rebuilt: Vec<Vec<u8>> = Vec::new();
            assert(bodies(rebuilt@) =~= Seq::empty());
            return rebuilt;
        }
        let offset: usize = (shred.index - shred.fec_set_index) as usize;
        self.evict(now);
        let ghost evicted = *self;
        let key = (shred.slot, shred.fec_set_index);
        let set = self.sets.upsert(key, now, FecSet::new);
        assert(set@ == evicted.set(key));
        if set.resolved {
            let rebuilt: Vec<Vec<u8>> = Vec::new();
            proof {
                assert(bodies(rebuilt@) =~= Seq::empty());
                assert(old(self).evicted(now, evicted));
            }
            return rebuilt;
        }
        set.store_data(offset, shred.shard);
        let rebuilt = Self::attempt(set, &mut self.events);
        assert(old(self).evicted(now, evicted));
        rebuilt
    }

    /// Returns the bodies of any data shreds this insert made recoverable.
    pub fn insert_coding(&mut self, shred: &CodingShred<'_>) -> (rebuilt: Vec<Vec<u8>>)
        requires
            old(self).wf(),
        ensures
            final(self).wf(),
            exists|now: u64|
                old(self).clock.can_read(now) && #[trigger] old(self).took_coding(
                    shred@,
                    now,
                    *final(self),
                    bodies(rebuilt@),
                ),
    {
        let now: u64 = self.clock.now();
        self.insert_coding_at(shred, now)
    }

    /// The same at a given time.
    pub fn insert_coding_at(&mut self, shred: &CodingShred<'_>, now: u64) -> (rebuilt: Vec<Vec<u8>>)
        requires
            old(self).wf(),
        ensures
            final(self).wf(),
            old(self).took_coding(shred@, now, *final(self), bodies(rebuilt@)),
    {
        if shred.num_data == 0 || shred.num_coding == 0 || shred.num_data > MAX_SHARDS
            || shred.num_coding > MAX_SHARDS - shred.num_data || shred.position
            >= shred.num_coding {
            let rebuilt: Vec<Vec<u8>> = Vec::new();
            assert(bodies(rebuilt@) =~= Seq::empty());
            return rebuilt;
        }
        self.evict(now);
        let ghost evicted = *self;
        let key = (shred.slot, shred.fec_set_index);
        let set = self.sets.upsert(key, now, FecSet::new);
        assert(set@ == evicted.set(key));
        if set.resolved {
            let rebuilt: Vec<Vec<u8>> = Vec::new();
            proof {
                assert(bodies(rebuilt@) =~= Seq::empty());
                assert(old(self).evicted(now, evicted));
            }
            return rebuilt;
        }
        let layout = Layout {
            num_data: shred.num_data,
            num_coding: shred.num_coding,
            shard_len: shred.shard.len(),
        };
        set.store_coding(shred.position, layout, shred.shard);
        let rebuilt = Self::attempt(set, &mut self.events);
        assert(old(self).evicted(now, evicted));
        rebuilt
    }

    /// What there is to say about the shreds inserted since the last call.
    pub fn take_events(&mut self) -> (events: Vec<Event>)
        requires
            old(self).wf(),
        ensures
            final(self).wf(),
            events@ == old(self).events@,
            final(self).events@.len() == 0,
            final(self).sets == old(self).sets,
            final(self).clock == old(self).clock,
    {
        let mut events: Vec<Event> = Vec::new();
        std::mem::swap(&mut events, &mut self.events);
        events
    }
}

/// A batch is tried once: whatever an attempt comes to, the batch is resolved by
/// it, and a resolved batch yields nothing for any shred that follows.
pub proof fn one_attempt_per_batch(
    recovery: Recovery,
    key: (u64, u32),
    stored: FecView,
    now: u64,
    post: Recovery,
    rebuilt: Seq<Seq<u8>>,
)
    requires
        recovery.took_in(key, stored, now, post, rebuilt),
    ensures
        recovery.set(key).resolved ==> rebuilt.len() == 0 && post.set(key) == recovery.set(key),
        rebuilt.len() > 0 ==> post.set(key).resolved,
        !recovery.set(key).resolved && stored.recover().1 is Failed ==> post.set(key).resolved,
{
}

/// What comes of a batch whose shards are a leader's are the shreds that leader
/// wrote and turbine lost.
pub proof fn what_is_rebuilt_is_what_was_lost(
    recovery: Recovery,
    key: (u64, u32),
    stored: FecView,
    now: u64,
    post: Recovery,
    rebuilt: Seq<Seq<u8>>,
    layout: Layout,
    data: Seq<Seq<u8>>,
)
    requires
        recovery.took_in(key, stored, now, post, rebuilt),
        rebuilt.len() > 0,
        stored.layout == Some(layout),
        drawn_from(stored.gathered(layout), data + parity(data, layout.num_coding as nat)),
        encodable(data, layout.num_data as int),
    ensures
        rebuilt == lost_shards(
            stored.gathered(layout),
            all_at_hand(data),
            layout.num_data as int,
        ),
{
}

/// Shreds of one erasure batch leave every other as it was.
pub proof fn batches_do_not_disturb_each_other(
    recovery: Recovery,
    key: (u64, u32),
    stored: FecView,
    now: u64,
    post: Recovery,
    rebuilt: Seq<Seq<u8>>,
    other: (u64, u32),
)
    requires
        recovery.took_in(key, stored, now, post, rebuilt),
        other != key,
    ensures
        post.set(other) == recovery.set(other),
{
}

/// A batch whose data shreds all arrived has nothing to recover, and one short
/// of as many shreds as it has data shreds cannot be recovered yet: neither
/// yields anything.
pub proof fn nothing_is_rebuilt_without_need_or_means(set: FecView, layout: Layout)
    requires
        set.layout == Some(layout),
        ({
            let len = layout.shard_len as nat;
            let have_data = crate::fec::usable(set.data, layout.num_data as int, len);
            let have_coding = crate::fec::usable(set.coding, layout.num_coding as int, len);
            have_data == layout.num_data || have_data + have_coding < layout.num_data
        }),
    ensures
        attempt_bodies(set.recover().1).len() == 0,
        attempt_events(set.recover().1).len() == 0,
{
}

/// A coding shred that brings what is at hand of its batch to as many shards as the
/// batch has data shreds brings every missing one of them back, whatever of the
/// batch came before it and however it came. That is said once, and the batch is
/// done with.
#[verifier::spinoff_prover]
#[verifier::rlimit(60)]
pub proof fn a_coding_shred_can_bring_back_the_rest(
    recovery: Recovery,
    shred: CodingView,
    now: u64,
    post: Recovery,
    rebuilt: Seq<Seq<u8>>,
    data: Set<int>,
    coding: Set<int>,
)
    requires
        recovery.took_coding(shred, now, post, rebuilt),
        !recovery.sets.sweep_due(now),
        0 < shred.num_data,
        shred.position < shred.num_coding,
        shred.num_data + shred.num_coding <= 128,
        0 < shred.shard.len() <= usize::MAX,
        ({
            let before = recovery.set((shred.slot, shred.fec_set_index));
            let len = shred.shard.len();
            let layout = Layout {
                num_data: shred.num_data,
                num_coding: shred.num_coding,
                shard_len: len as usize,
            };
            &&& !before.resolved
            &&& !before.coding.contains_key(shred.position)
            &&& at_hand(before.data, data, shred.num_data as int, len)
            &&& at_hand(before.coding, coding, shred.num_coding as int, len)
            &&& data.len() + coding.len() + 1 >= shred.num_data
            &&& !missing(before, layout).is_empty()
        }),
    ensures
        ({
            let before = recovery.set((shred.slot, shred.fec_set_index));
            let layout = Layout {
                num_data: shred.num_data,
                num_coding: shred.num_coding,
                shard_len: shred.shard.len() as usize,
            };
            &&& rebuilt.len() == missing(before, layout).len() > 0
            &&& post.events@ == recovery.events@.push(Event::Recovered(rebuilt.len() as u64))
            &&& post.set((shred.slot, shred.fec_set_index)).resolved
        }),
{
    let key = (shred.slot, shred.fec_set_index);
    let before = recovery.set(key);
    let layout = layout_of(shred);
    let stored = before.with_coding(shred.position, layout, shred.shard);
    let evicted = choose|evicted: Recovery| #[trigger]
        recovery.evicted(now, evicted) && evicted.took_in(
            key,
            evicted.set(key).with_coding(shred.position, layout, shred.shard),
            now,
            post,
            rebuilt,
        );
    assert(evicted.set(key) == before);
    let more = coding.insert(shred.position as int);
    assert(!coding.contains(shred.position as int)) by {
        if coding.contains(shred.position as int) {
            assert(before.coding.contains_key(shred.position));
        }
    }
    assert(at_hand(stored.coding, more, shred.num_coding as int, shred.shard.len())) by {
        assert forall|i: int| #[trigger] more.contains(i) implies 0 <= i < shred.num_coding && i
            <= usize::MAX && stored.coding.contains_key(i as usize)
            && stored.coding[i as usize].len() == shred.shard.len() by {
            if i != shred.position {
                assert(coding.contains(i));
            }
        }
    }
    assert(missing(stored, layout) =~= missing(before, layout));
    crate::fec::any_num_data_shards_are_enough(stored, layout, data, more);
    assert(post.events@ =~= recovery.events@.push(Event::Recovered(rebuilt.len() as u64)));
}

/// And so does a data shred, once a coding shred has told how the batch is laid
/// out.
#[verifier::spinoff_prover]
#[verifier::rlimit(60)]
pub proof fn a_data_shred_can_bring_back_the_rest(
    recovery: Recovery,
    shred: DataView,
    layout: Layout,
    now: u64,
    post: Recovery,
    rebuilt: Seq<Seq<u8>>,
    data: Set<int>,
    coding: Set<int>,
)
    requires
        recovery.wf(),
        recovery.took_data(shred, now, post, rebuilt),
        !recovery.sets.sweep_due(now),
        shred.fec_set_index <= shred.index < shred.fec_set_index + layout.num_data,
        ({
            let before = recovery.set((shred.slot, shred.fec_set_index));
            let place = (shred.index - shred.fec_set_index) as usize;
            let len = shred.shard.len();
            &&& !before.resolved
            &&& before.layout == Some(layout)
            &&& layout.shard_len == len > 0
            &&& !before.data.contains_key(place)
            &&& at_hand(before.data, data, layout.num_data as int, len)
            &&& at_hand(before.coding, coding, layout.num_coding as int, len)
            &&& data.len() + coding.len() + 1 >= layout.num_data
            &&& missing(before, layout).len() > 1
        }),
    ensures
        ({
            let before = recovery.set((shred.slot, shred.fec_set_index));
            &&& rebuilt.len() == missing(before, layout).len() - 1
            &&& rebuilt.len() > 0
            &&& post.events@ == recovery.events@.push(Event::Recovered(rebuilt.len() as u64))
            &&& post.set((shred.slot, shred.fec_set_index)).resolved
        }),
{
    let key = (shred.slot, shred.fec_set_index);
    let before = recovery.set(key);
    assert(before.sound()) by {
        assert(recovery.sets@.contains_key(key));
    }
    let place = (shred.index - shred.fec_set_index) as usize;
    let stored = before.with_data(place, shred.shard);
    let evicted = choose|evicted: Recovery| #[trigger]
        recovery.evicted(now, evicted) && evicted.took_in(
            key,
            evicted.set(key).with_data(place, shred.shard),
            now,
            post,
            rebuilt,
        );
    assert(evicted.set(key) == before);
    let more = data.insert(place as int);
    assert(!data.contains(place as int)) by {
        if data.contains(place as int) {
            assert(before.data.contains_key(place));
        }
    }
    assert(at_hand(stored.data, more, layout.num_data as int, shred.shard.len())) by {
        assert forall|i: int| #[trigger] more.contains(i) implies 0 <= i < layout.num_data && i
            <= usize::MAX && stored.data.contains_key(i as usize) && stored.data[i as usize].len()
            == shred.shard.len() by {
            if i != place {
                assert(data.contains(i));
            }
        }
    }
    crate::fec::lemma_all_missing(before, layout);
    assert(missing(before, layout).contains(place as int));
    assert(missing(stored, layout) =~= missing(before, layout).remove(place as int));
    crate::fec::lemma_all_missing(stored, layout);
    assert(!missing(stored, layout).is_empty()) by {
        if missing(stored, layout).is_empty() {
            assert(missing(stored, layout) =~= Set::empty());
        }
    }
    crate::fec::any_num_data_shards_are_enough(stored, layout, more, coding);
    assert(post.events@ =~= recovery.events@.push(Event::Recovered(rebuilt.len() as u64)));
}

/// A shred that cannot belong to the batch it names leaves everything as it was: a
/// coding shred of no data or no coding shreds, of more than 128 of both or placed
/// past them, and a data shred that stands before its batch or 128 behind where it
/// begins.
pub proof fn a_misplaced_shred_changes_nothing(
    recovery: Recovery,
    data: DataView,
    coding: CodingView,
    now: u64,
    post: Recovery,
    rebuilt: Seq<Seq<u8>>,
)
    ensures
        recovery.took_coding(coding, now, post, rebuilt) && (coding.num_data == 0
            || coding.num_coding == 0 || coding.num_data + coding.num_coding > 128
            || coding.position >= coding.num_coding) ==> post == recovery && rebuilt.len() == 0,
        recovery.took_data(data, now, post, rebuilt) && (data.index < data.fec_set_index
            || data.index - data.fec_set_index >= 128) ==> post == recovery && rebuilt.len() == 0,
{
}

/// Every other shred is kept, for a batch that is not done with, in the place its
/// index gives it, as long as the batch does not come to anything by it.
#[verifier::spinoff_prover]
#[verifier::rlimit(60)]
pub proof fn a_shred_is_kept_for_its_batch(
    recovery: Recovery,
    data: DataView,
    coding: CodingView,
    now: u64,
    post: Recovery,
    rebuilt: Seq<Seq<u8>>,
)
    requires
        !recovery.sets.sweep_due(now),
    ensures
        recovery.took_data(data, now, post, rebuilt) && data.fec_set_index <= data.index
            < data.fec_set_index + 128 && !recovery.set(
            (data.slot, data.fec_set_index),
        ).resolved && !post.set((data.slot, data.fec_set_index)).resolved ==> {
            let held = post.set((data.slot, data.fec_set_index)).data;
            let place = (data.index - data.fec_set_index) as usize;
            held.contains_key(place) && (recovery.set(
                (data.slot, data.fec_set_index),
            ).data.contains_key(place) || held[place] == data.shard)
        },
        recovery.took_coding(coding, now, post, rebuilt) && coding.num_data > 0 && coding.position
            < coding.num_coding && coding.num_data + coding.num_coding <= 128 && !recovery.set(
            (coding.slot, coding.fec_set_index),
        ).resolved && !post.set((coding.slot, coding.fec_set_index)).resolved ==> {
            let held = post.set((coding.slot, coding.fec_set_index)).coding;
            held.contains_key(coding.position) && (recovery.set(
                (coding.slot, coding.fec_set_index),
            ).coding.contains_key(coding.position) || held[coding.position] == coding.shard)
        },
{
    if recovery.took_data(data, now, post, rebuilt) && data.fec_set_index <= data.index
        < data.fec_set_index + 128 {
        let key = (data.slot, data.fec_set_index);
        let place = (data.index - data.fec_set_index) as usize;
        let evicted = choose|evicted: Recovery| #[trigger]
            recovery.evicted(now, evicted) && evicted.took_in(
                key,
                evicted.set(key).with_data(place, data.shard),
                now,
                post,
                rebuilt,
            );
        assert(evicted.set(key) == recovery.set(key));
    }
    if recovery.took_coding(coding, now, post, rebuilt) && plausible(coding) {
        let key = (coding.slot, coding.fec_set_index);
        let evicted = choose|evicted: Recovery| #[trigger]
            recovery.evicted(now, evicted) && evicted.took_in(
                key,
                evicted.set(key).with_coding(coding.position, layout_of(coding), coding.shard),
                now,
                post,
                rebuilt,
            );
        assert(evicted.set(key) == recovery.set(key));
    }
}

/// An erasure batch is waited for as long as shreds of it come: where there are no more
/// than 1024, one that a shred came for less than the lifetime ago outlives an eviction
/// as it is, and one that none did is let go, and is said to have stayed incomplete if
/// it was still waiting for shreds.
pub proof fn a_batch_is_waited_for_as_long_as_shreds_of_it_come(
    recovery: Recovery,
    now: u64,
    post: Recovery,
    key: (u64, u32),
)
    requires
        recovery.wf(),
        recovery.evicted(now, post),
        recovery.sets@.len() <= 1_024,
        recovery.sets@.contains_key(key),
        recovery.sets@[key].updated <= now,
    ensures
        now - recovery.sets@[key].updated < recovery.sets.retention()
            ==> post.sets@.contains_key(key) && post.sets@[key] == recovery.sets@[key],
        recovery.sets.sweep_due(now) && now - recovery.sets@[key].updated
            >= recovery.sets.retention() ==> {
            &&& !post.sets@.contains_key(key)
            &&& !recovery.set(key).resolved && recovery.set(key).layout is Some
                ==> post.events@.len() > recovery.events@.len()
                && post.events@.last() is FecSetIncomplete
        },
{
    if recovery.sets.sweep_due(now) {
        let kept = fresh(recovery.sets@, now, recovery.sets.retention());
        let expired = choose|expired: Seq<((u64, u32), FecSet)>| #[trigger]
            lists_expired(recovery.sets@, kept, expired) && post.events@ == recovery.events@
                + all_leaving_events(expired);
        recovery.sets.lemma_finite();
        crate::aged::entries_live_as_long_as_they_are_touched(
            recovery.sets@,
            now,
            recovery.sets.retention(),
            1_024,
            post.sets@,
            expired,
            key,
        );
        if now - recovery.sets@[key].updated >= recovery.sets.retention() {
            let at = choose|i: int|
                0 <= i < expired.len() && #[trigger] expired[i] == (
                    key,
                    recovery.sets@[key].value,
                );
            if !recovery.set(key).resolved && recovery.set(key).layout is Some {
                lemma_leaving(expired, at);
                assert(post.events@.last() == all_leaving_events(expired).last());
            }
        }
    }
}

proof fn lemma_leaving(sets: Seq<((u64, u32), FecSet)>, at: int)
    requires
        0 <= at < sets.len(),
        !sets[at].1@.resolved,
        sets[at].1@.layout is Some,
    ensures
        all_leaving_events(sets).len() > 0,
        all_leaving_events(sets).last() is FecSetIncomplete,
    decreases sets.len(),
{
    let before = all_leaving_events(sets.drop_last());
    let more = leaving_events(sets.last().1@);
    if at < sets.len() - 1 {
        assert(sets.drop_last()[at] == sets[at]);
        lemma_leaving(sets.drop_last(), at);
    }
    if more.len() > 0 {
        assert(all_leaving_events(sets).last() == more.last());
    } else {
        assert(all_leaving_events(sets) =~= before);
    }
}

/// No erasure batch is waited for longer than two seconds, nor longer than slots are
/// held.
pub proof fn batches_live_no_longer_than_slots(retention: u64, clock: Clock, recovery: Recovery)
    requires
        call_ensures(Recovery::new, (retention, clock), recovery),
    ensures
        recovery.sets.retention() <= retention,
        recovery.sets.retention() <= 2_000_000_000,
        recovery.sets.retention() == retention || recovery.sets.retention() == 2_000_000_000,
{
}

/// Taking in a coding shred that makes the batch enough gives every missing data shred
/// back, once, and counts them.
pub proof fn taking_a_coding_shred_gives_back_the_rest(
    recovery: &mut Recovery,
    shred: &CodingShred<'_>,
    now: u64,
    rebuilt: Vec<Vec<u8>>,
    data: Set<int>,
    coding: Set<int>,
)
    requires
        call_ensures(Recovery::insert_coding_at, (recovery, shred, now), rebuilt),
        !old(recovery).sets.sweep_due(now),
        0 < shred.num_data,
        shred.position < shred.num_coding,
        shred.num_data + shred.num_coding <= 128,
        0 < shred.shard@.len() <= usize::MAX,
        ({
            let before = old(recovery).set((shred.slot, shred.fec_set_index));
            let len = shred.shard@.len();
            let layout = Layout {
                num_data: shred.num_data,
                num_coding: shred.num_coding,
                shard_len: len as usize,
            };
            &&& !before.resolved
            &&& !before.coding.contains_key(shred.position)
            &&& at_hand(before.data, data, shred.num_data as int, len)
            &&& at_hand(before.coding, coding, shred.num_coding as int, len)
            &&& data.len() + coding.len() + 1 >= shred.num_data
            &&& !missing(before, layout).is_empty()
        }),
    ensures
        ({
            let layout = Layout {
                num_data: shred.num_data,
                num_coding: shred.num_coding,
                shard_len: shred.shard@.len() as usize,
            };
            let before = old(recovery).set((shred.slot, shred.fec_set_index));
            rebuilt@.len() == missing(before, layout).len()
        }),
        rebuilt@.len() > 0,
        final(recovery).events@ == old(recovery).events@.push(
            Event::Recovered(rebuilt@.len() as u64),
        ),
        final(recovery).set((shred.slot, shred.fec_set_index)).resolved,
{
    assert(bodies(rebuilt@).len() == rebuilt@.len());
    a_coding_shred_can_bring_back_the_rest(
        *old(recovery),
        shred@,
        now,
        *final(recovery),
        bodies(rebuilt@),
        data,
        coding,
    );
}

/// So does taking in a data shred that makes it enough: all but itself.
pub proof fn taking_a_data_shred_gives_back_the_rest(
    recovery: &mut Recovery,
    shred: &DataShred<'_>,
    layout: Layout,
    now: u64,
    rebuilt: Vec<Vec<u8>>,
    data: Set<int>,
    coding: Set<int>,
)
    requires
        call_ensures(Recovery::insert_data_at, (recovery, shred, now), rebuilt),
        old(recovery).wf(),
        !old(recovery).sets.sweep_due(now),
        shred.fec_set_index <= shred.index < shred.fec_set_index + layout.num_data,
        ({
            let before = old(recovery).set((shred.slot, shred.fec_set_index));
            let len = shred.shard@.len();
            &&& !before.resolved
            &&& before.layout == Some(layout)
            &&& layout.shard_len == len > 0
            &&& !before.data.contains_key((shred.index - shred.fec_set_index) as usize)
            &&& at_hand(before.data, data, layout.num_data as int, len)
            &&& at_hand(before.coding, coding, layout.num_coding as int, len)
            &&& data.len() + coding.len() + 1 >= layout.num_data
            &&& missing(before, layout).len() > 1
        }),
    ensures
        rebuilt@.len() == missing(
            old(recovery).set((shred.slot, shred.fec_set_index)),
            layout,
        ).len() - 1,
        rebuilt@.len() > 0,
        final(recovery).events@ == old(recovery).events@.push(
            Event::Recovered(rebuilt@.len() as u64),
        ),
        final(recovery).set((shred.slot, shred.fec_set_index)).resolved,
{
    assert(bodies(rebuilt@).len() == rebuilt@.len());
    a_data_shred_can_bring_back_the_rest(
        *old(recovery),
        shred@,
        layout,
        now,
        *final(recovery),
        bodies(rebuilt@),
        data,
        coding,
    );
}

} // verus!
