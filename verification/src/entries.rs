//! Turning shreds back into transactions.
//!
//! A leader serializes a slot's entries into one vector of them per batch and
//! cuts that byte string into shreds, so a batch is only whole once a
//! data-complete shred closes a run of consecutive indices. Waiting for that is
//! the obvious way to decode it and the wrong one for a sniper: the entries at
//! the front of a batch are readable long before the shreds at its back arrive,
//! and the transaction worth reacting to is usually one of them — the leader
//! writes what it executed first, first.
//!
//! So a batch is decoded as it arrives. Every shred that extends the run of
//! bytes from the batch's first index hands over whatever entries have become
//! whole, and the decoder remembers how far into the batch it got. A batch
//! comes out in as many pieces as it takes; nothing is decoded twice.

use crate::aged::{fresh, is_capped, lists_expired, Aged, AgedMap};
use crate::clock::Clock;
use crate::decoder::views;
use crate::metrics::Event;
use crate::shred::{DataShred, DataView};
use crate::slot::{
    resident, Advance, AdvanceView, HeldShred, SlotBuffer, SlotView, PER_BATCH_OVERHEAD,
    PER_SHRED_OVERHEAD,
};
use crate::sums::sum;
use crate::wire::{Entry, EntryView};
use vstd::prelude::*;

verus! {

broadcast use {vstd::std_specs::btree::group_btree_axioms, vstd::laws_cmp::group_laws_cmp};

/// Retention is anchored to the clock, so spoofed slot numbers cost memory
/// until they age out rather than evicting the slots we care about. This caps
/// that cost; steady state needs one buffer per slot inside the window.
pub const MAX_BUFFERED_SLOTS: usize = 128;

/// Entry bytes one slot may hold. The caps above and in [`crate::shred`] bound
/// how many buffers and how many indices an unauthenticated sender can touch,
/// but not what they hold: 32k indices at a kilobyte apiece is 36 MB in a single
/// slot, for a sender that only has to know our address. A mainnet block runs to
/// a megabyte or two, so this leaves several times what a leader produces and
/// still refuses the rest.
pub const MAX_SLOT_BYTES: usize = 8_388_608;

/// Shreds one slot may hold. The byte caps bound what a slot's shreds *carry*,
/// which is not the same as what they cost: the wire format lets a data shred
/// declare a size that stops exactly at its headers, and [`crate::shred`] parses
/// that into an empty payload. A stream of those is free against every byte
/// budget here while still taking a `StoredShred`, a place in `starts` and,
/// when it closes a batch, a `Progress`. At the format's 32k indices per slot
/// that is several megabytes a slot, off the books. A real slot runs to a couple
/// of thousand shreds, so this leaves several times what a leader produces.
pub const MAX_SLOT_SHREDS: usize = 8_192;

/// What every slot held may cost the process, because the slot cap multiplied
/// by the buffer cap is a gigabyte. Steady state is the retention window's
/// worth of real blocks — some tens of slots at a megabyte or two — so this is
/// several times what the sniper needs and a fraction of what it could be made
/// to hold.
///
/// This is measured in resident bytes rather than payload bytes: arenas count
/// by capacity, and the per-shred bookkeeping counts too. Budgeting the payload
/// alone would understate the real figure severalfold, since a `Vec` that has
/// doubled holds the untouched half resident just the same.
pub const MAX_BUFFERED_BYTES: usize = 536_870_912;

/// Some of a batch's entries, together with the shreds they came from.
///
/// A batch surfaces in as many pieces as the shreds carrying it allow, so this
/// is a piece of one rather than all of it — `first_shred` is what ties the
/// pieces together.
///
/// The range is what places the entries inside their slot. Batches are runs of
/// consecutive shred indices, so sorting by where a batch begins sorts them the
/// way the leader laid them down — which is emphatically not the order they
/// finish arriving in, and the order is the whole point when the question is
/// which of two transactions came first.
pub struct DecodedBatch {
    pub first_shred: u32,
    pub last_shred: u32,
    pub entries: Vec<Entry>,
}

#[verifier::ext_equal]
pub struct BatchView {
    pub first_shred: u32,
    pub last_shred: u32,
    pub entries: Seq<EntryView>,
}

impl BatchView {
    /// This piece of a batch and another of the same one, as one piece.
    pub open spec fn joined(self, other: BatchView) -> BatchView {
        BatchView {
            first_shred: self.first_shred,
            last_shred: if self.last_shred >= other.last_shred {
                self.last_shred
            } else {
                other.last_shred
            },
            entries: self.entries + other.entries,
        }
    }
}

impl View for DecodedBatch {
    type V = BatchView;

    open spec fn view(&self) -> BatchView {
        BatchView {
            first_shred: self.first_shred,
            last_shred: self.last_shred,
            entries: views(self.entries@),
        }
    }
}

/// The batches, each as the values it holds.
pub open spec fn batch_views(batches: Seq<DecodedBatch>) -> Seq<BatchView> {
    batches.map_values(|batch: DecodedBatch| batch@)
}

/// What one pass over the batch at `start` hands over.
#[verifier::opaque]
pub open spec fn handed_over(start: int, advance: Option<AdvanceView>) -> Seq<BatchView> {
    match advance {
        Some(advance) if advance.entries.len() > 0 => seq![
            BatchView {
                first_shred: start as u32,
                last_shred: advance.last_shred,
                entries: advance.entries,
            },
        ],
        _ => Seq::empty(),
    }
}

/// What there is to say about one pass.
#[verifier::opaque]
pub open spec fn pass_events(advance: Option<AdvanceView>) -> Seq<Event> {
    match advance {
        Some(advance) => {
            let opened = if advance.opened {
                seq![Event::Opened { since: advance.since, recovered: advance.recovered }]
            } else {
                Seq::empty()
            };
            let settled = match advance.finished {
                Some(outcome) => seq![
                    Event::Batch { outcome, since: advance.since, recovered: advance.recovered },
                ],
                None => Seq::empty(),
            };
            let decoded = if advance.entries.len() > 0 {
                seq![Event::Entries(advance.entries.len() as u64)]
            } else {
                Seq::empty()
            };
            opened + settled + decoded
        },
        None => Seq::empty(),
    }
}

/// What accepting one shred comes to.
#[verifier::ext_equal]
pub struct Accepted {
    pub slot: SlotView,
    pub batches: Seq<BatchView>,
    pub events: Seq<Event>,
}

impl SlotView {
    /// Whether the slot has no room for a shred of `len` entry bytes.
    ///
    /// A slot is capped on what its shreds carry and on how many of them there
    /// are, because the two come apart: an empty payload is legal on the wire,
    /// and a slot full of those clears any byte budget while still taking a map
    /// entry apiece. A second copy of an index already held passes, since it
    /// adds no entry.
    pub open spec fn full(self, index: u32, len: nat) -> bool {
        ||| self.total_len() + len > MAX_SLOT_BYTES
        ||| self.shreds.len() >= MAX_SLOT_SHREDS && !self.shreds.contains_key(index)
    }

    /// The slot, knowing where it ends if the shred at `index` says so.
    pub open spec fn marked(self, index: u32, last_in_slot: bool) -> SlotView {
        if last_in_slot {
            SlotView { last_index: Some(index), ..self }
        } else {
            self
        }
    }

    /// Storing a shred, then reading on in the batch it belongs to and in the
    /// one it opens, if it opens one.
    pub open spec fn accepted(self, index: u32, last_in_slot: bool, shred: HeldShred) -> Accepted {
        let stored = self.marked(index, last_in_slot).inserted(index, shred);
        let start = stored.containing(index as int);
        let first = stored.pass(start, stored.progress_of(start)).1;
        let read = stored.advanced(start);
        let copied = if self.shreds.contains_key(index) {
            seq![Event::Duplicate]
        } else {
            Seq::empty()
        };
        if stored.is_start(index + 1) {
            let second = read.pass(index + 1, read.progress_of(index + 1)).1;
            Accepted {
                slot: read.advanced(index + 1),
                batches: handed_over(start, first) + handed_over(index + 1, second),
                events: copied + pass_events(first) + pass_events(second),
            }
        } else {
            Accepted {
                slot: read,
                batches: handed_over(start, first),
                events: copied + pass_events(first),
            }
        }
    }
}

/// The shred a slot is to hold.
pub open spec fn to_hold(shred: DataView, received: u64, recovered: bool) -> HeldShred {
    HeldShred { data: shred.data, data_complete: shred.data_complete, received, recovered }
}

/// Takes in what one pass yielded.
fn record(
    start: u32,
    advance: Option<Advance>,
    batches: &mut Vec<DecodedBatch>,
    events: &mut Vec<Event>,
)
    ensures
        ({
            let yielded = match advance {
                Some(advance) => Some(advance@),
                None => None,
            };
            &&& batch_views(final(batches)@) == batch_views(old(batches)@) + handed_over(
                start as int,
                yielded,
            )
            &&& final(events)@ == old(events)@ + pass_events(yielded)
        }),
{
    reveal(handed_over);
    reveal(pass_events);
    let ghost before = batch_views(batches@);
    let ghost noted = events@;
    if let Some(advance) = advance {
        let ghost yielded = advance@;
        if advance.opened {
            events.push(Event::Opened { since: advance.since, recovered: advance.recovered });
        }
        if let Some(outcome) = advance.finished {
            events.push(
                Event::Batch { outcome, since: advance.since, recovered: advance.recovered },
            );
        }
        if advance.entries.len() > 0 {
            events.push(Event::Entries(advance.entries.len() as u64));
            let batch = DecodedBatch {
                first_shred: start,
                last_shred: advance.last_shred,
                entries: advance.entries,
            };
            batches.push(batch);
        }
        proof {
            assert(events@ =~= noted + pass_events(Some(yielded)));
            assert(batch_views(batches@) =~= before + handed_over(start as int, Some(yielded)));
        }
    } else {
        assert(events@ =~= noted + pass_events(None));
        assert(batch_views(batches@) =~= before + handed_over(start as int, None));
    }
}

impl SlotBuffer {
    /// Whether there is no room for a shred.
    fn is_full(&self, shred: &DataShred<'_>) -> (full: bool)
        requires
            self.wf(),
        ensures
            full == self@.full(shred.index, shred.data@.len()),
    {
        proof {
            assert(self@.shreds.dom() =~= self.shreds@.dom());
        }
        let live: usize = self.live();
        if live > MAX_SLOT_BYTES || shred.data.len() > MAX_SLOT_BYTES - live {
            return true;
        }
        self.shreds.len() >= MAX_SLOT_SHREDS && !self.shreds.contains_key(&shred.index)
    }

    /// Reads on in the batch at `start` and takes in what that yields.
    fn read_on(&mut self, start: u32, batches: &mut Vec<DecodedBatch>, events: &mut Vec<Event>)
        requires
            old(self).wf(),
            old(self)@.is_start(start as int),
        ensures
            final(self).wf(),
            final(self).arena == old(self).arena,
            final(self).stale == old(self).stale,
            final(self).shreds == old(self).shreds,
            final(self).charged == old(self).charged,
            final(self)@ == old(self)@.advanced(start as int),
            old(self)@.can_resume(start as int),
            batch_views(final(batches)@) == batch_views(old(batches)@) + handed_over(
                start as int,
                old(self)@.pass(start as int, old(self)@.progress_of(start as int)).1,
            ),
            final(events)@ == old(events)@ + pass_events(
                old(self)@.pass(start as int, old(self)@.progress_of(start as int)).1,
            ),
    {
        let advance = self.advance(start);
        record(start, advance, batches, events);
    }

    /// Stores a shred there is room for and reads on in the batches it carried
    /// forward.
    pub fn accept(
        &mut self,
        shred: &DataShred<'_>,
        recovered: bool,
        now: u64,
        events: &mut Vec<Event>,
    ) -> (batches: Vec<DecodedBatch>)
        requires
            old(self).wf(),
            shred.index < u32::MAX,
            shred.data@.len() <= u32::MAX,
        ensures
            final(self).wf(),
            final(self).arena@.len() == old(self).next_at() + shred.data@.len(),
            final(self).stale == old(self).still_stale() + old(self)@.data_len(shred.index as int),
            final(self).charged == old(self).charged,
            ({
                let accepted = old(self)@.accepted(
                    shred.index,
                    shred.last_in_slot,
                    to_hold(shred@, now, recovered),
                );
                &&& final(self)@ == accepted.slot
                &&& batch_views(batches@) == accepted.batches
                &&& final(events)@ == old(events)@ + accepted.events
            }),
            old(self)@.keeps_count(
                shred.index,
                to_hold(shred@, now, recovered),
                final(self)@,
                batch_views(batches@),
            ),
            old(self)@.caught_up() ==> final(self)@.caught_up(),
    {
        let ghost given = self@;
        let ghost noted = events@;
        if shred.last_in_slot {
            self.last_index = Some(shred.index);
            proof {
                self.lemma_marked(*old(self));
                crate::sums::lemma_sum_same(
                    |i: int| self@.data_len(i),
                    |i: int| given.data_len(i),
                    0,
                    u32::MAX + 1,
                );
            }
        }
        let duplicate = self.insert(shred.index, shred.data, shred.data_complete, now, recovered);
        let ghost stored = self@;
        if duplicate {
            events.push(Event::Duplicate);
        }
        let ghost copied = events@;
        let mut batches: Vec<DecodedBatch> = Vec::new();
        let candidates = self.candidates(shred.index);
        proof {
            stored.lemma_containing(shred.index as int);
        }
        if let Some(start) = candidates[0] {
            self.read_on(start, &mut batches, events);
        }
        if let Some(start) = candidates[1] {
            self.read_on(start, &mut batches, events);
        }
        proof {
            let accepted = given.accepted(
                shred.index,
                shred.last_in_slot,
                to_hold(shred@, now, recovered),
            );
            assert(self@ == accepted.slot);
            assert(batch_views(batches@) =~= accepted.batches);
            assert(events@ =~= noted + accepted.events);
            given.lemma_accepting_keeps_count(
                shred.index,
                shred.last_in_slot,
                to_hold(shred@, now, recovered),
            );
            if given.caught_up() {
                given.accepting_catches_up(
                    shred.index,
                    shred.last_in_slot,
                    to_hold(shred@, now, recovered),
                );
            }
        }
        batches
    }
}

pub struct Assembler {
    pub slots: AgedMap<u64, SlotBuffer>,
    /// Bytes held across every slot. Kept as a running total because the budget
    /// has to be answered on the packet path, and rebuilt on each sweep so that
    /// slots let go without passing through it cannot drift it upwards.
    pub bytes: usize,
    /// What there is to say about the shreds inserted so far, until somebody
    /// takes it.
    pub events: Vec<Event>,
    pub clock: Clock,
}

/// Whether a slot is charged for what it cost when it was last measured.
pub open spec fn fairly_charged(buffer: SlotBuffer) -> bool {
    exists|capacity: usize|
        capacity >= buffer.arena@.len() && buffer.charged == #[trigger] resident(
            capacity as int,
            buffer@.shreds.len(),
            buffer@.progress.len(),
        )
}

/// Whether a slot is charged for what it cost, within its caps and read up.
pub open spec fn in_order(buffer: SlotBuffer) -> bool {
    &&& fairly_charged(buffer)
    &&& buffer@.total_len() <= MAX_SLOT_BYTES
    &&& buffer@.shreds.len() <= MAX_SLOT_SHREDS
    &&& buffer@.read_up()
}

/// A slot nothing has arrived of is.
proof fn lemma_empty_in_order(buffer: SlotBuffer)
    requires
        buffer@ == SlotView::empty(),
        buffer.arena@.len() == 0,
        buffer.charged == 0,
    ensures
        in_order(buffer),
{
    crate::sums::lemma_sum_zero(|index: int| buffer@.data_len(index), 0, u32::MAX + 1);
    assert(resident(0usize as int, buffer@.shreds.len(), buffer@.progress.len()) == 0);
    crate::delivery::lemma_nothing_to_read();
}

/// What the slots held are charged for together.
pub open spec fn charged_total(slots: Map<u64, Aged<SlotBuffer>>) -> nat {
    sum(|slot: int| charged_at(slots, slot), 0, u64::MAX + 1)
}

pub open spec fn charged_at(slots: Map<u64, Aged<SlotBuffer>>, slot: int) -> nat {
    if 0 <= slot <= u64::MAX && slots.contains_key(slot as u64) {
        slots[slot as u64].value.charged as nat
    } else {
        0
    }
}

/// `bytes`, or as many as can be counted.
pub open spec fn countable(bytes: int) -> int {
    if bytes <= usize::MAX {
        bytes
    } else {
        usize::MAX as int
    }
}

/// Whether there is no budget left for a shred of `len` entry bytes. The
/// bookkeeping is charged alongside the payload, because a shred that carries no
/// payload still costs it.
pub open spec fn over_budget(bytes: int, len: int) -> bool {
    bytes + len + PER_SHRED_OVERHEAD + PER_BATCH_OVERHEAD > MAX_BUFFERED_BYTES
}

/// How many shreds a slot is known to have lost.
pub open spec fn lost(slot: SlotView) -> nat {
    Set::new(|index: u32| slot.lacks(index)).len()
}

/// What there is to say about a slot being let go.
///
/// A slot is only measurable against its true size once its closing shred has
/// told us what that size was. Slots let go without one are counted apart
/// rather than folded in at a guessed denominator.
pub open spec fn closing_events(slot: SlotView) -> Seq<Event> {
    let missing = if lost(slot) > 0 {
        seq![Event::Missing(lost(slot) as u64)]
    } else {
        Seq::empty()
    };
    missing + match slot.last_index {
        Some(last) => seq![
            Event::Completeness { received: slot.shreds.len() as u64, expected: (last + 1) as u64 },
        ],
        None => seq![Event::Unterminated],
    }
}

/// The same for a run of slots, one after the other.
pub open spec fn all_closing_events(slots: Seq<(u64, SlotBuffer)>) -> Seq<Event>
    decreases slots.len(),
{
    if slots.len() == 0 {
        Seq::empty()
    } else {
        all_closing_events(slots.drop_last()) + closing_events(slots.last().1@)
    }
}

impl Assembler {
    /// Every slot held is sound, and there is a cap on how many there are. The
    /// running total may be anything.
    pub open spec fn wf(&self) -> bool {
        &&& self.slots.wf()
        &&& self.slots.cap() == MAX_BUFFERED_SLOTS
        &&& forall|slot: u64| #[trigger]
            self.slots@.contains_key(slot) ==> self.slots@[slot].value.wf()
    }

    /// The running total is what the slots held are charged for, as far as that
    /// can be counted.
    pub open spec fn balanced(&self) -> bool {
        self.bytes == countable(charged_total(self.slots@) as int)
    }

    /// What holds from the start and whatever is sent, unless the total is set from
    /// outside: the running total is what the slots held are
    /// charged for, each is charged for what it was found to cost and is within
    /// its caps, and every batch that is all there has been read to its end.
    pub open spec fn within_means(&self) -> bool {
        &&& self.balanced()
        &&& self.orderly()
    }

    /// Every slot held is charged for what it cost, within its caps and read up.
    pub open spec fn orderly(&self) -> bool {
        forall|slot: u64| #[trigger]
            self.slots@.contains_key(slot) ==> in_order(self.slots@[slot].value)
    }

    /// What is held of a slot.
    pub open spec fn slot(&self, slot: u64) -> SlotView {
        if self.slots@.contains_key(slot) {
            self.slots@[slot].value@
        } else {
            SlotView::empty()
        }
    }

    /// What a slot is charged for.
    pub open spec fn charged(&self, slot: u64) -> int {
        charged_at(self.slots@, slot as int) as int
    }

    /// Whether `post` is this assembler once slots past their time have been let
    /// go.
    pub open spec fn swept(self, now: u64, post: Assembler) -> bool {
        &&& post.clock == self.clock
        &&& post.slots.same_setup(&self.slots)
        &&& if self.slots.sweep_due(now) {
            let kept = fresh(self.slots@, now, self.slots.retention());
            &&& is_capped(kept, self.slots.cap() as nat, post.slots@)
            &&& post.slots.last_swept() == now
            &&& post.bytes == countable(charged_total(post.slots@) as int)
            &&& exists|expired: Seq<(u64, SlotBuffer)>| #[trigger]
                lists_expired(self.slots@, kept, expired) && post.events@ == self.events@
                    + all_closing_events(expired) + seq![
                    Event::BufferedSlots(post.slots@.len() as u64),
                    Event::BufferedBytes(post.bytes as u64),
                ]
        } else {
            &&& post.slots@ == self.slots@
            &&& post.slots.last_swept() == self.slots.last_swept()
            &&& post.bytes == self.bytes
            &&& post.events@ == self.events@
        }
    }

    /// Whether `post` is this assembler once it has dealt with a shred arriving
    /// at `now`, and `batches` what it handed over for it.
    pub open spec fn dealt_with(
        self,
        shred: DataView,
        recovered: bool,
        now: u64,
        post: Assembler,
        batches: Seq<BatchView>,
    ) -> bool {
        let before = self.slot(shred.slot);
        &&& post.clock == self.clock
        &&& post.slots.same_setup(&self.slots)
        &&& post.slots.last_swept() == self.slots.last_swept()
        &&& if over_budget(self.bytes as int, shred.data.len() as int) {
            &&& post.slots@ == self.slots@
            &&& post.bytes == self.bytes
            &&& post.events@ == self.events@.push(Event::OverBudget)
            &&& batches == Seq::<BatchView>::empty()
        } else {
            let buffer = post.slots@[shred.slot].value;
            &&& post.slots@ == self.slots@.insert(
                shred.slot,
                Aged { updated: now, value: buffer },
            )
            &&& if before.full(shred.index, shred.data.len()) {
                &&& buffer@ == before
                &&& buffer.charged == self.charged(shred.slot)
                &&& post.bytes == self.bytes
                &&& post.events@ == self.events@.push(Event::OverBudget)
                &&& batches == Seq::<BatchView>::empty()
            } else {
                let accepted = before.accepted(
                    shred.index,
                    shred.last_in_slot,
                    to_hold(shred, now, recovered),
                );
                &&& buffer@ == accepted.slot
                &&& fairly_charged(buffer)
                &&& post.bytes == countable(
                    (if self.bytes >= self.charged(shred.slot) {
                        self.bytes - self.charged(shred.slot)
                    } else {
                        0
                    }) + buffer.charged,
                )
                &&& post.events@ == self.events@ + accepted.events
                &&& batches == accepted.batches
                &&& before.keeps_count(
                    shred.index,
                    to_hold(shred, now, recovered),
                    buffer@,
                    batches,
                )
                &&& before.caught_up() ==> buffer@.caught_up()
            }
        }
    }
}

/// What the slots held are charged for, summed one by one.
fn total_charged(slots: &AgedMap<u64, SlotBuffer>) -> (bytes: usize)
    requires
        slots.wf(),
    ensures
        bytes == countable(charged_total(slots@) as int),
{
    let values = slots.values();
    let ghost keys = choose|keys: Seq<u64>| #[trigger]
        crate::maps::ascending(keys) && keys.to_set() == slots@.dom() && values@.len() == keys.len()
            && forall|i: int|
            0 <= i < keys.len() ==> *(#[trigger] values@[i]) == slots@[keys[i]].value;
    let ghost charged = |slot: int| charged_at(slots@, slot);
    proof {
        crate::maps::lemma_ascending_u64(keys);
        assert forall|key: u64| #[trigger] keys.contains(key) <==> slots@.contains_key(key) by {
            assert(keys.to_set().contains(key) <==> slots@.dom().contains(key));
        }
    }
    let mut bytes: usize = 0;
    let mut i: usize = 0;
    let ghost mut bound: int = 0;
    while i < values.len()
        invariant
            i <= values@.len(),
            values@.len() == keys.len(),
            charged == (|slot: int| charged_at(slots@, slot)),
            forall|a: int, b: int| 0 <= a < b < keys.len() ==> keys[a] < keys[b],
            forall|key: u64| #[trigger] keys.contains(key) <==> slots@.contains_key(key),
            forall|j: int|
                0 <= j < keys.len() ==> *(#[trigger] values@[j]) == slots@[keys[j]].value,
            bound == if i == 0 {
                0
            } else {
                keys[i - 1] + 1
            },
            bytes == countable(sum(charged, 0, bound) as int),
        decreases values@.len() - i,
    {
        proof {
            let key = keys[i as int];
            assert(keys.contains(key));
            assert forall|slot: int| bound <= slot < key implies #[trigger] charged(slot) == 0 by {
                if slots@.contains_key(slot as u64) {
                    assert(keys.contains(slot as u64));
                    let j = choose|j: int| 0 <= j < keys.len() && keys[j] == slot as u64;
                    if j < i {
                        if j < i - 1 {
                            assert(keys[j] < keys[i - 1]);
                        }
                    } else if j > i {
                        assert(keys[i as int] < keys[j]);
                    }
                }
            }
            crate::sums::lemma_sum_split(charged, 0, bound, key as int);
            crate::sums::lemma_sum_zero(charged, bound, key as int);
            assert(*values@[i as int] == slots@[key].value);
            assert(charged(key as int) == slots@[key].value.charged);
            assert(sum(charged, 0, key + 1) == sum(charged, 0, key as int) + charged(key as int));
            bound = key + 1;
        }
        bytes = bytes.saturating_add(values[i].charged);
        i = i + 1;
    }
    proof {
        assert forall|slot: int| bound <= slot < u64::MAX + 1 implies #[trigger] charged(slot)
            == 0 by {
            if slots@.contains_key(slot as u64) {
                assert(keys.contains(slot as u64));
                let j = choose|j: int| 0 <= j < keys.len() && keys[j] == slot as u64;
                if j < i - 1 {
                    assert(keys[j] < keys[i - 1]);
                }
            }
        }
        crate::sums::lemma_sum_split(charged, 0, bound, u64::MAX + 1);
        crate::sums::lemma_sum_zero(charged, bound, u64::MAX + 1);
    }
    bytes
}

/// Notes what there is to say about a slot being let go.
fn close_out(slot: &SlotBuffer, events: &mut Vec<Event>)
    ensures
        final(events)@ == old(events)@ + closing_events(slot@),
{
    let ghost noted = events@;
    let missing = slot.missing();
    proof {
        let set = Set::new(|index: u32| slot@.lacks(index));
        assert(missing@.no_duplicates());
        missing@.unique_seq_to_set();
        assert(missing@.to_set() =~= set) by {
            assert forall|index: u32| missing@.to_set().contains(index) <==> set.contains(index) by {
                assert(missing@.contains(index) <==> slot@.lacks(index));
            }
        }
        assert(slot@.shreds.dom() =~= slot.shreds@.dom());
    }
    if missing.len() > 0 {
        events.push(Event::Missing(missing.len() as u64));
    }
    match slot.last_index {
        Some(last) => {
            events.push(
                Event::Completeness {
                    received: slot.shreds.len() as u64,
                    expected: last as u64 + 1,
                },
            );
        },
        None => {
            events.push(Event::Unterminated);
        },
    }
    assert(events@ =~= noted + closing_events(slot@));
}

impl Assembler {
    pub fn new(retention: u64, clock: Clock) -> (assembler: Assembler)
        ensures
            assembler.wf(),
            assembler.within_means(),
            assembler.slots@ == Map::<u64, Aged<SlotBuffer>>::empty(),
            assembler.slots.retention() == retention,
            assembler.bytes == 0,
            assembler.events@.len() == 0,
            assembler.clock == clock,
            clock.can_read(assembler.slots.last_swept()),
    {
        let slots = AgedMap::new(retention, MAX_BUFFERED_SLOTS, "slot buffers", clock.now());
        proof {
            crate::sums::lemma_sum_zero(
                |slot: int| charged_at(slots@, slot),
                0,
                u64::MAX + 1,
            );
        }
        Assembler { slots, bytes: 0, events: Vec::new(), clock }
    }

    /// Closes out the accounting of every slot the sweep lets go.
    pub fn sweep(&mut self, now: u64)
        requires
            old(self).wf(),
        ensures
            final(self).wf(),
            old(self).swept(now, *final(self)),
            old(self).within_means() ==> final(self).within_means(),
            old(self).orderly() ==> final(self).orderly(),
            final(self).slots@.len() <= MAX_BUFFERED_SLOTS,
    {
        let ghost before = *self;
        let swept = self.slots.sweep(now);
        if !swept.ran {
            return ;
        }
        let expired = swept.expired;
        let ghost slots = self.slots;
        assert(self.events@ =~= before.events@ + all_closing_events(expired@.take(0)));
        let mut i: usize = 0;
        while i < expired.len()
            invariant
                i <= expired@.len(),
                self.slots == slots,
                self.clock == before.clock,
                self.events@ == before.events@ + all_closing_events(expired@.take(i as int)),
            decreases expired@.len() - i,
        {
            close_out(&expired[i].1, &mut self.events);
            proof {
                assert(expired@.take(i + 1).drop_last() =~= expired@.take(i as int));
                assert(expired@.take(i + 1).last() == expired@[i as int]);
            }
            i = i + 1;
        }
        // Slots the cap gives up on never reach the accounting above, so the
        // total is rebuilt from what is left rather than decremented on the way
        // out. Once a sweep, over some tens of slots.
        self.bytes = total_charged(&self.slots);
        self.events.push(Event::BufferedSlots(self.slots.len() as u64));
        self.events.push(Event::BufferedBytes(self.bytes as u64));
        proof {
            assert(expired@.take(i as int) =~= expired@);
            assert(self.events@ =~= before.events@ + all_closing_events(expired@) + seq![
                Event::BufferedSlots(self.slots@.len() as u64),
                Event::BufferedBytes(self.bytes as u64),
            ]);
        }
    }
}

impl Assembler {
    /// Buffers a shred if there is room for it, and hands over the entries that
    /// became whole with it.
    ///
    /// Nothing signs a shred, so the sender of one is only ever a claim, and the
    /// memory it asks for is the one cost that outlives the packet. The budget
    /// is answered before the bytes are taken rather than after, because after
    /// is where the machine is already out of them.
    pub fn hold(&mut self, shred: &DataShred<'_>, recovered: bool, now: u64) -> (batches: Vec<
        DecodedBatch,
    >)
        requires
            old(self).wf(),
            shred.index < u32::MAX,
        ensures
            final(self).wf(),
            old(self).dealt_with(shred@, recovered, now, *final(self), batch_views(batches@)),
            old(self).within_means() ==> final(self).within_means(),
            old(self).orderly() ==> final(self).orderly(),
    {
        let ghost before = *self;
        let ghost charged = |slot: int| charged_at(before.slots@, slot);
        let mut batches: Vec<DecodedBatch> = Vec::new();
        let len: usize = shred.data.len();
        if len > MAX_BUFFERED_BYTES - PER_SHRED_OVERHEAD - PER_BATCH_OVERHEAD || self.bytes
            > MAX_BUFFERED_BYTES - PER_SHRED_OVERHEAD - PER_BATCH_OVERHEAD - len {
            self.events.push(Event::OverBudget);
            assert(batch_views(batches@) =~= Seq::empty());
            return batches;
        }
        let buffer = self.slots.upsert(shred.slot, now, SlotBuffer::new);
        let ghost held = buffer@;
        proof {
            if !before.slots@.contains_key(shred.slot) {
                lemma_empty_in_order(*buffer);
            }
            assert(buffer@.shreds.dom() =~= buffer.shreds@.dom());
        }
        assert(buffer.wf());
        assert(buffer@ == before.slot(shred.slot));
        let held_before: usize = buffer.charged;
        assert(held_before == before.charged(shred.slot));
        if buffer.is_full(shred) {
            self.events.push(Event::OverBudget);
            proof {
                assert(batch_views(batches@) =~= Seq::empty());
                lemma_charge(before.slots@, self.slots@, shred.slot);
            }
            return batches;
        }
        batches = buffer.accept(shred, recovered, now, &mut self.events);
        proof {
            let kept = to_hold(shred@, now, recovered);
            if before.orderly() {
                held.a_slot_stays_within_its_caps(shred.index, shred.last_in_slot, kept);
                held.accepting_reads_up(shred.index, shred.last_in_slot, kept);
            }
        }
        // Measured after decoding rather than before it: reading on is what
        // creates the state a batch keeps between shreds, and the arena may
        // have compacted or grown under the insert. The shred's own length is
        // not the difference either — a duplicate frees whatever the copy it
        // displaced was holding.
        let measured: usize = buffer.footprint();
        buffer.charge(measured);
        self.bytes = self.bytes.saturating_sub(held_before).saturating_add(measured);
        proof {
            lemma_charge(before.slots@, self.slots@, shred.slot);
        }
        batches
    }

    /// The same at whatever time it is, with slots past their time let go first.
    ///
    /// `recovered` says whether this shred came out of erasure recovery rather
    /// than off the wire, which is what lets a batch report which path it
    /// waited on.
    pub fn insert(&mut self, shred: &DataShred<'_>, recovered: bool) -> (batches: Vec<DecodedBatch>)
        requires
            old(self).wf(),
            shred.index < u32::MAX,
        ensures
            final(self).wf(),
            old(self).within_means() ==> final(self).within_means(),
            old(self).orderly() ==> final(self).orderly(),
            final(self).slots@.len() <= MAX_BUFFERED_SLOTS + 1,
            exists|now: u64, swept: Assembler|
                #![trigger old(self).swept(now, swept)]
                old(self).clock.can_read(now) && old(self).swept(now, swept) && swept.dealt_with(
                    shred@,
                    recovered,
                    now,
                    *final(self),
                    batch_views(batches@),
                ),
    {
        let now: u64 = self.clock.now();
        self.insert_at(shred, recovered, now)
    }

    /// The same at a given time.
    pub fn insert_at(&mut self, shred: &DataShred<'_>, recovered: bool, now: u64) -> (batches: Vec<
        DecodedBatch,
    >)
        requires
            old(self).wf(),
            shred.index < u32::MAX,
        ensures
            final(self).wf(),
            exists|swept: Assembler| #[trigger]
                old(self).swept(now, swept) && swept.dealt_with(
                    shred@,
                    recovered,
                    now,
                    *final(self),
                    batch_views(batches@),
                ),
            old(self).within_means() ==> final(self).within_means(),
            old(self).orderly() ==> final(self).orderly(),
            final(self).slots@.len() <= MAX_BUFFERED_SLOTS + 1,
    {
        self.sweep(now);
        let ghost swept = *self;
        let batches = self.hold(shred, recovered, now);
        proof {
            assert(old(self).swept(now, swept));
            swept.slots.lemma_finite();
            let known = swept.slots@.dom();
            assert(self.slots@.dom() =~= known || self.slots@.dom() =~= known.insert(shred.slot));
        }
        batches
    }

    /// What there is to say about the shreds inserted since the last call.
    pub fn take_events(&mut self) -> (events: Vec<Event>)
        requires
            old(self).wf(),
        ensures
            final(self).wf(),
            events@ == old(self).events@,
            final(self).events@.len() == 0,
            final(self).slots == old(self).slots,
            final(self).bytes == old(self).bytes,
            final(self).clock == old(self).clock,
    {
        let mut events: Vec<Event> = Vec::new();
        std::mem::swap(&mut events, &mut self.events);
        events
    }
}

/// Charging one slot moves the total by what that slot was and is charged for.
proof fn lemma_charge(
    before: Map<u64, Aged<SlotBuffer>>,
    after: Map<u64, Aged<SlotBuffer>>,
    slot: u64,
)
    requires
        after == before.insert(slot, after[slot]),
    ensures
        charged_total(after) == charged_total(before) - charged_at(before, slot as int)
            + charged_at(after, slot as int),
        charged_total(before) >= charged_at(before, slot as int),
{
    let was = |slot: int| charged_at(before, slot);
    let is = |slot: int| charged_at(after, slot);
    assert forall|other: int| 0 <= other < u64::MAX + 1 && other != slot implies #[trigger] was(
        other,
    ) == is(other) by {
        assert(after.contains_key(other as u64) == before.contains_key(other as u64));
    }
    crate::sums::lemma_sum_change(was, is, 0, slot as int, u64::MAX + 1);
    crate::sums::lemma_sum_part(was, 0, slot as int, slot + 1, u64::MAX + 1);
    assert(sum(was, slot as int, slot + 1) == sum(was, slot as int, slot as int) + was(slot as int));
}

impl SlotBuffer {
    /// Notes what the slot stands for in the total.
    fn charge(&mut self, measured: usize)
        requires
            old(self).wf(),
        ensures
            final(self).wf(),
            final(self)@ == old(self)@,
            final(self).arena == old(self).arena,
            final(self).charged == measured,
    {
        let ghost before = *self;
        self.charged = measured;
        proof {
            self.lemma_marked(before);
        }
    }
}

impl SlotView {
    /// Accepting a shred stores it and nothing else.
    pub proof fn accepting_stores_the_shred(
        self,
        index: u32,
        last_in_slot: bool,
        shred: HeldShred,
    )
        ensures
            self.accepted(index, last_in_slot, shred).slot.shreds == self.shreds.insert(
                index,
                shred,
            ),
            self.accepted(index, last_in_slot, shred).slot.last_index == if last_in_slot {
                Some(index)
            } else {
                self.last_index
            },
    {
        let marked = self.marked(index, last_in_slot);
        marked.lemma_inserted_shreds(index, shred);
    }

    /// A slot within its caps stays within them, whatever is sent: a shred there
    /// is no room for is refused before it is stored.
    pub proof fn a_slot_stays_within_its_caps(
        self,
        index: u32,
        last_in_slot: bool,
        shred: HeldShred,
    )
        requires
            self.shreds.dom().finite(),
            self.shreds.len() <= MAX_SLOT_SHREDS,
            !self.full(index, shred.data.len()),
        ensures
            self.accepted(index, last_in_slot, shred).slot.total_len() <= MAX_SLOT_BYTES,
            self.accepted(index, last_in_slot, shred).slot.shreds.len() <= MAX_SLOT_SHREDS,
    {
        self.accepting_stores_the_shred(index, last_in_slot, shred);
        let next = self.accepted(index, last_in_slot, shred).slot;
        let was = |i: int| self.data_len(i);
        let is = |i: int| next.data_len(i);
        assert forall|i: int| 0 <= i < u32::MAX + 1 && i != index implies #[trigger] was(i) == is(
            i,
        ) by {}
        crate::sums::lemma_sum_change(was, is, 0, index as int, u32::MAX + 1);
        assert(is(index as int) == shred.data.len());
        assert(next.shreds.dom() =~= self.shreds.dom().insert(index));
    }
}

impl Assembler {
    /// What being within its means comes to for each slot an assembler holds, and
    /// for the total: that is what the slots are charged for, and none of them is
    /// past its caps.
    pub proof fn an_assembler_stays_within_its_means(&self, slot: u64)
        requires
            self.within_means(),
        ensures
            self.bytes < usize::MAX ==> self.bytes == charged_total(self.slots@),
            self.slots@.contains_key(slot) ==> {
                &&& fairly_charged(self.slots@[slot].value)
                &&& self.slot(slot).total_len() <= MAX_SLOT_BYTES
                &&& self.slot(slot).shreds.len() <= MAX_SLOT_SHREDS
                &&& self.slot(slot).read_up()
            },
    {
        if self.slots@.contains_key(slot) {
            assert(in_order(self.slots@[slot].value));
        }
    }

    /// Every slot an assembler holds is sound, so what holds of any sound slot
    /// holds of it: its batches begin at zero and behind its closing shreds, and
    /// its arena is accounted for.
    pub proof fn every_slot_held_is_sound(&self, slot: u64)
        requires
            self.wf(),
            self.slots@.contains_key(slot),
        ensures
            self.slots@[slot].value.wf(),
            ({
                let buffer = self.slots@[slot].value;
                &&& forall|index: u32| #[trigger]
                    buffer.starts@.contains(index) <==> buffer@.is_start(index as int)
                &&& buffer.arena@.len() == buffer.stale + buffer@.total_len()
            }),
    {
        let buffer = self.slots@[slot].value;
        buffer.batches_begin_behind_closing_shreds();
        buffer.the_arena_is_accounted_for();
    }

    /// A budget that is spent refuses whatever is sent, however it came to be
    /// spent, and nothing is kept of it.
    pub proof fn a_spent_budget_refuses_everything(
        self,
        shred: DataView,
        recovered: bool,
        now: u64,
        post: Assembler,
        batches: Seq<BatchView>,
    )
        requires
            self.bytes >= MAX_BUFFERED_BYTES,
            self.dealt_with(shred, recovered, now, post, batches),
        ensures
            batches.len() == 0,
            post.slots@ == self.slots@,
            post.bytes == self.bytes,
            post.events@ == self.events@.push(Event::OverBudget),
    {
    }
}

impl Assembler {
    /// Whatever arrives for one slot, what is held of every other stays as it
    /// was, so no slot number can be used to disturb another slot.
    pub proof fn slots_do_not_disturb_each_other(
        self,
        shred: DataView,
        recovered: bool,
        now: u64,
        post: Assembler,
        batches: Seq<BatchView>,
        other: u64,
    )
        requires
            self.dealt_with(shred, recovered, now, post, batches),
            other != shred.slot,
        ensures
            post.slot(other) == self.slot(other),
            post.slots@.contains_key(other) <==> self.slots@.contains_key(other),
    {
    }

    /// A shred the budget cannot pay for leaves nothing behind.
    pub proof fn a_refused_shred_leaves_nothing_behind(
        self,
        shred: DataView,
        recovered: bool,
        now: u64,
        post: Assembler,
        batches: Seq<BatchView>,
    )
        requires
            self.dealt_with(shred, recovered, now, post, batches),
            over_budget(self.bytes as int, shred.data.len() as int) || self.slot(shred.slot).full(
                shred.index,
                shred.data.len(),
            ),
        ensures
            batches.len() == 0,
            post.bytes == self.bytes,
            forall|slot: u64| #[trigger] post.slot(slot) == self.slot(slot),
    {
    }
}

impl SlotView {
    /// The entry bytes of a slot add up: a slot that holds nothing has none, and
    /// one more shred adds what it carries, in place of what the copy it takes the
    /// place of carried.
    pub proof fn entry_bytes_add_up(self, index: u32, shred: HeldShred)
        ensures
            SlotView::empty().total_len() == 0,
            ({
                let more = SlotView { shreds: self.shreds.insert(index, shred), ..self };
                more.total_len() + (if self.shreds.contains_key(index) {
                    self.shreds[index].data.len()
                } else {
                    0
                }) == self.total_len() + shred.data.len()
            }),
    {
        let none = SlotView::empty();
        crate::sums::lemma_sum_zero(|i: int| none.data_len(i), 0, u32::MAX + 1);
        let more = SlotView { shreds: self.shreds.insert(index, shred), ..self };
        let was = |i: int| self.data_len(i);
        let is = |i: int| more.data_len(i);
        assert forall|i: int| 0 <= i < u32::MAX + 1 && i != index implies #[trigger] was(i) == is(
            i,
        ) by {}
        crate::sums::lemma_sum_change(was, is, 0, index as int, u32::MAX + 1);
        assert(is(index as int) == shred.data.len());
    }
}

/// A pass speaks of its batch alone.
proof fn lemma_pass_says(advance: Option<AdvanceView>)
    ensures
        forall|i: int|
            0 <= i < pass_events(advance).len() ==> !(#[trigger] pass_events(advance)[i] is OverBudget)
                && !(pass_events(advance)[i] is Duplicate),
{
    reveal(pass_events);
}

/// Accepting a shred never speaks of a budget, and of a copy just where one was
/// held.
#[verifier::spinoff_prover]
#[verifier::rlimit(60)]
proof fn lemma_accepting_says(
    before: SlotView,
    index: u32,
    last_in_slot: bool,
    shred: HeldShred,
)
    ensures
        ({
            let said = before.accepted(index, last_in_slot, shred).events;
            &&& forall|i: int| 0 <= i < said.len() ==> !(#[trigger] said[i] is OverBudget)
            &&& before.shreds.contains_key(index) ==> said.len() > 0 && said[0] is Duplicate
            &&& !before.shreds.contains_key(index) ==> forall|i: int|
                0 <= i < said.len() ==> !(#[trigger] said[i] is Duplicate)
        }),
{
    let stored = before.marked(index, last_in_slot).inserted(index, shred);
    let start = stored.containing(index as int);
    let read = stored.advanced(start);
    lemma_pass_says(stored.pass(start, stored.progress_of(start)).1);
    lemma_pass_says(read.pass(index + 1, read.progress_of(index + 1)).1);
}

impl Assembler {
    /// A shred is refused only where it must be. As long as eight megabytes of
    /// entries for the slot and half a gigabyte for all of them are not exceeded
    /// by it, and the slot holds fewer than 8192 shreds or holds a copy of it
    /// already, it is taken in as it came, nothing else the slot holds changes,
    /// and nothing is said of a budget.
    #[verifier::spinoff_prover]
    #[verifier::rlimit(60)]
    pub proof fn a_shred_there_is_room_for_is_taken_in(
        self,
        shred: DataView,
        recovered: bool,
        now: u64,
        post: Assembler,
        batches: Seq<BatchView>,
    )
        requires
            self.dealt_with(shred, recovered, now, post, batches),
            self.bytes + shred.data.len() + 192 <= 536_870_912,
            self.slot(shred.slot).total_len() + shred.data.len() <= 8_388_608,
            self.slot(shred.slot).shreds.len() < 8_192 || self.slot(
                shred.slot,
            ).shreds.contains_key(shred.index),
        ensures
            post.slots@.contains_key(shred.slot),
            post.slots@[shred.slot].updated == now,
            ({
                let before = self.slot(shred.slot);
                let after = post.slots@[shred.slot].value@;
                &&& after.shreds.contains_key(shred.index)
                &&& after.shreds[shred.index].data == shred.data
                &&& after.shreds[shred.index].data_complete == shred.data_complete
                &&& after.shreds[shred.index].received == now
                &&& after.shreds[shred.index].recovered == recovered
                &&& forall|other: u32|
                    other != shred.index ==> (#[trigger] after.shreds.contains_key(other)
                        <==> before.shreds.contains_key(other)) && (before.shreds.contains_key(
                        other,
                    ) ==> after.shreds[other] == before.shreds[other])
                &&& after.last_index == if shred.last_in_slot {
                    Some(shred.index)
                } else {
                    before.last_index
                }
            }),
            post.events@.len() >= self.events@.len(),
            post.events@.take(self.events@.len() as int) == self.events@,
            forall|i: int|
                self.events@.len() <= i < post.events@.len() ==> !(
                #[trigger] post.events@[i] is OverBudget),
    {
        let before = self.slot(shred.slot);
        let held = to_hold(shred, now, recovered);
        before.accepting_stores_the_shred(shred.index, shred.last_in_slot, held);
        lemma_accepting_says(before, shred.index, shred.last_in_slot, held);
        let said = before.accepted(shred.index, shred.last_in_slot, held).events;
        assert(post.events@ == self.events@ + said);
        assert(post.events@.take(self.events@.len() as int) =~= self.events@);
        assert forall|i: int| self.events@.len() <= i < post.events@.len() implies !(
        #[trigger] post.events@[i] is OverBudget) by {
            assert(post.events@[i] == said[i - self.events@.len()]);
        }
    }

    /// A shred that would take its slot past eight megabytes of entries or past
    /// 8192 shreds, or all of them past half a gigabyte, is refused: nothing is
    /// handed over, what is held of every slot stays, and that is said once.
    pub proof fn a_shred_there_is_no_room_for_is_refused(
        self,
        shred: DataView,
        recovered: bool,
        now: u64,
        post: Assembler,
        batches: Seq<BatchView>,
    )
        requires
            self.dealt_with(shred, recovered, now, post, batches),
            self.bytes + shred.data.len() + 192 > 536_870_912 || self.slot(shred.slot).total_len()
                + shred.data.len() > 8_388_608 || (self.slot(shred.slot).shreds.len() >= 8_192
                && !self.slot(shred.slot).shreds.contains_key(shred.index)),
        ensures
            batches.len() == 0,
            post.bytes == self.bytes,
            post.events@ == self.events@.push(Event::OverBudget),
            forall|slot: u64| #[trigger] post.slot(slot) == self.slot(slot),
    {
    }

    /// A second copy of a shred is said to be one, and a first is not.
    #[verifier::spinoff_prover]
    #[verifier::rlimit(60)]
    pub proof fn copies_are_told_from_firsts(
        self,
        shred: DataView,
        recovered: bool,
        now: u64,
        post: Assembler,
        batches: Seq<BatchView>,
    )
        requires
            self.dealt_with(shred, recovered, now, post, batches),
            self.bytes + shred.data.len() + 192 <= 536_870_912,
            self.slot(shred.slot).total_len() + shred.data.len() <= 8_388_608,
            self.slot(shred.slot).shreds.len() < 8_192 || self.slot(
                shred.slot,
            ).shreds.contains_key(shred.index),
        ensures
            (exists|i: int|
                self.events@.len() <= i < post.events@.len() && #[trigger] post.events@[i]
                    is Duplicate) <==> self.slot(shred.slot).shreds.contains_key(shred.index),
    {
        let before = self.slot(shred.slot);
        let held = to_hold(shred, now, recovered);
        lemma_accepting_says(before, shred.index, shred.last_in_slot, held);
        let said = before.accepted(shred.index, shred.last_in_slot, held).events;
        assert(post.events@ == self.events@ + said);
        let noted = self.events@.len() as int;
        assert forall|i: int| noted <= i < post.events@.len() implies #[trigger] post.events@[i]
            == said[i - noted] by {}
        if before.shreds.contains_key(shred.index) {
            assert(post.events@[noted] is Duplicate);
        }
    }
}

/// A slot is charged for the room its entry bytes take up, which is no less than they
/// are, for 64 bytes a shred and for 128 a batch begun, as far as that can be counted.
pub proof fn a_slot_is_charged_for_what_it_holds(buffer: SlotBuffer) -> (capacity: usize)
    requires
        fairly_charged(buffer),
    ensures
        capacity >= buffer.arena@.len(),
        ({
            let all = capacity + 64 * buffer@.shreds.len() + 128 * buffer@.progress.len();
            buffer.charged == if all <= usize::MAX {
                all
            } else {
                usize::MAX as int
            }
        }),
{
    choose|capacity: usize|
        capacity >= buffer.arena@.len() && buffer.charged == #[trigger] resident(
            capacity as int,
            buffer@.shreds.len(),
            buffer@.progress.len(),
        )
}

/// A slot is held for as long as shreds of it come: where there are no more than 128
/// of them, one that a shred came for less than the retention ago outlives a sweep as
/// it is, and one that none did is let go, whose account is closed.
pub proof fn a_slot_is_held_as_long_as_shreds_of_it_come(
    assembler: Assembler,
    now: u64,
    post: Assembler,
    slot: u64,
)
    requires
        assembler.wf(),
        assembler.swept(now, post),
        assembler.slots@.len() <= 128,
        assembler.slots@.contains_key(slot),
        assembler.slots@[slot].updated <= now,
    ensures
        now - assembler.slots@[slot].updated < assembler.slots.retention()
            ==> post.slots@.contains_key(slot) && post.slots@[slot] == assembler.slots@[slot],
        assembler.slots.sweep_due(now) && now - assembler.slots@[slot].updated
            >= assembler.slots.retention() ==> !post.slots@.contains_key(slot),
        post.events@.len() >= assembler.events@.len(),
        post.events@.take(assembler.events@.len() as int) == assembler.events@,
{
    if assembler.slots.sweep_due(now) {
        let kept = fresh(assembler.slots@, now, assembler.slots.retention());
        let expired = choose|expired: Seq<(u64, SlotBuffer)>| #[trigger]
            lists_expired(assembler.slots@, kept, expired) && post.events@ == assembler.events@
                + all_closing_events(expired) + seq![
                Event::BufferedSlots(post.slots@.len() as u64),
                Event::BufferedBytes(post.bytes as u64),
            ];
        assembler.slots.lemma_finite();
        crate::aged::entries_live_as_long_as_they_are_touched(
            assembler.slots@,
            now,
            assembler.slots.retention(),
            128,
            post.slots@,
            expired,
            slot,
        );
    }
    assert(post.events@.take(assembler.events@.len() as int) =~= assembler.events@);
}

/// What a slot is told to have lost and what it holds make up what it should have
/// been: the shreds up to the one that closed it, or up to the highest that came
/// where none did.
#[verifier::spinoff_prover]
#[verifier::rlimit(60)]
pub proof fn lost_and_held_make_up_the_slot(slot: SlotView, last: u32)
    requires
        forall|index: u32| #[trigger] slot.shreds.contains_key(index) ==> index <= last,
        slot.last_index == Some(last) || (slot.last_index is None && slot.shreds.contains_key(
            last,
        )),
    ensures
        slot.shreds.len() + lost(slot) == last + 1,
        ({
            let said = closing_events(slot);
            &&& lost(slot) > 0 <==> said.len() == 2
            &&& lost(slot) > 0 ==> said[0] == Event::Missing(lost(slot) as u64)
            &&& slot.last_index is Some ==> said.last() == (Event::Completeness {
                received: slot.shreds.len() as u64,
                expected: (last + 1) as u64,
            })
            &&& slot.last_index is None ==> said.last() is Unterminated
        }),
{
    let missing = Set::new(|index: u32| slot.lacks(index));
    let held = slot.shreds.dom();
    lemma_up_to(last as int);
    assert forall|index: u32| #[trigger] slot.lacks(index) <==> index <= last
        && !slot.shreds.contains_key(index) by {
        if slot.last_index is None {
            if index <= last {
                assert(slot.shreds.contains_key(last));
            }
            if slot.reaches(index) {
                let above = choose|above: u32|
                    index <= above && #[trigger] slot.shreds.contains_key(above);
                assert(above <= last);
            }
        }
    }
    assert(up_to(last as int) =~= held.union(missing));
    assert(held.subset_of(up_to(last as int)));
    assert(missing.subset_of(up_to(last as int)));
    vstd::set_lib::lemma_len_subset(held, up_to(last as int));
    vstd::set_lib::lemma_len_subset(missing, up_to(last as int));
    assert(held.disjoint(missing));
    vstd::set_lib::lemma_set_disjoint_lens(held, missing);
}

spec fn up_to(last: int) -> Set<u32> {
    Set::new(|index: u32| index <= last)
}

proof fn lemma_up_to(last: int)
    requires
        -1 <= last <= u32::MAX,
    ensures
        up_to(last).finite(),
        up_to(last).len() == last + 1,
    decreases last + 1,
{
    if last < 0 {
        assert(up_to(last) =~= Set::empty());
    } else {
        lemma_up_to(last - 1);
        assert(up_to(last) =~= up_to(last - 1).insert(last as u32));
    }
}

/// Inserting a shred there is room for holds it, at the time it came, and says nothing
/// of a budget.
pub proof fn inserting_holds_what_there_is_room_for(
    assembler: &mut Assembler,
    shred: &DataShred<'_>,
    recovered: bool,
    now: u64,
    batches: Vec<DecodedBatch>,
)
    requires
        call_ensures(Assembler::insert_at, (assembler, shred, recovered, now), batches),
        !old(assembler).slots.sweep_due(now),
        old(assembler).bytes + shred.data@.len() + 192 <= 536_870_912,
        old(assembler).slot(shred.slot).total_len() + shred.data@.len() <= 8_388_608,
        old(assembler).slot(shred.slot).shreds.len() < 8_192 || old(assembler).slot(
            shred.slot,
        ).shreds.contains_key(shred.index),
    ensures
        final(assembler).slots@.contains_key(shred.slot),
        ({
            let held = final(assembler).slots@[shred.slot].value@.shreds;
            &&& held.contains_key(shred.index)
            &&& held[shred.index].data == shred.data@
            &&& held[shred.index].data_complete == shred.data_complete
            &&& held[shred.index].received == now
            &&& held[shred.index].recovered == recovered
            &&& held.remove(shred.index) == old(assembler).slot(shred.slot).shreds.remove(
                shred.index,
            )
        }),
        forall|i: int|
            old(assembler).events@.len() <= i < final(assembler).events@.len() ==> !(
            #[trigger] final(assembler).events@[i] is OverBudget),
{
    let swept = choose|swept: Assembler| #[trigger]
        old(assembler).swept(now, swept) && swept.dealt_with(
            shred@,
            recovered,
            now,
            *final(assembler),
            batch_views(batches@),
        );
    assert(swept.slot(shred.slot) == old(assembler).slot(shred.slot));
    swept.a_shred_there_is_room_for_is_taken_in(
        shred@,
        recovered,
        now,
        *final(assembler),
        batch_views(batches@),
    );
    let held = final(assembler).slots@[shred.slot].value@.shreds;
    assert(held.remove(shred.index) =~= old(assembler).slot(shred.slot).shreds.remove(shred.index))
        by {
        let before = old(assembler).slot(shred.slot).shreds;
        assert forall|other: u32| held.remove(shred.index).contains_key(other) <==> before.remove(
            shred.index,
        ).contains_key(other) by {
            assert(held.contains_key(other) || !held.contains_key(other));
        }
        assert forall|other: u32| #[trigger] held.remove(shred.index).contains_key(
            other,
        ) implies held.remove(shred.index)[other] == before.remove(shred.index)[other] by {
            assert(held.contains_key(other));
        }
    }
}

proof fn lemma_closing_told(expired: Seq<(u64, SlotBuffer)>, at: int) -> (from: int)
    requires
        0 <= at < expired.len(),
    ensures
        ({
            let said = closing_events(expired[at].1@);
            &&& 0 <= from
            &&& from + said.len() <= all_closing_events(expired).len()
            &&& all_closing_events(expired).subrange(from, from + said.len()) == said
        }),
    decreases expired.len(),
{
    let before = all_closing_events(expired.drop_last());
    let said = closing_events(expired[at].1@);
    if at == expired.len() - 1 {
        let from = before.len() as int;
        assert(all_closing_events(expired).subrange(from, from + said.len()) =~= said);
        from
    } else {
        assert(expired.drop_last()[at] == expired[at]);
        let from = lemma_closing_told(expired.drop_last(), at);
        assert(all_closing_events(expired).subrange(from, from + said.len()) =~= before.subrange(
            from,
            from + said.len(),
        ));
        from
    }
}

/// Whether `said` stands among events, from `from` on.
pub open spec fn told_at(events: Seq<Event>, from: int, said: Seq<Event>) -> bool {
    &&& 0 <= from
    &&& from + said.len() <= events.len()
    &&& events.subrange(from, from + said.len()) == said
}

/// A sweep that is due closes the account of every slot no shred came for within the
/// retention: what it missed, if anything, and how complete it was, or that there is no
/// telling. It then says how many slots are left and what they cost.
pub proof fn a_slot_let_go_is_accounted_for(assembler: &mut Assembler, now: u64, slot: u64)
    requires
        call_ensures(Assembler::sweep, (assembler, now), ()),
        old(assembler).wf(),
        old(assembler).slots.sweep_due(now),
        old(assembler).slots@.contains_key(slot),
        old(assembler).slots@[slot].updated + old(assembler).slots.retention() <= now,
    ensures
        !final(assembler).slots@.contains_key(slot),
        final(assembler).events@.len() >= old(assembler).events@.len() + 2,
        ({
            let (events, len) = (final(assembler).events@, final(assembler).events@.len() as int);
            &&& events[len - 2] == Event::BufferedSlots(final(assembler).slots@.len() as u64)
            &&& events[len - 1] == Event::BufferedBytes(final(assembler).bytes as u64)
        }),
        exists|from: int|
            old(assembler).events@.len() <= from && #[trigger] told_at(
                final(assembler).events@,
                from,
                closing_events(old(assembler).slots@[slot].value@),
            ),
{
    let (before, after) = (*old(assembler), *final(assembler));
    let kept = fresh(before.slots@, now, before.slots.retention());
    let expired = choose|expired: Seq<(u64, SlotBuffer)>| #[trigger]
        lists_expired(before.slots@, kept, expired) && after.events@ == before.events@
            + all_closing_events(expired) + seq![
            Event::BufferedSlots(after.slots@.len() as u64),
            Event::BufferedBytes(after.bytes as u64),
        ];
    assert(!kept.contains_key(slot));
    if after.slots@.contains_key(slot) {
        assert(kept.contains_key(slot));
    }
    let at = choose|at: int| 0 <= at < expired.len() && #[trigger] expired[at].0 == slot;
    let from = lemma_closing_told(expired, at);
    let said = closing_events(before.slots@[slot].value@);
    let start = before.events@.len() + from;
    assert(after.events@.subrange(start, start + said.len()) =~= all_closing_events(
        expired,
    ).subrange(from, from + said.len()));
    assert(told_at(after.events@, start, said));
}

/// What is held in all goes up and down with what the slot of a shred is charged for,
/// and with nothing else.
pub proof fn the_total_moves_with_the_slot(
    assembler: &mut Assembler,
    shred: &DataShred<'_>,
    recovered: bool,
    now: u64,
    batches: Vec<DecodedBatch>,
)
    requires
        call_ensures(Assembler::insert_at, (assembler, shred, recovered, now), batches),
        !old(assembler).slots.sweep_due(now),
        old(assembler).slots@.contains_key(shred.slot),
        old(assembler).slots@[shred.slot].value.charged <= old(assembler).bytes,
    ensures
        final(assembler).slots@.contains_key(shred.slot),
        final(assembler).bytes < usize::MAX ==> final(assembler).bytes - final(
            assembler
        ).slots@[shred.slot].value.charged == old(assembler).bytes - old(
            assembler
        ).slots@[shred.slot].value.charged,
        forall|other: u64|
            other != shred.slot ==> (#[trigger] final(assembler).slots@.contains_key(other) <==> old(
                assembler
            ).slots@.contains_key(other)) && (old(assembler).slots@.contains_key(other) ==> final(
                assembler
            ).slots@[other] == old(assembler).slots@[other]),
{
}

/// An assembler begins with nothing held and nothing owed, and holds no more than 128
/// slots, for as long as it is told.
pub proof fn an_assembler_begins_with_nothing(retention: u64, clock: Clock, assembler: Assembler)
    requires
        call_ensures(Assembler::new, (retention, clock), assembler),
    ensures
        assembler.slots@.len() == 0,
        assembler.slots.retention() == retention,
        assembler.slots.cap() == 128,
        assembler.bytes == 0,
        assembler.events@.len() == 0,
{
}

} // verus!
