//! What the sniper has to say about itself.
//!
//! The parts of the sniper note what happens to them as [`Event`]s. [`Metrics`]
//! turns those into movements of instruments, and keeps the few readings that
//! are sampled rather than counted. Exporting either is somebody else's business.

use crate::clock::{between, passed};
use vstd::prelude::*;

verus! {

/// What a datagram turned out to be.
#[derive(Clone, Copy, Debug, PartialEq, Eq, Structural)]
pub enum PacketKind {
    Data,
    Coding,
    Other,
}

/// What became of a batch.
#[derive(Clone, Copy, Debug, PartialEq, Eq, Structural)]
pub enum BatchOutcome {
    Decoded,
    Marker,
    Failed,
}

impl BatchOutcome {
    pub open spec fn label(self) -> Seq<char> {
        match self {
            BatchOutcome::Decoded => "decoded"@,
            BatchOutcome::Marker => "marker"@,
            BatchOutcome::Failed => "failed"@,
        }
    }

    pub fn as_str(self) -> (text: &'static str)
        ensures
            text@ == self.label(),
    {
        match self {
            BatchOutcome::Decoded => "decoded",
            BatchOutcome::Marker => "marker",
            BatchOutcome::Failed => "failed",
        }
    }
}

/// Something worth counting or timing. Times are readings of the clock the part
/// that noticed runs on.
#[derive(Clone, Copy, Debug, PartialEq, Eq, Structural)]
pub enum Event {
    /// A shred was refused because the memory it asked for was spent.
    OverBudget,
    /// A data shred arrived that was held already.
    Duplicate,
    /// A batch begun at `since` yielded its first entries.
    Opened { since: u64, recovered: bool },
    /// A batch begun at `since` was settled.
    Batch { outcome: BatchOutcome, since: u64, recovered: bool },
    /// That many entries were decoded.
    Entries(u64),
    /// That many shreds of a slot never arrived.
    Missing(u64),
    /// A slot was let go with `received` of the `expected` shreds it had.
    Completeness { received: u64, expected: u64 },
    /// A slot was let go without its closing shred.
    Unterminated,
    /// Slots held, after a sweep.
    BufferedSlots(u64),
    /// Bytes they cost, after a sweep.
    BufferedBytes(u64),
    /// That many data shreds were rebuilt from their erasure batch.
    Recovered(u64),
    /// An erasure batch could not be recovered.
    FecSetIncomplete,
    /// A packet was not its slot's leader's.
    Forged,
    /// There was no telling whether a packet was its slot's leader's.
    Unverified,
    /// A datagram was read.
    Packet(PacketKind),
    /// A datagram whose parsing began at `since` has been dealt with.
    Processed { since: u64 },
    /// That many peers have sent us shreds.
    Sources(u64),
    /// A shred the leader produced `produced` into its slot reached us `arrival`
    /// into it.
    Delivery { arrival: u64, produced: u64 },
    /// The packet path moved on to `slot`. What it left behind held that many
    /// shreds and transactions, and took `duration` if it was a slot at all.
    Completed { slot: u64, duration: Option<u64>, shreds: u64, transactions: u64 },
    /// A transaction surfaced, `offset` into its slot where that is known.
    Transaction { vote: bool, hit: bool, opaque: bool, offset: Option<u64> },
    /// A transaction of a watched wallet surfaced.
    Watched { offset: Option<u64> },
    /// A trigger is waiting to be answered.
    Triggered,
    /// A trigger was overtaken, or had aged past the slot it was about.
    Stale,
    /// A trigger had nowhere to go.
    Dropped,
    /// A trigger came too soon after the last answer.
    Skipped,
    /// An answer could not be sent.
    Failed,
    /// An answer was sent: how long that took, and how long after its trigger it
    /// was done.
    Sent { reaction: u64, send: u64 },
    /// An answer came back out of the shred stream.
    Landed { round_trip: u64, slots_behind: u64 },
    /// An answer was never seen in a block.
    Lost,
}

/// What is counted.
#[derive(Clone, Copy, Debug, PartialEq, Eq, Structural)]
pub enum Counter {
    PacketsReceived,
    PacketsRejected,
    PacketsForged,
    PacketsUnverified,
    ShredsReceived,
    CodingShredsReceived,
    ShredsRecovered,
    ShredsDuplicate,
    ShredsMissing,
    ShredsOverBudget,
    FecSetsIncomplete,
    Batches { outcome: BatchOutcome },
    Entries,
    Transactions { vote: bool },
    TransactionsOpaque,
    TransactionsWatched,
    SnipeHits,
    Slots,
    SlotsUnterminated,
    PoolExhausted,
    FireTriggers,
    FireStale,
    FireDropped,
    FireSkipped,
    FireFailed,
    FireSent,
    FireLanded,
    FireLost,
}

/// What is timed, in nanoseconds.
#[derive(Clone, Copy, Debug, PartialEq, Eq, Structural)]
pub enum Timer {
    Packet,
    BatchOpening { recovered: bool },
    Batch { recovered: bool },
    Snipe,
    Watched,
    SlotDuration,
    FireReaction,
    FireSend,
    FireRoundTrip,
}

/// What is sized.
#[derive(Clone, Copy, Debug, PartialEq, Eq, Structural)]
pub enum Tally {
    SlotShreds,
    SlotTransactions,
    ReceiveBatch,
    FireSlotsBehind,
}

/// One movement of an instrument.
#[derive(Clone, Copy, Debug, PartialEq, Eq, Structural)]
pub enum Update {
    Add(Counter, u64),
    Time(Timer, u64),
    Size(Tally, u64),
    /// How far the arrival of a shred drifted from where the leader says it
    /// produced it: the first less the second, which may be less than nothing.
    Skew { arrival: u64, produced: u64 },
    /// How much of a slot was seen, of something there was.
    Share { received: u64, expected: u64 },
}

/// Readings that are sampled rather than counted.
#[derive(Clone, Copy, Debug, PartialEq, Eq, Structural)]
pub struct Gauges {
    pub tvu_peers: u64,
    pub turbine_sources: u64,
    pub current_slot: u64,
    pub queue_depth: u64,
    /// Deepest the queue got since the last export. The plain depth is sampled
    /// once per export interval and so cannot see a stall shorter than one,
    /// which is exactly the kind that costs us shreds.
    pub queue_depth_peak: u64,
    pub buffered_slots: u64,
    pub buffered_bytes: u64,
    /// Datagrams the kernel dropped on our sockets, cumulative since boot of the
    /// socket. Nothing else we measure moves when this does: an overflowing
    /// receive buffer looks precisely like a quiet network.
    pub udp_drops: u64,
}

impl Gauges {
    /// The readings once `packets` more datagrams wait to be parsed.
    pub open spec fn pushed(self, packets: u64) -> Gauges {
        let depth = self.queue_depth.wrapping_add(packets);
        Gauges {
            queue_depth: depth,
            queue_depth_peak: if depth > self.queue_depth_peak {
                depth
            } else {
                self.queue_depth_peak
            },
            ..self
        }
    }

    /// The readings once `packets` datagrams no longer wait.
    pub open spec fn popped(self, packets: u64) -> Gauges {
        Gauges { queue_depth: passed(packets, self.queue_depth), ..self }
    }
}

/// Datagrams that were handed to the parser and taken by it leave the depth as
/// it was, and the peak no lower than the depth was in between.
pub proof fn what_was_pushed_is_popped(gauges: Gauges, packets: u64)
    requires
        gauges.queue_depth + packets <= u64::MAX,
    ensures
        gauges.pushed(packets).popped(packets) == (Gauges {
            queue_depth_peak: gauges.pushed(packets).queue_depth_peak,
            ..gauges
        }),
        gauges.pushed(packets).queue_depth_peak >= gauges.queue_depth + packets,
        gauges.pushed(packets).queue_depth_peak >= gauges.queue_depth_peak,
{
}

pub open spec fn timed(timer: Timer, time: Option<u64>) -> Seq<Update> {
    match time {
        Some(time) => seq![Update::Time(timer, time)],
        None => Seq::empty(),
    }
}

impl Event {
    /// What an event that is dealt with at `now` moves.
    pub open spec fn moves(self, now: u64) -> Seq<Update> {
        match self {
            Event::OverBudget => seq![Update::Add(Counter::ShredsOverBudget, 1)],
            Event::Duplicate => seq![Update::Add(Counter::ShredsDuplicate, 1)],
            Event::Opened { since, recovered } => seq![
                Update::Time(Timer::BatchOpening { recovered }, passed(since, now)),
            ],
            Event::Batch { outcome, since, recovered } => seq![
                Update::Add(Counter::Batches { outcome }, 1),
                Update::Time(Timer::Batch { recovered }, passed(since, now)),
            ],
            Event::Entries(count) => seq![Update::Add(Counter::Entries, count)],
            Event::Missing(count) => seq![Update::Add(Counter::ShredsMissing, count)],
            Event::Completeness { received, expected } => if expected == 0 {
                Seq::empty()
            } else {
                seq![Update::Share { received, expected }]
            },
            Event::Unterminated => seq![Update::Add(Counter::SlotsUnterminated, 1)],
            Event::BufferedSlots(_) => Seq::empty(),
            Event::BufferedBytes(_) => Seq::empty(),
            Event::Recovered(count) => seq![Update::Add(Counter::ShredsRecovered, count)],
            Event::FecSetIncomplete => seq![Update::Add(Counter::FecSetsIncomplete, 1)],
            Event::Forged => seq![Update::Add(Counter::PacketsForged, 1)],
            Event::Unverified => seq![Update::Add(Counter::PacketsUnverified, 1)],
            Event::Packet(kind) => seq![Update::Add(Counter::PacketsReceived, 1)] + match kind {
                PacketKind::Data => seq![Update::Add(Counter::ShredsReceived, 1)],
                PacketKind::Coding => seq![
                    Update::Add(Counter::CodingShredsReceived, 1),
                    Update::Add(Counter::PacketsRejected, 1),
                ],
                PacketKind::Other => seq![Update::Add(Counter::PacketsRejected, 1)],
            },
            Event::Processed { since } => seq![Update::Time(Timer::Packet, passed(since, now))],
            Event::Sources(_) => Seq::empty(),
            Event::Delivery { arrival, produced } => seq![Update::Skew { arrival, produced }],
            Event::Completed { slot: _, duration, shreds, transactions } => seq![
                Update::Add(Counter::Slots, 1),
            ] + timed(Timer::SlotDuration, duration) + seq![
                Update::Size(Tally::SlotShreds, shreds),
                Update::Size(Tally::SlotTransactions, transactions),
            ],
            Event::Transaction { vote, hit, opaque, offset } => seq![
                Update::Add(Counter::Transactions { vote }, 1),
            ] + (if opaque {
                seq![Update::Add(Counter::TransactionsOpaque, 1)]
            } else {
                Seq::empty()
            }) + (if hit {
                seq![Update::Add(Counter::SnipeHits, 1)] + timed(Timer::Snipe, offset)
            } else {
                Seq::empty()
            }),
            Event::Watched { offset } => seq![Update::Add(Counter::TransactionsWatched, 1)] + timed(
                Timer::Watched,
                offset,
            ),
            Event::Triggered => seq![Update::Add(Counter::FireTriggers, 1)],
            Event::Stale => seq![Update::Add(Counter::FireStale, 1)],
            Event::Dropped => seq![Update::Add(Counter::FireDropped, 1)],
            Event::Skipped => seq![Update::Add(Counter::FireSkipped, 1)],
            Event::Failed => seq![Update::Add(Counter::FireFailed, 1)],
            Event::Sent { reaction, send } => seq![
                Update::Add(Counter::FireSent, 1),
                Update::Time(Timer::FireReaction, reaction),
                Update::Time(Timer::FireSend, send),
            ],
            Event::Landed { round_trip, slots_behind } => seq![
                Update::Add(Counter::FireLanded, 1),
                Update::Time(Timer::FireRoundTrip, round_trip),
                Update::Size(Tally::FireSlotsBehind, slots_behind),
            ],
            Event::Lost => seq![Update::Add(Counter::FireLost, 1)],
        }
    }

    /// What an event makes of the gauges.
    pub open spec fn sets(self, gauges: Gauges) -> Gauges {
        match self {
            Event::BufferedSlots(slots) => Gauges { buffered_slots: slots, ..gauges },
            Event::BufferedBytes(bytes) => Gauges { buffered_bytes: bytes, ..gauges },
            Event::Sources(sources) => Gauges { turbine_sources: sources, ..gauges },
            Event::Completed { slot, .. } => Gauges { current_slot: slot, ..gauges },
            _ => gauges,
        }
    }
}

pub struct Metrics {
    pub updates: Vec<Update>,
    pub gauges: Gauges,
}

/// What there is to say of one event after another.
pub open spec fn moved(events: Seq<Event>, now: u64) -> Seq<Update>
    decreases events.len(),
{
    if events.len() == 0 {
        Seq::empty()
    } else {
        moved(events.drop_last(), now) + events.last().moves(now)
    }
}

pub open spec fn gauged(events: Seq<Event>, gauges: Gauges) -> Gauges
    decreases events.len(),
{
    if events.len() == 0 {
        gauges
    } else {
        events.last().sets(gauged(events.drop_last(), gauges))
    }
}

impl Metrics {
    pub fn new() -> (metrics: Metrics)
        ensures
            metrics.updates@ == Seq::<Update>::empty(),
            metrics.gauges == (Gauges {
                tvu_peers: 0,
                turbine_sources: 0,
                current_slot: 0,
                queue_depth: 0,
                queue_depth_peak: 0,
                buffered_slots: 0,
                buffered_bytes: 0,
                udp_drops: 0,
            }),
    {
        Metrics {
            updates: Vec::new(),
            gauges: Gauges {
                tvu_peers: 0,
                turbine_sources: 0,
                current_slot: 0,
                queue_depth: 0,
                queue_depth_peak: 0,
                buffered_slots: 0,
                buffered_bytes: 0,
                udp_drops: 0,
            },
        }
    }

    /// `updates` have been noted since `old`, and no gauge has moved.
    pub open spec fn noted(self, old: Metrics, updates: Seq<Update>) -> bool {
        &&& self.updates@ == old.updates@ + updates
        &&& self.gauges == old.gauges
    }

    fn count(&mut self, counter: Counter, count: u64)
        ensures
            final(self).noted(*old(self), seq![Update::Add(counter, count)]),
    {
        self.updates.push(Update::Add(counter, count));
        assert(self.updates@ =~= old(self).updates@ + seq![Update::Add(counter, count)]);
    }

    fn time(&mut self, timer: Timer, time: u64)
        ensures
            final(self).noted(*old(self), seq![Update::Time(timer, time)]),
    {
        self.updates.push(Update::Time(timer, time));
        assert(self.updates@ =~= old(self).updates@ + seq![Update::Time(timer, time)]);
    }

    fn size(&mut self, tally: Tally, size: u64)
        ensures
            final(self).noted(*old(self), seq![Update::Size(tally, size)]),
    {
        self.updates.push(Update::Size(tally, size));
        assert(self.updates@ =~= old(self).updates@ + seq![Update::Size(tally, size)]);
    }

    /// Whatever is not a data shred counts as rejected, which is mostly coding
    /// shreds.
    pub fn packet_received(&mut self, kind: PacketKind)
        ensures
            final(self).noted(*old(self), Event::Packet(kind).moves(0)),
    {
        self.count(Counter::PacketsReceived, 1);
        match kind {
            PacketKind::Data => self.count(Counter::ShredsReceived, 1),
            PacketKind::Coding => {
                self.count(Counter::CodingShredsReceived, 1);
                self.count(Counter::PacketsRejected, 1);
            },
            PacketKind::Other => self.count(Counter::PacketsRejected, 1),
        }
        assert(self.updates@ =~= old(self).updates@ + Event::Packet(kind).moves(0));
    }

    pub fn shreds_recovered(&mut self, count: u64)
        ensures
            final(self).noted(*old(self), seq![Update::Add(Counter::ShredsRecovered, count)]),
    {
        self.count(Counter::ShredsRecovered, count);
    }

    pub fn fec_set_incomplete(&mut self)
        ensures
            final(self).noted(*old(self), seq![Update::Add(Counter::FecSetsIncomplete, 1)]),
    {
        self.count(Counter::FecSetsIncomplete, 1);
    }

    pub fn packet_processed(&mut self, elapsed: u64)
        ensures
            final(self).noted(*old(self), seq![Update::Time(Timer::Packet, elapsed)]),
    {
        self.time(Timer::Packet, elapsed);
    }

    pub fn shred_duplicate(&mut self)
        ensures
            final(self).noted(*old(self), seq![Update::Add(Counter::ShredsDuplicate, 1)]),
    {
        self.count(Counter::ShredsDuplicate, 1);
    }

    pub fn shreds_missing(&mut self, count: u64)
        ensures
            final(self).noted(*old(self), seq![Update::Add(Counter::ShredsMissing, count)]),
    {
        self.count(Counter::ShredsMissing, count);
    }

    /// `recovered` tags the latency rather than the count: what we want to know
    /// is whether waiting on erasure recovery costs a batch time, and that only
    /// shows up as a difference between the two distributions.
    pub fn batch(&mut self, outcome: BatchOutcome, latency: u64, recovered: bool)
        ensures
            final(self).noted(
                *old(self),
                seq![
                    Update::Add(Counter::Batches { outcome }, 1),
                    Update::Time(Timer::Batch { recovered }, latency),
                ],
            ),
    {
        self.count(Counter::Batches { outcome }, 1);
        self.time(Timer::Batch { recovered }, latency);
        assert(self.updates@ =~= old(self).updates@ + seq![
            Update::Add(Counter::Batches { outcome }, 1),
            Update::Time(Timer::Batch { recovered }, latency),
        ]);
    }

    /// How far our arrival time for a shred drifts from where the leader says it
    /// produced it. The absolute value is meaningless — the two clocks share no
    /// origin — but its spread across a slot is delivery jitter, measured
    /// without any second source of truth.
    pub fn delivery_skew(&mut self, arrival: u64, produced: u64)
        ensures
            final(self).noted(*old(self), seq![Update::Skew { arrival, produced }]),
    {
        self.updates.push(Update::Skew { arrival, produced });
        assert(self.updates@ =~= old(self).updates@ + seq![Update::Skew { arrival, produced }]);
    }

    /// Of a slot that had nothing in it there is no part to have seen.
    pub fn slot_completeness(&mut self, received: u64, expected: u64)
        ensures
            final(self).noted(
                *old(self),
                (Event::Completeness { received, expected }).moves(0),
            ),
    {
        if expected != 0 {
            self.updates.push(Update::Share { received, expected });
        }
        assert(self.updates@ =~= old(self).updates@ + Event::Completeness {
            received,
            expected,
        }.moves(0));
    }

    pub fn slot_unterminated(&mut self)
        ensures
            final(self).noted(*old(self), seq![Update::Add(Counter::SlotsUnterminated, 1)]),
    {
        self.count(Counter::SlotsUnterminated, 1);
    }

    pub fn pool_exhausted(&mut self)
        ensures
            final(self).noted(*old(self), seq![Update::Add(Counter::PoolExhausted, 1)]),
    {
        self.count(Counter::PoolExhausted, 1);
    }

    pub fn set_udp_drops(&mut self, drops: u64)
        ensures
            final(self).updates == old(self).updates,
            final(self).gauges == (Gauges { udp_drops: drops, ..old(self).gauges }),
    {
        self.gauges.udp_drops = drops;
    }

    pub fn entries(&mut self, count: u64)
        ensures
            final(self).noted(*old(self), seq![Update::Add(Counter::Entries, count)]),
    {
        self.count(Counter::Entries, count);
    }

    /// `slot_offset` is how far into the slot we were when this transaction
    /// surfaced, where that could be told. A hit is only worth anything if that
    /// number is small, so the count alone never answers whether a snipe was
    /// actionable.
    pub fn transaction(&mut self, vote: bool, hit: bool, opaque: bool, slot_offset: Option<u64>)
        ensures
            final(self).noted(
                *old(self),
                (Event::Transaction { vote, hit, opaque, offset: slot_offset }).moves(0),
            ),
    {
        self.count(Counter::Transactions { vote }, 1);
        if opaque {
            self.count(Counter::TransactionsOpaque, 1);
        }
        if hit {
            self.count(Counter::SnipeHits, 1);
            if let Some(offset) = slot_offset {
                self.time(Timer::Snipe, offset);
            }
        }
        assert(self.updates@ =~= old(self).updates@ + Event::Transaction {
            vote,
            hit,
            opaque,
            offset: slot_offset,
        }.moves(0));
    }

    pub fn slot_completed(
        &mut self,
        slot: u64,
        duration: Option<u64>,
        shreds: u64,
        transactions: u64,
    )
        ensures
            final(self).updates@ == old(self).updates@ + (Event::Completed {
                slot,
                duration,
                shreds,
                transactions,
            }).moves(0),
            final(self).gauges == (Gauges { current_slot: slot, ..old(self).gauges }),
    {
        self.count(Counter::Slots, 1);
        self.gauges.current_slot = slot;
        if let Some(duration) = duration {
            self.time(Timer::SlotDuration, duration);
        }
        self.size(Tally::SlotShreds, shreds);
        self.size(Tally::SlotTransactions, transactions);
        assert(self.updates@ =~= old(self).updates@ + Event::Completed {
            slot,
            duration,
            shreds,
            transactions,
        }.moves(0));
    }

    pub fn set_tvu_peers(&mut self, peers: u64)
        ensures
            final(self).updates == old(self).updates,
            final(self).gauges == (Gauges { tvu_peers: peers, ..old(self).gauges }),
    {
        self.gauges.tvu_peers = peers;
    }

    pub fn set_turbine_sources(&mut self, sources: u64)
        ensures
            final(self).updates == old(self).updates,
            final(self).gauges == (Gauges { turbine_sources: sources, ..old(self).gauges }),
    {
        self.gauges.turbine_sources = sources;
    }

    pub fn set_buffered_slots(&mut self, slots: u64)
        ensures
            final(self).updates == old(self).updates,
            final(self).gauges == (Gauges { buffered_slots: slots, ..old(self).gauges }),
    {
        self.gauges.buffered_slots = slots;
    }

    /// One receive call returned: `packets` datagrams handed to the parser at
    /// once.
    pub fn queue_pushed(&mut self, packets: u64)
        ensures
            final(self).updates@ == old(self).updates@ + seq![
                Update::Size(Tally::ReceiveBatch, packets),
            ],
            final(self).gauges == old(self).gauges.pushed(packets),
    {
        self.size(Tally::ReceiveBatch, packets);
        let depth: u64 = self.gauges.queue_depth.wrapping_add(packets);
        self.gauges.queue_depth = depth;
        if depth > self.gauges.queue_depth_peak {
            self.gauges.queue_depth_peak = depth;
        }
    }

    pub fn queue_popped(&mut self, packets: u64)
        ensures
            final(self).updates == old(self).updates,
            final(self).gauges == old(self).gauges.popped(packets),
    {
        self.gauges.queue_depth = self.gauges.queue_depth.saturating_sub(packets);
    }

    /// The deepest the queue got since this was last asked. Reading resets it, so
    /// each export reports the peak of its own interval rather than of all time.
    pub fn take_peak(&mut self) -> (peak: u64)
        ensures
            peak == old(self).gauges.queue_depth_peak,
            final(self).updates == old(self).updates,
            final(self).gauges == (Gauges { queue_depth_peak: 0, ..old(self).gauges }),
    {
        let peak: u64 = self.gauges.queue_depth_peak;
        self.gauges.queue_depth_peak = 0;
        peak
    }

    pub fn take_updates(&mut self) -> (updates: Vec<Update>)
        ensures
            updates@ == old(self).updates@,
            final(self).updates@ == Seq::<Update>::empty(),
            final(self).gauges == old(self).gauges,
    {
        let mut updates: Vec<Update> = Vec::new();
        std::mem::swap(&mut updates, &mut self.updates);
        updates
    }

    /// Deals with an event at `now`.
    pub fn note(&mut self, event: Event, now: u64)
        ensures
            final(self).updates@ == old(self).updates@ + event.moves(now),
            final(self).gauges == event.sets(old(self).gauges),
    {
        match event {
            Event::OverBudget => self.count(Counter::ShredsOverBudget, 1),
            Event::Duplicate => self.shred_duplicate(),
            Event::Opened { since, recovered } => {
                self.time(Timer::BatchOpening { recovered }, between(since, now))
            },
            Event::Batch { outcome, since, recovered } => {
                self.batch(outcome, between(since, now), recovered)
            },
            Event::Entries(count) => self.entries(count),
            Event::Missing(count) => self.shreds_missing(count),
            Event::Completeness { received, expected } => {
                self.slot_completeness(received, expected)
            },
            Event::Unterminated => self.slot_unterminated(),
            Event::BufferedSlots(slots) => self.set_buffered_slots(slots),
            Event::BufferedBytes(bytes) => {
                self.gauges.buffered_bytes = bytes;
            },
            Event::Recovered(count) => self.shreds_recovered(count),
            Event::FecSetIncomplete => self.fec_set_incomplete(),
            Event::Forged => self.count(Counter::PacketsForged, 1),
            Event::Unverified => self.count(Counter::PacketsUnverified, 1),
            Event::Packet(kind) => self.packet_received(kind),
            Event::Processed { since } => self.packet_processed(between(since, now)),
            Event::Sources(sources) => self.set_turbine_sources(sources),
            Event::Delivery { arrival, produced } => self.delivery_skew(arrival, produced),
            Event::Completed { slot, duration, shreds, transactions } => {
                self.slot_completed(slot, duration, shreds, transactions)
            },
            Event::Transaction { vote, hit, opaque, offset } => {
                self.transaction(vote, hit, opaque, offset)
            },
            Event::Watched { offset } => {
                self.count(Counter::TransactionsWatched, 1);
                if let Some(offset) = offset {
                    self.time(Timer::Watched, offset);
                }
            },
            Event::Triggered => self.count(Counter::FireTriggers, 1),
            Event::Stale => self.count(Counter::FireStale, 1),
            Event::Dropped => self.count(Counter::FireDropped, 1),
            Event::Skipped => self.count(Counter::FireSkipped, 1),
            Event::Failed => self.count(Counter::FireFailed, 1),
            Event::Sent { reaction, send } => {
                self.count(Counter::FireSent, 1);
                self.time(Timer::FireReaction, reaction);
                self.time(Timer::FireSend, send);
            },
            Event::Landed { round_trip, slots_behind } => {
                self.count(Counter::FireLanded, 1);
                self.time(Timer::FireRoundTrip, round_trip);
                self.size(Tally::FireSlotsBehind, slots_behind);
            },
            Event::Lost => self.count(Counter::FireLost, 1),
        }
        assert(self.updates@ =~= old(self).updates@ + event.moves(now));
    }

    /// Deals with one event after another.
    pub fn note_all(&mut self, events: &Vec<Event>, now: u64)
        ensures
            final(self).updates@ == old(self).updates@ + moved(events@, now),
            final(self).gauges == gauged(events@, old(self).gauges),
    {
        let mut i: usize = 0;
        assert(events@.take(0) =~= Seq::<Event>::empty());
        assert(self.updates@ =~= old(self).updates@ + moved(events@.take(0), now));
        while i < events.len()
            invariant
                i <= events@.len(),
                self.updates@ == old(self).updates@ + moved(events@.take(i as int), now),
                self.gauges == gauged(events@.take(i as int), old(self).gauges),
            decreases events@.len() - i,
        {
            assert(events@.take(i + 1).drop_last() =~= events@.take(i as int));
            self.note(events[i], now);
            assert(self.updates@ =~= old(self).updates@ + moved(events@.take(i + 1), now));
            i = i + 1;
        }
        assert(events@.take(i as int) =~= events@);
    }
}

/// By how much updates move a counter.
pub open spec fn added(updates: Seq<Update>, counter: Counter) -> nat
    decreases updates.len(),
{
    if updates.len() == 0 {
        0
    } else {
        added(updates.drop_last(), counter) + match updates.last() {
            Update::Add(moved, count) if moved == counter => count as nat,
            _ => 0,
        }
    }
}

/// By how much one update does.
spec fn adds(update: Update, counter: Counter) -> nat {
    match update {
        Update::Add(moved, count) if moved == counter => count as nat,
        _ => 0,
    }
}

proof fn lemma_added_few(updates: Seq<Update>, counter: Counter)
    requires
        updates.len() <= 4,
    ensures
        added(updates, counter) == (if updates.len() > 0 {
            adds(updates[0], counter)
        } else {
            0
        }) + (if updates.len() > 1 {
            adds(updates[1], counter)
        } else {
            0
        }) + (if updates.len() > 2 {
            adds(updates[2], counter)
        } else {
            0
        }) + (if updates.len() > 3 {
            adds(updates[3], counter)
        } else {
            0
        }),
    decreases updates.len(),
{
    if updates.len() > 0 {
        lemma_added_few(updates.drop_last(), counter);
    }
}

proof fn lemma_added_joined(front: Seq<Update>, back: Seq<Update>, counter: Counter)
    ensures
        added(front + back, counter) == added(front, counter) + added(back, counter),
    decreases back.len(),
{
    if back.len() == 0 {
        assert(front + back =~= front);
    } else {
        assert((front + back).drop_last() =~= front + back.drop_last());
        lemma_added_joined(front, back.drop_last(), counter);
    }
}

/// By how much an event moves a counter: by one, or by as many as it says, where it is
/// an event the counter is for, and not at all otherwise.
pub open spec fn due(event: Event, counter: Counter) -> nat {
    match counter {
        Counter::PacketsReceived => if event is Packet {
            1
        } else {
            0
        },
        Counter::PacketsRejected => if event is Packet && event != Event::Packet(PacketKind::Data) {
            1
        } else {
            0
        },
        Counter::PacketsForged => if event is Forged {
            1
        } else {
            0
        },
        Counter::PacketsUnverified => if event is Unverified {
            1
        } else {
            0
        },
        Counter::ShredsReceived => if event == Event::Packet(PacketKind::Data) {
            1
        } else {
            0
        },
        Counter::CodingShredsReceived => if event == Event::Packet(PacketKind::Coding) {
            1
        } else {
            0
        },
        Counter::ShredsRecovered => if event is Recovered {
            event->Recovered_0 as nat
        } else {
            0
        },
        Counter::ShredsDuplicate => if event is Duplicate {
            1
        } else {
            0
        },
        Counter::ShredsMissing => if event is Missing {
            event->Missing_0 as nat
        } else {
            0
        },
        Counter::ShredsOverBudget => if event is OverBudget {
            1
        } else {
            0
        },
        Counter::FecSetsIncomplete => if event is FecSetIncomplete {
            1
        } else {
            0
        },
        Counter::Batches { outcome: settled } => if event matches Event::Batch { outcome, .. }
            && outcome == settled {
            1
        } else {
            0
        },
        Counter::Entries => if event is Entries {
            event->Entries_0 as nat
        } else {
            0
        },
        Counter::Transactions { vote: counted } => if event matches Event::Transaction { vote, .. }
            && vote == counted {
            1
        } else {
            0
        },
        Counter::TransactionsOpaque => if event matches Event::Transaction { opaque, .. }
            && opaque {
            1
        } else {
            0
        },
        Counter::TransactionsWatched => if event is Watched {
            1
        } else {
            0
        },
        Counter::SnipeHits => if event matches Event::Transaction { hit, .. } && hit {
            1
        } else {
            0
        },
        Counter::Slots => if event is Completed {
            1
        } else {
            0
        },
        Counter::SlotsUnterminated => if event is Unterminated {
            1
        } else {
            0
        },
        Counter::PoolExhausted => 0,
        Counter::FireTriggers => if event is Triggered {
            1
        } else {
            0
        },
        Counter::FireStale => if event is Stale {
            1
        } else {
            0
        },
        Counter::FireDropped => if event is Dropped {
            1
        } else {
            0
        },
        Counter::FireSkipped => if event is Skipped {
            1
        } else {
            0
        },
        Counter::FireFailed => if event is Failed {
            1
        } else {
            0
        },
        Counter::FireSent => if event is Sent {
            1
        } else {
            0
        },
        Counter::FireLanded => if event is Landed {
            1
        } else {
            0
        },
        Counter::FireLost => if event is Lost {
            1
        } else {
            0
        },
    }
}

#[verifier::spinoff_prover]
#[verifier::rlimit(60)]
proof fn lemma_due(event: Event, now: u64, counter: Counter)
    ensures
        added(event.moves(now), counter) == due(event, counter),
{
    let moves = event.moves(now);
    assert(moves.len() <= 4);
    lemma_added_few(moves, counter);
}

/// What a counter comes to over a run of events.
pub open spec fn all_due(events: Seq<Event>, counter: Counter) -> nat
    decreases events.len(),
{
    if events.len() == 0 {
        0
    } else {
        all_due(events.drop_last(), counter) + due(events.last(), counter)
    }
}

/// Every counter counts its own events and no others: over any run of events it comes
/// to how many of them it is for, whenever they were dealt with.
pub proof fn every_counter_counts_its_own_events(events: Seq<Event>, now: u64, counter: Counter)
    ensures
        added(moved(events, now), counter) == all_due(events, counter),
    decreases events.len(),
{
    if events.len() > 0 {
        every_counter_counts_its_own_events(events.drop_last(), now, counter);
        lemma_due(events.last(), now, counter);
        lemma_added_joined(
            moved(events.drop_last(), now),
            events.last().moves(now),
            counter,
        );
    }
}

/// Packets are accounted for: every one received is a data shred or was rejected.
pub proof fn packets_are_accounted_for(events: Seq<Event>, now: u64)
    ensures
        ({
            let updates = moved(events, now);
            added(updates, Counter::PacketsReceived) == added(updates, Counter::ShredsReceived)
                + added(updates, Counter::PacketsRejected)
        }),
    decreases events.len(),
{
    every_counter_counts_its_own_events(events, now, Counter::PacketsReceived);
    every_counter_counts_its_own_events(events, now, Counter::ShredsReceived);
    every_counter_counts_its_own_events(events, now, Counter::PacketsRejected);
    if events.len() > 0 {
        let fewer = events.drop_last();
        packets_are_accounted_for(fewer, now);
        every_counter_counts_its_own_events(fewer, now, Counter::PacketsReceived);
        every_counter_counts_its_own_events(fewer, now, Counter::ShredsReceived);
        every_counter_counts_its_own_events(fewer, now, Counter::PacketsRejected);
    }
}

/// What is timed is timed from when it began to when it is dealt with, or for as long
/// as the event says it took, under what it is a time of.
#[verifier::spinoff_prover]
#[verifier::rlimit(60)]
pub proof fn times_run_from_when_things_began(event: Event, now: u64, timer: Timer, time: u64)
    ensures
        event.moves(now).contains(Update::Time(timer, time)) <==> match event {
            Event::Opened { since, recovered } => timer == (Timer::BatchOpening { recovered })
                && time == passed(since, now),
            Event::Batch { since, recovered, .. } => timer == (Timer::Batch { recovered }) && time
                == passed(since, now),
            Event::Processed { since } => timer is Packet && time == passed(since, now),
            Event::Completed { duration, .. } => timer is SlotDuration && duration == Some(time),
            Event::Transaction { hit, offset, .. } => timer is Snipe && hit && offset == Some(time),
            Event::Watched { offset } => timer is Watched && offset == Some(time),
            Event::Sent { reaction, send } => (timer is FireReaction && time == reaction) || (
            timer is FireSend && time == send),
            Event::Landed { round_trip, .. } => timer is FireRoundTrip && time == round_trip,
            _ => false,
        },
{
    let moves = event.moves(now);
    let update = Update::Time(timer, time);
    match event {
        Event::Opened { since, recovered } => {
            assert(moves[0] == Update::Time(Timer::BatchOpening { recovered }, passed(since, now)));
        },
        Event::Batch { since, recovered, .. } => {
            assert(moves[1] == Update::Time(Timer::Batch { recovered }, passed(since, now)));
        },
        Event::Processed { since } => {
            assert(moves[0] == Update::Time(Timer::Packet, passed(since, now)));
        },
        Event::Completed { duration, .. } => {
            if let Some(duration) = duration {
                assert(moves[1] == Update::Time(Timer::SlotDuration, duration));
            }
        },
        Event::Transaction { hit, opaque, offset, .. } => {
            if hit {
                if let Some(offset) = offset {
                    assert(moves[if opaque {
                        3
                    } else {
                        2
                    }] == Update::Time(Timer::Snipe, offset));
                }
            }
        },
        Event::Watched { offset } => {
            if let Some(offset) = offset {
                assert(moves[1] == Update::Time(Timer::Watched, offset));
            }
        },
        Event::Sent { reaction, send } => {
            assert(moves[1] == Update::Time(Timer::FireReaction, reaction));
            assert(moves[2] == Update::Time(Timer::FireSend, send));
        },
        Event::Landed { round_trip, .. } => {
            assert(moves[1] == Update::Time(Timer::FireRoundTrip, round_trip));
        },
        _ => {},
    }
}

/// The deepest the queue got is no less than any depth it had since it was last asked,
/// and is one it had.
pub proof fn the_peak_is_the_deepest(gauges: Gauges, packets: u64)
    requires
        gauges.queue_depth + packets <= u64::MAX,
        gauges.queue_depth <= gauges.queue_depth_peak,
    ensures
        ({
            let pushed = gauges.pushed(packets);
            &&& pushed.queue_depth == gauges.queue_depth + packets
            &&& pushed.queue_depth <= pushed.queue_depth_peak
            &&& pushed.queue_depth_peak == gauges.queue_depth_peak || pushed.queue_depth_peak
                == pushed.queue_depth
            &&& gauges.queue_depth_peak <= pushed.queue_depth_peak
        }),
        ({
            let popped = gauges.popped(packets);
            &&& popped.queue_depth_peak == gauges.queue_depth_peak
            &&& packets <= gauges.queue_depth ==> popped.queue_depth == gauges.queue_depth - packets
            &&& packets > gauges.queue_depth ==> popped.queue_depth == 0
        }),
{
}

/// Noting a run of events moves every counter by as many of them as it is for.
pub proof fn noting_events_moves_what_they_are_about(
    metrics: &mut Metrics,
    events: &Vec<Event>,
    now: u64,
    counter: Counter,
)
    requires
        call_ensures(Metrics::note_all, (metrics, events, now), ()),
    ensures
        ({
            let (before, after) = (old(metrics).updates@, final(metrics).updates@);
            &&& before.len() <= after.len()
            &&& after.take(before.len() as int) == before
            &&& added(after.skip(before.len() as int), counter) == all_due(events@, counter)
        }),
{
    let (before, after) = (old(metrics).updates@, final(metrics).updates@);
    every_counter_counts_its_own_events(events@, now, counter);
    assert(after.skip(before.len() as int) =~= moved(events@, now));
    assert(after.take(before.len() as int) =~= before);
}

/// A gauge shows the last event of a run that was about it, at `at`: nothing after that
/// moves it. One no event was about shows what it did.
pub proof fn a_gauge_shows_the_last_it_was_told(
    metrics: &mut Metrics,
    events: &Vec<Event>,
    now: u64,
    at: int,
)
    requires
        call_ensures(Metrics::note_all, (metrics, events, now), ()),
        -1 <= at < events@.len(),
    ensures
        ({
            let (was, shown) = (old(metrics).gauges, final(metrics).gauges);
            &&& (forall|j: int|
                at < j < events@.len() ==> !((#[trigger] events@[j]) is BufferedSlots)) ==> {
                &&& at == -1 ==> shown.buffered_slots == was.buffered_slots
                &&& at >= 0 ==> (events@[at] matches Event::BufferedSlots(slots)
                    ==> shown.buffered_slots == slots)
            }
            &&& (forall|j: int|
                at < j < events@.len() ==> !((#[trigger] events@[j]) is BufferedBytes)) ==> {
                &&& at == -1 ==> shown.buffered_bytes == was.buffered_bytes
                &&& at >= 0 ==> (events@[at] matches Event::BufferedBytes(bytes)
                    ==> shown.buffered_bytes == bytes)
            }
            &&& (forall|j: int|
                at < j < events@.len() ==> !((#[trigger] events@[j]) is Sources)) ==> {
                &&& at == -1 ==> shown.turbine_sources == was.turbine_sources
                &&& at >= 0 ==> (events@[at] matches Event::Sources(sources)
                    ==> shown.turbine_sources == sources)
            }
            &&& (forall|j: int|
                at < j < events@.len() ==> !((#[trigger] events@[j]) is Completed)) ==> {
                &&& at == -1 ==> shown.current_slot == was.current_slot
                &&& at >= 0 ==> (events@[at] matches Event::Completed { slot, .. }
                    ==> shown.current_slot == slot)
            }
            &&& shown.tvu_peers == was.tvu_peers
            &&& shown.queue_depth == was.queue_depth
            &&& shown.queue_depth_peak == was.queue_depth_peak
            &&& shown.udp_drops == was.udp_drops
        }),
{
    let (events, gauges) = (events@, old(metrics).gauges);
    lemma_gauges_left(events, gauges);
    if forall|j: int| at < j < events.len() ==> !((#[trigger] events[j]) is BufferedSlots) {
        lemma_slots_left(events, gauges, at + 1);
    }
    if forall|j: int| at < j < events.len() ==> !((#[trigger] events[j]) is BufferedBytes) {
        lemma_bytes_left(events, gauges, at + 1);
    }
    if forall|j: int| at < j < events.len() ==> !((#[trigger] events[j]) is Sources) {
        lemma_sources_left(events, gauges, at + 1);
    }
    if forall|j: int| at < j < events.len() ==> !((#[trigger] events[j]) is Completed) {
        lemma_current_left(events, gauges, at + 1);
    }
    if at >= 0 {
        assert(events.take(at + 1).drop_last() =~= events.take(at));
        assert(events.take(at + 1).last() == events[at]);
    }
}

proof fn lemma_gauges_left(events: Seq<Event>, gauges: Gauges)
    ensures
        ({
            let shown = gauged(events, gauges);
            &&& shown.tvu_peers == gauges.tvu_peers
            &&& shown.queue_depth == gauges.queue_depth
            &&& shown.queue_depth_peak == gauges.queue_depth_peak
            &&& shown.udp_drops == gauges.udp_drops
        }),
    decreases events.len(),
{
    if events.len() > 0 {
        lemma_gauges_left(events.drop_last(), gauges);
    }
}

/// The slots held are what they were after the first `from` events of a run where no
/// later one is about them.
proof fn lemma_slots_left(events: Seq<Event>, gauges: Gauges, from: int)
    requires
        0 <= from <= events.len(),
        forall|j: int| from <= j < events.len() ==> !((#[trigger] events[j]) is BufferedSlots),
    ensures
        gauged(events, gauges).buffered_slots == gauged(events.take(from), gauges).buffered_slots,
    decreases events.len(),
{
    if from == events.len() {
        assert(events.take(from) =~= events);
    } else {
        let fewer = events.drop_last();
        assert forall|j: int| from <= j < fewer.len() implies !((
        #[trigger] fewer[j]) is BufferedSlots) by {
            assert(fewer[j] == events[j]);
        }
        lemma_slots_left(fewer, gauges, from);
        assert(fewer.take(from) =~= events.take(from));
        assert(!(events[events.len() - 1] is BufferedSlots));
    }
}

/// The bytes they cost are what they were after the first `from` events of a run where
/// no later one is about them.
proof fn lemma_bytes_left(events: Seq<Event>, gauges: Gauges, from: int)
    requires
        0 <= from <= events.len(),
        forall|j: int| from <= j < events.len() ==> !((#[trigger] events[j]) is BufferedBytes),
    ensures
        gauged(events, gauges).buffered_bytes == gauged(events.take(from), gauges).buffered_bytes,
    decreases events.len(),
{
    if from == events.len() {
        assert(events.take(from) =~= events);
    } else {
        let fewer = events.drop_last();
        assert forall|j: int| from <= j < fewer.len() implies !((
        #[trigger] fewer[j]) is BufferedBytes) by {
            assert(fewer[j] == events[j]);
        }
        lemma_bytes_left(fewer, gauges, from);
        assert(fewer.take(from) =~= events.take(from));
        assert(!(events[events.len() - 1] is BufferedBytes));
    }
}

/// The sources are what they were after the first `from` events of a run where no later
/// one is about them.
proof fn lemma_sources_left(events: Seq<Event>, gauges: Gauges, from: int)
    requires
        0 <= from <= events.len(),
        forall|j: int| from <= j < events.len() ==> !((#[trigger] events[j]) is Sources),
    ensures
        gauged(events, gauges).turbine_sources == gauged(events.take(from), gauges).turbine_sources,
    decreases events.len(),
{
    if from == events.len() {
        assert(events.take(from) =~= events);
    } else {
        let fewer = events.drop_last();
        assert forall|j: int| from <= j < fewer.len() implies !((
        #[trigger] fewer[j]) is Sources) by {
            assert(fewer[j] == events[j]);
        }
        lemma_sources_left(fewer, gauges, from);
        assert(fewer.take(from) =~= events.take(from));
        assert(!(events[events.len() - 1] is Sources));
    }
}

/// The slot is what it was after the first `from` events of a run where no later one is
/// about it.
proof fn lemma_current_left(events: Seq<Event>, gauges: Gauges, from: int)
    requires
        0 <= from <= events.len(),
        forall|j: int| from <= j < events.len() ==> !((#[trigger] events[j]) is Completed),
    ensures
        gauged(events, gauges).current_slot == gauged(events.take(from), gauges).current_slot,
    decreases events.len(),
{
    if from == events.len() {
        assert(events.take(from) =~= events);
    } else {
        let fewer = events.drop_last();
        assert forall|j: int| from <= j < fewer.len() implies !((
        #[trigger] fewer[j]) is Completed) by {
            assert(fewer[j] == events[j]);
        }
        lemma_current_left(fewer, gauges, from);
        assert(fewer.take(from) =~= events.take(from));
        assert(!(events[events.len() - 1] is Completed));
    }
}

/// The queue is as deep as what was pushed and not popped, and its peak, once asked
/// for, begins anew.
pub proof fn the_queue_is_what_has_not_been_popped(
    pushed: &mut Metrics,
    popped: &mut Metrics,
    asked: &mut Metrics,
    packets: u64,
    taken: u64,
    peak: u64,
)
    requires
        call_ensures(Metrics::queue_pushed, (pushed, packets), ()),
        call_ensures(Metrics::queue_popped, (popped, taken), ()),
        call_ensures(Metrics::take_peak, (asked,), peak),
        *old(popped) == *final(pushed),
        *old(asked) == *final(popped),
        old(pushed).gauges.queue_depth + packets <= u64::MAX,
        old(pushed).gauges.queue_depth <= old(pushed).gauges.queue_depth_peak,
        taken <= packets,
    ensures
        final(popped).gauges.queue_depth == old(pushed).gauges.queue_depth + packets - taken,
        peak >= old(pushed).gauges.queue_depth_peak,
        peak >= old(pushed).gauges.queue_depth + packets,
        peak == old(pushed).gauges.queue_depth_peak || peak == old(pushed).gauges.queue_depth
            + packets,
        final(asked).gauges.queue_depth_peak == 0,
        final(asked).gauges.queue_depth == final(popped).gauges.queue_depth,
{
}

/// What is a size, a share or a delay is told as the event has it, under what it is one
/// of, and only of the events that have one.
#[verifier::spinoff_prover]
#[verifier::rlimit(60)]
pub proof fn sizes_and_shares_are_told_as_they_are(event: Event, now: u64, tally: Tally, size: u64)
    ensures
        event.moves(now).contains(Update::Size(tally, size)) <==> match event {
            Event::Completed { shreds, transactions, .. } => (tally is SlotShreds && size
                == shreds) || (tally is SlotTransactions && size == transactions),
            Event::Landed { slots_behind, .. } => tally is FireSlotsBehind && size == slots_behind,
            _ => false,
        },
        event matches Event::Completeness { received, expected } ==> {
            &&& expected > 0 ==> event.moves(now) == seq![Update::Share { received, expected }]
            &&& expected == 0 ==> event.moves(now).len() == 0
        },
        event matches Event::Delivery { arrival, produced } ==> event.moves(now) == seq![
            Update::Skew { arrival, produced },
        ],
        !(event is Completeness) ==> forall|i: int|
            0 <= i < event.moves(now).len() ==> !((#[trigger] event.moves(now)[i]) is Share),
        !(event is Delivery) ==> forall|i: int|
            0 <= i < event.moves(now).len() ==> !((#[trigger] event.moves(now)[i]) is Skew),
{
    let moves = event.moves(now);
    match event {
        Event::Completed { duration, shreds, transactions, .. } => {
            let at: int = if duration is Some {
                2
            } else {
                1
            };
            assert(moves[at] == Update::Size(Tally::SlotShreds, shreds));
            assert(moves[at + 1] == Update::Size(Tally::SlotTransactions, transactions));
        },
        Event::Landed { slots_behind, .. } => {
            assert(moves[2] == Update::Size(Tally::FireSlotsBehind, slots_behind));
        },
        _ => {},
    }
}

} // verus!
