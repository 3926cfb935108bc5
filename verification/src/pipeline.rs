//! The parse path: a datagram in, metrics, sightings and snipe reports out.

use crate::aged::Aged;
use crate::addresses::{listed, same, write_address, Addresses, Ip};
use crate::clock::{between, passed, Clock};
use crate::config::Config;
use crate::entries::{batch_views, Assembler, BatchView, DecodedBatch};
use crate::erasure::{Recovery, BATCH_LIFETIME};
use crate::fec::{bodies, FecSet};
use crate::fire::Sighting;
use crate::leaders::Schedule;
use crate::metrics::{Event, PacketKind};
use crate::race::{RaceLine, Slot, Tracker, SETTLE};
use crate::receiver::Packet;
use crate::shred::{self, DataShred, DataView, Shred, ShredView};
use crate::slot::SlotBuffer;
use crate::verify::{SeenRoot, Verdict, Verifier};
use crate::wire::{EntryView, Transaction, TransactionView};
use std::collections::HashSet;
use vstd::prelude::*;

verus! {

broadcast use vstd::std_specs::hash::group_hash_axioms;

/// `Vote111111111111111111111111111111111111111`.
pub const VOTE_PROGRAM: [u8; 32] = [
    7, 97, 72, 29, 53, 116, 116, 187, 124, 77, 118, 36, 235, 211, 189, 179, 216, 53, 94, 115, 209,
    16, 67, 252, 13, 163, 83, 128, 0, 0, 0, 0,
];

/// Slot numbers come off the wire unauthenticated. Latching on to the highest
/// one ever seen would let a single spoofed shred freeze the per-slot counters
/// for good, so a slot this far below the current one re-anchors them instead.
pub const MAX_SLOT_ADVANCE: u64 = 1024;

/// A slot runs 64 ticks, so a shred's reference tick places it to about six
/// milliseconds within the slot *by the leader's clock*. Comparing that against
/// when the shred reached us is the only reading on delivery timing available
/// without a second source of truth. It is a cluster parameter, not a constant
/// of nature: a cluster with another tick rate would need this changed.
pub const TICK: u64 = 400_000_000 / 64;

/// Everything that resets at a slot boundary, kept together so crossing one is a
/// single assignment and no counter can be left behind.
#[derive(Clone, Copy, Debug)]
pub struct SlotState {
    /// The slot the packet path is anchored on.
    pub number: u64,
    /// When we first saw a shred of it, which is the only slot clock we have.
    pub started: u64,
    pub shreds: u64,
    pub transactions: u64,
}

impl SlotState {
    pub open spec fn begun(number: u64, now: u64) -> SlotState {
        SlotState { number, started: now, shreds: 0, transactions: 0 }
    }

    pub fn new(number: u64, now: u64) -> (slot: SlotState)
        ensures
            slot == SlotState::begun(number, now),
    {
        SlotState { number, started: now, shreds: 0, transactions: 0 }
    }
}

/// Something worth a line in the log.
pub enum LogLine {
    /// A peer that never sent us a shred before has.
    Source(Ip),
    /// The packet path is on a new slot.
    Slot { slot: u64, shreds: u64, uptime: u64 },
    Transaction { slot: u64, hit: bool, signature: String, payer: String, programs: String },
}

pub enum LogView {
    Source(Ip),
    Slot { slot: u64, shreds: u64, uptime: u64 },
    Transaction {
        slot: u64,
        hit: bool,
        signature: Seq<char>,
        payer: Seq<char>,
        programs: Seq<char>,
    },
}

impl View for LogLine {
    type V = LogView;

    open spec fn view(&self) -> LogView {
        match self {
            LogLine::Source(ip) => LogView::Source(*ip),
            LogLine::Slot { slot, shreds, uptime } => LogView::Slot {
                slot: *slot,
                shreds: *shreds,
                uptime: *uptime,
            },
            LogLine::Transaction { slot, hit, signature, payer, programs } => LogView::Transaction {
                slot: *slot,
                hit: *hit,
                signature: signature@,
                payer: payer@,
                programs: programs@,
            },
        }
    }
}

pub open spec fn log_views(lines: Seq<LogLine>) -> Seq<LogView> {
    lines.map_values(|line: LogLine| line@)
}

/// Peers that have sent us shreds, so a new one can be reported once rather than
/// on every packet. Std hashing, since the wire gets to insert.
pub struct Sources {
    pub v4: HashSet<u32>,
    pub v6: HashSet<u128>,
}

#[verifier::ext_equal]
pub struct SourcesView {
    pub v4: Set<u32>,
    pub v6: Set<u128>,
}

impl View for Sources {
    type V = SourcesView;

    open spec fn view(&self) -> SourcesView {
        SourcesView { v4: self.v4@, v6: self.v6@ }
    }
}

impl SourcesView {
    pub open spec fn contains(self, ip: Ip) -> bool {
        match ip {
            Ip::V4(ip) => self.v4.contains(ip),
            Ip::V6(ip) => self.v6.contains(ip),
        }
    }

    pub open spec fn insert(self, ip: Ip) -> SourcesView {
        match ip {
            Ip::V4(ip) => SourcesView { v4: self.v4.insert(ip), ..self },
            Ip::V6(ip) => SourcesView { v6: self.v6.insert(ip), ..self },
        }
    }

    /// How many there are, as far as that can be counted.
    pub open spec fn count(self) -> u64 {
        if self.v4.len() + self.v6.len() <= u64::MAX {
            (self.v4.len() + self.v6.len()) as u64
        } else {
            u64::MAX
        }
    }
}

impl Sources {
    pub fn new() -> (sources: Sources)
        ensures
            sources@ == (SourcesView { v4: Set::empty(), v6: Set::empty() }),
    {
        Sources { v4: HashSet::new(), v6: HashSet::new() }
    }

    /// Notes a peer, and says whether it is a new one.
    pub fn insert(&mut self, ip: Ip) -> (new: bool)
        ensures
            final(self)@ == old(self)@.insert(ip),
            new == !old(self)@.contains(ip),
    {
        match ip {
            Ip::V4(ip) => self.v4.insert(ip),
            Ip::V6(ip) => self.v6.insert(ip),
        }
    }

    pub fn len(&self) -> (len: u64)
        ensures
            len == self@.count(),
    {
        (self.v4.len() as u64).saturating_add(self.v6.len() as u64)
    }
}

/// Who pays for a transaction. The wallet being raced is known by who pays, not
/// by what it calls: a key further down the account list is not the sender.
pub open spec fn payer_of(transaction: TransactionView) -> Option<[u8; 32]> {
    if transaction.account_keys.len() > 0 {
        Some(transaction.account_keys[0])
    } else {
        None
    }
}

pub open spec fn signature_of(transaction: TransactionView) -> Option<[u8; 64]> {
    if transaction.signatures.len() > 0 {
        Some(transaction.signatures[0])
    } else {
        None
    }
}

/// Whether instruction `at` of a transaction calls a program the message itself
/// lists.
pub open spec fn calls_listed(transaction: TransactionView, at: int) -> bool {
    transaction.programs[at] < transaction.account_keys.len()
}

/// Whether a transaction calls a program, as far as the message says. Programs a
/// lookup table would resolve are invisible here, so a target reached through
/// one is missed rather than misreported.
pub open spec fn calls(transaction: TransactionView, program: [u8; 32]) -> bool {
    exists|at: int|
        0 <= at < transaction.programs.len() && #[trigger] calls_listed(transaction, at)
            && transaction.account_keys[transaction.programs[at] as int] == program
}

/// Whether a transaction reaches accounts through a lookup table. Counting these
/// is what puts a size on the blind spot instead of leaving it as a caveat in a
/// comment.
pub open spec fn is_opaque(transaction: TransactionView) -> bool {
    transaction.lookups matches Some(lookups) && lookups > 0
}

/// The programs the first `count` instructions call, written out.
pub open spec fn program_names(transaction: TransactionView, count: int) -> Seq<char>
    decreases count,
{
    if count <= 0 {
        Seq::empty()
    } else {
        let before = program_names(transaction, count - 1);
        if calls_listed(transaction, count - 1) {
            let name = crate::addresses::address_text(
                transaction.account_keys[transaction.programs[count - 1] as int]@,
            );
            if any_listed(transaction, count - 1) {
                before + ", "@ + name
            } else {
                name
            }
        } else {
            before
        }
    }
}

/// Whether one of the first `count` instructions calls a program the message
/// lists.
pub open spec fn any_listed(transaction: TransactionView, count: int) -> bool {
    exists|at: int| 0 <= at < count && #[trigger] calls_listed(transaction, at)
}

fn find_call(transaction: &Transaction, program: &[u8; 32]) -> (called: bool)
    ensures
        called == calls(transaction@, *program),
{
    let mut i: usize = 0;
    while i < transaction.programs.len()
        invariant
            i <= transaction.programs@.len(),
            forall|at: int|
                0 <= at < i && #[trigger] calls_listed(transaction@, at)
                    ==> transaction.account_keys@[transaction.programs@[at] as int] != *program,
        decreases transaction.programs@.len() - i,
    {
        let at: usize = transaction.programs[i] as usize;
        if at < transaction.account_keys.len() {
            assert(calls_listed(transaction@, i as int));
            if same(&transaction.account_keys[at], program) {
                return true;
            }
        }
        i = i + 1;
    }
    false
}

fn write_programs(transaction: &Transaction) -> (names: String)
    ensures
        names@ == program_names(transaction@, transaction.programs@.len() as int),
{
    let mut names = String::new();
    let mut any = false;
    let mut i: usize = 0;
    while i < transaction.programs.len()
        invariant
            i <= transaction.programs@.len(),
            names@ == program_names(transaction@, i as int),
            any == any_listed(transaction@, i as int),
            !any ==> names@ == Seq::<char>::empty(),
        decreases transaction.programs@.len() - i,
    {
        let at: usize = transaction.programs[i] as usize;
        if at < transaction.account_keys.len() {
            assert(calls_listed(transaction@, i as int));
            if any {
                names.append(", ");
            }
            names.append(write_address(&transaction.account_keys[at]).as_str());
            assert(any_listed(transaction@, i + 1));
            assert(names@ =~= program_names(transaction@, i + 1));
            any = true;
        } else {
            assert(!calls_listed(transaction@, i as int));
            assert(any_listed(transaction@, i + 1) == any_listed(transaction@, i as int)) by {
                if any_listed(transaction@, i as int) {
                    let at = choose|at: int|
                        0 <= at < i && #[trigger] calls_listed(transaction@, at);
                    assert(calls_listed(transaction@, at));
                }
            }
        }
        i = i + 1;
    }
    names
}

/// The packet path: everything a datagram goes through.
pub struct Pipeline {
    pub assembler: Assembler,
    pub recovery: Recovery,
    /// Present only when there is a leader schedule to check packets against.
    pub verifier: Option<Verifier>,
    /// Present only when a wallet to watch is configured.
    pub race: Option<Tracker>,
    pub shred_version: u16,
    pub snipe_program: Option<[u8; 32]>,
    pub sources: Sources,
    /// Fee payers of the wallets being raced. Reacting to one of their
    /// transactions is only possible with slot left to react in, so what these
    /// are here for is to time how much of it there is.
    pub watched: Addresses,
    /// Our own fee payers. Kept apart from `watched` because a transaction of
    /// ours is not something to react to — it is the answer to something we
    /// already reacted to, coming back around.
    pub searchers: Addresses,
    /// Whether there is a key to sign with.
    pub armed: bool,
    /// Whether every transaction is worth a line in the log, or only hits.
    pub verbose: bool,
    pub shreds_seen: u64,
    pub slot: SlotState,
    pub started: u64,
    pub events: Vec<Event>,
    /// What firing has to be told about, until somebody takes it.
    pub sightings: Vec<Sighting>,
    pub log: Vec<LogLine>,
    pub clock: Clock,
}

#[verifier::ext_equal]
pub struct PipelineView {
    pub assembler: Assembler,
    pub recovery: Recovery,
    pub verifier: Option<Verifier>,
    pub race: Option<Tracker>,
    pub shred_version: u16,
    pub snipe_program: Option<[u8; 32]>,
    pub sources: SourcesView,
    pub watched: Set<[u8; 32]>,
    pub searchers: Set<[u8; 32]>,
    pub armed: bool,
    pub verbose: bool,
    pub shreds_seen: u64,
    pub slot: SlotState,
    pub started: u64,
    pub events: Seq<Event>,
    pub sightings: Seq<Sighting>,
    pub log: Seq<LogView>,
    pub clock: Clock,
}

impl View for Pipeline {
    type V = PipelineView;

    open spec fn view(&self) -> PipelineView {
        PipelineView {
            assembler: self.assembler,
            recovery: self.recovery,
            verifier: self.verifier,
            race: self.race,
            shred_version: self.shred_version,
            snipe_program: self.snipe_program,
            sources: self.sources@,
            watched: self.watched@,
            searchers: self.searchers@,
            armed: self.armed,
            verbose: self.verbose,
            shreds_seen: self.shreds_seen,
            slot: self.slot,
            started: self.started,
            events: self.events@,
            sightings: self.sightings@,
            log: log_views(self.log@),
            clock: self.clock,
        }
    }
}

impl PipelineView {
    pub open spec fn noting(self, event: Event) -> PipelineView {
        PipelineView { events: self.events.push(event), ..self }
    }

    pub open spec fn logging(self, line: LogView) -> PipelineView {
        PipelineView { log: self.log.push(line), ..self }
    }

    pub open spec fn sighting(self, sighting: Sighting) -> PipelineView {
        PipelineView { sightings: self.sightings.push(sighting), ..self }
    }

    /// Whether a shred of `slot` moves the anchor: forward for a higher slot, and
    /// backward for a slot far enough below that what we are anchored on cannot
    /// have been the leader's own progress.
    pub open spec fn leaves_for(self, slot: u64) -> bool {
        slot > self.slot.number || slot + MAX_SLOT_ADVANCE < self.slot.number
    }

    /// Where a shred of `slot` at `now` leaves the anchor. Moving it closes out
    /// the counters of the slot being left; the first slot we ever see has no
    /// predecessor to have taken time.
    pub open spec fn anchored(self, slot: u64, now: u64) -> PipelineView {
        if self.leaves_for(slot) {
            let duration = if self.slot.number != 0 {
                Some(passed(self.slot.started, now))
            } else {
                None
            };
            let left = self.noting(
                Event::Completed {
                    slot,
                    duration,
                    shreds: self.slot.shreds,
                    transactions: self.slot.transactions,
                },
            );
            PipelineView { slot: SlotState::begun(slot, now), ..left }.logging(
                LogView::Slot {
                    slot,
                    shreds: self.shreds_seen,
                    uptime: passed(self.started, now),
                },
            )
        } else {
            self
        }
    }

    pub open spec fn counted(self) -> PipelineView {
        PipelineView {
            shreds_seen: self.shreds_seen.wrapping_add(1),
            slot: SlotState { shreds: self.slot.shreds.wrapping_add(1), ..self.slot },
            ..self
        }
    }

    /// How far into `slot` it is at `now`, by our own clock. Only the anchored
    /// slot has a start we can measure against: a shred of a slot we have already
    /// left would be timed from the wrong origin and read as having arrived far
    /// earlier than it did, which is precisely the direction that would flatter
    /// every latency.
    pub open spec fn offset(self, slot: u64, now: u64) -> Option<u64> {
        if slot == self.slot.number {
            Some(passed(self.slot.started, now))
        } else {
            None
        }
    }

    /// Recovered shreds arrive when we reconstruct them, not when the leader sent
    /// them, so including them would measure our own recovery rather than
    /// turbine's delivery.
    pub open spec fn timed(self, shred: DataView, from_recovery: bool, now: u64) -> PipelineView {
        match self.offset(shred.slot, now) {
            Some(arrival) if !from_recovery => self.noting(
                Event::Delivery { arrival, produced: (TICK * shred.reference_tick) as u64 },
            ),
            _ => self,
        }
    }

    /// Whether a transaction is one of the wallets being raced.
    pub open spec fn is_target(self, transaction: TransactionView) -> bool {
        payer_of(transaction) matches Some(payer) && self.watched.contains(payer)
    }

    /// Whether a transaction is one of ours.
    pub open spec fn is_own(self, transaction: TransactionView) -> bool {
        payer_of(transaction) matches Some(payer) && self.searchers.contains(payer)
    }

    /// The two matches the sniper acts on: a watched wallet's transaction is a
    /// trigger, and one of our own coming back around is a landing.
    pub open spec fn reacted(
        self,
        slot: u64,
        offset: Option<u64>,
        transaction: TransactionView,
        seen: u64,
    ) -> PipelineView {
        let timed = if self.is_target(transaction) {
            self.noting(Event::Watched { offset })
        } else {
            self
        };
        match signature_of(transaction) {
            Some(signature) if self.armed => {
                let triggered = if self.is_target(transaction) {
                    timed.sighting(Sighting::Target { slot, signature, detected: seen })
                } else {
                    timed
                };
                if self.is_own(transaction) {
                    triggered.sighting(Sighting::Own { slot, signature })
                } else {
                    triggered
                }
            },
            _ => timed,
        }
    }

    /// Whether a transaction calls the program that is being watched for.
    pub open spec fn is_hit(self, transaction: TransactionView) -> bool {
        self.snipe_program matches Some(program) && calls(transaction, program)
    }

    pub open spec fn reported(
        self,
        slot: u64,
        offset: Option<u64>,
        transaction: TransactionView,
        seen: u64,
    ) -> PipelineView {
        let observed = self.reacted(slot, offset, transaction, seen).noting(
            Event::Transaction {
                vote: calls(transaction, VOTE_PROGRAM),
                hit: self.is_hit(transaction),
                opaque: is_opaque(transaction),
                offset,
            },
        );
        if self.is_hit(transaction) || self.verbose {
            observed.logging(
                LogView::Transaction {
                    slot,
                    hit: self.is_hit(transaction),
                    signature: crate::race::name_of(transaction),
                    payer: match payer_of(transaction) {
                        Some(payer) => crate::addresses::address_text(payer@),
                        None => "?"@,
                    },
                    programs: program_names(transaction, transaction.programs.len() as int),
                },
            )
        } else {
            observed
        }
    }

    /// One transaction more, counted and reported.
    pub open spec fn observed(
        self,
        slot: u64,
        offset: Option<u64>,
        transaction: TransactionView,
        seen: u64,
    ) -> PipelineView {
        PipelineView {
            slot: SlotState { transactions: self.slot.transactions.wrapping_add(1), ..self.slot },
            ..self
        }.reported(slot, offset, transaction, seen)
    }

    /// The first `count` transactions of an entry, one after the other.
    pub open spec fn observed_all(
        self,
        slot: u64,
        offset: Option<u64>,
        transactions: Seq<TransactionView>,
        count: int,
        seen: u64,
    ) -> PipelineView
        decreases count,
    {
        if count <= 0 {
            self
        } else {
            self.observed_all(slot, offset, transactions, count - 1, seen).observed(
                slot,
                offset,
                transactions[count - 1],
                seen,
            )
        }
    }

    /// The transactions of the first `count` entries, one after the other.
    pub open spec fn read_through(
        self,
        slot: u64,
        offset: Option<u64>,
        entries: Seq<EntryView>,
        count: int,
        seen: u64,
    ) -> PipelineView
        decreases count,
    {
        if count <= 0 {
            self
        } else {
            let transactions = entries[count - 1].transactions;
            self.read_through(slot, offset, entries, count - 1, seen).observed_all(
                slot,
                offset,
                transactions,
                transactions.len() as int,
                seen,
            )
        }
    }

    /// Whether `post` is what a piece of a batch makes of this: its transactions
    /// are reported, and then it goes to whoever follows the race.
    pub open spec fn saw(
        self,
        slot: u64,
        offset: Option<u64>,
        batch: BatchView,
        seen: u64,
        post: PipelineView,
    ) -> bool {
        let read = self.read_through(slot, offset, batch.entries, batch.entries.len() as int, seen);
        &&& post == PipelineView { race: post.race, ..read }
        &&& match (self.race, post.race) {
            (None, None) => true,
            (Some(before), Some(after)) => exists|settled: Tracker| #[trigger]
                before.settled(seen, settled) && settled.saw(slot, batch, seen, after),
            _ => false,
        }
    }

    /// The same for the first `count` of a run of pieces.
    pub open spec fn saw_all(
        self,
        slot: u64,
        offset: Option<u64>,
        batches: Seq<BatchView>,
        count: int,
        seen: u64,
        post: PipelineView,
    ) -> bool
        decreases count,
    {
        if count <= 0 {
            post == self
        } else {
            exists|before: PipelineView|
                self.saw_all(slot, offset, batches, count - 1, seen, before)
                    && #[trigger] before.saw(slot, offset, batches[count - 1], seen, post)
        }
    }

    /// This, ready for the shred that arrives at `now` to be assembled.
    pub open spec fn placed(self, shred: DataView, from_recovery: bool, now: u64) -> PipelineView {
        self.anchored(shred.slot, now).counted().timed(shred, from_recovery, now)
    }

    /// Whether `post` is what a data shred makes of this that arrives at `now`,
    /// where what it lets the assembler hand over is seen at `seen`.
    pub open spec fn took(
        self,
        shred: DataView,
        from_recovery: bool,
        now: u64,
        seen: u64,
        post: PipelineView,
    ) -> bool {
        let placed = self.placed(shred, from_recovery, now);
        exists|swept: Assembler, fed: Assembler, batches: Seq<BatchView>|
            #![trigger self.assembler.swept(now, swept), swept.dealt_with(shred, from_recovery, now, fed, batches)]
            self.assembler.swept(now, swept) && swept.dealt_with(
                shred,
                from_recovery,
                now,
                fed,
                batches,
            ) && PipelineView { assembler: fed, ..placed }.saw_all(
                shred.slot,
                placed.offset(shred.slot, now),
                batches,
                batches.len() as int,
                seen,
                post,
            )
    }
}

impl Pipeline {
    pub open spec fn wf(&self) -> bool {
        &&& self.assembler.wf()
        &&& self.assembler.within_means()
        &&& self.recovery.wf()
        &&& self.verifier matches Some(verifier) ==> verifier.wf()
        &&& self.race matches Some(race) ==> race.wf()
    }

    fn note(&mut self, event: Event)
        ensures
            final(self)@ == old(self)@.noting(event),
            final(self).wf() == old(self).wf(),
            final(self).clock == old(self).clock,
    {
        self.events.push(event);
    }

    fn write(&mut self, line: LogLine)
        ensures
            final(self)@ == old(self)@.logging(line@),
            final(self).wf() == old(self).wf(),
            final(self).clock == old(self).clock,
    {
        let ghost before = self.log@;
        self.log.push(line);
        assert(log_views(self.log@) =~= log_views(before).push(line@));
    }

    /// Moves the slot anchor, closing out the counters of the slot being left.
    pub fn anchor(&mut self, slot: u64, now: u64)
        ensures
            final(self)@ == old(self)@.anchored(slot, now),
            final(self).wf() == old(self).wf(),
            final(self).clock == old(self).clock,
    {
        let advanced = slot > self.slot.number;
        let stale = slot.saturating_add(MAX_SLOT_ADVANCE) < self.slot.number;
        if !advanced && !stale {
            return;
        }
        let duration = if self.slot.number != 0 {
            Some(between(self.slot.started, now))
        } else {
            None
        };
        let SlotState { shreds, transactions, .. } = self.slot;
        self.note(Event::Completed { slot, duration, shreds, transactions });
        self.slot = SlotState::new(slot, now);
        let uptime: u64 = between(self.started, now);
        self.write(LogLine::Slot { slot, shreds: self.shreds_seen, uptime });
    }

    /// The two matches the sniper acts on.
    ///
    /// The clock a reaction is measured on starts at `seen`, when the trigger
    /// first was knowable, rather than wherever the sender happens to pick it
    /// up. Our own answer comes back around through the same turbine that carried
    /// the trigger, and matching it is what closes the loop without asking the
    /// RPC whether the send worked.
    pub fn react(
        &mut self,
        slot: u64,
        slot_offset: Option<u64>,
        transaction: &Transaction,
        seen: u64,
    )
        ensures
            final(self)@ == old(self)@.reacted(slot, slot_offset, transaction@, seen),
            final(self).wf() == old(self).wf(),
            final(self).clock == old(self).clock,
    {
        if transaction.account_keys.len() == 0 {
            return;
        }
        let payer = &transaction.account_keys[0];
        let target = self.watched.contains(payer);
        let own = self.searchers.contains(payer);
        if target {
            self.note(Event::Watched { offset: slot_offset });
        }
        if self.armed && transaction.signatures.len() > 0 {
            let signature = transaction.signatures[0];
            if target {
                self.sightings.push(Sighting::Target { slot, signature, detected: seen });
            }
            if own {
                self.sightings.push(Sighting::Own { slot, signature });
            }
        }
    }

    /// One transaction, reported. Writing out every key of every transaction
    /// costs more than the rest of the packet path at mainnet rates, so only a
    /// logged one pays for it.
    pub fn report(
        &mut self,
        slot: u64,
        slot_offset: Option<u64>,
        transaction: &Transaction,
        seen: u64,
    )
        ensures
            final(self)@ == old(self)@.reported(slot, slot_offset, transaction@, seen),
            final(self).wf() == old(self).wf(),
            final(self).clock == old(self).clock,
    {
        self.react(slot, slot_offset, transaction, seen);
        let opaque = match transaction.lookups {
            Some(lookups) => lookups > 0,
            None => false,
        };
        let vote = find_call(transaction, &VOTE_PROGRAM);
        let hit = match &self.snipe_program {
            Some(program) => find_call(transaction, program),
            None => false,
        };
        self.note(Event::Transaction { vote, hit, opaque, offset: slot_offset });
        if hit || self.verbose {
            let payer = if transaction.account_keys.len() > 0 {
                write_address(&transaction.account_keys[0])
            } else {
                "?".to_owned()
            };
            self.write(
                LogLine::Transaction {
                    slot,
                    hit,
                    signature: crate::race::signature(transaction),
                    payer,
                    programs: write_programs(transaction),
                },
            );
        }
    }
}

impl Pipeline {
    /// One entry's transactions, counted and reported.
    fn observe(
        &mut self,
        slot: u64,
        slot_offset: Option<u64>,
        transactions: &Vec<Transaction>,
        seen: u64,
    )
        ensures
            final(self)@ == old(self)@.observed_all(
                slot,
                slot_offset,
                crate::race::transaction_views(transactions@),
                transactions@.len() as int,
                seen,
            ),
            final(self).wf() == old(self).wf(),
            final(self).clock == old(self).clock,
    {
        let ghost views = crate::race::transaction_views(transactions@);
        let mut i: usize = 0;
        while i < transactions.len()
            invariant
                i <= transactions@.len(),
                views == crate::race::transaction_views(transactions@),
                self@ == old(self)@.observed_all(slot, slot_offset, views, i as int, seen),
                self.wf() == old(self).wf(),
                self.clock == old(self).clock,
            decreases transactions@.len() - i,
        {
            assert(views[i as int] == transactions@[i as int]@);
            self.slot.transactions = self.slot.transactions.wrapping_add(1);
            self.report(slot, slot_offset, &transactions[i], seen);
            i = i + 1;
        }
    }

    /// A piece of a batch: its transactions reported, and then the piece handed to
    /// whoever follows the race.
    fn see(&mut self, slot: u64, slot_offset: Option<u64>, batch: &DecodedBatch, seen: u64)
        requires
            old(self).wf(),
        ensures
            final(self).wf(),
            old(self)@.saw(slot, slot_offset, batch@, seen, final(self)@),
            final(self).clock == old(self).clock,
    {
        let ghost before = self@;
        let ghost entries = batch@.entries;
        let mut i: usize = 0;
        while i < batch.entries.len()
            invariant
                i <= batch.entries@.len(),
                entries == batch@.entries,
                before == old(self)@,
                self@ == before.read_through(slot, slot_offset, entries, i as int, seen),
                self.wf(),
                self.clock == old(self).clock,
            decreases batch.entries@.len() - i,
        {
            assert(entries[i as int] == batch.entries@[i as int]@);
            assert(entries[i as int].transactions =~= crate::race::transaction_views(
                batch.entries@[i as int].transactions@,
            ));
            self.observe(slot, slot_offset, &batch.entries[i].transactions, seen);
            i = i + 1;
        }
        let ghost read = self@;
        proof {
            before.lemma_reading_leaves_the_race(
                slot,
                slot_offset,
                entries,
                entries.len() as int,
                seen,
            );
        }
        if let Some(race) = &mut self.race {
            race.batch_at(slot, batch, seen);
        }
        assert(self@ =~= PipelineView { race: self.race, ..read });
    }

    /// Takes in a data shred that arrives at `now`: where it leaves the anchor and
    /// the counters, how far into its slot that is, and what the assembler hands
    /// over for it.
    fn assemble(&mut self, shred: &DataShred<'_>, from_recovery: bool, now: u64) -> (assembled: (
        Option<u64>,
        Vec<DecodedBatch>,
    ))
        requires
            old(self).wf(),
            shred.index < u32::MAX,
        ensures
            final(self).wf(),
            final(self).clock == old(self).clock,
            ({
                let placed = old(self)@.placed(shred@, from_recovery, now);
                &&& assembled.0 == placed.offset(shred.slot, now)
                &&& final(self)@ == PipelineView { assembler: final(self).assembler, ..placed }
            }),
            exists|swept: Assembler| #[trigger]
                old(self)@.assembler.swept(now, swept) && swept.dealt_with(
                    shred@,
                    from_recovery,
                    now,
                    final(self)@.assembler,
                    batch_views(assembled.1@),
                ),
    {
        self.anchor(shred.slot, now);
        self.shreds_seen = self.shreds_seen.wrapping_add(1);
        self.slot.shreds = self.slot.shreds.wrapping_add(1);
        let slot_offset = if shred.slot == self.slot.number {
            Some(between(self.slot.started, now))
        } else {
            None
        };
        if let Some(arrival) = slot_offset {
            if !from_recovery {
                let produced: u64 = TICK * shred.reference_tick as u64;
                self.note(Event::Delivery { arrival, produced });
            }
        }
        let ghost placed = self@;
        let batches = self.assembler.insert_at(shred, from_recovery, now);
        assert(self@ =~= PipelineView { assembler: self.assembler, ..placed });
        (slot_offset, batches)
    }

    /// Passes on what the assembler handed over, which is seen at `seen`.
    fn pass_on(
        &mut self,
        slot: u64,
        slot_offset: Option<u64>,
        batches: &Vec<DecodedBatch>,
        seen: u64,
    )
        requires
            old(self).wf(),
        ensures
            final(self).wf(),
            final(self).clock == old(self).clock,
            old(self)@.saw_all(
                slot,
                slot_offset,
                batch_views(batches@),
                batches@.len() as int,
                seen,
                final(self)@,
            ),
    {
        let ghost views = batch_views(batches@);
        let mut i: usize = 0;
        while i < batches.len()
            invariant
                i <= batches@.len(),
                views == batch_views(batches@),
                self.wf(),
                self.clock == old(self).clock,
                old(self)@.saw_all(slot, slot_offset, views, i as int, seen, self@),
            decreases batches@.len() - i,
        {
            let ghost so_far = self@;
            assert(views[i as int] == batches@[i as int]@);
            self.see(slot, slot_offset, &batches[i], seen);
            i = i + 1;
            assert(so_far.saw(slot, slot_offset, views[i as int - 1], seen, self@));
        }
    }

    /// A data shred that arrives at `now`, where what comes of it is seen at
    /// `seen`.
    pub fn data_shred_at(&mut self, shred: &DataShred<'_>, from_recovery: bool, now: u64, seen: u64)
        requires
            old(self).wf(),
            shred.index < u32::MAX,
        ensures
            final(self).wf(),
            old(self)@.took(shred@, from_recovery, now, seen, final(self)@),
            final(self).clock == old(self).clock,
    {
        let (slot_offset, batches) = self.assemble(shred, from_recovery, now);
        self.pass_on(shred.slot, slot_offset, &batches, seen);
    }

    /// The same at whatever time it is.
    pub fn data_shred(&mut self, shred: &DataShred<'_>, from_recovery: bool)
        requires
            old(self).wf(),
            shred.index < u32::MAX,
        ensures
            final(self).wf(),
            old(self)@.took_sometime(shred@, from_recovery, final(self)@),
            final(self).clock == old(self).clock,
    {
        let now: u64 = self.clock.now();
        let (slot_offset, batches) = self.assemble(shred, from_recovery, now);
        let seen: u64 = self.clock.now();
        self.pass_on(shred.slot, slot_offset, &batches, seen);
        assert(old(self)@.took(shred@, from_recovery, now, seen, self@));
    }
}

impl PipelineView {
    proof fn lemma_observing_leaves_the_race(
        self,
        slot: u64,
        offset: Option<u64>,
        transactions: Seq<TransactionView>,
        count: int,
        seen: u64,
    )
        ensures
            self.observed_all(slot, offset, transactions, count, seen).race == self.race,
        decreases count,
    {
        if count > 0 {
            self.lemma_observing_leaves_the_race(slot, offset, transactions, count - 1, seen);
        }
    }

    /// Reporting transactions has nothing to do with the race.
    proof fn lemma_reading_leaves_the_race(
        self,
        slot: u64,
        offset: Option<u64>,
        entries: Seq<EntryView>,
        count: int,
        seen: u64,
    )
        ensures
            self.read_through(slot, offset, entries, count, seen).race == self.race,
        decreases count,
    {
        if count > 0 {
            self.lemma_reading_leaves_the_race(slot, offset, entries, count - 1, seen);
            let transactions = entries[count - 1].transactions;
            self.read_through(
                slot,
                offset,
                entries,
                count - 1,
                seen,
            ).lemma_observing_leaves_the_race(
                slot,
                offset,
                transactions,
                transactions.len() as int,
                seen,
            );
        }
    }
}

pub open spec fn kind_of(shred: ShredView) -> PacketKind {
    match shred {
        ShredView::Data(_) => PacketKind::Data,
        ShredView::Coding(_) => PacketKind::Coding,
    }
}

impl PipelineView {
    /// Whether `post` is what a data shred makes of this, going by the clock.
    pub open spec fn took_sometime(
        self,
        shred: DataView,
        from_recovery: bool,
        post: PipelineView,
    ) -> bool {
        exists|now: u64, seen: u64|
            self.clock.can_read(now) && self.clock.can_read(seen) && #[trigger] self.took(
                shred,
                from_recovery,
                now,
                seen,
                post,
            )
    }

    /// Readings of the clock a data shred was taken in by.
    spec fn when_it_took(self, shred: DataView, from_recovery: bool, post: PipelineView) -> (
        u64,
        u64,
    ) {
        choose|now: u64, seen: u64|
            self.clock.can_read(now) && self.clock.can_read(seen) && #[trigger] self.took(
                shred,
                from_recovery,
                now,
                seen,
                post,
            )
    }

    /// Whether `post` is what a body that was rebuilt makes of this. One that is
    /// no data shred of ours makes nothing of it.
    pub open spec fn revived(self, body: Seq<u8>, post: PipelineView) -> bool {
        if shred::is_data(body, self.shred_version) {
            self.took_sometime(shred::data_fields(body), true, post)
        } else {
            post == self
        }
    }

    /// The same for the first `count` of a run of bodies.
    pub open spec fn revived_all(
        self,
        bodies: Seq<Seq<u8>>,
        count: int,
        post: PipelineView,
    ) -> bool
        decreases count,
    {
        if count <= 0 {
            post == self
        } else {
            exists|before: PipelineView|
                self.revived_all(bodies, count - 1, before)
                    && #[trigger] before.revived(bodies[count - 1], post)
        }
    }

    /// Whether `verdict` is what there is to say about whose packet it is, and
    /// `post` this once it has been said. Without a schedule there is nothing.
    pub open spec fn judged(
        self,
        packet: Seq<u8>,
        slot: u64,
        verdict: Option<Verdict>,
        post: PipelineView,
    ) -> bool {
        match (self.verifier, verdict) {
            (None, None) => post == self,
            (Some(verifier), Some(verdict)) => {
                &&& post.verifier matches Some(checked)
                &&& post == PipelineView { verifier: post.verifier, ..self }
                &&& exists|now: u64|
                    verifier.clock.can_read(now) && #[trigger] verifier.checked(
                        packet,
                        self.shred_version,
                        slot,
                        now,
                        verdict,
                        checked,
                    )
            },
            _ => false,
        }
    }

    pub open spec fn sourced(self, from: Ip) -> PipelineView {
        if self.sources.contains(from) {
            self
        } else {
            let sources = self.sources.insert(from);
            PipelineView { sources, ..self }.noting(Event::Sources(sources.count())).logging(
                LogView::Source(from),
            )
        }
    }

    /// This, having met whoever sent a data shred.
    pub open spec fn met(self, shred: ShredView, from: Ip) -> PipelineView {
        if shred is Data {
            self.sourced(from)
        } else {
            self
        }
    }

    /// Whether `post` is this once the erasure batch a shred belongs to has taken
    /// it in, and `bodies` what could be rebuilt with it.
    pub open spec fn pooled(
        self,
        shred: ShredView,
        bodies: Seq<Seq<u8>>,
        post: PipelineView,
    ) -> bool {
        &&& post == PipelineView { recovery: post.recovery, ..self }
        &&& exists|now: u64|
            self.recovery.clock.can_read(now) && #[trigger] self.batched(shred, now, bodies, post)
    }

    /// Whether the erasure batch a shred belongs to took it in at `now`.
    pub open spec fn batched(
        self,
        shred: ShredView,
        now: u64,
        bodies: Seq<Seq<u8>>,
        post: PipelineView,
    ) -> bool {
        match shred {
            ShredView::Data(shred) => self.recovery.took_data(shred, now, post.recovery, bodies),
            ShredView::Coding(shred) => self.recovery.took_coding(
                shred,
                now,
                post.recovery,
                bodies,
            ),
        }
    }

    /// Whether `post` is what a shred makes of this: it joins its erasure batch;
    /// if it carries data, that goes to be assembled; and so does whatever its
    /// batch could rebuild with it.
    pub open spec fn absorbed(self, shred: ShredView, from: Ip, post: PipelineView) -> bool {
        exists|pooled: PipelineView, bodies: Seq<Seq<u8>>, fed: PipelineView|
            #![trigger self.met(shred, from).pooled(shred, bodies, pooled), fed.revived_all(bodies, bodies.len() as int, post)]
            self.met(shred, from).pooled(shred, bodies, pooled) && (match shred {
                ShredView::Data(shred) => pooled.took_sometime(shred, false, fed),
                ShredView::Coding(_) => fed == pooled,
            }) && fed.revived_all(bodies, bodies.len() as int, post)
    }

    /// Whether `post` is what a datagram makes of this whose processing begins at
    /// `began`. One that is no shred of ours is counted and that is all; one that
    /// is a forgery goes no further than having been found out.
    pub open spec fn handled(
        self,
        packet: Seq<u8>,
        from: Ip,
        began: u64,
        post: PipelineView,
    ) -> bool {
        match shred::parsed(packet, self.shred_version) {
            None => post == self.noting(Event::Packet(PacketKind::Other)),
            Some(shred) => {
                let noted = self.noting(Event::Packet(kind_of(shred)));
                exists|verdict: Option<Verdict>, judged: PipelineView| #[trigger]
                    noted.judged(packet, shred.slot(), verdict, judged) && if verdict == Some(Verdict::Forged) {
                        post == judged
                    } else {
                        exists|done: PipelineView| #[trigger]
                            judged.absorbed(shred, from, done) && post == done.noting(
                                Event::Processed { since: began },
                            )
                    }
            },
        }
    }
}

impl Pipeline {
    /// Everything an erasure batch could rebuild, one after the other. Recovered
    /// shreds are tagged so a batch can later say whether it waited on erasure
    /// rather than on the wire.
    fn revive(&mut self, rebuilt: &Vec<Vec<u8>>)
        requires
            old(self).wf(),
        ensures
            final(self).wf(),
            final(self).clock == old(self).clock,
            old(self)@.revived_all(bodies(rebuilt@), rebuilt@.len() as int, final(self)@),
    {
        let ghost views = bodies(rebuilt@);
        let mut i: usize = 0;
        while i < rebuilt.len()
            invariant
                i <= rebuilt@.len(),
                views == bodies(rebuilt@),
                self.wf(),
                self.clock == old(self).clock,
                old(self)@.revived_all(views, i as int, self@),
            decreases rebuilt@.len() - i,
        {
            let ghost so_far = self@;
            assert(views[i as int] == rebuilt@[i as int]@);
            if let Some(data_shred) = shred::parse_data(rebuilt[i].as_slice(), self.shred_version) {
                self.data_shred(&data_shred, true);
            }
            i = i + 1;
            assert(so_far.revived(views[i as int - 1], self@));
        }
    }

    /// Whether a packet is its slot's leader's, where there is a schedule to tell
    /// by.
    fn judge(&mut self, packet: &[u8], slot: u64) -> (verdict: Option<Verdict>)
        requires
            old(self).wf(),
        ensures
            final(self).wf(),
            final(self).clock == old(self).clock,
            old(self)@.judged(packet@, slot, verdict, final(self)@),
    {
        let ghost before = self@;
        let shred_version: u16 = self.shred_version;
        let verdict = match &mut self.verifier {
            Some(verifier) => Some(verifier.check(packet, shred_version, slot)),
            None => None,
        };
        assert(self@ =~= PipelineView { verifier: self.verifier, ..before });
        verdict
    }

    fn meet(&mut self, from: Ip)
        ensures
            final(self)@ == old(self)@.sourced(from),
            final(self).wf() == old(self).wf(),
            final(self).clock == old(self).clock,
    {
        let ghost before = self@;
        if self.sources.insert(from) {
            let sources: u64 = self.sources.len();
            self.note(Event::Sources(sources));
            self.write(LogLine::Source(from));
        } else {
            assert(self@ =~= before);
        }
    }

    /// Takes in a shred that has passed every check.
    fn absorb(&mut self, shred: &Shred<'_>, from: Ip)
        requires
            old(self).wf(),
            shred@ matches ShredView::Data(shred) ==> shred.index < u32::MAX,
        ensures
            final(self).wf(),
            final(self).clock == old(self).clock,
            old(self)@.absorbed(shred@, from, final(self)@),
    {
        let ghost view = shred@;
        let rebuilt = match shred {
            Shred::Data(data_shred) => {
                self.meet(from);
                let ghost met = self@;
                let ghost held = self.recovery;
                let rebuilt = self.recovery.insert_data(data_shred);
                let ghost pooled = self@;
                proof {
                    let now = choose|now: u64|
                        held.clock.can_read(now) && #[trigger] held.took_data(
                            data_shred@,
                            now,
                            self.recovery,
                            bodies(rebuilt@),
                        );
                    assert(met.batched(view, now, bodies(rebuilt@), pooled));
                    assert(pooled =~= PipelineView { recovery: pooled.recovery, ..met });
                    assert(met.pooled(view, bodies(rebuilt@), pooled));
                }
                self.data_shred(data_shred, false);
                rebuilt
            },
            Shred::Coding(coding_shred) => {
                let ghost met = self@;
                let ghost held = self.recovery;
                let rebuilt = self.recovery.insert_coding(coding_shred);
                let ghost pooled = self@;
                proof {
                    let now = choose|now: u64|
                        held.clock.can_read(now) && #[trigger] held.took_coding(
                            coding_shred@,
                            now,
                            self.recovery,
                            bodies(rebuilt@),
                        );
                    assert(met.batched(view, now, bodies(rebuilt@), pooled));
                    assert(pooled =~= PipelineView { recovery: pooled.recovery, ..met });
                    assert(met.pooled(view, bodies(rebuilt@), pooled));
                }
                rebuilt
            },
        };
        let ghost fed = self@;
        self.revive(&rebuilt);
        assert(fed.revived_all(bodies(rebuilt@), bodies(rebuilt@).len() as int, self@));
    }

    /// One datagram. Coding shreds carry no entries of their own, they only let us
    /// reconstruct data shreds turbine failed to deliver, so what comes out of a
    /// packet is the data shred it held — if any — plus whatever its erasure
    /// batch could rebuild.
    pub fn packet(&mut self, packet: &Packet)
        requires
            old(self).wf(),
        ensures
            final(self).wf(),
            final(self).clock == old(self).clock,
            if packet.meta.discard || packet.meta.size > packet.buffer@.len() {
                final(self)@ == old(self)@
            } else {
                exists|began: u64|
                    old(self).clock.can_read(began) && #[trigger] old(self)@.handled(
                        packet.buffer@.take(packet.meta.size as int),
                        packet.meta.addr,
                        began,
                        final(self)@,
                    )
            },
    {
        let bytes = match packet.data() {
            Some(bytes) => bytes,
            None => {
                return;
            },
        };
        let ghost before = self@;
        let from = packet.meta.addr;
        let began: u64 = self.clock.now();
        proof {
            shred::parsed_shreds_are_bounded(bytes@, self.shred_version);
        }
        let shred = match shred::parse(bytes, self.shred_version) {
            Some(shred) => shred,
            None => {
                self.note(Event::Packet(PacketKind::Other));
                assert(before.handled(bytes@, from, began, self@));
                return;
            },
        };
        let (kind, slot) = match &shred {
            Shred::Data(data_shred) => (PacketKind::Data, data_shred.slot),
            Shred::Coding(coding_shred) => (PacketKind::Coding, coding_shred.slot),
        };
        self.note(Event::Packet(kind));
        let ghost noted = self@;
        assert(noted == before.noting(Event::Packet(kind_of(shred@))));
        let verdict = self.judge(bytes, slot);
        let ghost judged = self@;
        assert(noted.judged(bytes@, shred@.slot(), verdict, judged));
        if let Some(Verdict::Forged) = verdict {
            assert(before.handled(bytes@, from, began, self@));
            return;
        }
        self.absorb(&shred, from);
        let ghost done = self@;
        assert(judged.absorbed(shred@, from, done));
        self.note(Event::Processed { since: began });
        assert(before.handled(bytes@, from, began, self@));
    }
}

/// The wallets that count as ours: those listed, and the one that signs. The
/// address we sign with counts whether or not it was also listed by hand, so
/// arming the sniper is enough to have its own transactions recognised on the
/// way back.
pub open spec fn ours(wallets: Set<[u8; 32]>, searcher: Option<[u8; 32]>) -> Set<[u8; 32]> {
    match searcher {
        Some(searcher) => wallets.insert(searcher),
        None => wallets,
    }
}

impl Pipeline {
    /// The packet path of a sniper that signs with `searcher`'s key, if it signs
    /// at all, and checks packets against `schedule`, if there is one. Every
    /// transaction is logged where it is to be `verbose`.
    pub fn new(
        config: &Config,
        shred_version: u16,
        searcher: Option<[u8; 32]>,
        schedule: Option<Schedule>,
        verbose: bool,
        clock: Clock,
    ) -> (pipeline: Pipeline)
        ensures
            pipeline.wf(),
            pipeline.shred_version == shred_version,
            pipeline.snipe_program == config.snipe_program,
            pipeline.sources@ == (SourcesView { v4: Set::empty(), v6: Set::empty() }),
            pipeline.watched@ == config.target_wallets@.to_set(),
            pipeline.searchers@ == ours(config.searcher_wallets@.to_set(), searcher),
            pipeline.armed == (searcher is Some),
            pipeline.verbose == verbose,
            pipeline.shreds_seen == 0,
            pipeline.slot == SlotState::begun(0, pipeline.started),
            pipeline.clock == clock,
            clock.can_read(pipeline.started),
            pipeline.events@.len() == 0,
            pipeline.sightings@.len() == 0,
            pipeline.log@.len() == 0,
            pipeline.assembler.slots@ == Map::<u64, Aged<SlotBuffer>>::empty(),
            pipeline.assembler.slots.retention() == config.retention,
            pipeline.assembler.balanced(),
            pipeline.assembler.events@.len() == 0,
            pipeline.assembler.clock == clock,
            clock.can_read(pipeline.assembler.slots.last_swept()),
            pipeline.recovery.sets@ == Map::<(u64, u32), Aged<FecSet>>::empty(),
            pipeline.recovery.sets.retention() == if config.retention <= BATCH_LIFETIME {
                config.retention
            } else {
                BATCH_LIFETIME
            },
            pipeline.recovery.events@.len() == 0,
            pipeline.recovery.clock == clock,
            clock.can_read(pipeline.recovery.sets.last_swept()),
            match (schedule, pipeline.verifier) {
                (Some(schedule), Some(verifier)) => {
                    &&& verifier.schedule == schedule
                    &&& verifier.faithful()
                    &&& verifier.verified@ == Map::<SeenRoot, Aged<()>>::empty()
                    &&& verifier.verified.retention() == config.retention
                    &&& verifier.events@.len() == 0
                    &&& verifier.clock == clock
                    &&& clock.can_read(verifier.verified.last_swept())
                },
                (None, None) => true,
                _ => false,
            },
            pipeline.race is None <==> config.target_wallets@.len() == 0,
            pipeline.race matches Some(race) ==> {
                &&& race.searchers@ == pipeline.searchers@
                &&& race.targets@ == pipeline.watched@
                &&& race.slots@ == Map::<u64, Aged<Slot>>::empty()
                &&& race.slots.retention() == SETTLE
                &&& race.lines@.len() == 0
                &&& race.clock == clock
                &&& clock.can_read(race.slots.last_swept())
            },
    {
        let mut searchers: Vec<[u8; 32]> = Vec::new();
        let mut i: usize = 0;
        while i < config.searcher_wallets.len()
            invariant
                i <= config.searcher_wallets@.len(),
                searchers@ == config.searcher_wallets@.take(i as int),
            decreases config.searcher_wallets@.len() - i,
        {
            searchers.push(config.searcher_wallets[i]);
            assert(config.searcher_wallets@.take(i + 1) =~= searchers@);
            i = i + 1;
        }
        assert(searchers@ =~= config.searcher_wallets@);
        if let Some(searcher) = searcher {
            proof {
                crate::maps::lemma_push_contains(searchers@, searcher);
            }
            let ghost wallets = searchers@;
            if !listed(&searchers, &searcher) {
                searchers.push(searcher);
            }
            assert(searchers@.to_set() =~= wallets.to_set().insert(searcher));
        }
        let verifier = match schedule {
            Some(schedule) => Some(Verifier::new(schedule, config.retention, clock)),
            None => None,
        };
        let started: u64 = clock.now();
        Pipeline {
            assembler: Assembler::new(config.retention, clock),
            recovery: Recovery::new(config.retention, clock),
            verifier,
            race: Tracker::new(searchers.as_slice(), config.target_wallets.as_slice(), clock),
            shred_version,
            snipe_program: config.snipe_program,
            sources: Sources::new(),
            watched: Addresses::of(config.target_wallets.as_slice()),
            searchers: Addresses::of(searchers.as_slice()),
            armed: searcher.is_some(),
            verbose,
            shreds_seen: 0,
            slot: SlotState::new(0, started),
            started,
            events: Vec::new(),
            sightings: Vec::new(),
            log: Vec::new(),
            clock,
        }
    }

    /// Takes over a schedule that has been fetched anew. A sniper that was not
    /// checking packets does not begin to.
    pub fn reschedule(&mut self, schedule: Schedule)
        requires
            old(self).wf(),
        ensures
            final(self).wf(),
            final(self).clock == old(self).clock,
            final(self)@ == (PipelineView { verifier: final(self).verifier, ..old(self)@ }),
            match (old(self).verifier, final(self).verifier) {
                (Some(before), Some(after)) => {
                    &&& after.schedule == schedule
                    &&& after.verified == before.verified
                    &&& after.events == before.events
                    &&& after.clock == before.clock
                },
                (None, None) => true,
                _ => false,
            },
    {
        if let Some(verifier) = &mut self.verifier {
            verifier.reschedule(schedule);
        }
    }

    /// Everything there is to count and time since the last call.
    pub fn take_events(&mut self) -> (events: Vec<Event>)
        requires
            old(self).wf(),
        ensures
            final(self).wf(),
            final(self).clock == old(self).clock,
            events@ == old(self).events@ + old(self).recovery.events@
                + old(self).assembler.events@ + match old(self).verifier {
                Some(verifier) => verifier.events@,
                None => Seq::empty(),
            },
            final(self)@ == (PipelineView {
                assembler: final(self).assembler,
                recovery: final(self).recovery,
                verifier: final(self).verifier,
                events: Seq::empty(),
                ..old(self)@
            }),
            final(self).assembler.slots == old(self).assembler.slots,
            final(self).assembler.bytes == old(self).assembler.bytes,
            final(self).assembler.events@.len() == 0,
            final(self).assembler.clock == old(self).assembler.clock,
            final(self).recovery.clock == old(self).recovery.clock,
            final(self).recovery.sets == old(self).recovery.sets,
            final(self).recovery.events@.len() == 0,
            match (old(self).verifier, final(self).verifier) {
                (Some(before), Some(after)) => {
                    &&& after.schedule == before.schedule
                    &&& after.verified == before.verified
                    &&& after.events@.len() == 0
                    &&& after.clock == before.clock
                },
                (None, None) => true,
                _ => false,
            },
    {
        let mut events: Vec<Event> = Vec::new();
        std::mem::swap(&mut events, &mut self.events);
        let mut recovery = self.recovery.take_events();
        events.append(&mut recovery);
        let mut assembler = self.assembler.take_events();
        events.append(&mut assembler);
        if let Some(verifier) = &mut self.verifier {
            let mut verifier = verifier.take_events();
            events.append(&mut verifier);
        }
        assert(self.events@ =~= Seq::empty());
        events
    }

    /// What firing has to be told about since the last call.
    pub fn take_sightings(&mut self) -> (sightings: Vec<Sighting>)
        ensures
            sightings@ == old(self).sightings@,
            final(self)@ == (PipelineView { sightings: Seq::empty(), ..old(self)@ }),
            final(self).wf() == old(self).wf(),
            final(self).clock == old(self).clock,
    {
        let mut sightings: Vec<Sighting> = Vec::new();
        std::mem::swap(&mut sightings, &mut self.sightings);
        sightings
    }

    /// What there is to log since the last call.
    pub fn take_log(&mut self) -> (log: Vec<LogLine>)
        ensures
            log@ == old(self).log@,
            final(self)@ == (PipelineView { log: Seq::empty(), ..old(self)@ }),
            final(self).wf() == old(self).wf(),
            final(self).clock == old(self).clock,
    {
        let mut log: Vec<LogLine> = Vec::new();
        std::mem::swap(&mut log, &mut self.log);
        assert(log_views(self.log@) =~= Seq::empty());
        log
    }

    /// What there is to report of the race since the last call.
    pub fn take_lines(&mut self) -> (lines: Vec<RaceLine>)
        requires
            old(self).wf(),
        ensures
            final(self).wf(),
            final(self).clock == old(self).clock,
            lines@ == match old(self).race {
                Some(race) => race.lines@,
                None => Seq::empty(),
            },
            final(self)@ == (PipelineView { race: final(self).race, ..old(self)@ }),
            match (old(self).race, final(self).race) {
                (Some(before), Some(after)) => {
                    &&& after.lines@.len() == 0
                    &&& after.slots == before.slots
                    &&& after.searchers == before.searchers
                    &&& after.targets == before.targets
                    &&& after.clock == before.clock
                },
                (None, None) => true,
                _ => false,
            },
    {
        match &mut self.race {
            Some(race) => race.take_lines(),
            None => Vec::new(),
        }
    }
}

impl PipelineView {
    /// Everything that was settled when the sniper started.
    pub open spec fn same_orders(self, other: PipelineView) -> bool {
        &&& self.shred_version == other.shred_version
        &&& self.snipe_program == other.snipe_program
        &&& self.watched == other.watched
        &&& self.searchers == other.searchers
        &&& self.armed == other.armed
        &&& self.verbose == other.verbose
        &&& self.started == other.started
        &&& self.clock == other.clock
    }

    /// Whether there is nothing to tell firing about, whatever comes: without a
    /// key to sign with, or without a wallet to look out for.
    pub open spec fn watch_only(self) -> bool {
        !self.armed || (self.watched == Set::<[u8; 32]>::empty() && self.searchers == Set::<
            [u8; 32],
        >::empty())
    }

    /// What a watch-only sniper that was given these orders may become.
    spec fn keeps_watching(self, post: PipelineView) -> bool {
        &&& post.same_orders(self)
        &&& self.watch_only() ==> post.sightings == self.sightings
    }

    proof fn lemma_observing(
        self,
        slot: u64,
        offset: Option<u64>,
        transactions: Seq<TransactionView>,
        count: int,
        seen: u64,
    )
        ensures
            self.keeps_watching(self.observed_all(slot, offset, transactions, count, seen)),
        decreases count,
    {
        if count > 0 {
            self.lemma_observing(slot, offset, transactions, count - 1, seen);
        }
    }

    proof fn lemma_reading(
        self,
        slot: u64,
        offset: Option<u64>,
        entries: Seq<EntryView>,
        count: int,
        seen: u64,
    )
        ensures
            self.keeps_watching(self.read_through(slot, offset, entries, count, seen)),
        decreases count,
    {
        if count > 0 {
            self.lemma_reading(slot, offset, entries, count - 1, seen);
            let transactions = entries[count - 1].transactions;
            self.read_through(slot, offset, entries, count - 1, seen).lemma_observing(
                slot,
                offset,
                transactions,
                transactions.len() as int,
                seen,
            );
        }
    }

    proof fn lemma_seeing(
        self,
        slot: u64,
        offset: Option<u64>,
        batches: Seq<BatchView>,
        count: int,
        seen: u64,
        post: PipelineView,
    )
        requires
            self.saw_all(slot, offset, batches, count, seen, post),
        ensures
            self.keeps_watching(post),
        decreases count,
    {
        if count > 0 {
            let before = choose|before: PipelineView|
                self.saw_all(slot, offset, batches, count - 1, seen, before)
                    && #[trigger] before.saw(slot, offset, batches[count - 1], seen, post);
            self.lemma_seeing(slot, offset, batches, count - 1, seen, before);
            let entries = batches[count - 1].entries;
            before.lemma_reading(slot, offset, entries, entries.len() as int, seen);
        }
    }

    proof fn lemma_taking(
        self,
        shred: DataView,
        from_recovery: bool,
        now: u64,
        seen: u64,
        post: PipelineView,
    )
        requires
            self.took(shred, from_recovery, now, seen, post),
        ensures
            self.keeps_watching(post),
    {
        let placed = self.placed(shred, from_recovery, now);
        let (swept, fed, batches) = choose|
            swept: Assembler,
            fed: Assembler,
            batches: Seq<BatchView>,
        |
            #![trigger self.assembler.swept(now, swept), swept.dealt_with(shred, from_recovery, now, fed, batches)]
            self.assembler.swept(now, swept) && swept.dealt_with(
                shred,
                from_recovery,
                now,
                fed,
                batches,
            ) && PipelineView { assembler: fed, ..placed }.saw_all(
                shred.slot,
                placed.offset(shred.slot, now),
                batches,
                batches.len() as int,
                seen,
                post,
            );
        assert(self.keeps_watching(placed));
        PipelineView { assembler: fed, ..placed }.lemma_seeing(
            shred.slot,
            placed.offset(shred.slot, now),
            batches,
            batches.len() as int,
            seen,
            post,
        );
    }

    proof fn lemma_reviving(self, bodies: Seq<Seq<u8>>, count: int, post: PipelineView)
        requires
            self.revived_all(bodies, count, post),
        ensures
            self.keeps_watching(post),
        decreases count,
    {
        if count > 0 {
            let before = choose|before: PipelineView|
                self.revived_all(bodies, count - 1, before)
                    && #[trigger] before.revived(bodies[count - 1], post);
            self.lemma_reviving(bodies, count - 1, before);
            let body = bodies[count - 1];
            if shred::is_data(body, before.shred_version) {
                let (now, seen) = before.when_it_took(shred::data_fields(body), true, post);
                before.lemma_taking(shred::data_fields(body), true, now, seen, post);
            }
        }
    }

    proof fn lemma_absorbing(self, shred: ShredView, from: Ip, post: PipelineView)
        requires
            self.absorbed(shred, from, post),
        ensures
            self.keeps_watching(post),
    {
        let (pooled, bodies, fed) = choose|
            pooled: PipelineView,
            bodies: Seq<Seq<u8>>,
            fed: PipelineView,
        |
            #![trigger self.met(shred, from).pooled(shred, bodies, pooled), fed.revived_all(bodies, bodies.len() as int, post)]
            self.met(shred, from).pooled(shred, bodies, pooled) && (match shred {
                ShredView::Data(shred) => pooled.took_sometime(shred, false, fed),
                ShredView::Coding(_) => fed == pooled,
            }) && fed.revived_all(bodies, bodies.len() as int, post);
        assert(self.keeps_watching(pooled));
        if let ShredView::Data(data) = shred {
            let (now, seen) = pooled.when_it_took(data, false, fed);
            pooled.lemma_taking(data, false, now, seen, fed);
        }
        fed.lemma_reviving(bodies, bodies.len() as int, post);
    }

    /// The sniper is watch-only unless it has a key to sign with and a wallet to
    /// look out for: no datagram makes it tell firing anything. And no datagram
    /// changes what it was told to do.
    pub proof fn a_watch_only_sniper_never_fires(
        self,
        packet: Seq<u8>,
        from: Ip,
        began: u64,
        post: PipelineView,
    )
        requires
            self.handled(packet, from, began, post),
        ensures
            post.same_orders(self),
            self.watch_only() ==> post.sightings == self.sightings,
    {
        if let Some(shred) = shred::parsed(packet, self.shred_version) {
            let noted = self.noting(Event::Packet(kind_of(shred)));
            let (verdict, judged) = choose|verdict: Option<Verdict>, judged: PipelineView| #[trigger]
                noted.judged(packet, shred.slot(), verdict, judged) && if verdict == Some(
                    Verdict::Forged,
                ) {
                    post == judged
                } else {
                    exists|done: PipelineView| #[trigger]
                        judged.absorbed(shred, from, done) && post == done.noting(
                            Event::Processed { since: began },
                        )
                };
            assert(self.keeps_watching(judged));
            if verdict != Some(Verdict::Forged) {
                let done = choose|done: PipelineView| #[trigger]
                    judged.absorbed(shred, from, done) && post == done.noting(
                        Event::Processed { since: began },
                    );
                judged.lemma_absorbing(shred, from, done);
            }
        }
    }

    /// Where packets are checked, nothing of one is buffered, rebuilt, reported or
    /// told to firing unless the check lets it through: it was not a forgery by
    /// the schedule and what had been verified by then.
    pub proof fn a_forgery_goes_nowhere(
        self,
        packet: Seq<u8>,
        from: Ip,
        began: u64,
        post: PipelineView,
    )
        requires
            self.handled(packet, from, began, post),
            self.verifier is Some,
            shred::parsed(packet, self.shred_version) is Some,
        ensures
            self.untouched(post) || self.let_through(packet),
    {
        let verifier = self.verifier->0;
        let shred = shred::parsed(packet, self.shred_version)->0;
        let noted = self.noting(Event::Packet(kind_of(shred)));
        let (verdict, judged) = choose|verdict: Option<Verdict>, judged: PipelineView| #[trigger]
            noted.judged(packet, shred.slot(), verdict, judged) && if verdict == Some(
                Verdict::Forged,
            ) {
                post == judged
            } else {
                exists|done: PipelineView| #[trigger]
                    judged.absorbed(shred, from, done) && post == done.noting(
                        Event::Processed { since: began },
                    )
            };
        if verdict != Some(Verdict::Forged) {
            let now = choose|now: u64|
                verifier.clock.can_read(now) && #[trigger] verifier.checked(
                    packet,
                    self.shred_version,
                    shred.slot(),
                    now,
                    verdict->0,
                    judged.verifier->0,
                );
            let kept = choose|kept: Map<SeenRoot, Aged<()>>| #[trigger]
                verifier.sweeps_to(now, kept) && verdict->0 == crate::verify::verdict_on(
                    verifier.schedule,
                    kept.dom(),
                    packet,
                    self.shred_version,
                    shred.slot(),
                    now,
                );
            assert(verifier.sweeps_to(now, kept));
        }
    }

    /// Whether `post` differs from this in what was counted at most.
    pub open spec fn untouched(self, post: PipelineView) -> bool {
        &&& post.assembler == self.assembler
        &&& post.recovery == self.recovery
        &&& post.race == self.race
        &&& post.slot == self.slot
        &&& post.sources == self.sources
        &&& post.sightings == self.sightings
        &&& post.log == self.log
    }

    /// Whether there is a reading of its clock at which the check does not find a
    /// packet to be a forgery.
    pub open spec fn let_through(self, packet: Seq<u8>) -> bool {
        exists|now: u64, kept: Map<SeenRoot, Aged<()>>|
            self.verifier->0.clock.can_read(now) && #[trigger] self.verifier->0.sweeps_to(now, kept)
                && !(crate::verify::verdict_on(
                self.verifier->0.schedule,
                kept.dom(),
                packet,
                self.shred_version,
                shred::parsed(packet, self.shred_version)->0.slot(),
                now,
            ) is Forged)
    }

    /// No spoofed slot can hold the anchor for good: a shred of the slot the
    /// cluster is really on leaves it there, or no more than so far ahead.
    pub proof fn the_anchor_is_never_far_ahead(self, slot: u64, now: u64)
        ensures
            slot <= self.anchored(slot, now).slot.number,
            self.anchored(slot, now).slot.number <= slot + MAX_SLOT_ADVANCE,
    {
    }
}

impl PipelineView {
    /// Who pays for a transaction decides what an armed sniper makes of it, and
    /// nothing else about it does. One that is signed and paid for by a watched
    /// wallet is a trigger, told about once with its slot and first signature; one
    /// paid for by us is a landing, told about once; and no other is told about.
    /// What a watched wallet pays for is counted as watched, signed or not.
    #[verifier::spinoff_prover]
    #[verifier::rlimit(60)]
    pub proof fn the_payer_decides_what_is_told(
        self,
        slot: u64,
        offset: Option<u64>,
        transaction: TransactionView,
        seen: u64,
    )
        requires
            self.armed,
        ensures
            ({
                let post = self.reacted(slot, offset, transaction, seen);
                let told = post.sightings.skip(self.sightings.len() as int);
                let paid = transaction.account_keys.len() > 0;
                let payer = transaction.account_keys[0];
                let signed = transaction.signatures.len() > 0;
                let target = paid && self.watched.contains(payer);
                let own = paid && self.searchers.contains(payer);
                &&& post.sightings.len() >= self.sightings.len()
                &&& post.sightings.take(self.sightings.len() as int) == self.sightings
                &&& told.len() == (if signed && target {
                    1int
                } else {
                    0
                }) + (if signed && own {
                    1int
                } else {
                    0
                })
                &&& signed && target ==> told[0] == (Sighting::Target {
                    slot,
                    signature: transaction.signatures[0],
                    detected: seen,
                })
                &&& signed && own ==> told.last() == (Sighting::Own {
                    slot,
                    signature: transaction.signatures[0],
                })
                &&& post.events == if target {
                    self.events.push(Event::Watched { offset })
                } else {
                    self.events
                }
                &&& post == PipelineView {
                    sightings: post.sightings,
                    events: post.events,
                    ..self
                }
            }),
    {
        let post = self.reacted(slot, offset, transaction, seen);
        assert(post.sightings.take(self.sightings.len() as int) =~= self.sightings);
        assert(post =~= PipelineView { sightings: post.sightings, events: post.events, ..self });
    }

    /// Two transactions with the same payer and the same first signature are told
    /// about alike, however else they differ.
    pub proof fn nothing_but_payer_and_signature_matters(
        self,
        slot: u64,
        offset: Option<u64>,
        transaction: TransactionView,
        other: TransactionView,
        seen: u64,
    )
        requires
            transaction.account_keys.len() > 0,
            other.account_keys.len() > 0,
            transaction.account_keys[0] == other.account_keys[0],
            transaction.signatures.len() > 0,
            other.signatures.len() > 0,
            transaction.signatures[0] == other.signatures[0],
        ensures
            self.reacted(slot, offset, transaction, seen) == self.reacted(
                slot,
                offset,
                other,
                seen,
            ),
    {
    }
}

/// What there is to tell about a run of transactions: for each
/// that is signed, in turn, that a watched wallet paid for it and that we did.
pub open spec fn foretold(
    watched: Set<[u8; 32]>,
    searchers: Set<[u8; 32]>,
    slot: u64,
    seen: u64,
    transactions: Seq<TransactionView>,
) -> Seq<Sighting>
    decreases transactions.len(),
{
    if transactions.len() == 0 {
        Seq::empty()
    } else {
        let before = foretold(watched, searchers, slot, seen, transactions.drop_last());
        let last = transactions.last();
        if last.signatures.len() > 0 && last.account_keys.len() > 0 {
            let signature = last.signatures[0];
            let triggered = if watched.contains(last.account_keys[0]) {
                before.push(Sighting::Target { slot, signature, detected: seen })
            } else {
                before
            };
            if searchers.contains(last.account_keys[0]) {
                triggered.push(Sighting::Own { slot, signature })
            } else {
                triggered
            }
        } else {
            before
        }
    }
}

/// The transactions of a run of entries, one behind the other.
pub open spec fn all_in_entries(entries: Seq<EntryView>) -> Seq<TransactionView>
    decreases entries.len(),
{
    if entries.len() == 0 {
        Seq::empty()
    } else {
        all_in_entries(entries.drop_last()) + entries.last().transactions
    }
}

/// The transactions of a run of pieces, one behind the other.
pub open spec fn all_in_pieces(pieces: Seq<BatchView>) -> Seq<TransactionView>
    decreases pieces.len(),
{
    if pieces.len() == 0 {
        Seq::empty()
    } else {
        all_in_pieces(pieces.drop_last()) + all_in_entries(pieces.last().entries)
    }
}

proof fn lemma_foretold_joined(
    watched: Set<[u8; 32]>,
    searchers: Set<[u8; 32]>,
    slot: u64,
    seen: u64,
    front: Seq<TransactionView>,
    back: Seq<TransactionView>,
)
    ensures
        foretold(watched, searchers, slot, seen, front + back) == foretold(
            watched,
            searchers,
            slot,
            seen,
            front,
        ) + foretold(watched, searchers, slot, seen, back),
    decreases back.len(),
{
    let all = foretold(watched, searchers, slot, seen, front);
    if back.len() == 0 {
        assert(front + back =~= front);
        assert(all + Seq::<Sighting>::empty() =~= all);
    } else {
        assert((front + back).drop_last() =~= front + back.drop_last());
        assert((front + back).last() == back.last());
        lemma_foretold_joined(watched, searchers, slot, seen, front, back.drop_last());
        assert(foretold(watched, searchers, slot, seen, front + back) =~= all + foretold(
            watched,
            searchers,
            slot,
            seen,
            back,
        ));
    }
}

impl PipelineView {
    /// What a run of transactions makes of an armed sniper: everything there is to
    /// tell about them is told, and each is counted.
    spec fn told_all(
        self,
        slot: u64,
        seen: u64,
        transactions: Seq<TransactionView>,
        post: PipelineView,
    ) -> bool {
        &&& post.same_orders(self)
        &&& post.sightings == self.sightings + foretold(
            self.watched,
            self.searchers,
            slot,
            seen,
            transactions,
        )
        &&& self.slot.transactions + transactions.len() <= u64::MAX ==> post.slot.transactions
            == self.slot.transactions + transactions.len()
        &&& post.slot.number == self.slot.number && post.slot.shreds == self.slot.shreds
            && post.slot.started == self.slot.started
        &&& post.shreds_seen == self.shreds_seen
    }

    #[verifier::spinoff_prover]
    #[verifier::rlimit(60)]
    proof fn lemma_told_observing(
        self,
        slot: u64,
        offset: Option<u64>,
        transactions: Seq<TransactionView>,
        count: int,
        seen: u64,
    )
        requires
            self.armed,
            0 <= count <= transactions.len(),
        ensures
            self.told_all(
                slot,
                seen,
                transactions.take(count),
                self.observed_all(slot, offset, transactions, count, seen),
            ),
        decreases count,
    {
        let (watched, searchers) = (self.watched, self.searchers);
        if count > 0 {
            self.lemma_told_observing(slot, offset, transactions, count - 1, seen);
            let before = self.observed_all(slot, offset, transactions, count - 1, seen);
            let transaction = transactions[count - 1];
            assert(transactions.take(count).drop_last() =~= transactions.take(count - 1));
            assert(transactions.take(count).last() == transaction);
            let counted = PipelineView {
                slot: SlotState {
                    transactions: before.slot.transactions.wrapping_add(1),
                    ..before.slot
                },
                ..before
            };
            counted.the_payer_decides_what_is_told(slot, offset, transaction, seen);
            let told = foretold(watched, searchers, slot, seen, transactions.take(count));
            let reacted = counted.reacted(slot, offset, transaction, seen);
            assert(reacted.sightings =~= self.sightings + told);
        } else {
            assert(self.sightings + Seq::<Sighting>::empty() =~= self.sightings);
        }
    }

    proof fn lemma_told_joined(
        self,
        slot: u64,
        seen: u64,
        front: Seq<TransactionView>,
        between: PipelineView,
        back: Seq<TransactionView>,
        post: PipelineView,
    )
        requires
            self.told_all(slot, seen, front, between),
            between.told_all(slot, seen, back, post),
        ensures
            self.told_all(slot, seen, front + back, post),
    {
        lemma_foretold_joined(self.watched, self.searchers, slot, seen, front, back);
        let (a, b) = (
            foretold(self.watched, self.searchers, slot, seen, front),
            foretold(self.watched, self.searchers, slot, seen, back),
        );
        assert(self.sightings + (a + b) =~= (self.sightings + a) + b);
    }

    #[verifier::spinoff_prover]
    #[verifier::rlimit(60)]
    proof fn lemma_told_reading(
        self,
        slot: u64,
        offset: Option<u64>,
        entries: Seq<EntryView>,
        count: int,
        seen: u64,
    )
        requires
            self.armed,
            0 <= count <= entries.len(),
        ensures
            self.told_all(
                slot,
                seen,
                all_in_entries(entries.take(count)),
                self.read_through(slot, offset, entries, count, seen),
            ),
        decreases count,
    {
        if count > 0 {
            self.lemma_told_reading(slot, offset, entries, count - 1, seen);
            let before = self.read_through(slot, offset, entries, count - 1, seen);
            let transactions = entries[count - 1].transactions;
            assert(entries.take(count).drop_last() =~= entries.take(count - 1));
            before.lemma_told_observing(
                slot,
                offset,
                transactions,
                transactions.len() as int,
                seen,
            );
            assert(transactions.take(transactions.len() as int) =~= transactions);
            self.lemma_told_joined(
                slot,
                seen,
                all_in_entries(entries.take(count - 1)),
                before,
                transactions,
                self.read_through(slot, offset, entries, count, seen),
            );
        } else {
            assert(self.sightings + Seq::<Sighting>::empty() =~= self.sightings);
        }
    }

    #[verifier::spinoff_prover]
    #[verifier::rlimit(60)]
    proof fn lemma_told_seeing(
        self,
        slot: u64,
        offset: Option<u64>,
        batches: Seq<BatchView>,
        count: int,
        seen: u64,
        post: PipelineView,
    )
        requires
            self.armed,
            0 <= count <= batches.len(),
            self.saw_all(slot, offset, batches, count, seen, post),
        ensures
            self.told_all(slot, seen, all_in_pieces(batches.take(count)), post),
        decreases count,
    {
        if count > 0 {
            let before = choose|before: PipelineView|
                self.saw_all(slot, offset, batches, count - 1, seen, before)
                    && #[trigger] before.saw(slot, offset, batches[count - 1], seen, post);
            self.lemma_told_seeing(slot, offset, batches, count - 1, seen, before);
            let entries = batches[count - 1].entries;
            before.lemma_told_reading(slot, offset, entries, entries.len() as int, seen);
            assert(entries.take(entries.len() as int) =~= entries);
            assert(batches.take(count).drop_last() =~= batches.take(count - 1));
            assert(before.told_all(slot, seen, all_in_entries(entries), post));
            self.lemma_told_joined(
                slot,
                seen,
                all_in_pieces(batches.take(count - 1)),
                before,
                all_in_entries(entries),
                post,
            );
        } else {
            assert(self.sightings + Seq::<Sighting>::empty() =~= self.sightings);
        }
    }

    /// Every transaction the assembler hands over for a data shred is looked at by
    /// an armed sniper, in the order of the block: there is a sighting for each that
    /// a watched wallet signed for and for each that we did, and every one is
    /// counted.
    #[verifier::spinoff_prover]
    #[verifier::rlimit(60)]
    pub proof fn every_transaction_handed_over_is_looked_at(
        self,
        shred: DataView,
        from_recovery: bool,
        now: u64,
        seen: u64,
        post: PipelineView,
    ) -> (handed: (Assembler, Assembler, Seq<BatchView>))
        requires
            self.took(shred, from_recovery, now, seen, post),
            self.armed,
        ensures
            ({
                let (swept, fed, batches) = handed;
                let transactions = all_in_pieces(batches);
                let before: int = if shred.slot > self.slot.number || shred.slot + 1024
                    < self.slot.number {
                    0
                } else {
                    self.slot.transactions as int
                };
                &&& self.assembler.swept(now, swept)
                &&& swept.dealt_with(shred, from_recovery, now, fed, batches)
                &&& post.sightings == self.sightings + foretold(
                    self.watched,
                    self.searchers,
                    shred.slot,
                    seen,
                    transactions,
                )
                &&& before + transactions.len() <= u64::MAX ==> post.slot.transactions == before
                    + transactions.len()
            }),
    {
        let placed = self.placed(shred, from_recovery, now);
        let handed = choose|swept: Assembler, fed: Assembler, batches: Seq<BatchView>|
            #![trigger self.assembler.swept(now, swept), swept.dealt_with(shred, from_recovery, now, fed, batches)]
            self.assembler.swept(now, swept) && swept.dealt_with(
                shred,
                from_recovery,
                now,
                fed,
                batches,
            ) && PipelineView { assembler: fed, ..placed }.saw_all(
                shred.slot,
                placed.offset(shred.slot, now),
                batches,
                batches.len() as int,
                seen,
                post,
            );
        let (swept, fed, batches) = handed;
        PipelineView { assembler: fed, ..placed }.lemma_told_seeing(
            shred.slot,
            placed.offset(shred.slot, now),
            batches,
            batches.len() as int,
            seen,
            post,
        );
        assert(batches.take(batches.len() as int) =~= batches);
        handed
    }

    /// A transaction is reported as what it is. It is a vote, or a hit, where one
    /// of its instructions calls the vote program, or the program watched for,
    /// through a key the message itself lists; it is opaque where it reaches for a
    /// lookup table. It is written to the log where it is a hit or all are, and
    /// there is one event for it either way.
    #[verifier::spinoff_prover]
    #[verifier::rlimit(60)]
    pub proof fn a_transaction_is_reported_as_what_it_is(
        self,
        slot: u64,
        offset: Option<u64>,
        transaction: TransactionView,
        seen: u64,
    )
        ensures
            ({
                let post = self.reported(slot, offset, transaction, seen);
                let reacted = self.reacted(slot, offset, transaction, seen);
                let called = |program: [u8; 32]|
                    exists|i: int|
                        0 <= i < transaction.programs.len() && (#[trigger] transaction.programs[i])
                            < transaction.account_keys.len()
                            && transaction.account_keys[transaction.programs[i] as int] == program;
                let hit = self.snipe_program is Some && called(self.snipe_program->0);
                &&& post.sightings == reacted.sightings
                &&& post.events.len() == reacted.events.len() + 1
                &&& post.events.drop_last() == reacted.events
                &&& post.events.last() == (Event::Transaction {
                    vote: called(VOTE_PROGRAM),
                    hit,
                    opaque: transaction.lookups is Some && transaction.lookups->0 > 0,
                    offset,
                })
                &&& post.log.len() == self.log.len() + if hit || self.verbose {
                    1int
                } else {
                    0
                }
                &&& hit || self.verbose ==> {
                    &&& post.log.last() matches LogView::Transaction {
                        slot: at,
                        hit: reported,
                        signature,
                        payer,
                        ..
                    }
                    &&& at == slot
                    &&& reported == hit
                    &&& transaction.signatures.len() > 0 ==> signature
                        == crate::addresses::signature_text(transaction.signatures[0]@)
                    &&& transaction.account_keys.len() > 0 ==> payer
                        == crate::addresses::address_text(transaction.account_keys[0]@)
                }
            }),
    {
        let post = self.reported(slot, offset, transaction, seen);
        let reacted = self.reacted(slot, offset, transaction, seen);
        assert(post.events.drop_last() =~= reacted.events);
        assert forall|program: [u8; 32]|
            #[trigger] calls(transaction, program) <==> exists|i: int|
                0 <= i < transaction.programs.len() && (#[trigger] transaction.programs[i])
                    < transaction.account_keys.len()
                    && transaction.account_keys[transaction.programs[i] as int] == program by {
            if calls(transaction, program) {
                let at = choose|at: int|
                    0 <= at < transaction.programs.len() && #[trigger] calls_listed(transaction, at)
                        && transaction.account_keys[transaction.programs[at] as int] == program;
                assert(transaction.programs[at] < transaction.account_keys.len());
            }
            if exists|i: int|
                0 <= i < transaction.programs.len() && (#[trigger] transaction.programs[i])
                    < transaction.account_keys.len()
                    && transaction.account_keys[transaction.programs[i] as int] == program {
                let i = choose|i: int|
                    0 <= i < transaction.programs.len() && (#[trigger] transaction.programs[i])
                        < transaction.account_keys.len()
                        && transaction.account_keys[transaction.programs[i] as int] == program;
                assert(calls_listed(transaction, i));
            }
        }
    }

    /// The anchor follows the block: to a higher slot, and back to one more than
    /// 1024 slots below. Leaving a slot says what was seen of it and how long it
    /// took, unless it is the one before the first, and counting begins anew. Any
    /// other shred leaves the anchor where it is.
    pub proof fn the_anchor_follows_the_block(self, slot: u64, now: u64)
        ensures
            ({
                let post = self.anchored(slot, now);
                let moves = slot > self.slot.number || slot + 1024 < self.slot.number;
                &&& !moves ==> post == self
                &&& moves ==> {
                    &&& post.slot.number == slot
                    &&& post.slot.started == now
                    &&& post.slot.shreds == 0
                    &&& post.slot.transactions == 0
                    &&& post.events.len() == self.events.len() + 1
                    &&& post.events.drop_last() == self.events
                    &&& post.events.last() matches Event::Completed {
                        slot: entered,
                        duration,
                        shreds,
                        transactions,
                    }
                    &&& entered == slot
                    &&& shreds == self.slot.shreds
                    &&& transactions == self.slot.transactions
                    &&& duration is None <==> self.slot.number == 0
                    &&& self.slot.number != 0 && self.slot.started <= now ==> duration == Some(
                        (now - self.slot.started) as u64,
                    )
                    &&& post.sightings == self.sightings
                    &&& post.shreds_seen == self.shreds_seen
                }
            }),
    {
        let post = self.anchored(slot, now);
        if slot > self.slot.number || slot + 1024 < self.slot.number {
            assert(post.events.drop_last() =~= self.events);
        }
    }

    /// How far into its slot a shred came off the wire is told against when its
    /// leader made it, at six and a quarter milliseconds a tick, and only where the
    /// slot is the one the anchor is on. Nothing is told of what was rebuilt.
    pub proof fn deliveries_are_timed_by_the_leaders_ticks(
        self,
        shred: DataView,
        from_recovery: bool,
        now: u64,
    )
        ensures
            ({
                let post = self.timed(shred, from_recovery, now);
                if from_recovery || shred.slot != self.slot.number {
                    post == self
                } else {
                    &&& post.events.len() == self.events.len() + 1
                    &&& post.events.drop_last() == self.events
                    &&& post.events.last() matches Event::Delivery { arrival, produced }
                    &&& produced == shred.reference_tick * 6_250_000
                    &&& self.slot.started <= now ==> arrival == now - self.slot.started
                    &&& post == PipelineView { events: post.events, ..self }
                }
            }),
    {
        let post = self.timed(shred, from_recovery, now);
        if !from_recovery && shred.slot == self.slot.number {
            assert(post.events.drop_last() =~= self.events);
        }
    }
}

impl PipelineView {
    /// Whether `post` has all this had to say, and says it first, having seen `more`
    /// shreds since.
    spec fn follows(self, post: PipelineView, more: int) -> bool {
        &&& self.events.is_prefix_of(post.events)
        &&& self.sightings.is_prefix_of(post.sightings)
        &&& self.log.is_prefix_of(post.log)
        &&& self.shreds_seen + more <= u64::MAX ==> post.shreds_seen == self.shreds_seen + more
        &&& post.shred_version == self.shred_version
    }

    proof fn lemma_following(self, between: PipelineView, post: PipelineView, some: int, more: int)
        requires
            self.follows(between, some),
            between.follows(post, more),
            0 <= some,
            0 <= more,
        ensures
            self.follows(post, some + more),
    {
        lemma_prefixes(self.events, between.events, post.events);
        lemma_prefixes(self.sightings, between.sightings, post.sightings);
        lemma_prefixes(self.log, between.log, post.log);
    }

    proof fn lemma_following_observed(
        self,
        slot: u64,
        offset: Option<u64>,
        transactions: Seq<TransactionView>,
        count: int,
        seen: u64,
    )
        ensures
            self.follows(self.observed_all(slot, offset, transactions, count, seen), 0),
        decreases count,
    {
        if count > 0 {
            self.lemma_following_observed(slot, offset, transactions, count - 1, seen);
            let before = self.observed_all(slot, offset, transactions, count - 1, seen);
            let post = before.observed(slot, offset, transactions[count - 1], seen);
            assert(before.follows(post, 0));
            self.lemma_following(before, post, 0, 0);
        }
    }

    proof fn lemma_following_read(
        self,
        slot: u64,
        offset: Option<u64>,
        entries: Seq<EntryView>,
        count: int,
        seen: u64,
    )
        ensures
            self.follows(self.read_through(slot, offset, entries, count, seen), 0),
        decreases count,
    {
        if count > 0 {
            self.lemma_following_read(slot, offset, entries, count - 1, seen);
            let before = self.read_through(slot, offset, entries, count - 1, seen);
            let transactions = entries[count - 1].transactions;
            before.lemma_following_observed(
                slot,
                offset,
                transactions,
                transactions.len() as int,
                seen,
            );
            self.lemma_following(
                before,
                self.read_through(slot, offset, entries, count, seen),
                0,
                0,
            );
        }
    }

    proof fn lemma_following_seen(
        self,
        slot: u64,
        offset: Option<u64>,
        batches: Seq<BatchView>,
        count: int,
        seen: u64,
        post: PipelineView,
    )
        requires
            self.saw_all(slot, offset, batches, count, seen, post),
        ensures
            self.follows(post, 0),
        decreases count,
    {
        if count > 0 {
            let before = choose|before: PipelineView|
                self.saw_all(slot, offset, batches, count - 1, seen, before)
                    && #[trigger] before.saw(slot, offset, batches[count - 1], seen, post);
            self.lemma_following_seen(slot, offset, batches, count - 1, seen, before);
            let entries = batches[count - 1].entries;
            before.lemma_following_read(slot, offset, entries, entries.len() as int, seen);
            assert(before.follows(post, 0));
            self.lemma_following(before, post, 0, 0);
        }
    }

    #[verifier::spinoff_prover]
    #[verifier::rlimit(60)]
    proof fn lemma_following_taken(
        self,
        shred: DataView,
        from_recovery: bool,
        now: u64,
        seen: u64,
        post: PipelineView,
    )
        requires
            self.took(shred, from_recovery, now, seen, post),
        ensures
            self.follows(post, 1),
    {
        let placed = self.placed(shred, from_recovery, now);
        let (swept, fed, batches) = choose|
            swept: Assembler,
            fed: Assembler,
            batches: Seq<BatchView>,
        |
            #![trigger self.assembler.swept(now, swept), swept.dealt_with(shred, from_recovery, now, fed, batches)]
            self.assembler.swept(now, swept) && swept.dealt_with(
                shred,
                from_recovery,
                now,
                fed,
                batches,
            ) && PipelineView { assembler: fed, ..placed }.saw_all(
                shred.slot,
                placed.offset(shred.slot, now),
                batches,
                batches.len() as int,
                seen,
                post,
            );
        let given = PipelineView { assembler: fed, ..placed };
        assert(self.follows(given, 1));
        given.lemma_following_seen(
            shred.slot,
            placed.offset(shred.slot, now),
            batches,
            batches.len() as int,
            seen,
            post,
        );
        self.lemma_following(given, post, 1, 0);
    }
}

proof fn lemma_prefixes<A>(front: Seq<A>, between: Seq<A>, all: Seq<A>)
    requires
        front.is_prefix_of(between),
        between.is_prefix_of(all),
    ensures
        front.is_prefix_of(all),
{
    assert(all.subrange(0, front.len() as int) =~= between.subrange(0, front.len() as int));
}

/// How many of the first `count` bodies are data shreds of ours.
pub open spec fn shreds_among(bodies: Seq<Seq<u8>>, count: int, shred_version: u16) -> nat
    decreases count,
{
    if count <= 0 {
        0
    } else {
        shreds_among(bodies, count - 1, shred_version) + if shred::is_data(
            bodies[count - 1],
            shred_version,
        ) {
            1nat
        } else {
            0
        }
    }
}

impl PipelineView {
    #[verifier::spinoff_prover]
    #[verifier::rlimit(60)]
    proof fn lemma_following_revived(self, bodies: Seq<Seq<u8>>, count: int, post: PipelineView)
        requires
            self.revived_all(bodies, count, post),
        ensures
            self.follows(post, shreds_among(bodies, count, self.shred_version) as int),
        decreases count,
    {
        if count > 0 {
            let before = choose|before: PipelineView|
                self.revived_all(bodies, count - 1, before)
                    && #[trigger] before.revived(bodies[count - 1], post);
            self.lemma_following_revived(bodies, count - 1, before);
            let body = bodies[count - 1];
            let some = shreds_among(bodies, count - 1, self.shred_version) as int;
            if shred::is_data(body, before.shred_version) {
                let (now, seen) = before.when_it_took(shred::data_fields(body), true, post);
                before.lemma_following_taken(shred::data_fields(body), true, now, seen, post);
                self.lemma_following(before, post, some, 1);
            } else {
                assert(before.follows(post, 0));
                self.lemma_following(before, post, some, 0);
            }
        }
    }

    /// Nothing a packet lets through is lost on the way. A shred that is not found to
    /// be a forgery joins its erasure batch; if it carries data, that is assembled, by
    /// what was held of its slot up to then; and so is everything its batch could
    /// rebuild with it that is a data shred of ours. Each of those is counted, the
    /// packet is counted as what it is, and nothing that was said before is taken
    /// back.
    #[verifier::spinoff_prover]
    #[verifier::rlimit(60)]
    pub proof fn nothing_let_through_is_lost(
        self,
        packet: Seq<u8>,
        from: Ip,
        began: u64,
        post: PipelineView,
        shred: ShredView,
    ) -> (steps: (PipelineView, Seq<Seq<u8>>, PipelineView))
        requires
            self.handled(packet, from, began, post),
            shred::parsed(packet, self.shred_version) == Some(shred),
            self.verifier matches Some(verifier) ==> forall|
                now: u64,
                verdict: Verdict,
                after: Verifier,
            |
                #![trigger verifier.checked(packet, self.shred_version, shred.slot(), now, verdict, after)]
                verifier.checked(packet, self.shred_version, shred.slot(), now, verdict, after)
                    ==> !(verdict is Forged),
        ensures
            ({
                let (pooled, bodies, fed) = steps;
                let came: int = if shred is Data {
                    1
                } else {
                    0
                };
                &&& exists|now: u64| #[trigger]
                    self.recovery.clock.can_read(now) && match shred {
                        ShredView::Data(shred) => self.recovery.took_data(
                            shred,
                            now,
                            pooled.recovery,
                            bodies,
                        ),
                        ShredView::Coding(shred) => self.recovery.took_coding(
                            shred,
                            now,
                            pooled.recovery,
                            bodies,
                        ),
                    }
                &&& pooled.assembler == self.assembler
                &&& pooled.race == self.race
                &&& pooled.sightings == self.sightings
                &&& match shred {
                    ShredView::Data(shred) => pooled.took_sometime(shred, false, fed),
                    ShredView::Coding(_) => fed == pooled,
                }
                &&& self.shreds_seen + came + shreds_among(
                    bodies,
                    bodies.len() as int,
                    self.shred_version,
                ) <= u64::MAX ==> post.shreds_seen == self.shreds_seen + came + shreds_among(
                    bodies,
                    bodies.len() as int,
                    self.shred_version,
                )
                &&& self.events.push(
                    Event::Packet(
                        if shred is Data {
                            PacketKind::Data
                        } else {
                            PacketKind::Coding
                        },
                    ),
                ).is_prefix_of(post.events)
                &&& post.events.last() == (Event::Processed { since: began })
                &&& self.sightings.is_prefix_of(post.sightings)
            }),
    {
        let noted = self.noting(Event::Packet(kind_of(shred)));
        let (verdict, judged) = choose|verdict: Option<Verdict>, judged: PipelineView| #[trigger]
            noted.judged(packet, shred.slot(), verdict, judged) && if verdict == Some(
                Verdict::Forged,
            ) {
                post == judged
            } else {
                exists|done: PipelineView| #[trigger]
                    judged.absorbed(shred, from, done) && post == done.noting(
                        Event::Processed { since: began },
                    )
            };
        assert(verdict != Some(Verdict::Forged));
        let done = choose|done: PipelineView| #[trigger]
            judged.absorbed(shred, from, done) && post == done.noting(
                Event::Processed { since: began },
            );
        let (pooled, bodies, fed) = choose|
            pooled: PipelineView,
            bodies: Seq<Seq<u8>>,
            fed: PipelineView,
        |
            #![trigger judged.met(shred, from).pooled(shred, bodies, pooled), fed.revived_all(bodies, bodies.len() as int, done)]
            judged.met(shred, from).pooled(shred, bodies, pooled) && (match shred {
                ShredView::Data(shred) => pooled.took_sometime(shred, false, fed),
                ShredView::Coding(_) => fed == pooled,
            }) && fed.revived_all(bodies, bodies.len() as int, done);
        let met = judged.met(shred, from);
        let now = choose|now: u64|
            met.recovery.clock.can_read(now) && #[trigger] met.batched(shred, now, bodies, pooled);
        assert(self.recovery.clock.can_read(now));
        let count = shreds_among(bodies, bodies.len() as int, self.shred_version) as int;
        assert(noted.follows(pooled, 0));
        if let ShredView::Data(data) = shred {
            let (now, seen) = pooled.when_it_took(data, false, fed);
            pooled.lemma_following_taken(data, false, now, seen, fed);
            noted.lemma_following(pooled, fed, 0, 1);
        } else {
            assert(noted.follows(fed, 0));
        }
        fed.lemma_following_revived(bodies, bodies.len() as int, done);
        noted.lemma_following(
            fed,
            done,
            if shred is Data {
                1
            } else {
                0
            },
            count,
        );
        lemma_prefixes(noted.events, done.events, post.events);
        (pooled, bodies, fed)
    }

    /// A packet that is no shred of ours is counted as such, and that is all that
    /// comes of it.
    pub proof fn what_is_no_shred_is_counted(
        self,
        packet: Seq<u8>,
        from: Ip,
        began: u64,
        post: PipelineView,
    )
        requires
            self.handled(packet, from, began, post),
            shred::parsed(packet, self.shred_version) is None,
        ensures
            post == (PipelineView {
                events: self.events.push(Event::Packet(PacketKind::Other)),
                ..self
            }),
    {
    }

    /// Whoever sends a data shred for the first time is said to be a new source, with
    /// how many there are then; whoever did before is not.
    pub proof fn a_source_is_new_once(self, from: Ip, other: Ip)
        ensures
            ({
                let post = self.sourced(from);
                &&& post.sources.contains(from)
                &&& other != from ==> (post.sources.contains(other) <==> self.sources.contains(
                    other,
                ))
                &&& self.sources.contains(from) ==> post == self
                &&& !self.sources.contains(from) ==> post.events == self.events.push(
                    Event::Sources(post.sources.count()),
                ) && post.log == self.log.push(LogView::Source(from))
                &&& post.sourced(from) == post
            }),
    {
    }

    /// The race is told of every piece, as it stands: whatever was seen of the slot
    /// up to then has that piece in it afterwards.
    pub proof fn the_race_is_told_of_every_piece(
        self,
        slot: u64,
        offset: Option<u64>,
        batch: BatchView,
        seen: u64,
        post: PipelineView,
        race: Tracker,
    )
        requires
            self.saw(slot, offset, batch, seen, post),
            self.race == Some(race),
            !race.slots.sweep_due(seen),
        ensures
            post.race matches Some(after) && after.slot(slot) == race.slot(slot).with_piece(
                race.searchers@,
                race.targets@,
                batch,
            ),
    {
        let after = post.race->0;
        let settled = choose|settled: Tracker| #[trigger]
            race.settled(seen, settled) && settled.saw(slot, batch, seen, after);
        assert(settled.slot(slot) == race.slot(slot));
    }
}

/// A sniper starts out as it is told to: it is armed where it has a key and only then,
/// the address it signs with counts as ours beside those that are listed, the wallets
/// listed are the ones it watches, and packets are checked where there is a schedule.
pub proof fn a_sniper_starts_as_it_is_told(
    config: Config,
    shred_version: u16,
    searcher: Option<[u8; 32]>,
    schedule: Option<Schedule>,
    verbose: bool,
    clock: Clock,
    pipeline: Pipeline,
    wallet: [u8; 32],
)
    requires
        call_ensures(
            Pipeline::new,
            (&config, shred_version, searcher, schedule, verbose, clock),
            pipeline,
        ),
    ensures
        pipeline.armed <==> searcher is Some,
        pipeline@.searchers.contains(wallet) <==> searcher == Some(wallet)
            || config.searcher_wallets@.contains(wallet),
        pipeline@.watched.contains(wallet) <==> config.target_wallets@.contains(wallet),
        pipeline.verifier is Some <==> schedule is Some,
        pipeline.race is Some <==> config.target_wallets@.len() > 0,
        pipeline.snipe_program == config.snipe_program,
        pipeline.shred_version == shred_version,
        pipeline@.sightings.len() == 0,
{
}

/// Reacting to a transaction tells firing what its payer makes of it, and nothing else
/// about it matters.
pub proof fn reacting_goes_by_the_payer(
    pipeline: &mut Pipeline,
    slot: u64,
    offset: Option<u64>,
    transaction: &Transaction,
    seen: u64,
)
    requires
        call_ensures(Pipeline::react, (pipeline, slot, offset, transaction, seen), ()),
        old(pipeline).armed,
        transaction.account_keys@.len() > 0,
        transaction.signatures@.len() > 0,
    ensures
        ({
            let payer = transaction.account_keys@[0];
            let signature = transaction.signatures@[0];
            let target = Sighting::Target { slot, signature, detected: seen };
            let own = Sighting::Own { slot, signature };
            let before = old(pipeline).sightings@;
            let watched = old(pipeline)@.watched.contains(payer);
            let ours = old(pipeline)@.searchers.contains(payer);
            &&& watched && !ours ==> final(pipeline).sightings@ == before.push(target)
            &&& !watched && ours ==> final(pipeline).sightings@ == before.push(own)
            &&& watched && ours ==> final(pipeline).sightings@ == before.push(target).push(own)
            &&& !watched && !ours ==> final(pipeline).sightings@ == before
        }),
{
    let before = old(pipeline).sightings@;
    let after = final(pipeline).sightings@;
    old(pipeline)@.the_payer_decides_what_is_told(slot, offset, transaction@, seen);
    assert(after.take(before.len() as int) + after.skip(before.len() as int) =~= after);
    assert forall|i: int| 0 <= i < after.len() - before.len() implies after.skip(
        before.len() as int,
    )[i] == #[trigger] after[before.len() + i] by {}
}

/// Texts put together, a comma and a space between each two.
pub open spec fn enumerated(texts: Seq<Seq<char>>) -> Seq<char>
    decreases texts.len(),
{
    if texts.len() == 0 {
        Seq::empty()
    } else if texts.len() == 1 {
        texts[0]
    } else {
        enumerated(texts.drop_last()) + ", "@ + texts.last()
    }
}

/// The programs logged of a transaction are those its instructions call through a key
/// the message lists, `at` those instructions, in order and each as often as it is
/// called.
pub proof fn every_program_called_is_named(
    pipeline: &mut Pipeline,
    slot: u64,
    offset: Option<u64>,
    transaction: &Transaction,
    seen: u64,
    at: Seq<int>,
    named: Seq<Seq<char>>,
)
    requires
        call_ensures(Pipeline::report, (pipeline, slot, offset, transaction, seen), ()),
        old(pipeline).verbose,
        forall|i: int, j: int| 0 <= i < j < at.len() ==> at[i] < at[j],
        forall|i: int|
            0 <= i < at.len() ==> 0 <= #[trigger] at[i] < transaction.programs@.len()
                && transaction.programs@[at[i]] < transaction.account_keys@.len(),
        forall|i: int|
            0 <= i < transaction.programs@.len() && (#[trigger] transaction.programs@[i])
                < transaction.account_keys@.len() ==> at.contains(i),
        named.len() == at.len(),
        forall|i: int|
            0 <= i < at.len() ==> #[trigger] named[i] == crate::addresses::address_text(
                transaction.account_keys@[transaction.programs@[at[i]] as int]@,
            ),
    ensures
        final(pipeline)@.log.len() == old(pipeline)@.log.len() + 1,
        final(pipeline)@.log.last() matches LogView::Transaction { slot: logged, programs, .. }
            && logged == slot && programs == enumerated(named),
{
    old(pipeline)@.a_transaction_is_reported_as_what_it_is(slot, offset, transaction@, seen);
    lemma_named(transaction@, at, named, transaction.programs@.len() as int);
}

proof fn lemma_named(
    transaction: TransactionView,
    at: Seq<int>,
    named: Seq<Seq<char>>,
    count: int,
)
    requires
        0 <= count <= transaction.programs.len(),
        forall|i: int, j: int| 0 <= i < j < at.len() ==> at[i] < at[j],
        forall|i: int|
            0 <= i < at.len() ==> 0 <= #[trigger] at[i] < count && transaction.programs[at[i]]
                < transaction.account_keys.len(),
        forall|i: int|
            0 <= i < count && (#[trigger] transaction.programs[i]) < transaction.account_keys.len()
                ==> at.contains(i),
        named.len() == at.len(),
        forall|i: int|
            0 <= i < at.len() ==> #[trigger] named[i] == crate::addresses::address_text(
                transaction.account_keys[transaction.programs[at[i]] as int]@,
            ),
    ensures
        program_names(transaction, count) == enumerated(named),
        any_listed(transaction, count) <==> at.len() > 0,
    decreases count,
{
    if count > 0 {
        let last = count - 1;
        if calls_listed(transaction, last) {
            assert(transaction.programs[last] < transaction.account_keys.len());
            let i = choose|i: int| 0 <= i < at.len() && at[i] == last;
            if i < at.len() - 1 {
                assert(at[i] < at[at.len() - 1]);
            }
            let (fewer, before) = (at.drop_last(), named.drop_last());
            assert forall|j: int|
                0 <= j < last && (#[trigger] transaction.programs[j])
                    < transaction.account_keys.len() implies fewer.contains(j) by {
                let k = choose|k: int| 0 <= k < at.len() && at[k] == j;
                assert(fewer[k] == j);
            }
            assert forall|j: int| 0 <= j < fewer.len() implies 0 <= #[trigger] fewer[j] < last
                && transaction.programs[fewer[j]] < transaction.account_keys.len() by {
                assert(at[j] < at[i]);
            }
            assert forall|j: int| 0 <= j < fewer.len() implies #[trigger] before[j]
                == crate::addresses::address_text(
                transaction.account_keys[transaction.programs[fewer[j]] as int]@,
            ) by {
                assert(before[j] == named[j]);
            }
            lemma_named(transaction, fewer, before, last);
            assert(named.last() == named[i]);
            assert(any_listed(transaction, count)) by {
                assert(calls_listed(transaction, last));
            }
        } else {
            assert forall|j: int| 0 <= j < at.len() implies 0 <= #[trigger] at[j] < last
                && transaction.programs[at[j]] < transaction.account_keys.len() by {
                assert(calls_listed(transaction, at[j]));
            }
            lemma_named(transaction, at, named, last);
            assert(any_listed(transaction, count) <==> any_listed(transaction, last)) by {
                if any_listed(transaction, count) {
                    let j = choose|j: int| 0 <= j < count && #[trigger] calls_listed(transaction, j);
                    assert(j < last);
                }
                if any_listed(transaction, last) {
                    let j = choose|j: int| 0 <= j < last && #[trigger] calls_listed(transaction, j);
                    assert(calls_listed(transaction, j));
                }
            }
        }
    }
}

/// Moving on to a slot is logged: which slot, how many shreds had been seen by then,
/// and how long the sniper had been up.
pub proof fn moving_on_is_logged(pipeline: &mut Pipeline, slot: u64, now: u64)
    requires
        call_ensures(Pipeline::anchor, (pipeline, slot, now), ()),
        old(pipeline).started <= now,
    ensures
        ({
            let moves = slot > old(pipeline).slot.number || slot + 1024 < old(
                pipeline
            ).slot.number;
            let (before, after) = (old(pipeline)@, final(pipeline)@);
            &&& !moves ==> after == before
            &&& moves ==> {
                &&& after.log == before.log.push(
                    LogView::Slot {
                        slot,
                        shreds: before.shreds_seen,
                        uptime: (now - before.started) as u64,
                    },
                )
                &&& after.slot.number == slot
                &&& after.slot.started == now
                &&& after.slot.shreds == 0
                &&& after.slot.transactions == 0
                &&& after.events.len() == before.events.len() + 1
                &&& after.events.last() matches Event::Completed {
                    slot: entered,
                    duration,
                    shreds,
                    transactions,
                }
                &&& entered == slot
                &&& shreds == before.slot.shreds
                &&& transactions == before.slot.transactions
                &&& duration is None <==> before.slot.number == 0
            }
        }),
{
    old(pipeline)@.the_anchor_follows_the_block(slot, now);
}

/// What has been noted is handed over once: events, sightings and log lines each as
/// they came, the pipeline's own events first.
pub proof fn what_was_noted_is_handed_over_once(
    noted: &mut Pipeline,
    seen: &mut Pipeline,
    logged: &mut Pipeline,
    events: Vec<Event>,
    sightings: Vec<Sighting>,
    log: Vec<LogLine>,
)
    requires
        call_ensures(Pipeline::take_events, (noted,), events),
        call_ensures(Pipeline::take_sightings, (seen,), sightings),
        call_ensures(Pipeline::take_log, (logged,), log),
    ensures
        events@.len() >= old(noted).events@.len(),
        events@.take(old(noted).events@.len() as int) == old(noted).events@,
        final(noted)@.events.len() == 0,
        final(noted)@.sightings == old(noted)@.sightings,
        sightings@ == old(seen).sightings@,
        final(seen)@.sightings.len() == 0,
        final(seen)@.events == old(seen)@.events,
        log@ == old(logged).log@,
        final(logged)@.log.len() == 0,
        final(logged)@.sightings == old(logged)@.sightings,
{
    assert(events@.take(old(noted).events@.len() as int) =~= old(noted).events@);
}

/// Whether events went on from what they were, and every transaction among them since
/// is said to have surfaced `offset` into its slot.
pub open spec fn surfaced_at(before: Seq<Event>, after: Seq<Event>, offset: Option<u64>) -> bool {
    &&& before.is_prefix_of(after)
    &&& forall|i: int|
        before.len() <= i < after.len() ==> {
            &&& (#[trigger] after[i] matches Event::Transaction { offset: told, .. } ==> told
                == offset)
            &&& (after[i] matches Event::Watched { offset: told } ==> told == offset)
        }
}

proof fn lemma_surfaced_joined(
    first: Seq<Event>,
    second: Seq<Event>,
    third: Seq<Event>,
    offset: Option<u64>,
)
    requires
        surfaced_at(first, second, offset),
        surfaced_at(second, third, offset),
    ensures
        surfaced_at(first, third, offset),
{
    assert(third.subrange(0, second.len() as int) == second);
    assert(second.subrange(0, first.len() as int) == first);
    assert(first =~= third.subrange(0, first.len() as int));
    assert forall|i: int| 0 <= i < second.len() implies second[i] == #[trigger] third[i] by {
        assert(third.subrange(0, second.len() as int)[i] == third[i]);
    }
}

impl PipelineView {
    proof fn lemma_surfaced_observing(
        self,
        slot: u64,
        offset: Option<u64>,
        transactions: Seq<TransactionView>,
        count: int,
        seen: u64,
    )
        ensures
            surfaced_at(
                self.events,
                self.observed_all(slot, offset, transactions, count, seen).events,
                offset,
            ),
        decreases count,
    {
        if count > 0 {
            self.lemma_surfaced_observing(slot, offset, transactions, count - 1, seen);
            let before = self.observed_all(slot, offset, transactions, count - 1, seen).events;
            let after = self.observed_all(slot, offset, transactions, count, seen).events;
            assert(before =~= after.subrange(0, before.len() as int));
            lemma_surfaced_joined(self.events, before, after, offset);
        } else {
            assert(self.events =~= self.events.subrange(0, self.events.len() as int));
        }
    }

    proof fn lemma_surfaced_reading(
        self,
        slot: u64,
        offset: Option<u64>,
        entries: Seq<EntryView>,
        count: int,
        seen: u64,
    )
        ensures
            surfaced_at(
                self.events,
                self.read_through(slot, offset, entries, count, seen).events,
                offset,
            ),
        decreases count,
    {
        if count > 0 {
            self.lemma_surfaced_reading(slot, offset, entries, count - 1, seen);
            let transactions = entries[count - 1].transactions;
            self.read_through(slot, offset, entries, count - 1, seen).lemma_surfaced_observing(
                slot,
                offset,
                transactions,
                transactions.len() as int,
                seen,
            );
            lemma_surfaced_joined(
                self.events,
                self.read_through(slot, offset, entries, count - 1, seen).events,
                self.read_through(slot, offset, entries, count, seen).events,
                offset,
            );
        } else {
            assert(self.events =~= self.events.subrange(0, self.events.len() as int));
        }
    }

    proof fn lemma_surfaced_seeing(
        self,
        slot: u64,
        offset: Option<u64>,
        batches: Seq<BatchView>,
        count: int,
        seen: u64,
        post: PipelineView,
    )
        requires
            self.saw_all(slot, offset, batches, count, seen, post),
        ensures
            surfaced_at(self.events, post.events, offset),
        decreases count,
    {
        if count > 0 {
            let before = choose|before: PipelineView|
                self.saw_all(slot, offset, batches, count - 1, seen, before)
                    && #[trigger] before.saw(slot, offset, batches[count - 1], seen, post);
            self.lemma_surfaced_seeing(slot, offset, batches, count - 1, seen, before);
            let entries = batches[count - 1].entries;
            before.lemma_surfaced_reading(slot, offset, entries, entries.len() as int, seen);
            lemma_surfaced_joined(self.events, before.events, post.events, offset);
        } else {
            assert(self.events =~= self.events.subrange(0, self.events.len() as int));
        }
    }
}

/// A transaction is said to surface as far into its slot as the shred that brought it
/// came: at its start where the shred is what the sniper moves on to the slot by, and
/// nowhere that could be told where the slot is one it has left.
pub proof fn transactions_surface_when_their_shred_came(
    pipeline: &mut Pipeline,
    shred: &DataShred<'_>,
    from_recovery: bool,
    now: u64,
    seen: u64,
)
    requires
        call_ensures(Pipeline::data_shred_at, (pipeline, shred, from_recovery, now, seen), ()),
        old(pipeline).slot.started <= now,
    ensures
        ({
            let anchor = old(pipeline).slot;
            let moves = shred.slot > anchor.number || shred.slot + 1024 < anchor.number;
            let offset = if moves {
                Some(0u64)
            } else if shred.slot == anchor.number {
                Some((now - anchor.started) as u64)
            } else {
                None
            };
            surfaced_at(old(pipeline).events@, final(pipeline).events@, offset)
        }),
{
    let (before, post) = (old(pipeline)@, final(pipeline)@);
    let placed = before.placed(shred@, from_recovery, now);
    let handed = choose|swept: Assembler, fed: Assembler, batches: Seq<BatchView>|
        #![trigger before.assembler.swept(now, swept), swept.dealt_with(shred@, from_recovery, now, fed, batches)]
        before.assembler.swept(now, swept) && swept.dealt_with(
            shred@,
            from_recovery,
            now,
            fed,
            batches,
        ) && PipelineView { assembler: fed, ..placed }.saw_all(
            shred.slot,
            placed.offset(shred.slot, now),
            batches,
            batches.len() as int,
            seen,
            post,
        );
    let (swept, fed, batches) = handed;
    PipelineView { assembler: fed, ..placed }.lemma_surfaced_seeing(
        shred.slot,
        placed.offset(shred.slot, now),
        batches,
        batches.len() as int,
        seen,
        post,
    );
    assert(before.events =~= placed.events.subrange(0, before.events.len() as int));
    lemma_surfaced_joined(
        before.events,
        placed.events,
        post.events,
        placed.offset(shred.slot, now),
    );
}

/// Taking a shred in tells an armed sniper of every transaction it lets the assembler
/// hand over, in the order of the block.
pub proof fn taking_a_shred_tells_of_its_transactions(
    pipeline: &mut Pipeline,
    shred: &DataShred<'_>,
    from_recovery: bool,
    now: u64,
    seen: u64,
)
    requires
        call_ensures(Pipeline::data_shred_at, (pipeline, shred, from_recovery, now, seen), ()),
        old(pipeline).armed,
    ensures
        exists|swept: Assembler, fed: Assembler, batches: Seq<BatchView>|
            #![trigger old(pipeline)@.assembler.swept(now, swept), swept.dealt_with(shred@, from_recovery, now, fed, batches)]
            old(pipeline)@.assembler.swept(now, swept) && swept.dealt_with(
                shred@,
                from_recovery,
                now,
                fed,
                batches,
            ) && final(pipeline).sightings@ == old(pipeline).sightings@ + foretold(
                old(pipeline)@.watched,
                old(pipeline)@.searchers,
                shred.slot,
                seen,
                all_in_pieces(batches),
            ),
{
    let (swept, fed, batches) = old(pipeline)@.every_transaction_handed_over_is_looked_at(
        shred@,
        from_recovery,
        now,
        seen,
        final(pipeline)@,
    );
    assert(old(pipeline)@.assembler.swept(now, swept));
    assert(swept.dealt_with(shred@, from_recovery, now, fed, batches));
}

/// What was rebuilt is taken in like any other shred, and held as one that was.
pub proof fn what_was_rebuilt_is_held_as_rebuilt(
    pipeline: PipelineView,
    body: Seq<u8>,
    post: PipelineView,
    shred: DataView,
)
    requires
        pipeline.revived(body, post),
        shred::is_data(body, pipeline.shred_version),
        shred == shred::data_fields(body),
        forall|now: u64| #[trigger]
            pipeline.clock.can_read(now) ==> !pipeline.assembler.slots.sweep_due(now),
        pipeline.assembler.bytes + shred.data.len() + 192 <= 536_870_912,
        pipeline.assembler.slot(shred.slot).total_len() + shred.data.len() <= 8_388_608,
        pipeline.assembler.slot(shred.slot).shreds.len() < 8_192,
    ensures
        post.assembler.slots@.contains_key(shred.slot),
        ({
            let held = post.assembler.slots@[shred.slot].value@.shreds;
            &&& held.contains_key(shred.index)
            &&& held[shred.index].data == shred.data
            &&& held[shred.index].recovered
        }),
{
    let (now, seen) = pipeline.when_it_took(shred, true, post);
    let placed = pipeline.placed(shred, true, now);
    let handed = choose|swept: Assembler, fed: Assembler, batches: Seq<BatchView>|
        #![trigger pipeline.assembler.swept(now, swept), swept.dealt_with(shred, true, now, fed, batches)]
        pipeline.assembler.swept(now, swept) && swept.dealt_with(shred, true, now, fed, batches)
            && PipelineView { assembler: fed, ..placed }.saw_all(
            shred.slot,
            placed.offset(shred.slot, now),
            batches,
            batches.len() as int,
            seen,
            post,
        );
    let (swept, fed, batches) = handed;
    assert(swept.slot(shred.slot) == pipeline.assembler.slot(shred.slot));
    swept.a_shred_there_is_room_for_is_taken_in(shred, true, now, fed, batches);
    PipelineView { assembler: fed, ..placed }.lemma_seeing_keeps_the_assembler(
        shred.slot,
        placed.offset(shred.slot, now),
        batches,
        batches.len() as int,
        seen,
        post,
    );
}

impl PipelineView {
    proof fn lemma_seeing_keeps_the_assembler(
        self,
        slot: u64,
        offset: Option<u64>,
        batches: Seq<BatchView>,
        count: int,
        seen: u64,
        post: PipelineView,
    )
        requires
            self.saw_all(slot, offset, batches, count, seen, post),
        ensures
            post.assembler == self.assembler,
        decreases count,
    {
        if count > 0 {
            let before = choose|before: PipelineView|
                self.saw_all(slot, offset, batches, count - 1, seen, before)
                    && #[trigger] before.saw(slot, offset, batches[count - 1], seen, post);
            self.lemma_seeing_keeps_the_assembler(slot, offset, batches, count - 1, seen, before);
            let entries = batches[count - 1].entries;
            before.lemma_reading_keeps_the_assembler(
                slot,
                offset,
                entries,
                entries.len() as int,
                seen,
            );
        }
    }

    proof fn lemma_reading_keeps_the_assembler(
        self,
        slot: u64,
        offset: Option<u64>,
        entries: Seq<EntryView>,
        count: int,
        seen: u64,
    )
        ensures
            self.read_through(slot, offset, entries, count, seen).assembler == self.assembler,
        decreases count,
    {
        if count > 0 {
            self.lemma_reading_keeps_the_assembler(slot, offset, entries, count - 1, seen);
            let transactions = entries[count - 1].transactions;
            self.read_through(
                slot,
                offset,
                entries,
                count - 1,
                seen,
            ).lemma_observing_keeps_the_assembler(
                slot,
                offset,
                transactions,
                transactions.len() as int,
                seen,
            );
        }
    }

    proof fn lemma_observing_keeps_the_assembler(
        self,
        slot: u64,
        offset: Option<u64>,
        transactions: Seq<TransactionView>,
        count: int,
        seen: u64,
    )
        ensures
            self.observed_all(slot, offset, transactions, count, seen).assembler == self.assembler,
        decreases count,
    {
        if count > 0 {
            self.lemma_observing_keeps_the_assembler(slot, offset, transactions, count - 1, seen);
        }
    }
}

/// A datagram that is not to be read changes nothing, one that is no shred of ours is
/// counted and changes nothing else, and one that is a shred, where there is no telling
/// its leader's signature, is counted for what it is and dealt with.
pub proof fn every_packet_is_counted_for_what_it_is(pipeline: &mut Pipeline, packet: &Packet)
    requires
        call_ensures(Pipeline::packet, (pipeline, packet), ()),
        packet.meta.size <= packet.buffer@.len(),
    ensures
        ({
            let bytes = packet.buffer@.take(packet.meta.size as int);
            let read = shred::parsed(bytes, old(pipeline).shred_version);
            let (before, after) = (old(pipeline)@, final(pipeline)@);
            &&& packet.meta.discard ==> after == before
            &&& !packet.meta.discard && read is None ==> after == (PipelineView {
                events: before.events.push(Event::Packet(PacketKind::Other)),
                ..before
            })
            &&& !packet.meta.discard && before.verifier is None && read is Some ==> {
                &&& before.events.push(
                    Event::Packet(
                        if read->0 is Data {
                            PacketKind::Data
                        } else {
                            PacketKind::Coding
                        },
                    ),
                ).is_prefix_of(after.events)
                &&& after.events.last() is Processed
                &&& before.sightings.is_prefix_of(after.sightings)
            }
        }),
{
    let bytes = packet.buffer@.take(packet.meta.size as int);
    let read = shred::parsed(bytes, old(pipeline).shred_version);
    let (before, after) = (old(pipeline)@, final(pipeline)@);
    if !packet.meta.discard {
        let began = choose|began: u64|
            old(pipeline).clock.can_read(began) && #[trigger] before.handled(
                bytes,
                packet.meta.addr,
                began,
                after,
            );
        if read is None {
            before.what_is_no_shred_is_counted(bytes, packet.meta.addr, began, after);
        } else if before.verifier is None {
            before.nothing_let_through_is_lost(bytes, packet.meta.addr, began, after, read->0);
        }
    }
}

/// A peer that was not known counts as one source more, and one that was as none.
pub proof fn every_source_counts_once(
    sources: &mut Sources,
    ip: Ip,
    new: bool,
    before: u64,
    after: u64,
)
    requires
        call_ensures(Sources::insert, (sources, ip), new),
        call_ensures(Sources::len, (old(sources),), before),
        call_ensures(Sources::len, (final(sources),), after),
        before < u64::MAX,
        old(sources)@.v4.finite(),
        old(sources)@.v6.finite(),
    ensures
        new <==> !(match ip {
            Ip::V4(bits) => old(sources)@.v4.contains(bits),
            Ip::V6(bits) => old(sources)@.v6.contains(bits),
        }),
        after == before + if new {
            1int
        } else {
            0
        },
{
}

} // verus!
