//! Where the bot landed relative to the wallet it is racing.
//!
//! Both sides are known by address, so nothing here guesses who is who. What it
//! does have to work out is *order*: which of two transactions the leader put
//! first, and how many transactions it put between them. That cannot be read
//! off arrival times — batches are decoded as their shreds arrive, in pieces
//! and out of order, so an early batch delivered late is decoded after a later
//! one. Order comes from the shred indices instead, which is the order the
//! leader wrote.
//!
//! One caveat rides along with every number here. Transactions inside a single
//! entry are executed in parallel — the leader put them there precisely because
//! they touch no common account — so a gap measured within one entry says
//! nothing about who went first. `same_entry` marks those lines.

use crate::addresses::{signature_text, write_signature, Addresses};
use crate::aged::{fresh, is_capped, lists_expired, Aged, AgedMap};
use crate::clock::{Clock, SECOND};
use crate::entries::{BatchView, DecodedBatch};
use crate::maps::{entry_mut, keys_in_order};
use crate::sums::sum;
use crate::wire::{Entry, EntryView, Transaction, TransactionView};
use std::collections::BTreeMap;
use vstd::prelude::*;

verus! {

broadcast use {vstd::std_specs::btree::group_btree_axioms, vstd::laws_cmp::group_laws_cmp};

/// A slot is reported once nothing has landed in it for this long. Waiting for
/// the assembler's full retention would be correct and useless: the answer
/// would arrive half a minute after the race it describes. Turbine delivers a
/// slot inside its own 400 ms, so a second of quiet means the stragglers and
/// whatever erasure could rebuild are all in.
pub const SETTLE: u64 = SECOND;

/// Slot numbers are unauthenticated, so spoofed ones must not be able to pin
/// memory. Well above what `SETTLE` can legitimately hold open.
pub const MAX_SLOTS: usize = 64;

/// Both sides are normally one transaction each. A slot that somehow holds
/// dozens of both would otherwise report their product.
pub const MAX_PAIRS: usize = 64;

#[derive(Clone, Copy, Debug, PartialEq, Eq, Structural)]
pub enum Role {
    Searcher,
    Target,
}

/// One transaction we care about, and where in the slot it sits.
pub struct Hit {
    pub role: Role,
    pub first_shred: u32,
    pub entry: usize,
    pub transaction: usize,
    pub signature: String,
}

/// What a decoded batch contributes to the slot's running order.
pub struct Span {
    pub last_shred: u32,
    /// Transactions in each entry of the batch, in order.
    pub entries: Vec<u32>,
}

/// The batches and hits of one slot, until it settles.
pub struct Slot {
    pub batches: BTreeMap<u32, Span>,
    pub hits: Vec<Hit>,
}

#[verifier::ext_equal]
pub struct HitView {
    pub role: Role,
    pub first_shred: u32,
    pub entry: int,
    pub transaction: int,
    pub signature: Seq<char>,
}

#[verifier::ext_equal]
pub struct SpanView {
    pub last_shred: u32,
    pub entries: Seq<u32>,
}

#[verifier::ext_equal]
pub struct RaceView {
    pub batches: Map<u32, SpanView>,
    pub hits: Seq<HitView>,
}

impl View for Hit {
    type V = HitView;

    open spec fn view(&self) -> HitView {
        HitView {
            role: self.role,
            first_shred: self.first_shred,
            entry: self.entry as int,
            transaction: self.transaction as int,
            signature: self.signature@,
        }
    }
}

impl View for Span {
    type V = SpanView;

    open spec fn view(&self) -> SpanView {
        SpanView { last_shred: self.last_shred, entries: self.entries@ }
    }
}

/// The hits, each as the values it holds.
pub open spec fn hit_views(hits: Seq<Hit>) -> Seq<HitView> {
    hits.map_values(|hit: Hit| hit@)
}

impl View for Slot {
    type V = RaceView;

    open spec fn view(&self) -> RaceView {
        RaceView {
            batches: Map::new(
                |first: u32| self.batches@.contains_key(first),
                |first: u32| self.batches@[first]@,
            ),
            hits: hit_views(self.hits@),
        }
    }
}

/// A count as a signed 64-bit number, which starts over from the lowest once it
/// has run past the highest.
pub open spec fn wrapped(count: int) -> int {
    (count + 0x8000_0000_0000_0000) % 0x1_0000_0000_0000_0000 - 0x8000_0000_0000_0000
}

/// Transactions in a run of entries.
pub open spec fn transactions_in(entries: Seq<u32>) -> nat
    decreases entries.len(),
{
    if entries.len() == 0 {
        0
    } else {
        transactions_in(entries.drop_last()) + entries.last() as nat
    }
}

impl RaceView {
    /// A slot nothing has been decoded of.
    pub open spec fn empty() -> RaceView {
        RaceView { batches: Map::empty(), hits: Seq::empty() }
    }

    pub open spec fn holds(self, first: int) -> bool {
        0 <= first <= u32::MAX && self.batches.contains_key(first as u32)
    }

    /// Transactions in the batch beginning at `first`, if there is one.
    pub open spec fn transactions_at(self, first: int) -> nat {
        if self.holds(first) {
            transactions_in(self.batches[first as u32].entries)
        } else {
            0
        }
    }

    /// Entries in the batch beginning at `first`, if there is one.
    pub open spec fn entries_at(self, first: int) -> nat {
        if self.holds(first) {
            self.batches[first as u32].entries.len()
        } else {
            0
        }
    }

    /// Transactions that precede a hit: those of every batch that begins before
    /// the one it is in, of the entries before its own, and those before it in
    /// its own entry.
    pub open spec fn transactions_before(self, hit: HitView) -> int {
        sum(|first: int| self.transactions_at(first), 0, hit.first_shred as int) + if self.holds(
            hit.first_shred as int,
        ) {
            transactions_in(self.batches[hit.first_shred].entries.take(hit.entry))
                + hit.transaction
        } else {
            0
        }
    }

    /// Entries that precede a hit.
    pub open spec fn entries_before(self, hit: HitView) -> int {
        sum(|first: int| self.entries_at(first), 0, hit.first_shred as int) + if self.holds(
            hit.first_shred as int,
        ) {
            hit.entry
        } else {
            0
        }
    }

    /// Whether the batches from `low` to `high` tile the range with no hole in
    /// it: both ends are held, and each batch is followed right behind its last
    /// shred by the next.
    pub open spec fn tiled(self, low: u32, high: u32) -> bool {
        &&& self.batches.contains_key(low)
        &&& self.batches.contains_key(high)
        &&& forall|first: u32|
            low <= first < high && #[trigger] self.batches.contains_key(first)
                ==> self.followed_within(first, high)
    }

    /// Whether the next batch after the one at `first` begins right behind that
    /// one's last shred, and not past `high`.
    pub open spec fn followed_within(self, first: u32, high: u32) -> bool {
        let next = self.batches[first].last_shred + 1;
        &&& first < next <= high
        &&& self.holds(next)
        &&& forall|between: u32|
            first < between < next ==> !#[trigger] self.batches.contains_key(between)
    }

    /// Every hit lies within a batch that is held.
    pub open spec fn sound(self) -> bool {
        forall|i: int|
            0 <= i < self.hits.len() ==> self.holds((#[trigger] self.hits[i]).first_shred as int)
                && self.within(self.hits[i])
    }

    /// No hit is said to lie past the end of a batch that is held.
    pub open spec fn all_within(self) -> bool {
        forall|i: int| 0 <= i < self.hits.len() ==> self.within(#[trigger] self.hits[i])
    }

    pub open spec fn within(self, hit: HitView) -> bool {
        self.holds(hit.first_shred as int) ==> 0 <= hit.entry
            <= self.batches[hit.first_shred].entries.len()
    }
}

/// `count` as a signed number.
fn wrap(count: usize) -> (wrap: i64)
    ensures
        wrap == wrapped(count as int),
{
    let count: u64 = count as u64;
    if count <= 0x7fff_ffff_ffff_ffff {
        count as i64
    } else {
        (count - 0x8000_0000_0000_0000) as i64 + i64::MIN
    }
}

/// `total` and `more` together.
fn plus(total: i64, more: i64, Ghost(a): Ghost<int>, Ghost(b): Ghost<int>) -> (both: i64)
    requires
        total == wrapped(a),
        more == wrapped(b),
    ensures
        both == wrapped(a + b),
{
    total.wrapping_add(more)
}

impl Slot {
    pub fn new() -> (slot: Slot)
        ensures
            slot@ == RaceView::empty(),
    {
        let slot = Slot { batches: BTreeMap::new(), hits: Vec::new() };
        assert(slot@ =~= RaceView::empty());
        slot
    }

    /// Transactions in the first `len` of a batch's entries.
    fn transactions_of(entries: &Vec<u32>, len: usize) -> (total: i64)
        requires
            len <= entries@.len(),
        ensures
            total == wrapped(transactions_in(entries@.take(len as int)) as int),
    {
        let mut total: i64 = 0;
        let mut i: usize = 0;
        assert(transactions_in(entries@.take(0)) == 0);
        while i < len
            invariant
                i <= len <= entries@.len(),
                total == wrapped(transactions_in(entries@.take(i as int)) as int),
            decreases len - i,
        {
            proof {
                assert(entries@.take(i + 1).drop_last() =~= entries@.take(i as int));
                assert(entries@.take(i + 1).last() == entries@[i as int]);
            }
            total =
            plus(
                total,
                entries[i] as i64,
                Ghost(transactions_in(entries@.take(i as int)) as int),
                Ghost(entries@[i as int] as int),
            );
            i = i + 1;
        }
        total
    }

    /// Transactions and entries that precede `hit`, counting only the batches
    /// we hold. Whether that count is the leader's own is what [`Self::tiled`]
    /// answers.
    pub fn position(&self, hit: &Hit) -> (position: (i64, i64))
        requires
            self@.within(hit@),
        ensures
            position.0 == wrapped(self@.transactions_before(hit@)),
            position.1 == wrapped(self@.entries_before(hit@)),
    {
        let ghost view = self@;
        let ghost counts = |first: int| view.transactions_at(first);
        let ghost lens = |first: int| view.entries_at(first);
        let keys = keys_in_order(&self.batches);
        proof {
            crate::maps::lemma_ascending_u32(keys@);
            assert forall|key: u32| #[trigger] keys@.contains(key) <==> view.batches.contains_key(
                key,
            ) by {
                assert(keys@.to_set().contains(key) <==> self.batches@.dom().contains(key));
            }
        }
        let mut transactions: i64 = 0;
        let mut entries: i64 = 0;
        let mut i: usize = 0;
        let ghost mut bound: int = 0;
        while i < keys.len() && keys[i] < hit.first_shred
            invariant
                i <= keys@.len(),
                view == self@,
                counts == (|first: int| view.transactions_at(first)),
                lens == (|first: int| view.entries_at(first)),
                forall|a: int, b: int| 0 <= a < b < keys@.len() ==> keys@[a] < keys@[b],
                forall|key: u32| #[trigger] keys@.contains(key) <==> view.batches.contains_key(key),
                bound == if i == 0 {
                    0
                } else {
                    keys@[i - 1] + 1
                },
                bound <= hit.first_shred,
                transactions == wrapped(sum(counts, 0, bound) as int),
                entries == wrapped(sum(lens, 0, bound) as int),
            decreases keys@.len() - i,
        {
            let key = keys[i];
            proof {
                assert(keys@.contains(key));
                Self::lemma_gap(view, keys@, i as int, bound, key as int);
            }
            if let Some(span) = self.batches.get(&key) {
                let count: i64 = Self::transactions_of(&span.entries, span.entries.len());
                proof {
                    assert(span.entries@.take(span.entries@.len() as int) =~= span.entries@);
                    assert(counts(key as int) == transactions_in(span.entries@));
                    assert(lens(key as int) == span.entries@.len());
                    assert(sum(counts, 0, key + 1) == sum(counts, 0, key as int) + counts(
                        key as int,
                    ));
                    assert(sum(lens, 0, key + 1) == sum(lens, 0, key as int) + lens(key as int));
                }
                transactions =
                plus(
                    transactions,
                    count,
                    Ghost(sum(counts, 0, bound) as int),
                    Ghost(transactions_in(span.entries@) as int),
                );
                entries =
                plus(
                    entries,
                    wrap(span.entries.len()),
                    Ghost(sum(lens, 0, bound) as int),
                    Ghost(span.entries@.len() as int),
                );
            }
            proof {
                bound = key + 1;
            }
            i = i + 1;
        }
        proof {
            assert forall|first: int| bound <= first < hit.first_shred implies !view.holds(
                first,
            ) by {
                if view.holds(first) {
                    assert(keys@.contains(first as u32));
                    let j = choose|j: int| 0 <= j < keys@.len() && keys@[j] == first as u32;
                    if j < i - 1 {
                        assert(keys@[j] < keys@[i - 1]);
                    } else if j > i {
                        assert(keys@[i as int] < keys@[j]);
                    }
                }
            }
            crate::sums::lemma_sum_split(counts, 0, bound, hit.first_shred as int);
            crate::sums::lemma_sum_split(lens, 0, bound, hit.first_shred as int);
            crate::sums::lemma_sum_zero(counts, bound, hit.first_shred as int);
            crate::sums::lemma_sum_zero(lens, bound, hit.first_shred as int);
        }
        if let Some(span) = self.batches.get(&hit.first_shred) {
            let ghost before = sum(counts, 0, hit.first_shred as int) as int;
            let ghost within = transactions_in(span.entries@.take(hit.entry as int)) as int;
            let ghost entries_before = sum(lens, 0, hit.first_shred as int) as int;
            let count: i64 = Self::transactions_of(&span.entries, hit.entry);
            transactions = plus(transactions, count, Ghost(before), Ghost(within));
            transactions =
            plus(
                transactions,
                wrap(hit.transaction),
                Ghost(before + within),
                Ghost(hit.transaction as int),
            );
            entries =
            plus(entries, wrap(hit.entry), Ghost(entries_before), Ghost(hit.entry as int));
        }
        (transactions, entries)
    }

    /// No batch begins between one key and the next.
    proof fn lemma_gap(view: RaceView, keys: Seq<u32>, i: int, bound: int, key: int)
        requires
            0 <= i < keys.len(),
            key == keys[i],
            forall|a: int, b: int| 0 <= a < b < keys.len() ==> keys[a] < keys[b],
            forall|key: u32| #[trigger] keys.contains(key) <==> view.batches.contains_key(key),
            bound == if i == 0 {
                0
            } else {
                keys[i - 1] + 1
            },
        ensures
            bound <= key,
            sum(|first: int| view.transactions_at(first), 0, key) == sum(
                |first: int| view.transactions_at(first),
                0,
                bound,
            ),
            sum(|first: int| view.entries_at(first), 0, key) == sum(
                |first: int| view.entries_at(first),
                0,
                bound,
            ),
            forall|first: int| bound <= first < key ==> !#[trigger] view.holds(first),
    {
        let counts = |first: int| view.transactions_at(first);
        let lens = |first: int| view.entries_at(first);
        if i > 0 {
            assert(keys[i - 1] < keys[i]);
        }
        assert forall|first: int| bound <= first < key implies !#[trigger] view.holds(first) by {
            if view.holds(first) {
                assert(keys.contains(first as u32));
                let j = choose|j: int| 0 <= j < keys.len() && keys[j] == first as u32;
                if j < i - 1 {
                    assert(keys[j] < keys[i - 1]);
                } else if j > i {
                    assert(keys[i] < keys[j]);
                }
            }
        }
        crate::sums::lemma_sum_split(counts, 0, bound, key);
        crate::sums::lemma_sum_split(lens, 0, bound, key);
        crate::sums::lemma_sum_zero(counts, bound, key);
        crate::sums::lemma_sum_zero(lens, bound, key);
    }

    /// Whether the batches between two shreds tile the range with no hole in
    /// it. A hole is a batch we never decoded sitting between the two
    /// transactions, and every transaction it carried is one the gap is short
    /// by — so the number is reported either way, but never as exact.
    pub fn tiled(&self, from: u32, to: u32) -> (tiled: bool)
        ensures
            tiled == if from <= to {
                self@.tiled(from, to)
            } else {
                self@.tiled(to, from)
            },
    {
        let ghost view = self@;
        let (low, high): (u32, u32) = if from <= to {
            (from, to)
        } else {
            (to, from)
        };
        if !self.batches.contains_key(&low) || !self.batches.contains_key(&high) {
            return false;
        }
        let keys = keys_in_order(&self.batches);
        proof {
            crate::maps::lemma_ascending_u32(keys@);
            assert forall|key: u32| #[trigger] keys@.contains(key) <==> view.batches.contains_key(
                key,
            ) by {
                assert(keys@.to_set().contains(key) <==> self.batches@.dom().contains(key));
            }
        }
        assert(keys@.contains(low));
        let last: usize = keys.len() - 1;
        let mut i: usize = 0;
        while i < last
            invariant
                view == self@,
                i <= last,
                last == keys@.len() - 1,
                low == if from <= to {
                    from
                } else {
                    to
                },
                high == if from <= to {
                    to
                } else {
                    from
                },
                view.batches.contains_key(low),
                view.batches.contains_key(high),
                low <= high,
                forall|a: int, b: int| 0 <= a < b < keys@.len() ==> keys@[a] < keys@[b],
                forall|key: u32| #[trigger] keys@.contains(key) <==> view.batches.contains_key(key),
                forall|j: int|
                    0 <= j < i && low <= keys@[j] < high ==> #[trigger] view.followed_within(
                        keys@[j],
                        high,
                    ),
            decreases keys@.len() - i,
        {
            let (first, next): (u32, u32) = (keys[i], keys[i + 1]);
            if low <= first && first < high {
                proof {
                    assert(keys@.contains(first));
                    assert(keys@.contains(next));
                    assert forall|between: u32| first < between < next implies !#[trigger]
                        view.batches.contains_key(between) by {
                        if view.batches.contains_key(between) {
                            assert(keys@.contains(between));
                            let j = choose|j: int| 0 <= j < keys@.len() && keys@[j] == between;
                            if j < i {
                                assert(keys@[j] < keys@[i as int]);
                            } else if j > i + 1 {
                                assert(keys@[i + 1] < keys@[j]);
                            }
                        }
                    }
                    assert(next <= high) by {
                        assert(keys@.contains(high));
                        let j = choose|j: int| 0 <= j < keys@.len() && keys@[j] == high;
                        if j <= i {
                            if j < i {
                                assert(keys@[j] < keys@[i as int]);
                            }
                        } else if j > i + 1 {
                            assert(keys@[i + 1] < keys@[j]);
                        }
                    }
                }
                if let Some(span) = self.batches.get(&first) {
                    if next as u64 != span.last_shred as u64 + 1 {
                        proof {
                            if view.followed_within(first, high) {
                                let behind = (span.last_shred + 1) as u32;
                                assert(view.batches.contains_key(behind));
                                if next < behind {
                                    assert(view.batches.contains_key(next));
                                }
                            }
                        }
                        return false;
                    }
                }
            }
            i = i + 1;
        }
        proof {
            assert forall|first: u32|
                low <= first < high && #[trigger] view.batches.contains_key(
                    first,
                ) implies view.followed_within(first, high) by {
                assert(keys@.contains(first));
                assert(keys@.contains(high));
                let j = choose|j: int| 0 <= j < keys@.len() && keys@[j] == first;
                let h = choose|h: int| 0 <= h < keys@.len() && keys@[h] == high;
                if j == keys@.len() - 1 {
                    assert(h < j ==> keys@[h] < keys@[j]);
                }
                assert(view.followed_within(keys@[j], high));
            }
        }
        true
    }
}

/// One line of the report on a slot.
pub enum RaceLine {
    /// The wallet traded and the bot did not.
    Target { slot: u64, target: String },
    /// The bot traded and the wallet did not.
    Searcher { slot: u64, searcher: String },
    /// Both did, where in the slot relative to each other. Negative gaps mean
    /// the bot is in front of the wallet.
    Pair {
        slot: u64,
        target: String,
        searcher: String,
        tx_gap: i64,
        entry_gap: i64,
        same_entry: bool,
        exact: bool,
    },
    /// Too many transactions to pair, so the slot is skipped.
    TooMany { slot: u64, searchers: usize, targets: usize },
}

pub enum LineView {
    Target { slot: u64, target: Seq<char> },
    Searcher { slot: u64, searcher: Seq<char> },
    Pair {
        slot: u64,
        target: Seq<char>,
        searcher: Seq<char>,
        tx_gap: int,
        entry_gap: int,
        same_entry: bool,
        exact: bool,
    },
    TooMany { slot: u64, searchers: nat, targets: nat },
}

impl View for RaceLine {
    type V = LineView;

    open spec fn view(&self) -> LineView {
        match self {
            RaceLine::Target { slot, target } => LineView::Target { slot: *slot, target: target@ },
            RaceLine::Searcher { slot, searcher } => LineView::Searcher {
                slot: *slot,
                searcher: searcher@,
            },
            RaceLine::Pair { slot, target, searcher, tx_gap, entry_gap, same_entry, exact } => {
                LineView::Pair {
                    slot: *slot,
                    target: target@,
                    searcher: searcher@,
                    tx_gap: *tx_gap as int,
                    entry_gap: *entry_gap as int,
                    same_entry: *same_entry,
                    exact: *exact,
                }
            },
            RaceLine::TooMany { slot, searchers, targets } => LineView::TooMany {
                slot: *slot,
                searchers: *searchers as nat,
                targets: *targets as nat,
            },
        }
    }
}

/// The lines, each as the values it holds.
pub open spec fn line_views(lines: Seq<RaceLine>) -> Seq<LineView> {
    lines.map_values(|line: RaceLine| line@)
}

/// The hits of one side, in the order they were seen.
pub open spec fn side(hits: Seq<HitView>, role: Role) -> Seq<HitView>
    decreases hits.len(),
{
    if hits.len() == 0 {
        Seq::empty()
    } else if hits.last().role == role {
        side(hits.drop_last(), role).push(hits.last())
    } else {
        side(hits.drop_last(), role)
    }
}

impl RaceView {
    /// How one pair stands to each other.
    pub open spec fn pair(self, slot: u64, target: HitView, searcher: HitView) -> LineView {
        LineView::Pair {
            slot,
            target: target.signature,
            searcher: searcher.signature,
            tx_gap: wrapped(self.transactions_before(searcher) - self.transactions_before(target)),
            entry_gap: wrapped(self.entries_before(searcher) - self.entries_before(target)),
            same_entry: searcher.first_shred == target.first_shred && searcher.entry
                == target.entry,
            exact: if searcher.first_shred <= target.first_shred {
                self.tiled(searcher.first_shred, target.first_shred)
            } else {
                self.tiled(target.first_shred, searcher.first_shred)
            },
        }
    }

    /// A line for each of the first `len` searchers against one target.
    pub open spec fn against(
        self,
        slot: u64,
        target: HitView,
        searchers: Seq<HitView>,
        len: int,
    ) -> Seq<LineView> {
        Seq::new(len as nat, |i: int| self.pair(slot, target, searchers[i]))
    }

    /// A line for every pair of the first `len` targets with a searcher, target
    /// by target.
    pub open spec fn pairs(
        self,
        slot: u64,
        targets: Seq<HitView>,
        searchers: Seq<HitView>,
        len: int,
    ) -> Seq<LineView>
        decreases len,
    {
        if len <= 0 {
            Seq::empty()
        } else {
            self.pairs(slot, targets, searchers, len - 1) + self.against(
                slot,
                targets[len - 1],
                searchers,
                searchers.len() as int,
            )
        }
    }

    /// What there is to report of a slot.
    ///
    /// A side that never showed up is still reported — "the bot did not fire in
    /// this slot" is an outcome, not an absence of data, and a table that
    /// silently omits it reads as a clean sheet.
    pub open spec fn report(self, slot: u64) -> Seq<LineView> {
        let searchers = side(self.hits, Role::Searcher);
        let targets = side(self.hits, Role::Target);
        if searchers.len() == 0 {
            targets.map_values(
                |hit: HitView| LineView::Target { slot, target: hit.signature },
            )
        } else if targets.len() == 0 {
            searchers.map_values(
                |hit: HitView| LineView::Searcher { slot, searcher: hit.signature },
            )
        } else if searchers.len() * targets.len() > MAX_PAIRS {
            seq![
                LineView::TooMany { slot, searchers: searchers.len(), targets: targets.len() },
            ]
        } else {
            self.pairs(slot, targets, searchers, targets.len() as int)
        }
    }
}

/// The hits referred to, each as the values it holds.
spec fn ref_views(hits: Seq<&Hit>) -> Seq<HitView> {
    hits.map_values(|hit: &Hit| hit@)
}

/// The hits of one side, in the order they were seen.
fn hits_of<'a>(hits: &'a Vec<Hit>, role: Role) -> (found: Vec<&'a Hit>)
    ensures
        ref_views(found@) == side(hit_views(hits@), role),
        forall|i: int| 0 <= i < found@.len() ==> hits@.contains(*(#[trigger] found@[i])),
{
    let mut found: Vec<&Hit> = Vec::new();
    let mut i: usize = 0;
    assert(ref_views(found@) =~= side(hit_views(hits@).take(0), role));
    while i < hits.len()
        invariant
            i <= hits@.len(),
            ref_views(found@) == side(hit_views(hits@).take(i as int), role),
            forall|j: int| 0 <= j < found@.len() ==> hits@.contains(*(#[trigger] found@[j])),
        decreases hits@.len() - i,
    {
        let hit = &hits[i];
        proof {
            let next = hit_views(hits@).take(i + 1);
            assert(next.drop_last() =~= hit_views(hits@).take(i as int));
            assert(next.last() == hit@);
            assert(hits@.contains(hits@[i as int]));
        }
        if hit.role == role {
            let ghost before = ref_views(found@);
            found.push(hit);
            assert(ref_views(found@) =~= before.push(hit@));
        }
        i = i + 1;
    }
    assert(hit_views(hits@).take(i as int) =~= hit_views(hits@));
    found
}

/// A difference of two wrapped counts is the wrapped difference.
fn minus(left: i64, right: i64, Ghost(a): Ghost<int>, Ghost(b): Ghost<int>) -> (difference: i64)
    requires
        left == wrapped(a),
        right == wrapped(b),
    ensures
        difference == wrapped(a - b),
{
    left.wrapping_sub(right)
}

impl Slot {
    /// A line per pair, or per transaction where one side never showed up.
    pub fn report(&self, slot: u64) -> (lines: Vec<RaceLine>)
        requires
            self@.all_within(),
        ensures
            line_views(lines@) == self@.report(slot),
    {
        let ghost view = self@;
        let searchers = hits_of(&self.hits, Role::Searcher);
        let targets = hits_of(&self.hits, Role::Target);
        let ghost bots = ref_views(searchers@);
        let ghost wallets = ref_views(targets@);
        let mut lines: Vec<RaceLine> = Vec::new();
        if searchers.len() == 0 {
            let ghost expected = view.report(slot);
            let mut i: usize = 0;
            assert(line_views(lines@) =~= expected.take(0));
            while i < targets.len()
                invariant
                    i <= targets@.len(),
                    wallets == ref_views(targets@),
                    expected == wallets.map_values(
                        |hit: HitView| LineView::Target { slot, target: hit.signature },
                    ),
                    line_views(lines@) == expected.take(i as int),
                decreases targets@.len() - i,
            {
                let line = RaceLine::Target { slot, target: targets[i].signature.clone() };
                let ghost before = line_views(lines@);
                assert(wallets[i as int] == targets@[i as int]@);
                assert(expected.take(i + 1) =~= expected.take(i as int).push(line@));
                lines.push(line);
                assert(line_views(lines@) =~= before.push(line@));
                i = i + 1;
            }
            assert(expected.take(i as int) =~= expected);
            return lines;
        }
        if targets.len() == 0 {
            let ghost expected = view.report(slot);
            let mut i: usize = 0;
            assert(line_views(lines@) =~= expected.take(0));
            while i < searchers.len()
                invariant
                    i <= searchers@.len(),
                    bots == ref_views(searchers@),
                    expected == bots.map_values(
                        |hit: HitView| LineView::Searcher { slot, searcher: hit.signature },
                    ),
                    line_views(lines@) == expected.take(i as int),
                decreases searchers@.len() - i,
            {
                let line = RaceLine::Searcher { slot, searcher: searchers[i].signature.clone() };
                let ghost before = line_views(lines@);
                assert(bots[i as int] == searchers@[i as int]@);
                assert(expected.take(i + 1) =~= expected.take(i as int).push(line@));
                lines.push(line);
                assert(line_views(lines@) =~= before.push(line@));
                i = i + 1;
            }
            assert(expected.take(i as int) =~= expected);
            return lines;
        }
        if too_many(searchers.len(), targets.len()) {
            let line = RaceLine::TooMany {
                slot,
                searchers: searchers.len(),
                targets: targets.len(),
            };
            lines.push(line);
            assert(line_views(lines@) =~= seq![line@]);
            return lines;
        }
        proof {
            assert forall|i: int| 0 <= i < targets@.len() implies view.within(
                (#[trigger] targets@[i])@,
            ) by {
                self.lemma_within(*targets@[i]);
            }
            assert forall|i: int| 0 <= i < searchers@.len() implies view.within(
                (#[trigger] searchers@[i])@,
            ) by {
                self.lemma_within(*searchers@[i]);
            }
        }
        let mut i: usize = 0;
        assert(line_views(lines@) =~= view.pairs(slot, wallets, bots, 0));
        while i < targets.len()
            invariant
                i <= targets@.len(),
                view == self@,
                wallets == ref_views(targets@),
                bots == ref_views(searchers@),
                forall|i: int| 0 <= i < targets@.len() ==> view.within((#[trigger] targets@[i])@),
                forall|i: int|
                    0 <= i < searchers@.len() ==> view.within((#[trigger] searchers@[i])@),
                line_views(lines@) == view.pairs(slot, wallets, bots, i as int),
            decreases targets@.len() - i,
        {
            let target = targets[i];
            let (target_transactions, target_entries) = self.position(target);
            let ghost before = line_views(lines@);
            let mut j: usize = 0;
            assert(before + view.against(slot, target@, bots, 0) =~= before);
            while j < searchers.len()
                invariant
                    j <= searchers@.len(),
                    view == self@,
                    bots == ref_views(searchers@),
                    target_transactions == wrapped(view.transactions_before(target@)),
                    target_entries == wrapped(view.entries_before(target@)),
                    forall|i: int|
                        0 <= i < searchers@.len() ==> view.within((#[trigger] searchers@[i])@),
                    line_views(lines@) == before + view.against(slot, target@, bots, j as int),
                decreases searchers@.len() - j,
            {
                let searcher = searchers[j];
                let (searcher_transactions, searcher_entries) = self.position(searcher);
                let line = RaceLine::Pair {
                    slot,
                    target: target.signature.clone(),
                    searcher: searcher.signature.clone(),
                    tx_gap: minus(
                        searcher_transactions,
                        target_transactions,
                        Ghost(view.transactions_before(searcher@)),
                        Ghost(view.transactions_before(target@)),
                    ),
                    entry_gap: minus(
                        searcher_entries,
                        target_entries,
                        Ghost(view.entries_before(searcher@)),
                        Ghost(view.entries_before(target@)),
                    ),
                    same_entry: searcher.first_shred == target.first_shred && searcher.entry
                        == target.entry,
                    exact: self.tiled(searcher.first_shred, target.first_shred),
                };
                let ghost held = line_views(lines@);
                proof {
                    assert(bots[j as int] == searcher@);
                    assert(line@ == view.pair(slot, target@, searcher@));
                    assert(view.against(slot, target@, bots, j + 1) =~= view.against(
                        slot,
                        target@,
                        bots,
                        j as int,
                    ).push(line@));
                }
                lines.push(line);
                assert(line_views(lines@) =~= held.push(line@));
                j = j + 1;
            }
            assert(wallets[i as int] == target@);
            i = i + 1;
        }
        lines
    }

    proof fn lemma_within(&self, hit: Hit)
        requires
            self@.all_within(),
            self.hits@.contains(hit),
        ensures
            self@.within(hit@),
    {
        let i = choose|i: int| 0 <= i < self.hits@.len() && self.hits@[i] == hit;
        assert(self@.hits[i] == hit@);
    }
}

/// Whether that many of both make more pairs than are reported.
fn too_many(searchers: usize, targets: usize) -> (too_many: bool)
    requires
        searchers > 0,
        targets > 0,
    ensures
        too_many == (searchers * targets > MAX_PAIRS),
{
    if searchers > MAX_PAIRS || targets > MAX_PAIRS {
        assert(searchers * targets > MAX_PAIRS) by (nonlinear_arith)
            requires
                searchers > 0,
                targets > 0,
                searchers > MAX_PAIRS || targets > MAX_PAIRS,
        ;
        return true;
    }
    assert(searchers * targets <= 4096) by (nonlinear_arith)
        requires
            searchers <= 64,
            targets <= 64,
    ;
    searchers * targets > MAX_PAIRS
}

/// Whose transaction it is.
///
/// A transaction belongs to whoever is paying for it. A bot signs and pays with
/// its own key, so the fee payer is the identity that matters; a key merely
/// mentioned further down the account list is not the sender.
pub open spec fn role_of(
    searchers: Set<[u8; 32]>,
    targets: Set<[u8; 32]>,
    transaction: TransactionView,
) -> Option<Role> {
    if transaction.account_keys.len() == 0 {
        None
    } else if searchers.contains(transaction.account_keys[0]) {
        Some(Role::Searcher)
    } else if targets.contains(transaction.account_keys[0]) {
        Some(Role::Target)
    } else {
        None
    }
}

fn role_among(searchers: &Addresses, targets: &Addresses, transaction: &Transaction) -> (role: Option<
    Role,
>)
    ensures
        role == role_of(searchers@, targets@, transaction@),
{
    if transaction.account_keys.len() == 0 {
        return None;
    }
    let payer = &transaction.account_keys[0];
    if searchers.contains(payer) {
        Some(Role::Searcher)
    } else if targets.contains(payer) {
        Some(Role::Target)
    } else {
        None
    }
}

/// How a transaction is named in a report.
pub open spec fn name_of(transaction: TransactionView) -> Seq<char> {
    if transaction.signatures.len() == 0 {
        "<no signature>"@
    } else {
        signature_text(transaction.signatures[0]@)
    }
}

/// How a transaction is named in a report: by its first signature.
pub fn signature(transaction: &Transaction) -> (name: String)
    ensures
        name@ == name_of(transaction@),
{
    if transaction.signatures.len() == 0 {
        "<no signature>".to_owned()
    } else {
        write_signature(&transaction.signatures[0])
    }
}

/// The hits among the first `len` transactions of an entry.
pub open spec fn entry_hits(
    searchers: Set<[u8; 32]>,
    targets: Set<[u8; 32]>,
    first_shred: u32,
    entry: int,
    transactions: Seq<TransactionView>,
    len: int,
) -> Seq<HitView>
    decreases len,
{
    if len <= 0 {
        Seq::empty()
    } else {
        let before = entry_hits(searchers, targets, first_shred, entry, transactions, len - 1);
        match role_of(searchers, targets, transactions[len - 1]) {
            Some(role) => before.push(
                HitView {
                    role,
                    first_shred,
                    entry,
                    transaction: len - 1,
                    signature: name_of(transactions[len - 1]),
                },
            ),
            None => before,
        }
    }
}

/// The hits among the first `len` entries of a piece of a batch, of which `base`
/// entries were seen before.
pub open spec fn piece_hits(
    searchers: Set<[u8; 32]>,
    targets: Set<[u8; 32]>,
    first_shred: u32,
    base: int,
    entries: Seq<EntryView>,
    len: int,
) -> Seq<HitView>
    decreases len,
{
    if len <= 0 {
        Seq::empty()
    } else {
        let transactions = entries[len - 1].transactions;
        piece_hits(searchers, targets, first_shred, base, entries, len - 1) + entry_hits(
            searchers,
            targets,
            first_shred,
            base + len - 1,
            transactions,
            transactions.len() as int,
        )
    }
}

/// Transactions in each entry of a piece.
pub open spec fn piece_counts(entries: Seq<EntryView>) -> Seq<u32> {
    entries.map_values(|entry: EntryView| entry.transactions.len() as usize as u32)
}

impl RaceView {
    /// The span of the batch beginning at `first`, as far as it has been seen.
    pub open spec fn span(self, first: u32, last: u32) -> SpanView {
        if self.batches.contains_key(first) {
            self.batches[first]
        } else {
            SpanView { last_shred: last, entries: Seq::empty() }
        }
    }

    /// The slot with one more piece of a batch in it.
    ///
    /// A piece extends the span its batch already has rather than replacing it,
    /// and a hit's place inside its batch is counted from everything recorded
    /// for that batch before, not from the piece it arrived in.
    pub open spec fn with_piece(
        self,
        searchers: Set<[u8; 32]>,
        targets: Set<[u8; 32]>,
        piece: BatchView,
    ) -> RaceView {
        let span = self.span(piece.first_shred, piece.last_shred);
        RaceView {
            batches: self.batches.insert(
                piece.first_shred,
                SpanView {
                    last_shred: if span.last_shred >= piece.last_shred {
                        span.last_shred
                    } else {
                        piece.last_shred
                    },
                    entries: span.entries + piece_counts(piece.entries),
                },
            ),
            hits: self.hits + piece_hits(
                searchers,
                targets,
                piece.first_shred,
                span.entries.len() as int,
                piece.entries,
                piece.entries.len() as int,
            ),
        }
    }
}

/// The transactions, each as the values it holds.
pub open spec fn transaction_views(transactions: Seq<Transaction>) -> Seq<TransactionView> {
    transactions.map_values(|transaction: Transaction| transaction@)
}

/// Adds the hits in one entry.
fn add_entry_hits(
    searchers: &Addresses,
    targets: &Addresses,
    first_shred: u32,
    entry: usize,
    transactions: &Vec<Transaction>,
    hits: &mut Vec<Hit>,
)
    ensures
        hit_views(final(hits)@) == hit_views(old(hits)@) + entry_hits(
            searchers@,
            targets@,
            first_shred,
            entry as int,
            transaction_views(transactions@),
            transactions@.len() as int,
        ),
{
    let ghost views = transaction_views(transactions@);
    let ghost before = hit_views(hits@);
    let mut i: usize = 0;
    assert(hit_views(hits@) =~= before + entry_hits(
        searchers@,
        targets@,
        first_shred,
        entry as int,
        views,
        0,
    ));
    while i < transactions.len()
        invariant
            i <= transactions@.len(),
            views == transaction_views(transactions@),
            hit_views(hits@) == before + entry_hits(
                searchers@,
                targets@,
                first_shred,
                entry as int,
                views,
                i as int,
            ),
        decreases transactions@.len() - i,
    {
        let signed = &transactions[i];
        let ghost so_far = entry_hits(
            searchers@,
            targets@,
            first_shred,
            entry as int,
            views,
            i as int,
        );
        assert(views[i as int] == signed@);
        if let Some(role) = role_among(searchers, targets, signed) {
            let hit = Hit {
                role,
                first_shred,
                entry,
                transaction: i,
                signature: signature(signed),
            };
            let ghost held = hit_views(hits@);
            hits.push(hit);
            proof {
                assert(hit_views(hits@) =~= held.push(hit@));
                assert(held.push(hit@) =~= before + so_far.push(hit@));
            }
        }
        i = i + 1;
    }
}

/// Every hit of an entry carries that entry's number.
proof fn lemma_entry_hits(
    searchers: Set<[u8; 32]>,
    targets: Set<[u8; 32]>,
    first_shred: u32,
    entry: int,
    transactions: Seq<TransactionView>,
    len: int,
)
    ensures
        forall|i: int|
            0 <= i < entry_hits(searchers, targets, first_shred, entry, transactions, len).len()
                ==> {
                let hit = #[trigger] entry_hits(
                    searchers,
                    targets,
                    first_shred,
                    entry,
                    transactions,
                    len,
                )[i];
                hit.first_shred == first_shred && hit.entry == entry
            },
    decreases len,
{
    if len > 0 {
        lemma_entry_hits(searchers, targets, first_shred, entry, transactions, len - 1);
    }
}

/// Every hit of a piece lies in one of the piece's entries.
proof fn lemma_piece_hits(
    searchers: Set<[u8; 32]>,
    targets: Set<[u8; 32]>,
    first_shred: u32,
    base: int,
    entries: Seq<EntryView>,
    len: int,
)
    requires
        0 <= base,
    ensures
        forall|i: int|
            0 <= i < piece_hits(searchers, targets, first_shred, base, entries, len).len() ==> {
                let hit = #[trigger] piece_hits(
                    searchers,
                    targets,
                    first_shred,
                    base,
                    entries,
                    len,
                )[i];
                hit.first_shred == first_shred && base <= hit.entry < base + len
            },
    decreases len,
{
    if len > 0 {
        lemma_piece_hits(searchers, targets, first_shred, base, entries, len - 1);
        let transactions = entries[len - 1].transactions;
        lemma_entry_hits(
            searchers,
            targets,
            first_shred,
            base + len - 1,
            transactions,
            transactions.len() as int,
        );
    }
}

impl Slot {
    /// Takes in one more piece of a batch.
    pub fn add_piece(&mut self, searchers: &Addresses, targets: &Addresses, piece: &DecodedBatch)
        ensures
            final(self)@ == old(self)@.with_piece(searchers@, targets@, piece@),
            old(self)@.sound() ==> final(self)@.sound(),
    {
        let ghost view = self@;
        let first = piece.first_shred;
        let mut span = match self.batches.remove(&first) {
            Some(span) => span,
            None => Span { last_shred: piece.last_shred, entries: Vec::new() },
        };
        let ghost held = span@;
        assert(held =~= view.span(first, piece.last_shred));
        let base: usize = span.entries.len();
        if piece.last_shred > span.last_shred {
            span.last_shred = piece.last_shred;
        }
        let ghost counts = piece_counts(piece@.entries);
        let mut i: usize = 0;
        assert(span.entries@ =~= held.entries + counts.take(0));
        while i < piece.entries.len()
            invariant
                i <= piece.entries@.len(),
                counts == piece_counts(piece@.entries),
                span.entries@ == held.entries + counts.take(i as int),
                span.last_shred == if held.last_shred >= piece.last_shred {
                    held.last_shred
                } else {
                    piece.last_shred
                },
            decreases piece.entries@.len() - i,
        {
            let count: u32 = piece.entries[i].transactions.len() as u32;
            let ghost before = span.entries@;
            proof {
                assert(piece@.entries[i as int] == piece.entries@[i as int]@);
                assert(counts[i as int] == count);
                assert(counts.take(i + 1) =~= counts.take(i as int).push(count));
            }
            span.entries.push(count);
            assert(span.entries@ =~= held.entries + counts.take(i + 1));
            i = i + 1;
        }
        assert(counts.take(i as int) =~= counts);
        let ghost hits = hit_views(self.hits@);
        let mut i: usize = 0;
        assert(span.entries.len() == span.entries@.len());
        assert(hit_views(self.hits@) =~= hits + piece_hits(
            searchers@,
            targets@,
            first,
            base as int,
            piece@.entries,
            0,
        ));
        while i < piece.entries.len()
            invariant
                i <= piece.entries@.len(),
                first == piece.first_shred,
                base + piece.entries@.len() <= usize::MAX,
                self.batches@ == old(self).batches@.remove(first),
                hit_views(self.hits@) == hits + piece_hits(
                    searchers@,
                    targets@,
                    first,
                    base as int,
                    piece@.entries,
                    i as int,
                ),
            decreases piece.entries@.len() - i,
        {
            let entry = &piece.entries[i];
            let ghost so_far = piece_hits(
                searchers@,
                targets@,
                first,
                base as int,
                piece@.entries,
                i as int,
            );
            assert(piece@.entries[i as int] == entry@);
            add_entry_hits(
                searchers,
                targets,
                first,
                base + i,
                &entry.transactions,
                &mut self.hits,
            );
            assert(hit_views(self.hits@) =~= hits + piece_hits(
                searchers@,
                targets@,
                first,
                base as int,
                piece@.entries,
                i + 1,
            ));
            i = i + 1;
        }
        self.batches.insert(first, span);
        proof {
            let next = view.with_piece(searchers@, targets@, piece@);
            assert(self@.batches =~= next.batches);
            assert(self@.hits =~= next.hits);
            assert(self@ =~= next);
            if view.sound() {
                lemma_piece_hits(
                    searchers@,
                    targets@,
                    first,
                    base as int,
                    piece@.entries,
                    piece@.entries.len() as int,
                );
                assert forall|i: int| 0 <= i < next.hits.len() implies next.holds(
                    (#[trigger] next.hits[i]).first_shred as int,
                ) && next.within(next.hits[i]) by {
                    if i < view.hits.len() {
                        assert(view.within(view.hits[i]));
                        assert(next.hits[i] == view.hits[i]);
                    } else {
                        assert(next.hits[i] == piece_hits(
                            searchers@,
                            targets@,
                            first,
                            base as int,
                            piece@.entries,
                            piece@.entries.len() as int,
                        )[i - view.hits.len()]);
                    }
                }
            }
        }
    }
}

pub struct Tracker {
    pub searchers: Addresses,
    pub targets: Addresses,
    pub slots: AgedMap<u64, Slot>,
    /// What there is to report of the slots settled so far, until somebody takes
    /// it.
    pub lines: Vec<RaceLine>,
    pub clock: Clock,
}

/// What there is to report of a run of slots, one after the other.
pub open spec fn all_reports(slots: Seq<(u64, Slot)>) -> Seq<LineView>
    decreases slots.len(),
{
    if slots.len() == 0 {
        Seq::empty()
    } else {
        all_reports(slots.drop_last()) + slots.last().1@.report(slots.last().0)
    }
}

impl Tracker {
    /// Every hit lies within its batch, and there is a cap on how many slots are
    /// open.
    pub closed spec fn wf(&self) -> bool {
        &&& self.slots.wf()
        &&& self.slots.cap() == MAX_SLOTS
        &&& forall|slot: u64| #[trigger]
            self.slots@.contains_key(slot) ==> self.slots@[slot].value@.sound()
    }

    /// What has been seen of a slot.
    pub open spec fn slot(&self, slot: u64) -> RaceView {
        if self.slots@.contains_key(slot) {
            self.slots@[slot].value@
        } else {
            RaceView::empty()
        }
    }

    /// Whether `post` is this tracker once the slots that have gone quiet are
    /// reported and let go.
    pub open spec fn settled(self, now: u64, post: Tracker) -> bool {
        &&& post.clock == self.clock
        &&& post.searchers == self.searchers
        &&& post.targets == self.targets
        &&& post.slots.same_setup(&self.slots)
        &&& if self.slots.sweep_due(now) {
            let kept = fresh(self.slots@, now, self.slots.retention());
            &&& is_capped(kept, self.slots.cap() as nat, post.slots@)
            &&& post.slots.last_swept() == now
            &&& exists|expired: Seq<(u64, Slot)>| #[trigger]
                lists_expired(self.slots@, kept, expired) && line_views(post.lines@) == line_views(
                    self.lines@,
                ) + all_reports(expired)
        } else {
            &&& post.slots@ == self.slots@
            &&& post.slots.last_swept() == self.slots.last_swept()
            &&& post.lines@ == self.lines@
        }
    }

    /// Whether `post` is this tracker once it has seen a piece of a batch.
    pub open spec fn saw(self, slot: u64, piece: BatchView, now: u64, post: Tracker) -> bool {
        &&& post.clock == self.clock
        &&& post.searchers == self.searchers
        &&& post.targets == self.targets
        &&& post.slots.same_setup(&self.slots)
        &&& post.slots.last_swept() == self.slots.last_swept()
        &&& post.lines@ == self.lines@
        &&& post.slots@ == self.slots@.insert(
            slot,
            Aged { updated: now, value: post.slots@[slot].value },
        )
        &&& post.slot(slot) == self.slot(slot).with_piece(self.searchers@, self.targets@, piece)
    }

    /// `None` when there is no wallet to watch, since then there is nothing to
    /// measure against and the packet path should not pay for it. The bot's
    /// side may be empty: until it exists, every slot the wallet traded in is
    /// still worth a row, and those rows are the baseline the bot will later be
    /// judged against.
    pub fn new(searchers: &[[u8; 32]], targets: &[[u8; 32]], clock: Clock) -> (tracker: Option<
        Tracker,
    >)
        ensures
            tracker is None <==> targets@.len() == 0,
            tracker matches Some(tracker) ==> {
                &&& tracker.wf()
                &&& tracker.searchers@ == searchers@.to_set()
                &&& tracker.targets@ == targets@.to_set()
                &&& tracker.slots@ == Map::<u64, Aged<Slot>>::empty()
                &&& tracker.slots.retention() == SETTLE
                &&& tracker.lines@.len() == 0
                &&& tracker.clock == clock
                &&& clock.can_read(tracker.slots.last_swept())
            },
    {
        if targets.len() == 0 {
            return None;
        }
        Some(
            Tracker {
                searchers: Addresses::of(searchers),
                targets: Addresses::of(targets),
                slots: AgedMap::new(SETTLE, MAX_SLOTS, "race slots", clock.now()),
                lines: Vec::new(),
                clock,
            },
        )
    }

    /// Whose transaction it is, if it is one of the two that race.
    pub fn role(&self, transaction: &Transaction) -> (role: Option<Role>)
        ensures
            role == role_of(self.searchers@, self.targets@, transaction@),
    {
        role_among(&self.searchers, &self.targets, transaction)
    }

    /// Reports the slots that have gone quiet and lets them go.
    fn settle(&mut self, now: u64)
        requires
            old(self).wf(),
        ensures
            final(self).wf(),
            old(self).settled(now, *final(self)),
            final(self).clock == old(self).clock,
    {
        let ghost before = *self;
        let swept = self.slots.sweep(now);
        if !swept.ran {
            return ;
        }
        let expired = swept.expired;
        let ghost slots = self.slots;
        let ghost kept = fresh(before.slots@, now, before.slots.retention());
        proof {
            assert forall|i: int| 0 <= i < expired@.len() implies (
            #[trigger] expired@[i]).1@.sound() by {
                assert(before.slots@.contains_key(expired@[i].0));
            }
            assert(line_views(self.lines@) =~= line_views(before.lines@) + all_reports(
                expired@.take(0),
            ));
        }
        let mut i: usize = 0;
        while i < expired.len()
            invariant
                i <= expired@.len(),
                self.slots == slots,
                self.searchers == before.searchers,
                self.targets == before.targets,
                self.clock == before.clock,
                forall|i: int| 0 <= i < expired@.len() ==> (#[trigger] expired@[i]).1@.sound(),
                line_views(self.lines@) == line_views(before.lines@) + all_reports(
                    expired@.take(i as int),
                ),
            decreases expired@.len() - i,
        {
            proof {
                assert(expired@.take(i + 1).drop_last() =~= expired@.take(i as int));
                assert(expired@.take(i + 1).last() == expired@[i as int]);
            }
            let ghost held = line_views(self.lines@);
            let mut lines = expired[i].1.report(expired[i].0);
            let ghost more = line_views(lines@);
            self.lines.append(&mut lines);
            assert(line_views(self.lines@) =~= held + more);
            i = i + 1;
        }
        assert(expired@.take(i as int) =~= expired@);
    }

    /// Takes in a piece of a batch.
    fn see(&mut self, slot: u64, batch: &DecodedBatch, now: u64)
        requires
            old(self).wf(),
        ensures
            final(self).wf(),
            old(self).saw(slot, batch@, now, *final(self)),
            final(self).clock == old(self).clock,
    {
        let ghost before = *self;
        let held = self.slots.upsert(slot, now, Slot::new);
        assert(held@ == before.slot(slot));
        held.add_piece(&self.searchers, &self.targets, batch);
    }

    /// Takes in a piece of a batch, at whatever time it is.
    pub fn batch(&mut self, slot: u64, batch: &DecodedBatch)
        requires
            old(self).wf(),
        ensures
            final(self).wf(),
            exists|now: u64, settled: Tracker|
                #![trigger old(self).settled(now, settled)]
                old(self).clock.can_read(now) && old(self).settled(now, settled) && settled.saw(
                    slot,
                    batch@,
                    now,
                    *final(self),
                ),
    {
        let now: u64 = self.clock.now();
        self.batch_at(slot, batch, now);
    }

    /// The same at a given time.
    pub fn batch_at(&mut self, slot: u64, batch: &DecodedBatch, now: u64)
        requires
            old(self).wf(),
        ensures
            final(self).wf(),
            exists|settled: Tracker| #[trigger]
                old(self).settled(now, settled) && settled.saw(slot, batch@, now, *final(self)),
    {
        self.settle(now);
        let ghost settled = *self;
        self.see(slot, batch, now);
        assert(old(self).settled(now, settled));
    }
}

impl Tracker {
    /// What there is to report since the last call.
    pub fn take_lines(&mut self) -> (lines: Vec<RaceLine>)
        requires
            old(self).wf(),
        ensures
            final(self).wf(),
            lines@ == old(self).lines@,
            final(self).lines@.len() == 0,
            final(self).slots == old(self).slots,
            final(self).searchers == old(self).searchers,
            final(self).targets == old(self).targets,
            final(self).clock == old(self).clock,
    {
        let mut lines: Vec<RaceLine> = Vec::new();
        std::mem::swap(&mut lines, &mut self.lines);
        lines
    }
}

proof fn lemma_piece_hits_split(
    searchers: Set<[u8; 32]>,
    targets: Set<[u8; 32]>,
    first_shred: u32,
    base: int,
    front: Seq<EntryView>,
    back: Seq<EntryView>,
    len: int,
)
    requires
        0 <= len <= back.len(),
    ensures
        piece_hits(searchers, targets, first_shred, base, front + back, front.len() + len)
            == piece_hits(searchers, targets, first_shred, base, front, front.len() as int)
            + piece_hits(searchers, targets, first_shred, base + front.len(), back, len),
    decreases len,
{
    let all = front + back;
    if len == 0 {
        lemma_piece_hits_front(
            searchers,
            targets,
            first_shred,
            base,
            front,
            back,
            front.len() as int,
        );
        assert(piece_hits(searchers, targets, first_shred, base, front, front.len() as int)
            + Seq::<HitView>::empty() =~= piece_hits(
            searchers,
            targets,
            first_shred,
            base,
            front,
            front.len() as int,
        ));
    } else {
        lemma_piece_hits_split(searchers, targets, first_shred, base, front, back, len - 1);
        assert(all[front.len() + len - 1] == back[len - 1]);
        let transactions = back[len - 1].transactions;
        let last = entry_hits(
            searchers,
            targets,
            first_shred,
            base + front.len() + len - 1,
            transactions,
            transactions.len() as int,
        );
        let (a, b) = (
            piece_hits(searchers, targets, first_shred, base, front, front.len() as int),
            piece_hits(searchers, targets, first_shred, base + front.len(), back, len - 1),
        );
        assert((a + b) + last =~= a + (b + last));
    }
}

proof fn lemma_piece_hits_front(
    searchers: Set<[u8; 32]>,
    targets: Set<[u8; 32]>,
    first_shred: u32,
    base: int,
    front: Seq<EntryView>,
    back: Seq<EntryView>,
    len: int,
)
    requires
        0 <= len <= front.len(),
    ensures
        piece_hits(searchers, targets, first_shred, base, front + back, len) == piece_hits(
            searchers,
            targets,
            first_shred,
            base,
            front,
            len,
        ),
    decreases len,
{
    if len > 0 {
        lemma_piece_hits_front(searchers, targets, first_shred, base, front, back, len - 1);
        assert((front + back)[len - 1] == front[len - 1]);
    }
}

proof fn lemma_transactions_in_split(entries: Seq<u32>, at: int)
    requires
        0 <= at <= entries.len(),
    ensures
        transactions_in(entries.take(at)) <= transactions_in(entries),
        at < entries.len() ==> transactions_in(entries.take(at)) + entries[at] <= transactions_in(
            entries,
        ),
    decreases entries.len(),
{
    if at == entries.len() {
        assert(entries.take(at) =~= entries);
    } else {
        let front = entries.drop_last();
        assert(entries.take(at) =~= front.take(at));
        lemma_transactions_in_split(front, at);
        if at == front.len() {
            assert(front.take(at) =~= front);
        }
    }
}

impl RaceView {
    /// A batch that arrives in pieces is the same batch: two pieces seen one
    /// after the other leave the slot as the two in one would have, which reaches
    /// as far as the further of them.
    pub proof fn pieces_add_up(
        self,
        searchers: Set<[u8; 32]>,
        targets: Set<[u8; 32]>,
        first: BatchView,
        second: BatchView,
    )
        requires
            first.first_shred == second.first_shred,
        ensures
            self.with_piece(searchers, targets, first).with_piece(searchers, targets, second)
                == self.with_piece(searchers, targets, first.joined(second)),
    {
        let whole = first.joined(second);
        let once = self.with_piece(searchers, targets, first);
        let twice = once.with_piece(searchers, targets, second);
        let at_once = self.with_piece(searchers, targets, whole);
        let base = self.span(first.first_shred, first.last_shred).entries.len() as int;
        assert(self.span(first.first_shred, first.last_shred).entries == self.span(
            first.first_shred,
            whole.last_shred,
        ).entries);
        lemma_piece_hits_split(
            searchers,
            targets,
            first.first_shred,
            base,
            first.entries,
            second.entries,
            second.entries.len() as int,
        );
        assert(piece_counts(whole.entries) =~= piece_counts(first.entries) + piece_counts(
            second.entries,
        ));
        assert(twice.hits =~= at_once.hits);
        assert(twice.batches[first.first_shred].entries
            =~= at_once.batches[first.first_shred].entries);
        assert(twice.batches =~= at_once.batches);
    }

    /// Transactions of one entry share a position: no entries lie between them,
    /// and the transactions that do are those between them in the entry.
    pub proof fn one_entry_is_one_position(self, hit: HitView, other: HitView)
        requires
            hit.first_shred == other.first_shred,
            hit.entry == other.entry,
            self.holds(hit.first_shred as int),
        ensures
            self.entries_before(hit) == self.entries_before(other),
            self.transactions_before(hit) - self.transactions_before(other) == hit.transaction
                - other.transaction,
    {
    }

    /// Order is the order of the shreds: a transaction in a batch that begins
    /// earlier has fewer transactions before it, whichever arrived first.
    pub proof fn order_follows_the_shreds(self, earlier: HitView, later: HitView)
        requires
            earlier.first_shred < later.first_shred,
            self.holds(earlier.first_shred as int),
            ({
                let entries = self.batches[earlier.first_shred].entries;
                0 <= earlier.entry < entries.len() && 0 <= earlier.transaction
                    < entries[earlier.entry]
            }),
            0 <= later.transaction,
        ensures
            self.transactions_before(earlier) < self.transactions_before(later),
    {
        let counts = |first: int| self.transactions_at(first);
        let entries = self.batches[earlier.first_shred].entries;
        let first = earlier.first_shred as int;
        lemma_transactions_in_split(entries, earlier.entry);
        crate::sums::lemma_sum_split(counts, 0, first, later.first_shred as int);
        crate::sums::lemma_sum_split(counts, first, first + 1, later.first_shred as int);
        assert(sum(counts, first, first + 1) == sum(counts, first, first) + counts(first));
        assert(counts(first) == transactions_in(entries));
    }
}

/// Where in a slot a transaction stands: the shred its batch begins at, its entry
/// in the batch, and its place in the entry.
pub type Place = (u32, int, int);

impl HitView {
    pub open spec fn place(self) -> Place {
        (self.first_shred, self.entry, self.transaction)
    }
}

/// Whether one place comes before another, in the order the leader laid them down.
pub open spec fn precedes(place: Place, other: Place) -> bool {
    ||| place.0 < other.0
    ||| place.0 == other.0 && place.1 < other.1
    ||| place.0 == other.0 && place.1 == other.1 && place.2 < other.2
}

impl RaceView {
    /// Whether a transaction that is held stands at a place.
    pub open spec fn stands_at(self, place: Place) -> bool {
        &&& self.batches.contains_key(place.0)
        &&& 0 <= place.1 < self.batches[place.0].entries.len()
        &&& 0 <= place.2 < self.batches[place.0].entries[place.1]
    }

    /// The places of the transactions held that come before one and behind
    /// another.
    pub open spec fn between(self, earlier: Place, later: Place) -> Set<Place> {
        Set::new(
            |place: Place|
                self.stands_at(place) && precedes(earlier, place) && precedes(place, later),
        )
    }

    /// The places of the transactions held that come before one.
    spec fn before(self, later: Place) -> Set<Place> {
        Set::new(|place: Place| self.stands_at(place) && precedes(place, later))
    }

    /// Of those in the batches that begin below `bound`.
    spec fn in_batches(self, bound: int) -> Set<Place> {
        Set::new(|place: Place| self.stands_at(place) && place.0 < bound)
    }

    /// Of those in the first `count` entries of the batch at `first`.
    spec fn in_entries(self, first: u32, count: int) -> Set<Place> {
        Set::new(|place: Place| self.stands_at(place) && place.0 == first && place.1 < count)
    }

    proof fn lemma_in_entries(self, first: u32, count: int)
        requires
            self.batches.contains_key(first),
            0 <= count <= self.batches[first].entries.len(),
        ensures
            self.in_entries(first, count).finite(),
            self.in_entries(first, count).len() == transactions_in(
                self.batches[first].entries.take(count),
            ),
        decreases count,
    {
        let entries = self.batches[first].entries;
        let all = self.in_entries(first, count);
        if count == 0 {
            assert(all =~= Set::empty());
        } else {
            self.lemma_in_entries(first, count - 1);
            let front = self.in_entries(first, count - 1);
            let entry = first_places(first, count - 1, entries[count - 1] as int);
            lemma_first_places(first, count - 1, entries[count - 1] as int);
            assert(all =~= front.union(entry));
            assert(front.disjoint(entry));
            vstd::set_lib::lemma_set_disjoint_lens(front, entry);
            assert(entries.take(count).drop_last() =~= entries.take(count - 1));
            assert(entries.take(count).last() == entries[count - 1]);
        }
    }

    proof fn lemma_in_batches(self, bound: int)
        requires
            0 <= bound <= u32::MAX + 1,
        ensures
            self.in_batches(bound).finite(),
            self.in_batches(bound).len() == sum(
                |first: int| self.transactions_at(first),
                0,
                bound,
            ),
        decreases bound,
    {
        let all = self.in_batches(bound);
        let counts = |first: int| self.transactions_at(first);
        if bound == 0 {
            assert(all =~= Set::empty());
        } else {
            self.lemma_in_batches(bound - 1);
            let first = (bound - 1) as u32;
            let front = self.in_batches(bound - 1);
            assert(sum(counts, 0, bound) == sum(counts, 0, bound - 1) + counts(bound - 1));
            if self.batches.contains_key(first) {
                let entries = self.batches[first].entries;
                let batch = self.in_entries(first, entries.len() as int);
                self.lemma_in_entries(first, entries.len() as int);
                assert(entries.take(entries.len() as int) =~= entries);
                assert(all =~= front.union(batch));
                assert(front.disjoint(batch));
                vstd::set_lib::lemma_set_disjoint_lens(front, batch);
            } else {
                assert(all =~= front);
            }
        }
    }

    /// As many transactions come before one that is held as its position says.
    proof fn lemma_before(self, hit: HitView)
        requires
            self.stands_at(hit.place()),
        ensures
            self.before(hit.place()).finite(),
            self.before(hit.place()).len() == self.transactions_before(hit),
    {
        let first = hit.first_shred;
        let batches = self.in_batches(first as int);
        let entries = self.in_entries(first, hit.entry);
        let entry = first_places(first, hit.entry, hit.transaction);
        self.lemma_in_batches(first as int);
        self.lemma_in_entries(first, hit.entry);
        lemma_first_places(first, hit.entry, hit.transaction);
        assert(batches.disjoint(entries));
        vstd::set_lib::lemma_set_disjoint_lens(batches, entries);
        let so_far = batches.union(entries);
        assert(so_far.disjoint(entry));
        vstd::set_lib::lemma_set_disjoint_lens(so_far, entry);
        assert(self.before(hit.place()) =~= so_far.union(entry));
    }

    /// Positions are those of the block, as far as it is held: of two transactions
    /// the one laid down first comes first, the difference counts those that lie
    /// between, and no entry lies between them just where they share one.
    pub proof fn positions_follow_the_block(self, earlier: HitView, later: HitView)
        requires
            self.stands_at(earlier.place()),
            self.stands_at(later.place()),
            precedes(earlier.place(), later.place()),
        ensures
            self.transactions_before(earlier) < self.transactions_before(later),
            self.between(earlier.place(), later.place()).finite(),
            self.transactions_before(later) - self.transactions_before(earlier) - 1
                == self.between(earlier.place(), later.place()).len(),
            self.entries_before(earlier) <= self.entries_before(later),
            self.entries_before(earlier) == self.entries_before(later) <==> earlier.first_shred
                == later.first_shred && earlier.entry == later.entry,
    {
        let (from, to) = (earlier.place(), later.place());
        self.lemma_before(earlier);
        self.lemma_before(later);
        let passed = self.before(from).insert(from);
        let between = self.between(from, to);
        assert(between =~= self.before(to).difference(passed));
        assert(self.before(to) =~= passed.union(between));
        assert(passed.disjoint(between));
        vstd::set_lib::lemma_set_disjoint_lens(passed, between);
        assert(!self.before(from).contains(from));
        let lens = |first: int| self.entries_at(first);
        let first = earlier.first_shred as int;
        if earlier.first_shred < later.first_shred {
            crate::sums::lemma_sum_split(lens, 0, first, later.first_shred as int);
            crate::sums::lemma_sum_split(lens, first, first + 1, later.first_shred as int);
            assert(sum(lens, first, first + 1) == sum(lens, first, first) + lens(first));
        }
    }
}

/// The first `count` places of an entry.
spec fn first_places(first: u32, entry: int, count: int) -> Set<Place> {
    Set::new(|place: Place| place.0 == first && place.1 == entry && 0 <= place.2 < count)
}

proof fn lemma_first_places(first: u32, entry: int, count: int)
    requires
        0 <= count,
    ensures
        first_places(first, entry, count).finite(),
        first_places(first, entry, count).len() == count,
    decreases count,
{
    let all = first_places(first, entry, count);
    if count == 0 {
        assert(all =~= Set::empty());
    } else {
        lemma_first_places(first, entry, count - 1);
        let front = first_places(first, entry, count - 1);
        assert(all =~= front.insert((first, entry, count - 1)));
    }
}

/// A count that fits is written as it is, so gaps between positions that fit are
/// the gaps that are reported.
pub proof fn counts_that_fit_are_exact(count: int)
    requires
        i64::MIN <= count <= i64::MAX,
    ensures
        wrapped(count) == count,
{
}

impl RaceView {
    /// The places in their batch of the entries held that stand before one place
    /// and not before another.
    pub open spec fn entries_from(self, earlier: Place, later: Place) -> Set<(u32, int)> {
        Set::new(
            |entry: (u32, int)|
                self.batches.contains_key(entry.0) && 0 <= entry.1
                    < self.batches[entry.0].entries.len() && (earlier.0 < entry.0 || (earlier.0
                    == entry.0 && earlier.1 <= entry.1)) && (entry.0 < later.0 || (entry.0
                    == later.0 && entry.1 < later.1)),
        )
    }

    /// Entries in the batches that begin below `bound`.
    spec fn entries_below(self, bound: int) -> Set<(u32, int)> {
        Set::new(
            |entry: (u32, int)|
                self.batches.contains_key(entry.0) && entry.0 < bound && 0 <= entry.1
                    < self.batches[entry.0].entries.len(),
        )
    }

    proof fn lemma_entries_below(self, bound: int)
        requires
            0 <= bound <= u32::MAX + 1,
        ensures
            self.entries_below(bound).finite(),
            self.entries_below(bound).len() == sum(|first: int| self.entries_at(first), 0, bound),
        decreases bound,
    {
        let all = self.entries_below(bound);
        let lens = |first: int| self.entries_at(first);
        if bound == 0 {
            assert(all =~= Set::empty());
        } else {
            self.lemma_entries_below(bound - 1);
            let first = (bound - 1) as u32;
            let front = self.entries_below(bound - 1);
            assert(sum(lens, 0, bound) == sum(lens, 0, bound - 1) + lens(bound - 1));
            if self.batches.contains_key(first) {
                let count = self.batches[first].entries.len() as int;
                let batch = first_entries(first, count);
                lemma_first_entries(first, count);
                assert(all =~= front.union(batch));
                assert(front.disjoint(batch));
                vstd::set_lib::lemma_set_disjoint_lens(front, batch);
            } else {
                assert(all =~= front);
            }
        }
    }

    proof fn lemma_entries_before(self, hit: HitView)
        requires
            self.stands_at(hit.place()),
        ensures
            ({
                let before = self.entries_below(hit.first_shred as int).union(
                    first_entries(hit.first_shred, hit.entry),
                );
                before.finite() && before.len() == self.entries_before(hit)
            }),
    {
        let batches = self.entries_below(hit.first_shred as int);
        let entries = first_entries(hit.first_shred, hit.entry);
        self.lemma_entries_below(hit.first_shred as int);
        lemma_first_entries(hit.first_shred, hit.entry);
        assert(batches.disjoint(entries));
        vstd::set_lib::lemma_set_disjoint_lens(batches, entries);
    }

    #[verifier::spinoff_prover]
    #[verifier::rlimit(60)]
    proof fn lemma_entries_from(self, earlier: HitView, later: HitView)
        requires
            self.stands_at(earlier.place()),
            self.stands_at(later.place()),
            precedes(earlier.place(), later.place()),
        ensures
            self.entries_from(earlier.place(), later.place()).finite(),
            self.entries_from(earlier.place(), later.place()).len() == self.entries_before(later)
                - self.entries_before(earlier),
    {
        self.lemma_entries_before(earlier);
        self.lemma_entries_before(later);
        let passed = self.entries_below(earlier.first_shred as int).union(
            first_entries(earlier.first_shred, earlier.entry),
        );
        let all = self.entries_below(later.first_shred as int).union(
            first_entries(later.first_shred, later.entry),
        );
        let from = self.entries_from(earlier.place(), later.place());
        assert(from =~= all.difference(passed));
        assert(all =~= passed.union(from));
        assert(passed.disjoint(from));
        vstd::set_lib::lemma_set_disjoint_lens(passed, from);
    }

    /// A pair line says who went first and by how much. The gap is negative where
    /// the bot's transaction stands before the wallet's in the block, positive
    /// where it stands behind it, and without its sign one more than the number of
    /// transactions held that lie between the two. The gap in entries counts those
    /// one has to get past from the earlier to the later, and they share an entry
    /// just where there is none.
    #[verifier::spinoff_prover]
    #[verifier::rlimit(60)]
    pub proof fn a_pair_says_who_went_first(self, slot: u64, target: HitView, searcher: HitView)
        requires
            self.stands_at(target.place()),
            self.stands_at(searcher.place()),
            self.between(target.place(), searcher.place()).len() < i64::MAX,
            self.between(searcher.place(), target.place()).len() < i64::MAX,
            self.entries_from(target.place(), searcher.place()).len() <= i64::MAX,
            self.entries_from(searcher.place(), target.place()).len() <= i64::MAX,
        ensures
            ({
                let (bot, wallet) = (searcher.place(), target.place());
                &&& self.pair(slot, target, searcher) matches LineView::Pair {
                    slot: reported,
                    target: theirs,
                    searcher: ours,
                    tx_gap,
                    entry_gap,
                    same_entry,
                    ..
                }
                &&& reported == slot
                &&& theirs == target.signature
                &&& ours == searcher.signature
                &&& tx_gap < 0 <==> precedes(bot, wallet)
                &&& tx_gap > 0 <==> precedes(wallet, bot)
                &&& tx_gap < 0 ==> -tx_gap - 1 == self.between(bot, wallet).len()
                &&& tx_gap > 0 ==> tx_gap - 1 == self.between(wallet, bot).len()
                &&& precedes(bot, wallet) ==> -entry_gap == self.entries_from(bot, wallet).len()
                &&& precedes(wallet, bot) ==> entry_gap == self.entries_from(wallet, bot).len()
                &&& same_entry <==> bot.0 == wallet.0 && bot.1 == wallet.1
                &&& same_entry <==> entry_gap == 0
            }),
    {
        let (bot, wallet) = (searcher.place(), target.place());
        if precedes(bot, wallet) {
            self.positions_follow_the_block(searcher, target);
            self.lemma_entries_from(searcher, target);
        } else if precedes(wallet, bot) {
            self.positions_follow_the_block(target, searcher);
            self.lemma_entries_from(target, searcher);
        } else {
            assert(bot == wallet);
        }
    }

    /// A pair line is exact where every shred from the batch that holds the one
    /// transaction to the batch that holds the other is accounted for by a batch
    /// that is held, and not where one of them is not.
    pub proof fn an_exact_pair_has_no_hole(
        self,
        slot: u64,
        target: HitView,
        searcher: HitView,
        shred: u32,
    )
        requires
            ({
                let (low, high) = if searcher.first_shred <= target.first_shred {
                    (searcher.first_shred, target.first_shred)
                } else {
                    (target.first_shred, searcher.first_shred)
                };
                low <= shred <= high
            }),
            self.pair(slot, target, searcher)->exact,
        ensures
            exists|first: u32| #[trigger]
                self.batches.contains_key(first) && first <= shred && (shred
                    <= self.batches[first].last_shred || first == shred),
            self.batches.contains_key(target.first_shred),
            self.batches.contains_key(searcher.first_shred),
    {
        let (low, high) = if searcher.first_shred <= target.first_shred {
            (searcher.first_shred, target.first_shred)
        } else {
            (target.first_shred, searcher.first_shred)
        };
        self.lemma_covered(low, high, shred, low);
    }

    proof fn lemma_covered(self, low: u32, high: u32, shred: u32, first: u32)
        requires
            self.tiled(low, high),
            low <= first <= shred <= high,
            self.batches.contains_key(first),
        ensures
            exists|first: u32| #[trigger]
                self.batches.contains_key(first) && first <= shred && (shred
                    <= self.batches[first].last_shred || first == shred),
        decreases shred - first,
    {
        if first < shred && shred > self.batches[first].last_shred {
            assert(self.followed_within(first, high));
            let next = (self.batches[first].last_shred + 1) as u32;
            self.lemma_covered(low, high, shred, next);
        }
    }

    /// Where batches follow one another without a hole or an overlap, the pair is
    /// exact.
    #[verifier::spinoff_prover]
    #[verifier::rlimit(60)]
    pub proof fn a_run_of_batches_makes_a_pair_exact(
        self,
        slot: u64,
        target: HitView,
        searcher: HitView,
        firsts: Seq<u32>,
    )
        requires
            firsts.len() > 0,
            forall|i: int|
                0 <= i < firsts.len() ==> self.batches.contains_key(#[trigger] firsts[i]),
            forall|i: int, j: int|
                0 <= i && j == i + 1 && j < firsts.len() ==> (#[trigger] firsts[j])
                    == self.batches[#[trigger] firsts[i]].last_shred + 1 && firsts[i] < firsts[j],
            forall|first: u32|
                firsts[0] <= first <= firsts.last() && #[trigger] self.batches.contains_key(first)
                    ==> firsts.contains(first),
            (firsts[0] == target.first_shred && firsts.last() == searcher.first_shred) || (
            firsts[0] == searcher.first_shred && firsts.last() == target.first_shred),
        ensures
            self.pair(slot, target, searcher)->exact,
    {
        let (low, high) = (firsts[0], firsts.last());
        lemma_rising(self, firsts, 0, firsts.len() - 1);
        assert forall|first: u32|
            low <= first < high && #[trigger] self.batches.contains_key(
                first,
            ) implies self.followed_within(first, high) by {
            assert(firsts.contains(first));
            let i = choose|i: int| 0 <= i < firsts.len() && firsts[i] == first;
            let next = firsts[i + 1];
            assert(next == self.batches[firsts[i]].last_shred + 1);
            lemma_rising(self, firsts, i + 1, firsts.len() - 1);
            assert forall|between: u32| first < between < next implies !#[trigger]
                self.batches.contains_key(between) by {
                if self.batches.contains_key(between) {
                    assert(firsts.contains(between));
                    let k = choose|k: int| 0 <= k < firsts.len() && firsts[k] == between;
                    if k <= i {
                        lemma_rising(self, firsts, k, i);
                    } else {
                        lemma_rising(self, firsts, i + 1, k);
                    }
                }
            }
        }
        assert(self.tiled(low, high));
    }
}

proof fn lemma_rising(view: RaceView, firsts: Seq<u32>, i: int, j: int)
    requires
        0 <= i <= j < firsts.len(),
        forall|i: int, j: int|
            0 <= i && j == i + 1 && j < firsts.len() ==> (#[trigger] firsts[j])
                == view.batches[#[trigger] firsts[i]].last_shred + 1 && firsts[i] < firsts[j],
    ensures
        firsts[i] <= firsts[j],
        i < j ==> firsts[i] < firsts[j],
    decreases j - i,
{
    if i < j {
        assert(firsts[i] < firsts[i + 1]);
        lemma_rising(view, firsts, i + 1, j);
    }
}

/// The first `count` entries of a batch.
spec fn first_entries(first: u32, count: int) -> Set<(u32, int)> {
    Set::new(|entry: (u32, int)| entry.0 == first && 0 <= entry.1 < count)
}

proof fn lemma_first_entries(first: u32, count: int)
    requires
        0 <= count,
    ensures
        first_entries(first, count).finite(),
        first_entries(first, count).len() == count,
    decreases count,
{
    let all = first_entries(first, count);
    if count == 0 {
        assert(all =~= Set::empty());
    } else {
        lemma_first_entries(first, count - 1);
        let front = first_entries(first, count - 1);
        assert(all =~= front.insert((first, count - 1)));
    }
}

proof fn lemma_side_filters(hits: Seq<HitView>, role: Role)
    ensures
        side(hits, role) == hits.filter(|hit: HitView| hit.role == role),
    decreases hits.len(),
{
    reveal(Seq::filter);
    if hits.len() > 0 {
        lemma_side_filters(hits.drop_last(), role);
    }
}

impl RaceView {
    #[verifier::spinoff_prover]
    #[verifier::rlimit(60)]
    proof fn lemma_pairs(
        self,
        slot: u64,
        targets: Seq<HitView>,
        searchers: Seq<HitView>,
        len: int,
    )
        requires
            0 <= len <= targets.len(),
        ensures
            self.pairs(slot, targets, searchers, len).len() == len * searchers.len(),
            forall|i: int, j: int|
                #![trigger targets[i], searchers[j]]
                0 <= i < len && 0 <= j < searchers.len() ==> 0 <= i * searchers.len() + j < len
                    * searchers.len() && self.pairs(slot, targets, searchers, len)[i
                    * searchers.len() + j] == self.pair(slot, targets[i], searchers[j]),
        decreases len,
    {
        let n = searchers.len() as int;
        if len > 0 {
            self.lemma_pairs(slot, targets, searchers, len - 1);
            let before = self.pairs(slot, targets, searchers, len - 1);
            let more = self.against(slot, targets[len - 1], searchers, n);
            assert(len * n == (len - 1) * n + n) by (nonlinear_arith);
            assert forall|i: int, j: int|
                #![trigger targets[i], searchers[j]]
                0 <= i < len && 0 <= j < n implies 0 <= i * n + j < len * n && self.pairs(
                slot,
                targets,
                searchers,
                len,
            )[i * n + j] == self.pair(slot, targets[i], searchers[j]) by {
                assert(0 <= i * n) by (nonlinear_arith)
                    requires
                        0 <= i,
                        0 <= n,
                ;
                if i < len - 1 {
                    assert(before[i * n + j] == self.pair(slot, targets[i], searchers[j]));
                } else {
                    assert((before + more)[(len - 1) * n + j] == more[j]);
                }
            }
        } else {
            assert(0 * n == 0);
        }
    }

    /// Where both sides showed up, and not so often that they make more than 64
    /// pairs, every bot transaction is reported against every wallet transaction,
    /// wallet by wallet in the order they were seen, and nothing else is.
    pub proof fn every_pair_is_reported(self, slot: u64, i: int, j: int)
        requires
            ({
                let targets = self.hits.filter(|hit: HitView| hit.role == Role::Target);
                let searchers = self.hits.filter(|hit: HitView| hit.role == Role::Searcher);
                &&& 0 <= i < targets.len()
                &&& 0 <= j < searchers.len()
                &&& targets.len() * searchers.len() <= 64
            }),
        ensures
            ({
                let targets = self.hits.filter(|hit: HitView| hit.role == Role::Target);
                let searchers = self.hits.filter(|hit: HitView| hit.role == Role::Searcher);
                &&& self.report(slot).len() == targets.len() * searchers.len()
                &&& 0 <= i * searchers.len() + j < self.report(slot).len()
                &&& self.report(slot)[i * searchers.len() + j] == self.pair(
                    slot,
                    targets[i],
                    searchers[j],
                )
            }),
    {
        let targets = side(self.hits, Role::Target);
        let searchers = side(self.hits, Role::Searcher);
        lemma_side_filters(self.hits, Role::Target);
        lemma_side_filters(self.hits, Role::Searcher);
        self.lemma_pairs(slot, targets, searchers, targets.len() as int);
        assert(targets[i] == targets[i] && searchers[j] == searchers[j]);
        assert(searchers.len() * targets.len() == targets.len() * searchers.len())
            by (nonlinear_arith);
    }

    /// A side that showed up alone is reported transaction by transaction; a slot
    /// of more than 64 pairs is reported as that; and one with neither not at all.
    pub proof fn a_side_alone_is_reported(self, slot: u64)
        ensures
            ({
                let targets = self.hits.filter(|hit: HitView| hit.role == Role::Target);
                let searchers = self.hits.filter(|hit: HitView| hit.role == Role::Searcher);
                let report = self.report(slot);
                &&& searchers.len() == 0 ==> report.len() == targets.len() && forall|i: int|
                    0 <= i < targets.len() ==> #[trigger] report[i] == (LineView::Target {
                        slot,
                        target: targets[i].signature,
                    })
                &&& targets.len() == 0 ==> report.len() == searchers.len() && forall|i: int|
                    0 <= i < searchers.len() ==> #[trigger] report[i] == (LineView::Searcher {
                        slot,
                        searcher: searchers[i].signature,
                    })
                &&& targets.len() * searchers.len() > 64 ==> report == seq![
                    LineView::TooMany { slot, searchers: searchers.len(), targets: targets.len() },
                ]
            }),
    {
        lemma_side_filters(self.hits, Role::Target);
        lemma_side_filters(self.hits, Role::Searcher);
        let targets = side(self.hits, Role::Target);
        let searchers = side(self.hits, Role::Searcher);
        assert(searchers.len() * targets.len() == targets.len() * searchers.len())
            by (nonlinear_arith);
        if targets.len() * searchers.len() > 64 {
            assert(targets.len() != 0 && searchers.len() != 0) by (nonlinear_arith)
                requires
                    targets.len() * searchers.len() > 64,
            ;
        }
    }
}

/// Whether a hit of a piece is what the piece holds at one of its transactions: the
/// hit stands where that does, behind the `base` entries seen before, is named after
/// it, and is the bot's where the bot pays for it and else the wallet's.
pub open spec fn hit_of(
    searchers: Set<[u8; 32]>,
    targets: Set<[u8; 32]>,
    piece: BatchView,
    base: int,
    entry: int,
    transaction: int,
    hit: HitView,
) -> bool {
    let held = piece.entries[entry].transactions[transaction];
    &&& 0 <= entry < piece.entries.len()
    &&& 0 <= transaction < piece.entries[entry].transactions.len()
    &&& held.account_keys.len() > 0
    &&& hit.first_shred == piece.first_shred
    &&& hit.entry == base + entry
    &&& hit.transaction == transaction
    &&& hit.role is Searcher <==> searchers.contains(held.account_keys[0])
    &&& hit.role is Target ==> targets.contains(held.account_keys[0])
    &&& held.signatures.len() > 0 ==> hit.signature == signature_text(held.signatures[0]@)
}

#[verifier::spinoff_prover]
#[verifier::rlimit(60)]
proof fn lemma_entry_hits_are(
    searchers: Set<[u8; 32]>,
    targets: Set<[u8; 32]>,
    first_shred: u32,
    entry: int,
    transactions: Seq<TransactionView>,
    len: int,
)
    requires
        0 <= len <= transactions.len(),
    ensures
        ({
            let hits = entry_hits(searchers, targets, first_shred, entry, transactions, len);
            &&& forall|i: int|
                0 <= i < hits.len() ==> 0 <= (#[trigger] hits[i]).transaction < len
                    && hits[i].entry == entry && hits[i].first_shred == first_shred && role_of(
                    searchers,
                    targets,
                    transactions[hits[i].transaction],
                ) == Some(hits[i].role) && hits[i].signature == name_of(
                    transactions[hits[i].transaction],
                )
            &&& forall|i: int, j: int|
                0 <= i < j < hits.len() ==> (#[trigger] hits[i]).transaction < (
                #[trigger] hits[j]).transaction
            &&& forall|t: int|
                0 <= t < len && role_of(searchers, targets, #[trigger] transactions[t]) is Some
                    ==> exists|i: int|
                    0 <= i < hits.len() && (#[trigger] hits[i]).transaction == t
        }),
    decreases len,
{
    if len > 0 {
        lemma_entry_hits_are(searchers, targets, first_shred, entry, transactions, len - 1);
        let before = entry_hits(searchers, targets, first_shred, entry, transactions, len - 1);
        let hits = entry_hits(searchers, targets, first_shred, entry, transactions, len);
        assert forall|t: int|
            0 <= t < len && role_of(
                searchers,
                targets,
                #[trigger] transactions[t],
            ) is Some implies exists|i: int|
            0 <= i < hits.len() && (#[trigger] hits[i]).transaction == t by {
            if t < len - 1 {
                let i = choose|i: int|
                    0 <= i < before.len() && (#[trigger] before[i]).transaction == t;
                assert(hits[i].transaction == t);
            } else {
                assert(hits[before.len() as int].transaction == t);
            }
        }
    }
}

#[verifier::spinoff_prover]
#[verifier::rlimit(60)]
proof fn lemma_piece_hits_are(
    searchers: Set<[u8; 32]>,
    targets: Set<[u8; 32]>,
    piece: BatchView,
    base: int,
    len: int,
)
    requires
        0 <= len <= piece.entries.len(),
    ensures
        ({
            let hits = piece_hits(
                searchers,
                targets,
                piece.first_shred,
                base,
                piece.entries,
                len,
            );
            &&& forall|i: int|
                0 <= i < hits.len() ==> (#[trigger] hits[i]).entry < base + len && hit_of(
                    searchers,
                    targets,
                    piece,
                    base,
                    hits[i].entry - base,
                    hits[i].transaction,
                    hits[i],
                )
            &&& forall|i: int, j: int|
                0 <= i < j < hits.len() ==> precedes(
                    (#[trigger] hits[i]).place(),
                    (#[trigger] hits[j]).place(),
                )
            &&& forall|e: int, t: int|
                0 <= e < len && 0 <= t < piece.entries[e].transactions.len() && role_of(
                    searchers,
                    targets,
                    #[trigger] piece.entries[e].transactions[t],
                ) is Some ==> exists|i: int|
                    0 <= i < hits.len() && (#[trigger] hits[i]).entry == base + e
                        && hits[i].transaction == t
        }),
    decreases len,
{
    if len > 0 {
        lemma_piece_hits_are(searchers, targets, piece, base, len - 1);
        let transactions = piece.entries[len - 1].transactions;
        let first = piece.first_shred;
        let count = transactions.len() as int;
        lemma_entry_hits_are(searchers, targets, first, base + len - 1, transactions, count);
        let before = piece_hits(searchers, targets, first, base, piece.entries, len - 1);
        let more = entry_hits(searchers, targets, first, base + len - 1, transactions, count);
        let hits = piece_hits(searchers, targets, first, base, piece.entries, len);
        assert(hits == before + more);
        let n = before.len() as int;
        assert forall|i: int| 0 <= i < hits.len() implies (#[trigger] hits[i]).entry < base + len
            && hit_of(
            searchers,
            targets,
            piece,
            base,
            hits[i].entry - base,
            hits[i].transaction,
            hits[i],
        ) by {
            if i < n {
                assert(hits[i] == before[i]);
            } else {
                assert(hits[i] == more[i - n]);
            }
        }
        assert forall|i: int, j: int| 0 <= i < j < hits.len() implies precedes(
            (#[trigger] hits[i]).place(),
            (#[trigger] hits[j]).place(),
        ) by {
            if j < n {
                assert(hits[i] == before[i] && hits[j] == before[j]);
            } else if i < n {
                assert(hits[i] == before[i] && hits[j] == more[j - n]);
            } else {
                assert(hits[i] == more[i - n] && hits[j] == more[j - n]);
            }
        }
        assert forall|e: int, t: int|
            0 <= e < len && 0 <= t < piece.entries[e].transactions.len() && role_of(
                searchers,
                targets,
                #[trigger] piece.entries[e].transactions[t],
            ) is Some implies exists|i: int|
            0 <= i < hits.len() && (#[trigger] hits[i]).entry == base + e && hits[i].transaction
                == t by {
            if e < len - 1 {
                let i = choose|i: int|
                    0 <= i < before.len() && (#[trigger] before[i]).entry == base + e
                        && before[i].transaction == t;
                assert(hits[i] == before[i]);
            } else {
                let i = choose|i: int|
                    0 <= i < more.len() && (#[trigger] more[i]).transaction == t;
                assert(hits[n + i] == more[i]);
            }
        }
    }
}

impl RaceView {
    /// A piece of a batch adds a hit for each of its transactions that the bot or
    /// the wallet pays for, where that transaction stands, and for no other; and
    /// everything it holds is counted behind what was seen of its batch before.
    #[verifier::spinoff_prover]
    #[verifier::rlimit(60)]
    pub proof fn a_piece_adds_what_it_holds(
        self,
        searchers: Set<[u8; 32]>,
        targets: Set<[u8; 32]>,
        piece: BatchView,
    )
        ensures
            ({
                let more = self.with_piece(searchers, targets, piece);
                let seen: int = if self.batches.contains_key(piece.first_shred) {
                    self.batches[piece.first_shred].entries.len() as int
                } else {
                    0
                };
                let added = more.hits.skip(self.hits.len() as int);
                &&& more.hits.len() >= self.hits.len()
                &&& more.hits.take(self.hits.len() as int) == self.hits
                &&& forall|i: int|
                    0 <= i < added.len() ==> hit_of(
                        searchers,
                        targets,
                        piece,
                        seen,
                        (#[trigger] added[i]).entry - seen,
                        added[i].transaction,
                        added[i],
                    )
                &&& forall|i: int, j: int|
                    0 <= i < j < added.len() ==> precedes(
                        (#[trigger] added[i]).place(),
                        (#[trigger] added[j]).place(),
                    )
                &&& forall|e: int, t: int|
                    0 <= e < piece.entries.len() && 0 <= t < piece.entries[e].transactions.len() && (
                    #[trigger] piece.entries[e].transactions[t]).account_keys.len() > 0 && (
                    searchers.contains(piece.entries[e].transactions[t].account_keys[0])
                        || targets.contains(piece.entries[e].transactions[t].account_keys[0]))
                        ==> exists|i: int|
                        0 <= i < added.len() && (#[trigger] added[i]).entry == seen + e
                            && added[i].transaction == t
                &&& more.batches.contains_key(piece.first_shred)
                &&& more.batches[piece.first_shred].entries.len() == seen + piece.entries.len()
                &&& forall|e: int|
                    0 <= e < seen ==> #[trigger] more.batches[piece.first_shred].entries[e]
                        == self.batches[piece.first_shred].entries[e]
                &&& forall|e: int|
                    0 <= e < piece.entries.len() && (
                    #[trigger] piece.entries[e]).transactions.len() <= u32::MAX
                        ==> more.batches[piece.first_shred].entries[seen + e]
                        == piece.entries[e].transactions.len()
                &&& piece.last_shred <= more.batches[piece.first_shred].last_shred
                &&& self.batches.contains_key(piece.first_shred)
                    ==> self.batches[piece.first_shred].last_shred
                    <= more.batches[piece.first_shred].last_shred
                &&& more.batches[piece.first_shred].last_shred == piece.last_shred || (
                self.batches.contains_key(piece.first_shred)
                    && more.batches[piece.first_shred].last_shred
                    == self.batches[piece.first_shred].last_shred)
                &&& forall|other: u32|
                    other != piece.first_shred ==> (#[trigger] more.batches.contains_key(other)
                        <==> self.batches.contains_key(other)) && (self.batches.contains_key(other)
                        ==> more.batches[other] == self.batches[other])
            }),
    {
        let span = self.span(piece.first_shred, piece.last_shred);
        let base = span.entries.len() as int;
        let len = piece.entries.len() as int;
        lemma_piece_hits_are(searchers, targets, piece, base, len);
        let hits = piece_hits(searchers, targets, piece.first_shred, base, piece.entries, len);
        let more = self.with_piece(searchers, targets, piece);
        assert(more.hits.take(self.hits.len() as int) =~= self.hits);
        assert(more.hits.skip(self.hits.len() as int) =~= hits);
        assert forall|e: int|
            0 <= e < piece.entries.len() && (#[trigger] piece.entries[e]).transactions.len()
                <= u32::MAX implies more.batches[piece.first_shred].entries[base + e]
            == piece.entries[e].transactions.len() by {
            assert(more.batches[piece.first_shred].entries[base + e] == piece_counts(
                piece.entries,
            )[e]);
        }
    }
}

proof fn lemma_reports_hold(slots: Seq<(u64, Slot)>, at: int) -> (from: int)
    requires
        0 <= at < slots.len(),
    ensures
        ({
            let report = slots[at].1@.report(slots[at].0);
            &&& 0 <= from
            &&& from + report.len() <= all_reports(slots).len()
            &&& all_reports(slots).subrange(from, from + report.len()) == report
        }),
    decreases slots.len(),
{
    let before = all_reports(slots.drop_last());
    let report = slots[at].1@.report(slots[at].0);
    if at == slots.len() - 1 {
        let from = before.len() as int;
        assert(all_reports(slots).subrange(from, from + report.len()) =~= report);
        from
    } else {
        assert(slots.drop_last()[at] == slots[at]);
        let from = lemma_reports_hold(slots.drop_last(), at);
        assert(all_reports(slots).subrange(from, from + report.len()) =~= before.subrange(
            from,
            from + report.len(),
        ));
        from
    }
}

/// A slot nothing has come of for a second is reported as it stands and let go, once
/// its tracker looks; one that something has come of since is left open.
pub proof fn a_quiet_slot_is_reported(tracker: Tracker, slot: u64, now: u64, post: Tracker) -> (from:
    int)
    requires
        tracker.settled(now, post),
        tracker.slots.sweep_due(now),
        tracker.slots.retention() == 1_000_000_000,
        tracker.slots.cap() == 64,
        tracker.slots@.contains_key(slot),
        tracker.slots@[slot].updated <= now,
    ensures
        now - tracker.slots@[slot].updated >= 1_000_000_000 ==> {
            let report = tracker.slots@[slot].value@.report(slot);
            let lines = line_views(post.lines@);
            &&& !post.slots@.contains_key(slot)
            &&& tracker.lines@.len() <= from
            &&& from + report.len() <= lines.len()
            &&& lines.subrange(from, from + report.len()) == report
        },
        now - tracker.slots@[slot].updated < 1_000_000_000 && tracker.slots@.len() <= 64
            ==> post.slots@.contains_key(slot) && post.slots@[slot] == tracker.slots@[slot],
{
    let kept = fresh(tracker.slots@, now, tracker.slots.retention());
    let expired = choose|expired: Seq<(u64, Slot)>| #[trigger]
        lists_expired(tracker.slots@, kept, expired) && line_views(post.lines@) == line_views(
            tracker.lines@,
        ) + all_reports(expired);
    tracker.slots.lemma_finite();
    crate::aged::entries_live_as_long_as_they_are_touched(
        tracker.slots@,
        now,
        tracker.slots.retention(),
        64,
        post.slots@,
        expired,
        slot,
    );
    if now - tracker.slots@[slot].updated >= 1_000_000_000 {
        let at = choose|i: int|
            0 <= i < expired.len() && #[trigger] expired[i] == (
                slot,
                tracker.slots@[slot].value,
            );
        let from = lemma_reports_hold(expired, at);
        let report = tracker.slots@[slot].value@.report(slot);
        let before = line_views(tracker.lines@);
        assert((before + all_reports(expired)).subrange(
            before.len() + from,
            before.len() + from + report.len(),
        ) =~= all_reports(expired).subrange(from, from + report.len()));
        before.len() + from
    } else {
        0
    }
}

/// In every pair line that is reported the gap is negative where the bot went first and
/// positive where the wallet did, and without its sign one more than the number of
/// transactions held that lie between the two.
pub proof fn a_reported_pair_says_who_went_first(
    race: Slot,
    slot: u64,
    lines: Vec<RaceLine>,
    i: int,
    j: int,
)
    requires
        call_ensures(Slot::report, (&race, slot), lines),
        ({
            let targets = race@.hits.filter(|hit: HitView| hit.role == Role::Target);
            let searchers = race@.hits.filter(|hit: HitView| hit.role == Role::Searcher);
            &&& 0 <= i < targets.len()
            &&& 0 <= j < searchers.len()
            &&& targets.len() * searchers.len() <= 64
            &&& race@.stands_at(targets[i].place())
            &&& race@.stands_at(searchers[j].place())
            &&& race@.between(targets[i].place(), searchers[j].place()).len() < i64::MAX
            &&& race@.between(searchers[j].place(), targets[i].place()).len() < i64::MAX
            &&& race@.entries_from(targets[i].place(), searchers[j].place()).len() <= i64::MAX
            &&& race@.entries_from(searchers[j].place(), targets[i].place()).len() <= i64::MAX
        }),
    ensures
        ({
            let targets = race@.hits.filter(|hit: HitView| hit.role == Role::Target);
            let searchers = race@.hits.filter(|hit: HitView| hit.role == Role::Searcher);
            let (wallet, bot) = (targets[i].place(), searchers[j].place());
            let at = i * searchers.len() + j;
            &&& lines@.len() == targets.len() * searchers.len()
            &&& 0 <= at < lines@.len()
            &&& lines@[at]@ matches LineView::Pair { slot: reported, target, searcher, tx_gap, .. }
            &&& reported == slot
            &&& target == targets[i].signature
            &&& searcher == searchers[j].signature
            &&& precedes(bot, wallet) ==> tx_gap == -(race@.between(bot, wallet).len() + 1)
            &&& precedes(wallet, bot) ==> tx_gap == race@.between(wallet, bot).len() + 1
            &&& bot == wallet ==> tx_gap == 0
        }),
{
    let targets = race@.hits.filter(|hit: HitView| hit.role == Role::Target);
    let searchers = race@.hits.filter(|hit: HitView| hit.role == Role::Searcher);
    race@.every_pair_is_reported(slot, i, j);
    race@.a_pair_says_who_went_first(slot, targets[i], searchers[j]);
    assert(line_views(lines@).len() == lines@.len());
    assert(line_views(lines@)[i * searchers.len() + j] == lines@[i * searchers.len() + j]@);
}

/// Telling a tracker of a piece adds it to its slot, as of the time it came, by the
/// wallets the tracker was made with, and leaves every other slot alone.
pub proof fn a_tracker_takes_in_every_piece(
    tracker: &mut Tracker,
    slot: u64,
    batch: &DecodedBatch,
    now: u64,
)
    requires
        call_ensures(Tracker::batch_at, (tracker, slot, batch, now), ()),
        !old(tracker).slots.sweep_due(now),
    ensures
        final(tracker).slots@.contains_key(slot),
        final(tracker).slots@[slot].updated == now,
        final(tracker).slots@[slot].value@ == (if old(tracker).slots@.contains_key(slot) {
            old(tracker).slots@[slot].value@
        } else {
            RaceView { batches: Map::empty(), hits: Seq::empty() }
        }).with_piece(old(tracker).searchers@, old(tracker).targets@, batch@),
        forall|other: u64|
            other != slot ==> (#[trigger] final(tracker).slots@.contains_key(other) <==> old(
                tracker
            ).slots@.contains_key(other)) && (old(tracker).slots@.contains_key(other) ==> final(
                tracker
            ).slots@[other] == old(tracker).slots@[other]),
        line_views(final(tracker).lines@) == line_views(old(tracker).lines@),
{
}

/// A transaction is the bot's where one of the bot's wallets pays for it, and else the
/// wallet's where one of those watched does; nobody's otherwise.
pub proof fn who_pays_is_who_it_is_of(
    tracker: Tracker,
    transaction: &Transaction,
    role: Option<Role>,
)
    requires
        call_ensures(Tracker::role, (&tracker, transaction), role),
    ensures
        transaction.account_keys@.len() == 0 ==> role is None,
        transaction.account_keys@.len() > 0 ==> {
            let payer = transaction.account_keys@[0];
            &&& tracker.searchers@.contains(payer) ==> role == Some(Role::Searcher)
            &&& !tracker.searchers@.contains(payer) && tracker.targets@.contains(payer) ==> role
                == Some(Role::Target)
            &&& !tracker.searchers@.contains(payer) && !tracker.targets@.contains(payer)
                ==> role is None
        },
{
}

/// A tracker is made just where there is a wallet to race, follows those it is told of,
/// and begins with nothing seen: slots settle a second after they fall quiet, and no
/// more than 64 are followed at once.
pub proof fn a_tracker_follows_whom_it_is_told(
    searchers: &[[u8; 32]],
    targets: &[[u8; 32]],
    clock: Clock,
    made: Option<Tracker>,
    wallet: [u8; 32],
)
    requires
        call_ensures(Tracker::new, (searchers, targets, clock), made),
    ensures
        made is Some <==> targets@.len() > 0,
        made matches Some(tracker) ==> {
            &&& tracker.searchers@.contains(wallet) <==> searchers@.contains(wallet)
            &&& tracker.targets@.contains(wallet) <==> targets@.contains(wallet)
            &&& tracker.slots@.len() == 0
            &&& tracker.slots.retention() == 1_000_000_000
            &&& tracker.slots.cap() == 64
            &&& tracker.lines@.len() == 0
        },
{
}

} // verus!
