//! Reading a batch of entries as its bytes arrive.

use crate::shred::{little_endian, read_u64};
use crate::wire::{entry_on_wire, read_entry, Decoding, DecodingView, Entry, EntryView};
use vstd::prelude::*;
use vstd::slice::slice_subrange;

verus! {

/// A batch opens with the number of entries in it, as bincode writes the length
/// of any sequence: eight little-endian bytes. Nothing else about the batch can
/// be read until they have arrived.
pub const ENTRY_COUNT: usize = 8;

/// The smallest an entry can be on the wire: a hash count, a hash, and a
/// transaction vector with nothing in it. A batch that declares more entries
/// than its bytes could ever hold has not been cut short, it is not a batch.
pub const MIN_ENTRY_BYTES: u64 = 48;

/// Bytes a batch may run to, with no shred closing it, before it is given up
/// on.
///
/// The reason for the bound is cost rather than plausibility. A prefix that
/// will not decode is re-read from the batch's first byte by every shred that
/// extends it, because there is nowhere to resume from until an entry comes out
/// whole — and the length of that run is whatever a sender chooses to send.
///
/// The value is set where a legitimate batch cannot reach it. A batch is what
/// the leader hands to the shredder at one go, which a 6.25 ms tick bounds; a
/// mainnet block is a megabyte or two across a whole 400 ms slot, so about
/// 5 MB/s. Filling this inside one tick would be eight times that rate.
pub const MAX_BATCH_BYTES: usize = 262_144;

/// Where a pass of the decoder left the batch.
#[derive(Clone, Copy, Debug, PartialEq, Eq, Structural)]
pub enum Decoded {
    /// The bytes end part way through an entry, which is what a batch still
    /// arriving looks like.
    Waiting,
    /// Every entry the batch declared has been decoded.
    Done,
    /// The bytes are not the entries they claim to be.
    Invalid,
}

/// How far the run of shreds beginning at a batch's first index reaches, and
/// what it holds. Everything up to the first gap is readable, whether or not
/// the shred that closes the batch has turned up.
#[derive(Clone, Copy, Debug)]
pub struct Extent {
    /// Highest index in the run.
    pub last: u32,
    /// The run ends at a shred that closes the batch, so there is no more of it
    /// to come.
    pub complete: bool,
    pub first_received: u64,
    pub recovered: bool,
    /// Bytes the run holds, counted from the batch's first byte.
    pub len: usize,
}

/// How far a batch has been decoded. Entries are handed over as the shreds
/// carrying them arrive, so what has to survive between shreds is the point in
/// the batch's bytes the decoder reached and how many entries it is still owed.
#[derive(Clone, Copy, Debug)]
pub struct Progress {
    /// Bytes already turned into entries.
    pub consumed: usize,
    /// Entries still to come. `None` until the count the batch opens with has
    /// arrived.
    pub remaining: Option<u64>,
    /// Set once entries have been handed over, so the wait for the first of
    /// them is recorded once and a batch that has already yielded something is
    /// never mistaken for an empty one.
    pub opened: bool,
    /// Nothing more will come out of this batch: either every entry it declared
    /// was decoded, or its bytes turned out not to be entries at all.
    pub closed: bool,
    /// How far the run reached when it was last walked. A run only ever grows
    /// forward, so the next walk resumes at the frontier instead of retracing
    /// the shreds behind it — without this a batch of `n` shreds costs `n`
    /// steps for every one of them.
    pub extent: Option<Extent>,
    /// Where reading picks up: the first shred whose bytes have not all become
    /// entries, and the offset at which it begins in the batch. Kept for the
    /// same reason as `extent`, for the walk that skips what is already read.
    pub resume: Option<(u32, usize)>,
}

impl Progress {
    /// The state of a batch nothing has been read of.
    pub open spec fn unread() -> Progress {
        Progress {
            consumed: 0,
            remaining: None,
            opened: false,
            closed: false,
            extent: None,
            resume: None,
        }
    }
}

impl Default for Progress {
    fn default() -> (progress: Progress)
        ensures
            progress == Progress::unread(),
    {
        Progress {
            consumed: 0,
            remaining: None,
            opened: false,
            closed: false,
            extent: None,
            resume: None,
        }
    }
}

/// What a stretch of unread bytes amounts to.
#[verifier::ext_equal]
pub struct Reading {
    pub entries: Seq<EntryView>,
    /// Bytes the entries took, the count in front of them included.
    pub taken: nat,
    pub remaining: Option<u64>,
    pub outcome: Decoded,
}

impl Reading {
    /// The same reading with `entries`, which took `taken` bytes, in front.
    pub open spec fn after(self, entries: Seq<EntryView>, taken: nat) -> Reading {
        Reading {
            entries: entries + self.entries,
            taken: taken + self.taken,
            remaining: self.remaining,
            outcome: self.outcome,
        }
    }
}

/// A reading that got nowhere.
pub open spec fn stuck(remaining: Option<u64>, outcome: Decoded) -> Reading {
    Reading { entries: Seq::empty(), taken: 0, remaining, outcome }
}

/// Reads up to `left` whole entries off the front of `unread`.
pub open spec fn read_entries(unread: Seq<u8>, left: u64) -> Reading
    decreases left,
{
    if left == 0 {
        stuck(Some(0), Decoded::Done)
    } else if unread.len() == 0 {
        stuck(Some(left), Decoded::Waiting)
    } else {
        match entry_on_wire(unread) {
            DecodingView::Whole(entry, len) => read_entries(
                unread.skip(len as int),
                (left - 1) as u64,
            ).after(seq![entry], len),
            DecodingView::Short => stuck(Some(left), Decoded::Waiting),
            DecodingView::Malformed => stuck(Some(left), Decoded::Invalid),
        }
    }
}

/// Reads a batch off the front of `unread`, of which `remaining` entries are
/// still owed, or none is known where the count is yet to be read.
pub open spec fn read_batch(unread: Seq<u8>, remaining: Option<u64>) -> Reading {
    match remaining {
        Some(left) => read_entries(unread, left),
        None => if unread.len() < ENTRY_COUNT {
            stuck(None, Decoded::Waiting)
        } else {
            let count = little_endian(unread, 0, ENTRY_COUNT as nat);
            if count * MIN_ENTRY_BYTES > MAX_BATCH_BYTES {
                stuck(None, Decoded::Invalid)
            } else {
                read_entries(unread.skip(ENTRY_COUNT as int), count as u64).after(
                    Seq::empty(),
                    ENTRY_COUNT as nat,
                )
            }
        },
    }
}

/// Whether a batch read this far can be read in pieces: whatever bytes may still
/// arrive, reading the lot at once gives what has been read already followed by
/// what reading on from there gives, and a batch that is done, or is none, stays
/// so.
pub open spec fn resumable(unread: Seq<u8>, remaining: Option<u64>) -> bool {
    let so_far = read_batch(unread, remaining);
    forall|more: Seq<u8>| #[trigger]
        read_batch(unread + more, remaining) == if so_far.outcome is Waiting {
            read_batch(unread.skip(so_far.taken as int) + more, so_far.remaining).after(
                so_far.entries,
                so_far.taken,
            )
        } else {
            so_far
        }
}

/// What is left of `bytes`, which begin at `base` in the batch, once `consumed`
/// bytes of the batch have been read.
pub open spec fn left_over(bytes: Seq<u8>, base: int, consumed: int) -> Seq<u8> {
    if consumed - base <= bytes.len() {
        bytes.skip(consumed - base)
    } else {
        Seq::empty()
    }
}

/// The entries, each as the values it holds.
pub open spec fn views(entries: Seq<Entry>) -> Seq<EntryView> {
    entries.map_values(|entry: Entry| entry@)
}

/// Whether entries read this far can be read in pieces, in the same sense.
spec fn entries_resumable(unread: Seq<u8>, left: u64) -> bool {
    let so_far = read_entries(unread, left);
    forall|more: Seq<u8>| #[trigger]
        read_entries(unread + more, left) == if so_far.outcome is Waiting {
            read_entries(unread.skip(so_far.taken as int) + more, so_far.remaining->0).after(
                so_far.entries,
                so_far.taken,
            )
        } else {
            so_far
        }
}

/// One more whole entry off the front: what is read then follows it.
proof fn lemma_one_more(
    whole: Seq<u8>,
    owed: u64,
    entries: Seq<EntryView>,
    at: int,
    left: u64,
    entry: EntryView,
    len: nat,
)
    requires
        0 <= at,
        left > 0,
        at + len <= whole.len(),
        at < whole.len(),
        entry_on_wire(whole.skip(at)) == DecodingView::Whole(entry, len),
        read_entries(whole, owed) == read_entries(whole.skip(at), left).after(entries, at as nat),
    ensures
        read_entries(whole, owed) == read_entries(
            whole.skip((at + len) as int),
            (left - 1) as u64,
        ).after(entries.push(entry), (at + len) as nat),
{
    let rest = read_entries(whole.skip((at + len) as int), (left - 1) as u64);
    assert(whole.skip(at).skip(len as int) =~= whole.skip((at + len) as int));
    assert(rest.after(seq![entry], len).after(entries, at as nat) =~= rest.after(
        entries.push(entry),
        (at + len) as nat,
    ));
}

proof fn lemma_views_push(entries: Seq<Entry>, entry: Entry)
    ensures
        views(entries.push(entry)) == views(entries).push(entry@),
{
    assert(views(entries.push(entry)) =~= views(entries).push(entry@));
}

/// Reads up to `owed` whole entries off the front of `rest`, and says where that
/// ended, how many bytes it took and how many entries are still owed.
fn take_entries(rest: &[u8], owed: u64, out: &mut Vec<Entry>) -> (read: (Decoded, usize, u64))
    ensures
        ({
            let reading = read_entries(rest@, owed);
            &&& read.0 == reading.outcome
            &&& read.1 == reading.taken
            &&& Some(read.2) == reading.remaining
            &&& read.1 <= rest@.len()
            &&& views(final(out)@) == views(old(out)@) + reading.entries
            &&& entries_resumable(rest@, owed)
        }),
{
    let ghost before = views(out@);
    let ghost unread = rest@;
    let mut at: usize = 0;
    let mut left: u64 = owed;
    let ghost mut entries: Seq<EntryView> = Seq::empty();
    let mut outcome = Decoded::Done;
    proof {
        assert(views(out@) =~= before + entries);
        assert forall|more: Seq<u8>| #[trigger]
            read_entries(unread + more, owed) == read_entries(
                (unread + more).skip(0),
                owed,
            ).after(entries, 0) by {
            assert((unread + more).skip(0) =~= unread + more);
            let reading = read_entries(unread + more, owed);
            assert(reading.after(Seq::empty(), 0) =~= reading);
        }
    }
    while left > 0
        invariant_except_break
            outcome is Done,
        invariant
            at <= rest@.len(),
            rest@ == unread,
            views(out@) == before + entries,
            forall|more: Seq<u8>| #[trigger]
                read_entries(unread + more, owed) == read_entries(
                    (unread + more).skip(at as int),
                    left,
                ).after(entries, at as nat),
        ensures
            match outcome {
                Decoded::Done => left == 0,
                Decoded::Waiting => left > 0 && read_entries(unread.skip(at as int), left) == stuck(
                    Some(left),
                    Decoded::Waiting,
                ),
                Decoded::Invalid => left > 0 && forall|more: Seq<u8>|
                    read_entries(#[trigger] (unread + more).skip(at as int), left) == stuck(
                        Some(left),
                        Decoded::Invalid,
                    ),
            },
        decreases left,
    {
        let pending = slice_subrange(rest, at, rest.len());
        assert(pending@ =~= unread.skip(at as int));
        if pending.len() == 0 {
            outcome = Decoded::Waiting;
            break;
        }
        match read_entry(pending) {
            Decoding::Whole(entry, len) => {
                let ghost whole = entry@;
                proof {
                    assert forall|more: Seq<u8>| #[trigger]
                        read_entries(unread + more, owed) == read_entries(
                            (unread + more).skip((at + len) as int),
                            (left - 1) as u64,
                        ).after(entries.push(whole), (at + len) as nat) by {
                        assert((unread + more).skip(at as int) =~= pending@ + more);
                        assert(entry_on_wire(pending@ + more) == entry_on_wire(pending@));
                        lemma_one_more(
                            unread + more,
                            owed,
                            entries,
                            at as int,
                            left,
                            whole,
                            len as nat,
                        );
                    }
                    lemma_views_push(out@, entry);
                    assert((before + entries).push(whole) =~= before + entries.push(whole));
                    entries = entries.push(whole);
                }
                out.push(entry);
                at = at + len as usize;
                left = left - 1;
            },
            Decoding::Short => {
                outcome = Decoded::Waiting;
                break;
            },
            Decoding::Malformed => {
                outcome = Decoded::Invalid;
                proof {
                    assert forall|more: Seq<u8>|
                        read_entries(#[trigger] (unread + more).skip(at as int), left) == stuck(
                            Some(left),
                            Decoded::Invalid,
                        ) by {
                        assert((unread + more).skip(at as int) =~= pending@ + more);
                        assert(entry_on_wire(pending@ + more) == entry_on_wire(pending@));
                    }
                }
                break;
            },
        }
    }
    proof {
        let none = Seq::<u8>::empty();
        assert(unread + none =~= unread);
        let so_far = read_entries(unread + none, owed);
        assert((unread + none).skip(at as int) =~= unread.skip(at as int));
        let expected = Reading { entries, taken: at as nat, remaining: Some(left), outcome };
        assert(stuck(Some(left), outcome).after(entries, at as nat) =~= expected);
        assert(so_far == expected);
        assert forall|more: Seq<u8>| #[trigger]
            read_entries(unread + more, owed) == if outcome is Waiting {
                read_entries(unread.skip(at as int) + more, left).after(entries, at as nat)
            } else {
                so_far
            } by {
            assert((unread + more).skip(at as int) =~= unread.skip(at as int) + more);
        }
    }
    (outcome, at, left)
}

/// The count read, the rest of the batch can be read in pieces just as its
/// entries can.
proof fn lemma_resume_behind_count(unread: Seq<u8>, count: u64)
    requires
        unread.len() >= ENTRY_COUNT,
        count == little_endian(unread, 0, ENTRY_COUNT as nat),
        count * MIN_ENTRY_BYTES <= MAX_BATCH_BYTES,
        entries_resumable(unread.skip(ENTRY_COUNT as int), count),
        read_entries(unread.skip(ENTRY_COUNT as int), count).taken <= unread.len() - ENTRY_COUNT,
    ensures
        resumable(unread, None),
{
    let behind = unread.skip(ENTRY_COUNT as int);
    let inner = read_entries(behind, count);
    let outer = read_batch(unread, None);
    assert forall|more: Seq<u8>| #[trigger]
        read_batch(unread + more, None) == if outer.outcome is Waiting {
            read_batch(unread.skip(outer.taken as int) + more, outer.remaining).after(
                outer.entries,
                outer.taken,
            )
        } else {
            outer
        } by {
        crate::shred::lemma_little_endian_front(unread, more, 0, ENTRY_COUNT as nat);
        assert((unread + more).skip(ENTRY_COUNT as int) =~= behind + more);
        assert(read_entries(behind + more, count) == if inner.outcome is Waiting {
            read_entries(behind.skip(inner.taken as int) + more, inner.remaining->0).after(
                inner.entries,
                inner.taken,
            )
        } else {
            inner
        });
        if inner.outcome is Waiting {
            assert(behind.skip(inner.taken as int) =~= unread.skip(outer.taken as int));
            lemma_waiting_owes(behind, count);
            let next = read_entries(behind.skip(inner.taken as int) + more, inner.remaining->0);
            assert(next.after(inner.entries, inner.taken).after(
                Seq::empty(),
                ENTRY_COUNT as nat,
            ) =~= next.after(outer.entries, outer.taken));
        }
    }
}

/// However reading entries ends, how many are still owed is known.
proof fn lemma_waiting_owes(unread: Seq<u8>, left: u64)
    ensures
        read_entries(unread, left).remaining is Some,
    decreases left,
{
    if left > 0 && unread.len() > 0 {
        if let DecodingView::Whole(_, len) = entry_on_wire(unread) {
            lemma_waiting_owes(unread.skip(len as int), (left - 1) as u64);
        }
    }
}

/// Reads whole entries out of `bytes`, resuming where the last pass stopped and
/// appending what it gets to `out`.
///
/// Only entries that are entirely present are taken, so the pass that finds the
/// batch cut short leaves everything it could not finish for the next one. The
/// cost of that is re-reading the bytes of one part-arrived entry per shred,
/// which is bounded by an entry and is the price of not waiting for the rest of
/// the batch.
///
/// `base` is where `bytes` begins in the batch, since what is handed over is
/// only the part of it that has not been read yet.
pub fn decode(bytes: &[u8], base: usize, progress: &mut Progress, out: &mut Vec<Entry>) -> (decoded:
    Decoded)
    requires
        base <= old(progress).consumed,
        base + bytes@.len() <= usize::MAX,
    ensures
        ({
            let unread = left_over(bytes@, base as int, old(progress).consumed as int);
            let reading = read_batch(unread, old(progress).remaining);
            &&& decoded == reading.outcome
            &&& views(final(out)@) == views(old(out)@) + reading.entries
            &&& reading.taken <= unread.len()
            &&& *final(progress) == (Progress {
                consumed: (old(progress).consumed + reading.taken) as usize,
                remaining: reading.remaining,
                ..*old(progress)
            })
            &&& old(progress).consumed + reading.taken <= usize::MAX
            &&& resumable(unread, old(progress).remaining)
        }),
{
    let ghost unread = left_over(bytes@, base as int, progress.consumed as int);
    let skipped: usize = progress.consumed - base;
    let rest = if skipped <= bytes.len() {
        slice_subrange(bytes, skipped, bytes.len())
    } else {
        slice_subrange(bytes, 0, 0)
    };
    assert(rest@ =~= unread);
    if let Some(owed) = progress.remaining {
        let (outcome, taken, left) = take_entries(rest, owed, out);
        progress.consumed = progress.consumed + taken;
        progress.remaining = Some(left);
        return outcome;
    }
    if rest.len() < ENTRY_COUNT {
        proof {
            assert(views(out@) =~= views(out@) + Seq::empty());
            assert forall|more: Seq<u8>| #[trigger]
                read_batch(unread + more, None) == read_batch(unread.skip(0) + more, None).after(
                    Seq::empty(),
                    0,
                ) by {
                assert(unread.skip(0) =~= unread);
                let reading = read_batch(unread + more, None);
                assert(reading =~= reading.after(Seq::empty(), 0));
            }
        }
        return Decoded::Waiting;
    }
    let count: u64 = match read_u64(rest, 0) {
        Some(count) => count,
        None => 0,
    };
    // Refused here rather than left to the entries, which would otherwise spend
    // the rest of the batch's arrival being told they are one short of a count
    // nothing could satisfy.
    if count > MAX_BATCH_BYTES as u64 / MIN_ENTRY_BYTES {
        proof {
            assert(views(out@) =~= views(out@) + Seq::empty());
            assert forall|more: Seq<u8>| #[trigger]
                read_batch(unread + more, None) == read_batch(unread, None) by {
                crate::shred::lemma_little_endian_front(unread, more, 0, ENTRY_COUNT as nat);
            }
        }
        return Decoded::Invalid;
    }
    let behind = slice_subrange(rest, ENTRY_COUNT, rest.len());
    assert(behind@ =~= unread.skip(ENTRY_COUNT as int));
    let (outcome, taken, left) = take_entries(behind, count, out);
    proof {
        let inner = read_entries(behind@, count);
        assert(inner.after(Seq::empty(), ENTRY_COUNT as nat).entries =~= inner.entries);
        lemma_resume_behind_count(unread, count);
    }
    progress.consumed = progress.consumed + (ENTRY_COUNT + taken);
    progress.remaining = Some(left);
    outcome
}

/// Whether `bytes` hold `entries` one behind the other from `ends[0]` on, the
/// `i`-th of them up to `ends[i + 1]`.
pub open spec fn lie_in(bytes: Seq<u8>, entries: Seq<EntryView>, ends: Seq<int>) -> bool {
    &&& ends.len() == entries.len() + 1
    &&& forall|i: int| #![trigger entries[i]]
        0 <= i < entries.len() ==> 0 <= ends[i] < bytes.len() && ends[i] <= ends[i + 1]
            && entry_on_wire(bytes.skip(ends[i])) == DecodingView::Whole(
            entries[i],
            (ends[i + 1] - ends[i]) as nat,
        )
    &&& 0 <= ends.last() <= bytes.len()
}

proof fn lemma_lie_in(
    bytes: Seq<u8>,
    entries: Seq<EntryView>,
    ends: Seq<int>,
    left: u64,
    at: int,
)
    requires
        lie_in(bytes, entries, ends),
        0 <= at <= entries.len() <= left,
        forall|i: int| 0 <= i < ends.len() ==> #[trigger] ends[i] <= bytes.len(),
    ensures
        read_entries(bytes.skip(ends[at]), (left - at) as u64) == read_entries(
            bytes.skip(ends.last()),
            (left - entries.len()) as u64,
        ).after(entries.skip(at), (ends.last() - ends[at]) as nat),
        ends[at] <= ends.last(),
    decreases entries.len() - at,
{
    let rest = read_entries(bytes.skip(ends.last()), (left - entries.len()) as u64);
    if at == entries.len() {
        assert(rest.after(entries.skip(at), 0) =~= rest);
    } else {
        lemma_lie_in(bytes, entries, ends, left, at + 1);
        let entry = entries[at];
        let len = (ends[at + 1] - ends[at]) as nat;
        let unread = bytes.skip(ends[at]);
        assert(ends[at + 1] <= bytes.len());
        assert(unread.skip(len as int) =~= bytes.skip(ends[at + 1]));
        assert(read_entries(unread, (left - at) as u64) == read_entries(
            unread.skip(len as int),
            (left - at - 1) as u64,
        ).after(seq![entry], len));
        assert(rest.after(entries.skip(at + 1), (ends.last() - ends[at + 1]) as nat).after(
            seq![entry],
            len,
        ) =~= rest.after(entries.skip(at), (ends.last() - ends[at]) as nat)) by {
            assert(entries.skip(at) =~= seq![entry] + entries.skip(at + 1));
            assert(seq![entry] + (entries.skip(at + 1) + rest.entries) =~= entries.skip(at)
                + rest.entries);
        }
    }
}

/// The ends of entries that lie in some bytes lie in them too.
proof fn lemma_ends_within(bytes: Seq<u8>, entries: Seq<EntryView>, ends: Seq<int>)
    requires
        lie_in(bytes, entries, ends),
    ensures
        forall|i: int| 0 <= i < ends.len() ==> #[trigger] ends[i] <= bytes.len(),
{
    assert forall|i: int| 0 <= i < ends.len() implies #[trigger] ends[i] <= bytes.len() by {
        if i < entries.len() {
            assert(entries[i] == entries[i]);
        }
    }
}

/// The number a batch opens with is read low byte first.
proof fn lemma_count(bytes: Seq<u8>)
    ensures
        little_endian(bytes, 0, 8) == crate::shred::eight_at(bytes, 0),
{
    reveal_with_fuel(little_endian, 9);
}

/// A batch is read entry by entry: eight bytes say how many there are, low byte
/// first, and behind them they lie one after the other. Where all of them are
/// there, all of them come out, in order, and the batch is done, whatever follows.
pub proof fn a_batch_is_read_entry_by_entry(
    bytes: Seq<u8>,
    entries: Seq<EntryView>,
    ends: Seq<int>,
)
    requires
        bytes.len() >= 8,
        crate::shred::eight_at(bytes, 0) == entries.len(),
        entries.len() * 48 <= 262_144,
        lie_in(bytes, entries, ends),
        ends[0] == 8,
    ensures
        read_batch(bytes, None) == (Reading {
            entries,
            taken: ends.last() as nat,
            remaining: Some(0),
            outcome: Decoded::Done,
        }),
{
    lemma_count(bytes);
    lemma_ends_within(bytes, entries, ends);
    let n = entries.len() as u64;
    lemma_lie_in(bytes, entries, ends, n, 0);
    assert(entries.skip(0) =~= entries);
    let done = read_entries(bytes.skip(ends.last()), 0);
    assert(done.after(entries, (ends.last() - 8) as nat).after(Seq::empty(), 8) =~= Reading {
        entries,
        taken: ends.last() as nat,
        remaining: Some(0),
        outcome: Decoded::Done,
    });
}

/// Where fewer than that are there, those that are come out, and the batch waits for
/// the rest: the bytes end where one of them ends, or part way through the next.
pub proof fn a_batch_cut_short_gives_what_is_whole(
    bytes: Seq<u8>,
    entries: Seq<EntryView>,
    ends: Seq<int>,
)
    requires
        bytes.len() >= 8,
        entries.len() < crate::shred::eight_at(bytes, 0),
        crate::shred::eight_at(bytes, 0) * 48 <= 262_144,
        lie_in(bytes, entries, ends),
        ends[0] == 8,
        ends.last() == bytes.len() || entry_on_wire(bytes.skip(ends.last())) is Short,
    ensures
        read_batch(bytes, None).entries == entries,
        read_batch(bytes, None).taken == ends.last(),
        read_batch(bytes, None).outcome is Waiting,
        read_batch(bytes, None).remaining == Some(
            (crate::shred::eight_at(bytes, 0) - entries.len()) as u64,
        ),
{
    lemma_count(bytes);
    lemma_ends_within(bytes, entries, ends);
    let left = crate::shred::eight_at(bytes, 0) as u64;
    lemma_lie_in(bytes, entries, ends, left, 0);
    assert(entries.skip(0) =~= entries);
    let rest = stuck(Some((left - entries.len()) as u64), Decoded::Waiting);
    assert(read_entries(bytes.skip(ends.last()), (left - entries.len()) as u64) == rest);
    assert(rest.after(entries, (ends.last() - 8) as nat).entries =~= entries);
    assert(Seq::<EntryView>::empty() + entries =~= entries);
}

/// A batch that says it holds more entries than could ever fit, at 48 bytes for the
/// least of them and a quarter of a megabyte in all, is none; and until all eight
/// bytes of the number are there nothing is known of it.
pub proof fn a_count_no_batch_can_hold_is_refused(bytes: Seq<u8>)
    ensures
        bytes.len() >= 8 && crate::shred::eight_at(bytes, 0) * 48 > 262_144 ==> read_batch(
            bytes,
            None,
        ) == stuck(None, Decoded::Invalid),
        bytes.len() < 8 ==> read_batch(bytes, None) == stuck(None, Decoded::Waiting),
{
    lemma_count(bytes);
}

/// What is no entry ends a batch for good: those in front of it come out, and nothing
/// behind it does.
pub proof fn what_is_no_entry_ends_the_batch(
    bytes: Seq<u8>,
    entries: Seq<EntryView>,
    ends: Seq<int>,
)
    requires
        bytes.len() >= 8,
        entries.len() < crate::shred::eight_at(bytes, 0),
        crate::shred::eight_at(bytes, 0) * 48 <= 262_144,
        lie_in(bytes, entries, ends),
        ends[0] == 8,
        ends.last() < bytes.len(),
        entry_on_wire(bytes.skip(ends.last())) is Malformed,
    ensures
        read_batch(bytes, None).entries == entries,
        read_batch(bytes, None).outcome is Invalid,
{
    lemma_count(bytes);
    lemma_ends_within(bytes, entries, ends);
    let left = crate::shred::eight_at(bytes, 0) as u64;
    lemma_lie_in(bytes, entries, ends, left, 0);
    assert(entries.skip(0) =~= entries);
    let rest = stuck(Some((left - entries.len()) as u64), Decoded::Invalid);
    assert(read_entries(bytes.skip(ends.last()), (left - entries.len()) as u64) == rest);
    assert(rest.after(entries, (ends.last() - 8) as nat).entries =~= entries);
    assert(Seq::<EntryView>::empty() + entries =~= entries);
}

/// A batch that comes in two pieces gives every entry it holds, each once and in order,
/// wherever the first piece ended.
#[verifier::spinoff_prover]
#[verifier::rlimit(40)]
pub proof fn a_batch_in_two_pieces_gives_every_entry(
    front: &[u8],
    whole: &[u8],
    progress: &mut Progress,
    out: &mut Vec<Entry>,
    decoded: Decoded,
    later_progress: &mut Progress,
    later_out: &mut Vec<Entry>,
    later_decoded: Decoded,
    entries: Seq<EntryView>,
    ends: Seq<int>,
)
    requires
        call_ensures(decode, (front, 0, progress, out), decoded),
        call_ensures(decode, (whole, 0, later_progress, later_out), later_decoded),
        old(progress).consumed == 0,
        old(progress).remaining is None,
        old(out)@.len() == 0,
        *old(later_progress) == *final(progress),
        *old(later_out) == *final(out),
        front@.len() <= whole@.len() <= usize::MAX,
        whole@.take(front@.len() as int) == front@,
        decoded is Waiting,
        whole@.len() >= 8,
        crate::shred::eight_at(whole@, 0) == entries.len(),
        entries.len() * 48 <= 262_144,
        lie_in(whole@, entries, ends),
        ends[0] == 8,
    ensures
        later_decoded is Done,
        views(final(later_out)@) == entries,
        final(later_progress).consumed == ends.last(),
{
    let more = whole@.skip(front@.len() as int);
    let so_far = read_batch(front@, None);
    assert(left_over(front@, 0, 0) =~= front@);
    assert(front@ + more =~= whole@);
    a_batch_is_read_entry_by_entry(whole@, entries, ends);
    let consumed = final(progress).consumed as int;
    assert(consumed == so_far.taken);
    assert(left_over(whole@, 0, consumed) =~= front@.skip(so_far.taken as int) + more);
    let rest = read_batch(front@.skip(so_far.taken as int) + more, so_far.remaining);
    assert(read_batch(front@ + more, None) == rest.after(so_far.entries, so_far.taken));
    assert(views(old(out)@) =~= Seq::empty());
    assert(views(final(out)@) =~= so_far.entries);
    assert(views(final(later_out)@) =~= so_far.entries + rest.entries);
}

} // verus!
