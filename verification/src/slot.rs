//! What is held of one slot: its shreds, and how far its batches have been read.

use crate::decoder::{
    decode, left_over, read_batch, resumable, views, Decoded, Extent, Progress, MAX_BATCH_BYTES,
};
use crate::maps::{entry_mut, keys_in_order};
use crate::metrics::BatchOutcome;
use crate::starts::Starts;
use crate::sums::sum;
use crate::wire::{Entry, EntryView};
use std::collections::BTreeMap;
use vstd::prelude::*;
use vstd::slice::slice_subrange;

verus! {

broadcast use {vstd::std_specs::btree::group_btree_axioms, vstd::laws_cmp::group_laws_cmp};

/// An arena is rebuilt once the bytes stranded in it outweigh what is still
/// live. The floor keeps a slot that has seen a shred or two from compacting on
/// every duplicate, where copying costs more than the bytes it reclaims.
pub const COMPACT_FLOOR: usize = 65_536;

/// Roughly what one held shred costs outside the arena: a `StoredShred`, its
/// place in the `shreds` map, and the index it may add to `starts`. The slack in
/// a map's nodes is real and not addressable, so this is an estimate — the point
/// is that the cost is counted at all, not that it is exact to the byte.
pub const PER_SHRED_OVERHEAD: usize = 64;

/// The same, for the decoding state one batch keeps between shreds.
pub const PER_BATCH_OVERHEAD: usize = 128;

#[derive(Clone, Copy, Debug)]
pub struct StoredShred {
    /// Where this shred's entry bytes sit in the slot's arena.
    pub at: usize,
    pub len: u32,
    pub data_complete: bool,
    pub received: u64,
    /// Whether this shred came off the wire or out of erasure recovery. Carried
    /// only so a batch can say which of the two paid for its latency.
    pub recovered: bool,
}

/// The bytes of a batch that have arrived. Shreds are appended to the arena as
/// they arrive and a batch is a run of consecutive indices, so one delivered in
/// order is already contiguous there and can be read where it lies. Only a run
/// interleaved with something else has to be stitched into a buffer of its own.
pub enum Payload {
    Arena { at: usize, len: usize },
    Stitched(Vec<u8>),
}

/// What one shred did for the batch it belongs to.
pub struct Advance {
    /// Highest shred index whose bytes are accounted for by the entries handed
    /// over so far.
    pub last_shred: u32,
    pub entries: Vec<Entry>,
    /// When the batch's first shred arrived, which is what whichever of the two
    /// below is set is timed from.
    pub since: u64,
    /// Set on the pass that produced the batch's first entries.
    pub opened: bool,
    /// Set on the pass that finished the batch, with what became of it.
    pub finished: Option<BatchOutcome>,
    pub recovered: bool,
}

pub struct SlotBuffer {
    /// Entry bytes of every shred held, back to back. One growing buffer per
    /// slot rather than a `Vec` per shred: the packet path is what pays for
    /// those allocations, and a slot's bytes are all released together anyway.
    pub arena: Vec<u8>,
    /// Arena bytes no shred points at any more, left behind by duplicates.
    /// Nothing else ever reclaims, so compaction is what stops a stream of them
    /// from growing the arena without bound.
    pub stale: usize,
    pub shreds: BTreeMap<u32, StoredShred>,
    /// Indices at which a batch begins: zero, plus one past every
    /// data-complete shred held. Maintained on insert so that completion
    /// checks only ever touch the batches an insert could have changed,
    /// rather than rescanning the whole slot on every shred.
    pub starts: Starts,
    /// Decoding state of every batch begun in this slot, by the index it begins
    /// at. Held between shreds, which is what lets a batch be read in pieces.
    pub progress: BTreeMap<u32, Progress>,
    /// Index of the shred that closes the slot, once one has arrived. It is the
    /// only thing that tells us how many shreds the slot was supposed to have.
    pub last_index: Option<u32>,
    /// What the slot was last found to cost, and so what it stands for in the
    /// total kept over all slots.
    pub charged: usize,
}

/// A shred as its slot holds it, wherever in the arena its bytes may lie.
#[verifier::ext_equal]
pub struct HeldShred {
    pub data: Seq<u8>,
    pub data_complete: bool,
    pub received: u64,
    pub recovered: bool,
}

#[verifier::ext_equal]
pub struct SlotView {
    pub shreds: Map<u32, HeldShred>,
    pub progress: Map<u32, Progress>,
    pub last_index: Option<u32>,
}

#[verifier::ext_equal]
pub struct AdvanceView {
    pub last_shred: u32,
    pub entries: Seq<EntryView>,
    pub since: u64,
    pub opened: bool,
    pub finished: Option<BatchOutcome>,
    pub recovered: bool,
}

impl View for Advance {
    type V = AdvanceView;

    open spec fn view(&self) -> AdvanceView {
        AdvanceView {
            last_shred: self.last_shred,
            entries: views(self.entries@),
            since: self.since,
            opened: self.opened,
            finished: self.finished,
            recovered: self.recovered,
        }
    }
}

impl View for SlotBuffer {
    type V = SlotView;

    open spec fn view(&self) -> SlotView {
        SlotView {
            shreds: Map::new(
                |index: u32| self.shreds@.contains_key(index),
                |index: u32| held_shred(self.arena@, self.shreds@[index]),
            ),
            progress: self.progress@,
            last_index: self.last_index,
        }
    }
}

pub open spec fn held_shred(arena: Seq<u8>, shred: StoredShred) -> HeldShred {
    HeldShred {
        data: arena.subrange(shred.at as int, shred.at + shred.len),
        data_complete: shred.data_complete,
        received: shred.received,
        recovered: shred.recovered,
    }
}

impl SlotView {
    /// A slot nothing has arrived of.
    pub open spec fn empty() -> SlotView {
        SlotView { shreds: Map::empty(), progress: Map::empty(), last_index: None }
    }

    pub open spec fn has(self, index: int) -> bool {
        0 <= index <= u32::MAX && self.shreds.contains_key(index as u32)
    }

    pub open spec fn shred(self, index: int) -> HeldShred {
        self.shreds[index as u32]
    }

    /// Whether the shred held at `index` closes a batch.
    pub open spec fn closes(self, index: int) -> bool {
        self.has(index) && self.shred(index).data_complete
    }

    /// Whether a batch begins at `index`.
    pub open spec fn is_start(self, index: int) -> bool {
        index == 0 || self.closes(index - 1)
    }

    /// Where the batch that `index` belongs to begins: the nearest start at or
    /// below it.
    pub open spec fn containing(self, index: int) -> int
        decreases index,
    {
        if index <= 0 || self.is_start(index) {
            index
        } else {
            self.containing(index - 1)
        }
    }

    /// One past the last shred of the run beginning at `index`. A gap ends the
    /// run, and so does the shred that closes the batch.
    pub open spec fn run_end(self, index: int) -> int
        decreases u32::MAX + 1 - index,
    {
        if !self.has(index) {
            index
        } else if self.closes(index) {
            index + 1
        } else {
            self.run_end(index + 1)
        }
    }

    /// Entry bytes the shred at `index` carries.
    pub open spec fn data_len(self, index: int) -> nat {
        if self.has(index) {
            self.shred(index).data.len()
        } else {
            0
        }
    }

    /// Entry bytes the shreds from `from` up to `to` carry together.
    pub open spec fn span_len(self, from: int, to: int) -> nat {
        sum(|index: int| self.data_len(index), from, to)
    }

    /// Those bytes, in index order.
    pub open spec fn span(self, from: int, to: int) -> Seq<u8>
        decreases to - from,
    {
        if to <= from {
            Seq::empty()
        } else {
            self.span(from, to - 1) + self.shred(to - 1).data
        }
    }

    /// When the first of the shreds from `from` up to `to` arrived.
    pub open spec fn earliest(self, from: int, to: int) -> u64
        decreases to - from,
    {
        if to <= from + 1 || self.shred(to - 1).received < self.earliest(from, to - 1) {
            self.shred(to - 1).received
        } else {
            self.earliest(from, to - 1)
        }
    }

    /// Whether erasure recovery supplied any of the shreds from `from` up to
    /// `to`.
    pub open spec fn any_recovered(self, from: int, to: int) -> bool {
        exists|index: int| from <= index < to && #[trigger] self.shred(index).recovered
    }

    /// What the shreds from `start` up to `end` amount to.
    pub open spec fn extent_to(self, start: int, end: int) -> Extent {
        Extent {
            last: (end - 1) as u32,
            complete: self.closes(end - 1),
            first_received: self.earliest(start, end),
            recovered: self.any_recovered(start, end),
            len: self.span_len(start, end) as usize,
        }
    }

    /// The run beginning at `start`, if a shred is held there at all.
    pub open spec fn extent(self, start: int) -> Option<Extent> {
        if self.has(start) {
            Some(self.extent_to(start, self.run_end(start)))
        } else {
            None
        }
    }

    /// Whether `extent` is what the run beginning at `start` amounted to when it
    /// reached as far as `extent` says.
    pub open spec fn walked(self, start: int, extent: Extent) -> bool {
        &&& start <= extent.last
        &&& forall|index: int| start <= index <= extent.last ==> #[trigger] self.has(index)
        &&& forall|index: int| start <= index < extent.last ==> !#[trigger] self.closes(index)
        &&& extent == self.extent_to(start, extent.last + 1)
        &&& self.span_len(start, extent.last + 1) <= usize::MAX
    }

    /// The first of the shreds from `index` up to `end` whose bytes have not all
    /// been read, once `consumed` bytes counted from `start` have.
    pub open spec fn first_unread(self, start: int, index: int, end: int, consumed: int) -> int
        decreases end - index,
    {
        if index >= end || self.span_len(start, index + 1) > consumed {
            index
        } else {
            self.first_unread(start, index + 1, end, consumed)
        }
    }

    /// Whether what was learned by walking the batch at `start` still holds.
    pub open spec fn caches_hold(self, start: int, progress: Progress) -> bool {
        &&& progress.extent matches Some(extent) ==> self.walked(start, extent)
        &&& progress.resume matches Some((from, base)) ==> {
            &&& progress.extent matches Some(extent) && start <= from <= extent.last + 1
            &&& base == self.span_len(start, from as int)
            &&& base <= progress.consumed
        }
    }
}

impl SlotView {
    /// Entry bytes held in all.
    pub open spec fn total_len(self) -> nat {
        self.span_len(0, u32::MAX + 1)
    }

    /// A run with nothing closing it so far goes on wherever it is picked up.
    pub(crate) proof fn lemma_run_end_skip(self, start: int, to: int)
        requires
            start <= to,
            forall|index: int| start <= index < to ==> #[trigger] self.has(index) && !self.closes(
                index,
            ),
        ensures
            self.run_end(start) == self.run_end(to),
        decreases to - start,
    {
        if start < to {
            assert(self.has(start));
            self.lemma_run_end_skip(start + 1, to);
        }
    }

    proof fn lemma_span_len_step(self, from: int, to: int)
        requires
            from <= to,
        ensures
            self.span_len(from, to + 1) == self.span_len(from, to) + self.data_len(to),
    {
    }

    proof fn lemma_span_len_bound(self, from: int, to: int)
        requires
            0 <= from <= to <= u32::MAX + 1,
        ensures
            self.span_len(from, to) <= self.total_len(),
    {
        crate::sums::lemma_sum_part(
            |index: int| self.data_len(index),
            0,
            from,
            to,
            u32::MAX + 1,
        );
    }

    proof fn lemma_any_recovered_step(self, from: int, to: int)
        requires
            from <= to,
        ensures
            self.any_recovered(from, to + 1) == (self.any_recovered(from, to) || self.shred(
                to,
            ).recovered),
    {
        if self.any_recovered(from, to) {
            let index = choose|index: int|
                from <= index < to && #[trigger] self.shred(index).recovered;
            assert(self.shred(index).recovered);
        }
    }
}

impl SlotBuffer {
    /// Whether there is so much stranded in the arena that it is rebuilt before
    /// anything more goes in.
    pub open spec fn compacts(&self) -> bool {
        self.stale > COMPACT_FLOOR && self.stale > self.arena@.len() / 2
    }

    /// Where the shreds held lie by the time another is stored: where they lay, or
    /// end to end in index order if the arena is rebuilt first.
    pub open spec fn laid_out(&self) -> Map<u32, StoredShred> {
        if self.compacts() {
            self.packed()
        } else {
            self.shreds@
        }
    }

    /// Where the shreds held lie once the arena has been rebuilt.
    pub open spec fn packed(&self) -> Map<u32, StoredShred> {
        Map::new(
            |index: u32| self.shreds@.contains_key(index),
            |index: u32|
                StoredShred {
                    at: self@.span_len(0, index as int) as usize,
                    ..self.shreds@[index]
                },
        )
    }

    /// Where in the arena the next shred goes: behind everything else in it.
    pub open spec fn next_at(&self) -> nat {
        if self.compacts() {
            self@.total_len()
        } else {
            self.arena@.len()
        }
    }

    /// Bytes stranded in the arena by the time another shred is stored.
    pub open spec fn still_stale(&self) -> int {
        if self.compacts() {
            0
        } else {
            self.stale as int
        }
    }

    pub closed spec fn wf(&self) -> bool {
        &&& self.starts_match()
        &&& self.shreds_lie_within()
        &&& self.arena@.len() == self.stale + self@.total_len()
        &&& self.progress_holds()
    }

    /// `starts` lists where batches begin.
    spec fn starts_match(&self) -> bool {
        &&& self.starts.wf()
        &&& forall|index: u32| #[trigger]
            self.starts@.contains(index) <==> self@.is_start(index as int)
    }

    /// Every shred's bytes are in the arena.
    spec fn shreds_lie_within(&self) -> bool {
        forall|index: u32| #[trigger]
            self.shreds@.contains_key(index) ==> index < u32::MAX && self.shreds@[index].at
                + self.shreds@[index].len <= self.arena@.len()
    }

    /// Only batches whose beginning has been seen were begun, and what was
    /// learned by walking them holds.
    spec fn progress_holds(&self) -> bool {
        forall|start: u32| #[trigger]
            self.progress@.contains_key(start) ==> {
                &&& start == 0 || self@.has(start - 1)
                &&& self@.is_start(start as int) ==> self@.caches_hold(
                    start as int,
                    self.progress@[start],
                )
            }
    }

    pub fn new() -> (buffer: SlotBuffer)
        ensures
            buffer.wf(),
            buffer@ == SlotView::empty(),
            buffer.arena@.len() == 0,
            buffer.stale == 0,
            buffer.shreds@ == Map::<u32, StoredShred>::empty(),
            buffer.charged == 0,
    {
        let buffer = SlotBuffer {
            arena: Vec::new(),
            stale: 0,
            shreds: BTreeMap::new(),
            starts: Starts::new(),
            progress: BTreeMap::new(),
            last_index: None,
            charged: 0,
        };
        proof {
            assert(buffer@ =~= SlotView::empty());
            crate::sums::lemma_sum_zero(
                |index: int| buffer@.data_len(index),
                0,
                u32::MAX + 1,
            );
        }
        buffer
    }

    /// Arena bytes a held shred still points at. What the arena has grown to is
    /// a different number — it carries whatever duplicates stranded until the
    /// next compaction — and it is this one the per-slot cap is kept in, so
    /// that reclaiming bytes is not mistaken for holding fewer.
    pub fn live(&self) -> (live: usize)
        requires
            self.wf(),
        ensures
            live == self@.total_len(),
    {
        self.arena.len() - self.stale
    }

    /// The entry bytes of a shred of this slot.
    pub fn bytes(&self, shred: &StoredShred) -> (bytes: &[u8])
        requires
            shred.at + shred.len <= self.arena@.len(),
        ensures
            bytes@ == held_shred(self.arena@, *shred).data,
    {
        assert(self.arena.len() == self.arena@.len());
        slice_subrange(self.arena.as_slice(), shred.at, shred.at + shred.len as usize)
    }

    /// Walks the run of consecutive shreds beginning at `start`, which is as
    /// much of the batch as has arrived. A gap ends the walk, and so does the
    /// data-complete shred that closes the batch.
    ///
    /// `cached` is where an earlier walk of this same run stopped. A run grows
    /// only at its far end and the shreds already crossed cannot change under
    /// it — a duplicate that would change one drops the cache — so the walk
    /// resumes at the frontier and every shred of a batch is crossed once
    /// rather than once per shred that follows it.
    pub fn extent(&self, start: u32, cached: Option<Extent>) -> (extent: Option<Extent>)
        requires
            self.wf(),
            cached matches Some(cached) ==> self@.walked(start as int, cached),
        ensures
            extent == self@.extent(start as int),
            extent matches Some(extent) ==> self@.walked(start as int, extent),
            extent matches Some(extent) ==> extent.last < u32::MAX,
    {
        let ghost view = self@;
        let mut index: u32 = start;
        let mut first_received: Option<u64> = None;
        let mut recovered = false;
        let mut complete = false;
        let mut len: usize = 0;
        if let Some(cached) = cached {
            proof {
                assert(view.has(cached.last as int));
                assert(view.has(start as int));
                assert forall|i: int| start <= i < cached.last implies #[trigger] view.has(i)
                    && !view.closes(i) by {
                    assert(!view.closes(i));
                }
                view.lemma_run_end_skip(start as int, cached.last as int);
            }
            // A run that has reached its terminator is all there will ever be
            // of the batch, so there is nothing left to walk.
            if cached.complete {
                return Some(cached);
            }
            index = cached.last + 1;
            first_received = Some(cached.first_received);
            recovered = cached.recovered;
            len = cached.len;
        }
        while !complete && self.shreds.contains_key(&index)
            invariant
                self.wf(),
                view == self@,
                start <= index,
                forall|i: int| start <= i < index ==> #[trigger] view.has(i),
                forall|i: int| start <= i < index - 1 ==> !#[trigger] view.closes(i),
                index > start ==> complete == view.closes(index - 1),
                index == start ==> !complete && first_received is None && !recovered,
                index > start ==> first_received == Some(
                    view.earliest(start as int, index as int),
                ),
                recovered == view.any_recovered(start as int, index as int),
                len == view.span_len(start as int, index as int),
                complete ==> view.run_end(start as int) == index,
                !complete ==> view.run_end(start as int) == view.run_end(index as int),
            decreases u32::MAX - index,
        {
            if let Some(shred) = self.shreds.get(&index) {
                proof {
                    assert(view.has(index as int));
                    view.lemma_span_len_step(start as int, index as int);
                    view.lemma_span_len_bound(start as int, index + 1);
                    view.lemma_any_recovered_step(start as int, index as int);
                    assert(self.arena.len() == self.arena@.len());
                }
                len = len + shred.len as usize;
                first_received =
                match first_received {
                    Some(earliest) if earliest <= shred.received => Some(earliest),
                    _ => Some(shred.received),
                };
                recovered = recovered || shred.recovered;
                complete = shred.data_complete;
                index = index + 1;
            }
        }
        if index == start {
            assert(!view.has(start as int));
            return None;
        }
        match first_received {
            Some(first_received) => {
                assert(view.has(start as int));
                assert(view.run_end(start as int) == index);
                Some(Extent { last: index - 1, complete, first_received, recovered, len })
            },
            None => None,
        }
    }
}

impl SlotView {
    pub(crate) proof fn lemma_span(self, from: int, to: int)
        requires
            0 <= from <= to,
            forall|index: int| from <= index < to ==> #[trigger] self.has(index),
        ensures
            self.span(from, to).len() == self.span_len(from, to),
        decreases to - from,
    {
        if from < to {
            self.lemma_span(from, to - 1);
            assert(self.has(to - 1));
        }
    }

    /// A stretch of shreds begins with any shorter one from the same place.
    pub(crate) proof fn lemma_span_split(self, from: int, mid: int, to: int)
        requires
            from <= mid <= to,
        ensures
            self.span(from, to) == self.span(from, mid) + self.span(mid, to),
            self.span_len(from, to) == self.span_len(from, mid) + self.span_len(mid, to),
        decreases to - mid,
    {
        crate::sums::lemma_sum_split(|index: int| self.data_len(index), from, mid, to);
        if mid < to {
            self.lemma_span_split(from, mid, to - 1);
            assert(self.span(from, to) =~= self.span(from, mid) + self.span(mid, to));
        } else {
            assert(self.span(from, to) =~= self.span(from, mid) + self.span(mid, to));
        }
    }

    /// Shreds that end within what has been read can be passed over.
    proof fn lemma_first_unread_skip(
        self,
        start: int,
        index: int,
        to: int,
        end: int,
        consumed: int,
    )
        requires
            start <= index <= to <= end,
            self.span_len(start, to) <= consumed,
        ensures
            self.first_unread(start, index, end, consumed) == self.first_unread(
                start,
                to,
                end,
                consumed,
            ),
        decreases to - index,
    {
        if index < to {
            crate::sums::lemma_sum_split(|i: int| self.data_len(i), start, index + 1, to);
            self.lemma_first_unread_skip(start, index + 1, to, end, consumed);
        }
    }

    proof fn lemma_first_unread(self, start: int, index: int, end: int, consumed: int)
        requires
            start <= index <= end,
            self.span_len(start, index) <= consumed,
        ensures
            index <= self.first_unread(start, index, end, consumed) <= end,
            self.span_len(start, self.first_unread(start, index, end, consumed)) <= consumed,
        decreases end - index,
    {
        if !(index >= end || self.span_len(start, index + 1) > consumed) {
            self.lemma_first_unread(start, index + 1, end, consumed);
        }
    }
}

impl SlotBuffer {
    /// The bytes a payload stands for.
    pub open spec fn payload_bytes(&self, payload: Payload) -> Seq<u8> {
        match payload {
            Payload::Arena { at, len } => self.arena@.subrange(at as int, at + len),
            Payload::Stitched(stitched) => stitched@,
        }
    }

    /// Whether the shreds from `from` up to `to` lie end to end in the arena.
    pub open spec fn contiguous(&self, from: int, to: int) -> bool {
        forall|index: int|
            from < index < to ==> (#[trigger] self.shreds@[index as u32]).at
                == self.shreds@[(index - 1) as u32].at + self.shreds@[(index - 1) as u32].len
    }

    /// The run's bytes from `consumed` on, and where in the batch they begin.
    ///
    /// Shreds already turned into entries are left out, which is what keeps a
    /// run that arrived out of order from being stitched together again from
    /// scratch on every shred: what has to be copied is the undecoded tail, not
    /// the whole batch. A run laid end to end in the arena — which is what
    /// in-order delivery produces — is read where it lies and copied not at all.
    pub fn payload(&self, start: u32, extent: &Extent, progress: &mut Progress) -> (found: (
        Payload,
        usize,
    ))
        requires
            self.wf(),
            self@.walked(start as int, *extent),
            old(progress).resume matches Some((from, base)) ==> {
                &&& start <= from <= extent.last + 1
                &&& base == self@.span_len(start as int, from as int)
                &&& base <= old(progress).consumed
            },
        ensures
            ({
                let end = extent.last + 1;
                let from = self@.first_unread(
                    start as int,
                    start as int,
                    end,
                    old(progress).consumed as int,
                );
                &&& start <= from <= end
                &&& found.1 == self@.span_len(start as int, from)
                &&& found.1 <= old(progress).consumed
                &&& self.payload_bytes(found.0) == self@.span(from, end)
                &&& found.0 is Arena <==> self.contiguous(from, end)
                &&& found.0 matches Payload::Arena { at, len } ==> at + len <= self.arena@.len()
                &&& *final(progress) == (Progress {
                    resume: Some((from as u32, found.1)),
                    ..*old(progress)
                })
            }),
    {
        let ghost view = self@;
        let ghost end = extent.last + 1;
        let ghost consumed = progress.consumed as int;
        // Resuming where the last pass stopped rather than at the batch's first
        // shred: the shreds behind that point are read and stay read.
        let (mut from, mut base): (u32, usize) = match progress.resume {
            Some((from, base)) => (from, base),
            None => (start, 0),
        };
        proof {
            view.lemma_first_unread_skip(start as int, start as int, from as int, end, consumed);
            assert(view.has(extent.last as int));
            assert(self.shreds@.contains_key(extent.last));
        }
        let mut reached = false;
        while !reached && from <= extent.last
            invariant
                self.wf(),
                view == self@,
                view.walked(start as int, *extent),
                extent.last < u32::MAX,
                end == extent.last + 1,
                consumed == progress.consumed,
                start <= from <= end,
                base == view.span_len(start as int, from as int),
                base <= consumed,
                view.first_unread(start as int, start as int, end, consumed) == view.first_unread(
                    start as int,
                    from as int,
                    end,
                    consumed,
                ),
                reached ==> view.first_unread(start as int, from as int, end, consumed) == from,
            decreases
                    if reached {
                        0
                    } else {
                        end - from + 1
                    },
        {
            proof {
                assert(view.has(from as int));
                view.lemma_span_len_step(start as int, from as int);
                view.lemma_span_len_bound(start as int, from + 1);
                assert(self.arena.len() == self.arena@.len());
            }
            if let Some(shred) = self.shreds.get(&from) {
                let len: usize = shred.len as usize;
                if base + len > progress.consumed {
                    reached = true;
                } else {
                    base = base + len;
                    from = from + 1;
                }
            }
        }
        progress.resume = Some((from, base));
        // Every byte held has been read already. There is nothing to hand the
        // decoder, but it is still owed the chance to say the batch is short.
        if from > extent.last {
            assert(self.arena@.subrange(0, 0) =~= view.span(from as int, end));
            return (Payload::Arena { at: 0, len: 0 }, base);
        }
        let mut at: usize = 0;
        let mut len: usize = 0;
        let mut next: usize = 0;
        let mut contiguous = true;
        let mut member: u32 = from;
        while member <= extent.last
            invariant
                self.wf(),
                view == self@,
                view.walked(start as int, *extent),
                extent.last < u32::MAX,
                end == extent.last + 1,
                start <= from <= member <= end,
                len == view.span_len(from as int, member as int),
                member == from ==> contiguous,
                member > from ==> next == self.shreds@[(member - 1) as u32].at
                    + self.shreds@[(member - 1) as u32].len,
                next <= self.arena@.len(),
                contiguous == self.contiguous(from as int, member as int),
                contiguous && member > from ==> {
                    &&& next == at + len
                    &&& view.span(from as int, member as int) == self.arena@.subrange(
                        at as int,
                        at + len,
                    )
                },
            decreases end - member,
        {
            proof {
                assert(view.has(member as int));
                view.lemma_span_len_step(from as int, member as int);
                view.lemma_span_len_bound(from as int, member + 1);
                assert(self.arena.len() == self.arena@.len());
            }
            if let Some(shred) = self.shreds.get(&member) {
                if member == from {
                    at = shred.at;
                } else {
                    proof {
                        assert(self.shreds@[member as int as u32] == *shred);
                        if contiguous && shred.at == next {
                            assert forall|index: int| from < index < member + 1 implies (
                            #[trigger] self.shreds@[index as u32]).at == self.shreds@[(index
                                - 1) as u32].at + self.shreds@[(index - 1) as u32].len by {
                                if index < member {
                                    assert(self.contiguous(from as int, member as int));
                                }
                            }
                        }
                        if self.contiguous(from as int, member + 1) {
                            assert(self.contiguous(from as int, member as int));
                            assert(self.shreds@[member as int as u32].at == next);
                        }
                    }
                    contiguous = contiguous && shred.at == next;
                }
                proof {
                    if member == from {
                        assert(view.span(from as int, member as int) =~= Seq::empty());
                    }
                    assert(view.span(from as int, member + 1) == view.span(
                        from as int,
                        member as int,
                    ) + self.arena@.subrange(shred.at as int, shred.at + shred.len));
                    if contiguous {
                        assert(view.span(from as int, member + 1) =~= self.arena@.subrange(
                            at as int,
                            at + len + shred.len,
                        ));
                    }
                }
                next = shred.at + shred.len as usize;
                len = len + shred.len as usize;
                member = member + 1;
            }
        }
        if contiguous {
            return (Payload::Arena { at, len }, base);
        }
        let mut stitched: Vec<u8> = Vec::with_capacity(len);
        let mut member: u32 = from;
        while member <= extent.last
            invariant
                self.wf(),
                view == self@,
                view.walked(start as int, *extent),
                extent.last < u32::MAX,
                end == extent.last + 1,
                start <= from <= member <= end,
                stitched@ == view.span(from as int, member as int),
            decreases end - member,
        {
            proof {
                assert(view.has(member as int));
            }
            if let Some(shred) = self.shreds.get(&member) {
                stitched.extend_from_slice(self.bytes(shred));
                member = member + 1;
            }
        }
        (Payload::Stitched(stitched), base)
    }
}

impl SlotView {
    /// The nearest start at or below an index is a start, and no other lies
    /// between.
    pub proof fn lemma_containing(self, index: int)
        requires
            0 <= index,
        ensures
            0 <= self.containing(index) <= index,
            self.is_start(self.containing(index)),
            forall|other: int|
                self.containing(index) < other <= index ==> !#[trigger] self.is_start(other),
        decreases index,
    {
        if index > 0 && !self.is_start(index) {
            self.lemma_containing(index - 1);
        }
    }
}

impl SlotBuffer {
    /// Batches the shred at `index` could have carried forward: the one holding
    /// it and, when the shred closes a batch, the one beginning right after it —
    /// a boundary this insert may have just created in front of shreds already
    /// held. No other batch changes on one insert.
    ///
    /// A start that is not in `starts` yet is one whose preceding terminator has
    /// not arrived, and the shred is attributed to the nearest start below it
    /// instead. That is harmless: the run from that earlier start cannot reach
    /// past the terminator it is missing, so it never reads bytes that belong to
    /// a batch it is not.
    pub fn candidates(&self, index: u32) -> (found: [Option<u32>; 2])
        requires
            self.wf(),
            index < u32::MAX,
        ensures
            found[0] == Some(self@.containing(index as int) as u32),
            found[1] == if self@.is_start(index + 1) {
                Some((index + 1) as u32)
            } else {
                None
            },
    {
        self.affected(index)
    }

    fn affected(&self, index: u32) -> (found: [Option<u32>; 2])
        requires
            self.starts_match(),
            index < u32::MAX,
        ensures
            found[0] == Some(self@.containing(index as int) as u32),
            found[1] == if self@.is_start(index + 1) {
                Some((index + 1) as u32)
            } else {
                None
            },
    {
        proof {
            self@.lemma_containing(index as int);
            assert(self.starts@.contains(self@.containing(index as int) as u32));
        }
        let containing = self.starts.last_at_most(index);
        proof {
            let found = containing->0;
            assert(self@.is_start(found as int));
            assert(found >= self@.containing(index as int));
        }
        let following = if self.starts.contains(index + 1) {
            Some(index + 1)
        } else {
            None
        };
        [containing, following]
    }

    /// Rebuilds the arena around the shreds still held, rewriting their offsets.
    fn compact(&mut self)
        requires
            old(self).wf(),
        ensures
            final(self).wf(),
            final(self)@ == old(self)@,
            final(self).shreds@ == old(self).packed(),
            final(self).stale == 0,
            final(self).charged == old(self).charged,
    {
        let ghost view = self@;
        let ghost stranded = self.arena@;
        let ghost shreds = self.shreds@;
        let keys = keys_in_order(&self.shreds);
        proof {
            crate::maps::lemma_ascending_u32(keys@);
            assert forall|key: u32| keys@.contains(key) <==> shreds.contains_key(key) by {
                assert(keys@.to_set().contains(key) <==> shreds.dom().contains(key));
            }
        }
        let mut arena: Vec<u8> = Vec::with_capacity(self.arena.len() - self.stale);
        let mut i: usize = 0;
        let ghost mut bound: int = 0;
        while i < keys.len()
            invariant
                i <= keys@.len(),
                forall|a: int, b: int| 0 <= a < b < keys@.len() ==> keys@[a] < keys@[b],
                forall|key: u32| keys@.contains(key) <==> shreds.contains_key(key),
                forall|key: u32| #[trigger]
                    shreds.contains_key(key) ==> key < u32::MAX && shreds[key].at + shreds[key].len
                        <= stranded.len(),
                self.arena@ == stranded,
                self.shreds@.dom() == shreds.dom(),
                forall|j: int|
                    i <= j < keys@.len() ==> self.shreds@[#[trigger] keys@[j]] == shreds[keys@[j]],
                forall|j: int|
                    0 <= j < i ==> held_shred(arena@, self.shreds@[#[trigger] keys@[j]])
                        == held_shred(stranded, shreds[keys@[j]]) && self.shreds@[keys@[j]].at
                        + self.shreds@[keys@[j]].len <= arena@.len(),
                forall|j: int|
                    0 <= j < i ==> self.shreds@[#[trigger] keys@[j]] == (StoredShred {
                        at: view.span_len(0, keys@[j] as int) as usize,
                        ..shreds[keys@[j]]
                    }),
                self.starts == old(self).starts,
                self.progress == old(self).progress,
                self.last_index == old(self).last_index,
                self.charged == old(self).charged,
                view == old(self)@,
                view.shreds == old(self)@.shreds,
                stranded == old(self).arena@,
                shreds == old(self).shreds@,
                bound == if i == 0 {
                    0
                } else {
                    keys@[i - 1] + 1
                },
                arena@.len() == view.span_len(0, bound),
            decreases keys@.len() - i,
        {
            let key = keys[i];
            let ghost before = arena@;
            proof {
                assert(keys@.contains(key));
                assert(shreds.contains_key(key));
                assert(stranded.len() == self.arena.len());
            }
            if let Some(shred) = entry_mut(&mut self.shreds, &key) {
                let at: usize = arena.len();
                arena.extend_from_slice(
                    slice_subrange(
                        self.arena.as_slice(),
                        shred.at,
                        shred.at + shred.len as usize,
                    ),
                );
                shred.at = at;
            }
            proof {
                let moved = self.shreds@[key];
                assert(arena@.subrange(moved.at as int, moved.at + moved.len) =~= held_shred(
                    stranded,
                    shreds[key],
                ).data);
                assert forall|j: int| 0 <= j < i + 1 implies held_shred(
                    arena@,
                    self.shreds@[#[trigger] keys@[j]],
                ) == held_shred(stranded, shreds[keys@[j]]) && self.shreds@[keys@[j]].at
                    + self.shreds@[keys@[j]].len <= arena@.len() by {
                    if j < i {
                        let other = self.shreds@[keys@[j]];
                        assert(keys@[j] < keys@[i as int]);
                        assert(arena@.subrange(other.at as int, other.at + other.len)
                            =~= before.subrange(other.at as int, other.at + other.len));
                    }
                }
                let lens = |index: int| view.data_len(index);
                assert forall|index: int| bound <= index < key implies #[trigger] lens(index)
                    == 0 by {
                    if view.has(index) {
                        assert(shreds.contains_key(index as u32));
                        assert(keys@.contains(index as u32));
                        let j = choose|j: int| 0 <= j < keys@.len() && keys@[j] == index as u32;
                        if j < i {
                            if j < i - 1 {
                                assert(keys@[j] < keys@[i - 1]);
                            }
                        } else if j > i {
                            assert(keys@[i as int] < keys@[j]);
                        }
                    }
                }
                crate::sums::lemma_sum_split(lens, 0, bound, key as int);
                crate::sums::lemma_sum_zero(lens, bound, key as int);
                view.lemma_span_len_step(0, key as int);
                assert(view.has(key as int));
                assert(before.len() == view.span_len(0, key as int));
                assert forall|j: int| 0 <= j < i + 1 implies self.shreds@[#[trigger] keys@[j]]
                    == (StoredShred {
                    at: view.span_len(0, keys@[j] as int) as usize,
                    ..shreds[keys@[j]]
                }) by {
                    if j < i {
                        assert(keys@[j] < keys@[i as int]);
                    }
                }
                bound = key + 1;
            }
            i = i + 1;
        }
        self.arena = arena;
        self.stale = 0;
        proof {
            assert forall|key: u32| shreds.contains_key(key) implies held_shred(
                self.arena@,
                #[trigger] self.shreds@[key],
            ) == held_shred(stranded, shreds[key]) && self.shreds@[key].at + self.shreds@[key].len
                <= self.arena@.len() by {
                assert(keys@.contains(key));
                let j = choose|j: int| 0 <= j < keys@.len() && keys@[j] == key;
                assert(keys@[j] == key);
            }
            assert forall|key: u32| shreds.contains_key(key) implies #[trigger] self.shreds@[key]
                == old(self).packed()[key] by {
                assert(keys@.contains(key));
                let j = choose|j: int| 0 <= j < keys@.len() && keys@[j] == key;
                assert(keys@[j] == key);
            }
            assert(self.shreds@ =~= old(self).packed());
            assert(self@.shreds =~= view.shreds);
            assert(self@ =~= view);
            let lens = |index: int| view.data_len(index);
            assert forall|index: int| bound <= index < u32::MAX + 1 implies #[trigger] lens(index)
                == 0 by {
                if view.has(index) {
                    assert(keys@.contains(index as u32));
                    let j = choose|j: int| 0 <= j < keys@.len() && keys@[j] == index as u32;
                    if j < i - 1 {
                        assert(keys@[j] < keys@[i - 1]);
                    }
                }
            }
            crate::sums::lemma_sum_split(lens, 0, bound, u32::MAX + 1);
            crate::sums::lemma_sum_zero(lens, bound, u32::MAX + 1);
        }
    }
}

impl SlotView {
    /// The slot with what was learned by walking the batch at `start` thrown
    /// away.
    pub open spec fn forgetting(self, start: int) -> SlotView {
        let start = start as u32;
        if self.progress.contains_key(start) {
            SlotView {
                progress: self.progress.insert(
                    start,
                    Progress { extent: None, resume: None, ..self.progress[start] },
                ),
                ..self
            }
        } else {
            self
        }
    }

    /// The same for the batches the shred at `index` belongs to or opens.
    pub open spec fn invalidated(self, index: int) -> SlotView {
        let without = self.forgetting(self.containing(index));
        if self.is_start(index + 1) {
            without.forgetting(index + 1)
        } else {
            without
        }
    }

    /// The slot with `shred` stored at `index`. A second copy takes the place of
    /// the first, and whatever was learned by walking over that one goes with
    /// it.
    #[verifier::opaque]
    pub open spec fn inserted(self, index: u32, shred: HeldShred) -> SlotView {
        let stored = SlotView { shreds: self.shreds.insert(index, shred), ..self };
        if self.shreds.contains_key(index) {
            stored.invalidated(index as int)
        } else {
            stored
        }
    }

    /// What was learned by walking a batch holds in another slot that agrees on
    /// every shred the walk crossed.
    proof fn lemma_caches_agree(self, other: SlotView, start: int, progress: Progress)
        requires
            0 <= start,
            self.caches_hold(start, progress),
            progress.extent matches Some(extent) ==> forall|index: int|
                start <= index <= extent.last ==> #[trigger] other.has(index) && other.shred(index)
                    == self.shred(index),
        ensures
            other.caches_hold(start, progress),
    {
        if let Some(extent) = progress.extent {
            let end = extent.last + 1;
            assert forall|index: int| start <= index < end implies other.shred(index)
                == #[trigger] self.shred(index) && other.data_len(index) == self.data_len(
                index,
            ) by {
                assert(other.has(index));
                assert(self.has(index));
            }
            assert forall|index: int| start <= index < extent.last implies !#[trigger] other.closes(
                index,
            ) by {
                assert(other.has(index));
                assert(!self.closes(index));
            }
            self.lemma_extent_agrees(other, start, end);
            if let Some((from, base)) = progress.resume {
                crate::sums::lemma_sum_same(
                    |index: int| self.data_len(index),
                    |index: int| other.data_len(index),
                    start,
                    from as int,
                );
            }
            assert(other.has(extent.last as int));
            assert(self.has(extent.last as int));
            assert(self.any_recovered(start, end) == other.any_recovered(start, end)) by {
                if self.any_recovered(start, end) {
                    let index = choose|index: int|
                        start <= index < end && #[trigger] self.shred(index).recovered;
                    assert(other.shred(index).recovered);
                }
                if other.any_recovered(start, end) {
                    let index = choose|index: int|
                        start <= index < end && #[trigger] other.shred(index).recovered;
                    assert(self.shred(index).recovered);
                }
            }
        }
    }

    proof fn lemma_extent_agrees(self, other: SlotView, start: int, end: int)
        requires
            0 <= start <= end,
            forall|index: int|
                start <= index < end ==> other.shred(index) == #[trigger] self.shred(index)
                    && other.data_len(index) == self.data_len(index),
        ensures
            self.span_len(start, end) == other.span_len(start, end),
            start < end ==> self.earliest(start, end) == other.earliest(start, end),
        decreases end - start,
    {
        if start < end {
            assert(other.shred(end - 1) == self.shred(end - 1));
            self.lemma_extent_agrees(other, start, end - 1);
        }
    }

    /// Storing a shred leaves what was learned about every batch true, or throws
    /// it away.
    proof fn lemma_insert_keeps_caches(self, index: u32, shred: HeldShred, start: u32)
        requires
            index < u32::MAX,
            self.progress.contains_key(start),
            start == 0 || self.has(start - 1),
            self.is_start(start as int) ==> self.caches_hold(start as int, self.progress[start]),
            self.inserted(index, shred).is_start(start as int),
        ensures
            self.inserted(index, shred).caches_hold(
                start as int,
                self.inserted(index, shred).progress[start],
            ),
    {
        reveal(SlotView::inserted);
        let stored = SlotView { shreds: self.shreds.insert(index, shred), ..self };
        let next = self.inserted(index, shred);
        assert(next.shreds == stored.shreds);
        let containing = stored.containing(index as int);
        stored.lemma_containing(index as int);
        let held = self.shreds.contains_key(index);
        if held && (start == containing || (start == index + 1 && stored.is_start(index + 1))) {
            assert(next.progress[start].extent is None);
        } else {
            assert(next.progress[start] == self.progress[start]);
            // Nothing but the shred at `index` changed, so the batch began here
            // before.
            if start > 0 {
                assert(next.closes(start - 1));
                if start - 1 == index {
                    assert(stored.is_start(index + 1));
                    assert(self.has(index as int));
                }
                assert(self.closes(start - 1));
            }
            if let Some(extent) = self.progress[start].extent {
                if start <= index <= extent.last {
                    assert(self.has(index as int));
                    assert(start < containing) by {
                        assert(stored.is_start(start as int));
                    }
                    assert(stored.closes(containing - 1));
                    assert(self.closes(containing - 1));
                }
                assert forall|i: int| start <= i <= extent.last implies #[trigger] next.has(i)
                    && next.shred(i) == self.shred(i) by {
                    assert(self.has(i));
                }
            }
            self.lemma_caches_agree(next, start as int, self.progress[start]);
        }
    }
}

impl SlotBuffer {
    /// Puts a shred's entry bytes in the arena and says where they landed.
    fn store(&mut self, data: &[u8]) -> (landed: (usize, u32))
        requires
            old(self).wf(),
            data@.len() <= u32::MAX,
        ensures
            final(self)@ == old(self)@,
            final(self).starts_match(),
            final(self).shreds_lie_within(),
            final(self).progress_holds(),
            final(self).charged == old(self).charged,
            final(self).arena@.len() == final(self).stale + final(self)@.total_len() + data@.len(),
            final(self).shreds@ == old(self).laid_out(),
            final(self).stale == old(self).still_stale(),
            landed.0 == old(self).next_at(),
            landed.0 + landed.1 == final(self).arena@.len(),
            landed.1 == data@.len(),
            final(self).arena@.subrange(landed.0 as int, landed.0 + landed.1) == data@,
            final(self).stale <= COMPACT_FLOOR || final(self).stale <= old(self)@.total_len(),
    {
        if self.stale > COMPACT_FLOOR && self.stale > self.arena.len() / 2 {
            self.compact();
        }
        let ghost view = self@;
        let ghost before = self.arena@;
        let at: usize = self.arena.len();
        self.arena.extend_from_slice(data);
        proof {
            assert(self.arena@.subrange(at as int, at + data@.len()) =~= data@);
            assert forall|index: u32| self.shreds@.contains_key(index) implies held_shred(
                self.arena@,
                #[trigger] self.shreds@[index],
            ) == held_shred(before, self.shreds@[index]) by {
                let shred = self.shreds@[index];
                assert(self.arena@.subrange(shred.at as int, shred.at + shred.len)
                    =~= before.subrange(shred.at as int, shred.at + shred.len));
            }
            assert(self@.shreds =~= view.shreds);
            assert(self@ =~= view);
        }
        (at, data.len() as u32)
    }

    /// Throws away what was learned by walking over a shred that has just been
    /// replaced. Everything the walk carries forward — how long the run is, how
    /// many of its bytes are read, whether it ends at a terminator — was
    /// measured over the copy that is now gone, and the new one may differ in
    /// all three. Duplicates are rare enough that starting the walk over costs
    /// less than unpicking it.
    fn invalidate(&mut self, index: u32)
        requires
            old(self).starts_match(),
            index < u32::MAX,
        ensures
            final(self)@ == old(self)@.invalidated(index as int),
            final(self).arena == old(self).arena,
            final(self).stale == old(self).stale,
            final(self).shreds == old(self).shreds,
            final(self).starts == old(self).starts,
            final(self).charged == old(self).charged,
    {
        let ghost view = self@;
        let candidates = self.affected(index);
        proof {
            view.lemma_containing(index as int);
        }
        if let Some(start) = candidates[0] {
            self.forget(start);
        }
        if let Some(start) = candidates[1] {
            self.forget(start);
        }
    }

    fn forget(&mut self, start: u32)
        ensures
            final(self)@ == old(self)@.forgetting(start as int),
            final(self).arena == old(self).arena,
            final(self).stale == old(self).stale,
            final(self).shreds == old(self).shreds,
            final(self).starts == old(self).starts,
            final(self).charged == old(self).charged,
    {
        let ghost view = self@;
        if let Some(progress) = entry_mut(&mut self.progress, &start) {
            progress.extent = None;
            progress.resume = None;
        }
        proof {
            assert(self@.shreds =~= view.shreds);
            assert(self@ =~= view.forgetting(start as int));
        }
    }

    /// Stores a shred and says whether it displaced an earlier copy of itself. Its
    /// bytes go to the end of the arena, so shreds that arrive in order lie end to
    /// end.
    ///
    /// Whatever a stream of duplicates leaves behind in the arena stays within
    /// the floor or what is live, and the copy just displaced.
    pub fn insert(
        &mut self,
        index: u32,
        data: &[u8],
        data_complete: bool,
        received: u64,
        recovered: bool,
    ) -> (duplicate: bool)
        requires
            old(self).wf(),
            index < u32::MAX,
            data@.len() <= u32::MAX,
        ensures
            final(self).wf(),
            final(self).shreds@ == old(self).laid_out().insert(
                index,
                StoredShred {
                    at: old(self).next_at() as usize,
                    len: data@.len() as u32,
                    data_complete,
                    received,
                    recovered,
                },
            ),
            final(self).arena@.len() == old(self).next_at() + data@.len(),
            final(self).stale == old(self).still_stale() + old(self)@.data_len(index as int),
            final(self)@.total_len() == old(self)@.total_len() - old(self)@.data_len(index as int)
                + data@.len(),
            final(self)@ == old(self)@.inserted(
                index,
                HeldShred { data: data@, data_complete, received, recovered },
            ),
            duplicate == old(self)@.shreds.contains_key(index),
            final(self).charged == old(self).charged,
            ({
                let displaced = old(self)@.data_len(index as int);
                ||| final(self).stale <= COMPACT_FLOOR + displaced
                ||| final(self).stale <= old(self)@.total_len() + displaced
            }),
    {
        reveal(SlotView::inserted);
        let ghost view = self@;
        let ghost shred = HeldShred { data: data@, data_complete, received, recovered };
        let (at, len) = self.store(data);
        let ghost stored = SlotView { shreds: view.shreds.insert(index, shred), ..view };
        let ghost lens = |i: int| view.data_len(i);
        let ghost lens_after = |i: int| stored.data_len(i);
        proof {
            assert(self.shreds@.contains_key(index) == view.shreds.contains_key(index));
            assert forall|i: int| 0 <= i < u32::MAX + 1 && i != index implies #[trigger] lens(i)
                == lens_after(i) by {}
            crate::sums::lemma_sum_change(lens, lens_after, 0, index as int, u32::MAX + 1);
            assert(lens(index as int) == view.data_len(index as int));
            assert(lens_after(index as int) == data@.len());
            assert(stored.total_len() == view.total_len() - view.data_len(index as int)
                + data@.len());
            view.lemma_span_len_bound(index as int, index + 1);
            view.lemma_span_len_step(index as int, index as int);
        }
        let replaced = self.shreds.insert(
            index,
            StoredShred { at, len, data_complete, received, recovered },
        );
        proof {
            assert(self@.shreds =~= stored.shreds);
            assert(self@ =~= stored);
        }
        let duplicate = replaced.is_some();
        // The bytes a duplicate displaces stay in the arena with nothing
        // pointing at them, which is what compaction later reclaims.
        if let Some(replaced) = replaced {
            assert(replaced.len == view.data_len(index as int));
            assert(self.arena.len() == self.arena@.len());
            self.stale = self.stale + replaced.len as usize;
            if replaced.data_complete && !data_complete {
                self.starts.remove(index + 1);
            }
        }
        if data_complete {
            self.starts.insert(index + 1);
        }
        proof {
            assert(self@ =~= stored);
            assert forall|i: u32| #[trigger] self.starts@.contains(i) <==> self@.is_start(
                i as int,
            ) by {
                if i > 0 && i - 1 != index {
                    assert(stored.closes(i - 1) == view.closes(i - 1));
                }
                if i == index + 1 {
                    assert(view.closes(i - 1) <==> view.is_start(i as int));
                }
                assert(view.is_start(i as int) <==> old(self).starts@.contains(i));
            }
        }
        if duplicate {
            self.invalidate(index);
        }
        proof {
            assert(self@ == view.inserted(index, shred));
            assert(self@.shreds == stored.shreds);
            assert forall|start: u32| #[trigger] self.progress@.contains_key(start) implies {
                &&& start == 0 || self@.has(start - 1)
                &&& self@.is_start(start as int) ==> self@.caches_hold(
                    start as int,
                    self.progress@[start],
                )
            } by {
                assert(view.progress.contains_key(start));
                assert(old(self).progress@.contains_key(start));
                if self@.is_start(start as int) {
                    view.lemma_insert_keeps_caches(index, shred, start);
                }
            }
            assert(self@.total_len() == stored.total_len()) by {
                crate::sums::lemma_sum_same(
                    |i: int| self@.data_len(i),
                    lens_after,
                    0,
                    u32::MAX + 1,
                );
            }
        }
        duplicate
    }
}

/// What becomes of a batch that a pass left at `outcome`, if that settles it.
/// `any` says whether it has yielded entries, on this pass or an earlier one,
/// and `complete` whether the shred that closes it has arrived.
pub open spec fn verdict(outcome: Decoded, any: bool, complete: bool) -> Option<BatchOutcome> {
    match outcome {
        Decoded::Done => Some(
            if any {
                BatchOutcome::Decoded
            } else {
                BatchOutcome::Marker
            },
        ),
        Decoded::Invalid => Some(BatchOutcome::Failed),
        Decoded::Waiting => if complete {
            Some(BatchOutcome::Failed)
        } else {
            None
        },
    }
}

impl SlotView {
    /// Bytes of the batch at `start` that have arrived and not been read.
    pub open spec fn unread(self, start: int, consumed: int) -> Seq<u8> {
        left_over(self.span(start, self.run_end(start)), 0, consumed)
    }

    /// Whether a pass over the batch at `start` reads any of its bytes.
    pub open spec fn reads(self, start: int, progress: Progress) -> bool {
        &&& !progress.closed
        &&& self.extent(start) matches Some(extent) && (extent.complete || (extent.len
            <= MAX_BATCH_BYTES && extent.len > progress.consumed))
    }

    /// Reading on in the batch at `start` from where `progress` stands: where it
    /// stands then, and what that yielded.
    #[verifier::opaque]
    pub open spec fn pass(self, start: int, progress: Progress) -> (Progress, Option<AdvanceView>) {
        if progress.closed || self.extent(start) is None {
            (progress, None)
        } else {
            let extent = self.extent(start)->0;
            let walked = Progress { extent: Some(extent), ..progress };
            if !extent.complete && extent.len > MAX_BATCH_BYTES {
                (
                    Progress { closed: true, ..walked },
                    Some(
                        AdvanceView {
                            last_shred: extent.last,
                            entries: Seq::empty(),
                            since: extent.first_received,
                            opened: false,
                            finished: Some(BatchOutcome::Failed),
                            recovered: extent.recovered,
                        },
                    ),
                )
            } else if !extent.complete && extent.len <= progress.consumed {
                (walked, None)
            } else {
                let end = extent.last + 1;
                let from = self.first_unread(start, start, end, progress.consumed as int);
                let reading = read_batch(
                    self.unread(start, progress.consumed as int),
                    progress.remaining,
                );
                let yielded = reading.entries.len() > 0;
                let any = progress.opened || yielded;
                let finished = verdict(reading.outcome, any, extent.complete);
                let next = Progress {
                    consumed: (progress.consumed + reading.taken) as usize,
                    remaining: reading.remaining,
                    opened: any,
                    closed: finished is Some,
                    extent: Some(extent),
                    resume: Some((from as u32, self.span_len(start, from) as usize)),
                };
                let advance = AdvanceView {
                    last_shred: extent.last,
                    entries: reading.entries,
                    since: extent.first_received,
                    opened: !progress.opened && yielded,
                    finished,
                    recovered: extent.recovered,
                };
                (
                    next,
                    if yielded || finished is Some {
                        Some(advance)
                    } else {
                        None
                    },
                )
            }
        }
    }

    /// Where the batch at `start` stands.
    pub open spec fn progress_of(self, start: int) -> Progress {
        if self.progress.contains_key(start as u32) {
            self.progress[start as u32]
        } else {
            Progress::unread()
        }
    }

    /// The slot once the batch at `start` has been read on.
    pub open spec fn advanced(self, start: int) -> SlotView {
        SlotView {
            progress: self.progress.insert(
                start as u32,
                self.pass(start, self.progress_of(start)).0,
            ),
            ..self
        }
    }
}

impl SlotBuffer {
    /// Decodes as much of the batch beginning at `start` as the shreds now held
    /// allow, and reports what that yielded. What was learned by walking a batch
    /// is only looked after while the batch begins where it did, so an index that
    /// no longer begins one must not have been read from before.
    pub fn advance(&mut self, start: u32) -> (advance: Option<Advance>)
        requires
            old(self).wf(),
            old(self)@.is_start(start as int) || (old(self)@.has(start - 1)
                && !old(self)@.progress.contains_key(start)),
        ensures
            final(self).wf(),
            final(self)@ == old(self)@.advanced(start as int),
            final(self).arena == old(self).arena,
            final(self).stale == old(self).stale,
            final(self).shreds == old(self).shreds,
            final(self).starts == old(self).starts,
            final(self).charged == old(self).charged,
            ({
                let yielded = old(self)@.pass(
                    start as int,
                    old(self)@.progress_of(start as int),
                ).1;
                &&& advance is Some <==> yielded is Some
                &&& advance matches Some(advance) ==> advance@ == yielded->0
            }),
            final(self)@.progress_of(start as int).consumed >= old(self)@.progress_of(
                start as int,
            ).consumed,
            // Whatever shreds may follow, reading on from here gives what
            // reading the batch at one go would have.
            old(self)@.can_resume(start as int),
    {
        let ghost view = self@;
        proof {
            view.lemma_run_end_past(start as int);
            view.lemma_span_len_bound(start as int, view.run_end(start as int));
            assert(self.arena.len() == self.arena@.len());
        }
        let mut progress = match self.progress.get(&start) {
            Some(progress) => *progress,
            None => Progress::default(),
        };
        let advance = self.decode_prefix(start, &mut progress);
        // A closed batch keeps its progress so that a duplicate of one of its
        // shreds cannot start it over.
        self.progress.insert(start, progress);
        proof {
            let next = self@;
            assert(next.shreds =~= view.shreds);
            assert(next =~= view.advanced(start as int));
            crate::sums::lemma_sum_same(
                |i: int| next.data_len(i),
                |i: int| view.data_len(i),
                0,
                u32::MAX + 1,
            );
            assert forall|index: u32| #[trigger] self.starts@.contains(index) <==> next.is_start(
                index as int,
            ) by {
                assert(view.is_start(index as int) <==> self.starts@.contains(index));
            }
            assert forall|other: u32| #[trigger] self.progress@.contains_key(other) implies {
                &&& other == 0 || next.has(other - 1)
                &&& next.is_start(other as int) ==> next.caches_hold(
                    other as int,
                    self.progress@[other],
                )
            } by {
                if other != start {
                    assert(old(self).progress@.contains_key(other));
                }
                if next.is_start(other as int) {
                    let kept = self.progress@[other];
                    assert(view.caches_hold(other as int, kept));
                    if let Some(extent) = kept.extent {
                        assert forall|i: int| other <= i <= extent.last implies #[trigger] next.has(
                            i,
                        ) && next.shred(i) == view.shred(i) by {
                            assert(view.has(i));
                        }
                    }
                    view.lemma_caches_agree(next, other as int, kept);
                }
            }
        }
        advance
    }

    fn decode_prefix(&self, start: u32, progress: &mut Progress) -> (advance: Option<Advance>)
        requires
            self.wf(),
            self@.caches_hold(start as int, *old(progress)),
        ensures
            self@.caches_hold(start as int, *final(progress)),
            ({
                let (next, yielded) = self@.pass(start as int, *old(progress));
                &&& *final(progress) == next
                &&& advance is Some <==> yielded is Some
                &&& advance matches Some(advance) ==> advance@ == yielded->0
            }),
            final(progress).consumed >= old(progress).consumed,
            self@.reads(start as int, *old(progress)) ==> {
                let unread = self@.unread(start as int, old(progress).consumed as int);
                &&& resumable(unread, old(progress).remaining)
                &&& read_batch(unread, old(progress).remaining).taken <= unread.len()
            },
    {
        reveal(SlotView::pass);
        if progress.closed {
            return None;
        }
        let ghost view = self@;
        let ghost given = *progress;
        let extent = match self.extent(start, progress.extent) {
            Some(extent) => extent,
            None => {
                return None;
            },
        };
        let ghost end = extent.last + 1;
        // Kept whether or not this pass reads anything, since what it is for is
        // sparing the next one the walk.
        progress.extent = Some(extent);
        proof {
            assert(view.has(start as int));
            if let (Some(cached), Some((from, base))) = (given.extent, given.resume) {
                assert(view.has(cached.last as int));
                view.lemma_walk_grows(start as int, cached, extent);
            }
        }
        // A run this long with no terminator in it is not a batch that is still
        // arriving, and every further shred would have it re-read from the
        // start. Giving up is what keeps that cost bounded.
        if !extent.complete && extent.len > MAX_BATCH_BYTES {
            progress.closed = true;
            let advance = Advance {
                last_shred: extent.last,
                entries: Vec::new(),
                since: extent.first_received,
                opened: false,
                finished: Some(BatchOutcome::Failed),
                recovered: extent.recovered,
            };
            assert(advance@.entries =~= Seq::empty());
            return Some(advance);
        }
        // Nothing new to read, and no terminator to force a verdict on what has
        // been read so far.
        if extent.len <= progress.consumed && !extent.complete {
            return None;
        }
        let mut entries: Vec<Entry> = Vec::new();
        let (payload, base) = self.payload(start, &extent, progress);
        let ghost from = view.first_unread(start as int, start as int, end, given.consumed as int);
        assert(self.arena.len() == self.arena@.len());
        let bytes: &[u8] = match &payload {
            Payload::Arena { at, len } => slice_subrange(self.arena.as_slice(), *at, *at + *len),
            Payload::Stitched(stitched) => stitched.as_slice(),
        };
        proof {
            assert(bytes@ == view.span(from, end));
            view.lemma_run_end_past(start as int);
            assert(view.run_end(start as int) == end);
            view.lemma_span(from, end);
            view.lemma_span(start as int, end);
            view.lemma_span(start as int, from);
            view.lemma_span_split(start as int, from, end);
            assert(left_over(bytes@, base as int, given.consumed as int) =~= view.unread(
                start as int,
                given.consumed as int,
            ));
        }
        let decoded = decode(bytes, base, progress, &mut entries);
        let yielded = entries.len() > 0;
        proof {
            assert(views(entries@) =~= Seq::<EntryView>::empty() + views(entries@));
        }
        let opened = !progress.opened && yielded;
        // A batch that has already handed something over is not an empty one,
        // however little the pass that finished it produced.
        let any = progress.opened || yielded;
        progress.opened = any;

        let finished = match decoded {
            // Every entry the batch declared is out. The shreds that may still
            // be owed hold nothing but the padding to the end of the erasure
            // batch, so there is no reason to wait for them.
            Decoded::Done => if any {
                Some(BatchOutcome::Decoded)
            } else {
                Some(BatchOutcome::Marker)
            },
            Decoded::Invalid => Some(BatchOutcome::Failed),
            // A batch that is closed and still owes entries never was a whole
            // vector of them to begin with.
            Decoded::Waiting => if extent.complete {
                Some(BatchOutcome::Failed)
            } else {
                None
            },
        };
        progress.closed = finished.is_some();
        if !yielded && finished.is_none() {
            return None;
        }
        Some(
            Advance {
                last_shred: extent.last,
                entries,
                since: extent.first_received,
                opened,
                finished,
                recovered: extent.recovered,
            },
        )
    }
}

impl SlotView {
    /// A run only ever grows: where an earlier walk stopped lies within it.
    proof fn lemma_walk_grows(self, start: int, cached: Extent, extent: Extent)
        requires
            0 <= start,
            self.walked(start, cached),
            self.extent(start) == Some(extent),
        ensures
            cached.last <= extent.last,
    {
        assert forall|i: int| start <= i < cached.last implies #[trigger] self.has(i)
            && !self.closes(i) by {
            assert(!self.closes(i));
        }
        self.lemma_run_end_skip(start, cached.last as int);
        assert(self.has(cached.last as int));
        self.lemma_run_end_past(cached.last as int);
    }

    proof fn lemma_run_end_past(self, index: int)
        ensures
            self.run_end(index) >= index,
            self.has(index) ==> self.run_end(index) > index,
            index <= u32::MAX + 1 ==> self.run_end(index) <= u32::MAX + 1,
        decreases u32::MAX + 1 - index,
    {
        if self.has(index) && !self.closes(index) {
            self.lemma_run_end_past(index + 1);
        }
    }
}

impl SlotView {
    /// A run stays within its batch: no other batch begins inside it, so it
    /// never reads bytes that belong to a batch it is not.
    pub proof fn a_run_stays_within_its_batch(self, start: int, index: int)
        requires
            0 <= start < index < self.run_end(start),
        ensures
            !self.is_start(index),
        decreases index - start,
    {
        if index == start + 1 {
            assert(!self.closes(start));
        } else {
            self.a_run_stays_within_its_batch(start + 1, index);
        }
    }

    /// Once a pass has settled what becomes of a batch, nothing more is read of
    /// it, whatever else arrives and however often its shreds are resent.
    pub proof fn a_finished_batch_is_never_read_again(
        self,
        start: int,
        progress: Progress,
        later: SlotView,
    )
        requires
            self.pass(start, progress).1 matches Some(advance) && advance.finished is Some,
        ensures
            ({
                let settled = self.pass(start, progress).0;
                let resent = Progress { extent: None, resume: None, ..settled };
                &&& later.pass(start, settled) == (settled, None::<AdvanceView>)
                &&& later.pass(start, resent) == (resent, None::<AdvanceView>)
            }),
    {
        reveal(SlotView::pass);
    }

    /// Two shreds of a slot can arrive in either order: what is held is the
    /// same.
    pub proof fn arrival_order_does_not_matter(
        self,
        index: u32,
        shred: HeldShred,
        other: u32,
        other_shred: HeldShred,
    )
        requires
            index != other,
        ensures
            self.inserted(index, shred).inserted(other, other_shred).shreds == self.inserted(
                other,
                other_shred,
            ).inserted(index, shred).shreds,
    {
        self.lemma_inserted_shreds(index, shred);
        self.lemma_inserted_shreds(other, other_shred);
        self.inserted(index, shred).lemma_inserted_shreds(other, other_shred);
        self.inserted(other, other_shred).lemma_inserted_shreds(index, shred);
        assert(self.shreds.insert(index, shred).insert(other, other_shred) =~= self.shreds.insert(
            other,
            other_shred,
        ).insert(index, shred));
    }

    pub proof fn lemma_inserted_shreds(self, index: u32, shred: HeldShred)
        ensures
            self.inserted(index, shred).shreds == self.shreds.insert(index, shred),
            self.inserted(index, shred).last_index == self.last_index,
    {
        reveal(SlotView::inserted);
    }

    /// Runs that agree shred by shred up to where one of them ends, end alike.
    proof fn lemma_run_end_agrees(self, other: SlotView, start: int, stop: int)
        requires
            0 <= start < stop <= u32::MAX + 1,
            forall|index: int|
                start <= index < stop ==> (#[trigger] self.has(index) == other.has(index)
                    && self.shred(index) == other.shred(index)),
            stop == u32::MAX + 1 || self.closes(stop - 1),
        ensures
            self.run_end(start) == other.run_end(start),
            self.run_end(start) <= stop,
        decreases stop - start,
    {
        assert(self.has(start) == other.has(start));
        if self.has(start) && !self.closes(start) {
            if start + 1 < stop {
                self.lemma_run_end_agrees(other, start + 1, stop);
            } else {
                assert(self.run_end(start + 1) == start + 1);
                assert(other.run_end(start + 1) == start + 1);
            }
        }
    }

    /// Storing a shred changes no batch but the one holding it and the one that
    /// begins right behind it, so no others need looking at.
    pub proof fn other_batches_do_not_change(self, index: u32, shred: HeldShred, start: u32)
        requires
            index < u32::MAX,
            self.inserted(index, shred).is_start(start as int),
            start != self.inserted(index, shred).containing(index as int),
            start != index + 1,
        ensures
            self.inserted(index, shred).extent(start as int) == self.extent(start as int),
            self.inserted(index, shred).span(
                start as int,
                self.inserted(index, shred).run_end(start as int),
            ) == self.span(start as int, self.run_end(start as int)),
    {
        reveal(SlotView::inserted);
        let next = self.inserted(index, shred);
        next.lemma_containing(index as int);
        let containing = next.containing(index as int);
        let stop: int = if start > index {
            u32::MAX + 1
        } else {
            containing
        };
        assert forall|i: int| start <= i < stop implies (#[trigger] next.has(i) == self.has(i)
            && next.shred(i) == self.shred(i)) by {
            assert(i != index);
        }
        next.lemma_run_end_agrees(self, start as int, stop);
        let end = next.run_end(start as int);
        next.lemma_run_end_past(start as int);
        assert forall|i: int| start <= i < end implies self.shred(i) == #[trigger] next.shred(i)
            && self.data_len(i) == next.data_len(i) by {
            assert(next.has(i) == self.has(i));
        }
        next.lemma_extent_agrees(self, start as int, end);
        next.lemma_span_agrees(self, start as int, end);
        if next.has(start as int) {
            assert(next.has(end - 1) == self.has(end - 1));
            assert(next.any_recovered(start as int, end) == self.any_recovered(
                start as int,
                end,
            )) by {
                if next.any_recovered(start as int, end) {
                    let i = choose|i: int|
                        start <= i < end && #[trigger] next.shred(i).recovered;
                    assert(self.shred(i).recovered);
                }
                if self.any_recovered(start as int, end) {
                    let i = choose|i: int|
                        start <= i < end && #[trigger] self.shred(i).recovered;
                    assert(next.shred(i) == self.shred(i));
                }
            }
        }
    }

    proof fn lemma_span_agrees(self, other: SlotView, start: int, end: int)
        requires
            0 <= start <= end,
            forall|index: int|
                start <= index < end ==> other.shred(index) == #[trigger] self.shred(index),
        ensures
            self.span(start, end) == other.span(start, end),
        decreases end - start,
    {
        if start < end {
            assert(other.shred(end - 1) == self.shred(end - 1));
            self.lemma_span_agrees(other, start, end - 1);
        }
    }
}

impl SlotView {
    /// Whether the slot is known to reach as far as `index`: up to its closing
    /// shred once that has arrived, and up to the highest shred held until then.
    pub open spec fn reaches(self, index: u32) -> bool {
        match self.last_index {
            Some(last) => index <= last,
            None => exists|held: u32| index <= held && #[trigger] self.shreds.contains_key(held),
        }
    }

    /// Whether a shred the slot is known to have never arrived.
    pub open spec fn lacks(self, index: u32) -> bool {
        self.reaches(index) && !self.shreds.contains_key(index)
    }
}

/// Calls `Vec::capacity`, which is however much the allocator gave, and so at
/// least the bytes held.
#[verifier::external_body]
fn capacity(bytes: &Vec<u8>) -> (capacity: usize)
    ensures
        capacity >= bytes@.len(),
{
    bytes.capacity()
}

/// `count` times `each`, or as much as can be counted.
fn cost(count: usize, each: usize) -> (cost: usize)
    requires
        each > 0,
    ensures
        cost == if count * each <= usize::MAX {
            count * each
        } else {
            usize::MAX as int
        },
{
    if count <= usize::MAX / each {
        assert(count * each <= usize::MAX) by (nonlinear_arith)
            requires
                count <= usize::MAX / each,
                each > 0,
        ;
        count * each
    } else {
        assert(count * each > usize::MAX) by (nonlinear_arith)
            requires
                count > usize::MAX / each,
                each > 0,
        ;
        usize::MAX
    }
}

/// What is resident for a slot whose arena has grown to `capacity`, as far as it
/// can be counted.
pub open spec fn resident(capacity: int, shreds: nat, batches: nat) -> int {
    let all = capacity + shreds * PER_SHRED_OVERHEAD + batches * PER_BATCH_OVERHEAD;
    if all <= usize::MAX {
        all
    } else {
        usize::MAX as int
    }
}

impl SlotBuffer {
    /// Gaps below the highest shred held, and — once the slot's closing shred
    /// has arrived — everything past it that never did. Without that flag a
    /// slot whose tail was lost outright looks complete, because nothing above
    /// the gap is left to mark where the slot was supposed to end.
    pub fn missing(&self) -> (missing: Vec<u32>)
        ensures
            forall|i: int, j: int| 0 <= i < j < missing@.len() ==> missing@[i] < missing@[j],
            forall|index: u32| #[trigger] missing@.contains(index) <==> self@.lacks(index),
    {
        let keys = keys_in_order(&self.shreds);
        proof {
            crate::maps::lemma_ascending_u32(keys@);
            assert forall|key: u32| #[trigger] keys@.contains(key) <==> self@.shreds.contains_key(
                key,
            ) by {
                assert(keys@.to_set().contains(key) <==> self.shreds@.dom().contains(key));
            }
        }
        let mut missing: Vec<u32> = Vec::new();
        let last: u32 = match self.last_index {
            Some(last) => last,
            None => {
                if keys.len() == 0 {
                    assert forall|index: u32| !#[trigger] self@.lacks(index) by {
                        if self@.reaches(index) {
                            let held = choose|held: u32|
                                index <= held && #[trigger] self@.shreds.contains_key(held);
                            assert(keys@.contains(held));
                        }
                    }
                    return missing;
                }
                keys[keys.len() - 1]
            },
        };
        proof {
            assert forall|index: u32| #[trigger] self@.reaches(index) <==> index <= last by {
                if self.last_index is None {
                    assert(keys@.contains(last));
                    assert(self@.shreds.contains_key(last));
                    if self@.reaches(index) {
                        let held = choose|held: u32|
                            index <= held && #[trigger] self@.shreds.contains_key(held);
                        assert(keys@.contains(held));
                        let j = choose|j: int| 0 <= j < keys@.len() && keys@[j] == held;
                        if j < keys@.len() - 1 {
                            assert(keys@[j] < keys@[keys@.len() - 1]);
                        }
                    }
                }
            }
        }
        let mut next: u64 = 0;
        while next <= last as u64
            invariant
                next <= last + 1,
                forall|i: int, j: int| 0 <= i < j < missing@.len() ==> missing@[i] < missing@[j],
                forall|i: int| 0 <= i < missing@.len() ==> missing@[i] < next,
                forall|index: u32| #[trigger]
                    missing@.contains(index) <==> index < next && !self@.shreds.contains_key(index),
            decreases last + 1 - next,
        {
            let index: u32 = next as u32;
            if !self.shreds.contains_key(&index) {
                let ghost before = missing@;
                missing.push(index);
                proof {
                    assert forall|other: u32| #[trigger] missing@.contains(other) <==> other < next
                        + 1 && !self@.shreds.contains_key(other) by {
                        crate::maps::lemma_push_contains(before, index);
                    }
                }
            }
            next = next + 1;
        }
        missing
    }

    /// What this slot costs the process, as opposed to what its shreds carry.
    ///
    /// The arena counts by capacity because the untouched half of a `Vec` that
    /// has just doubled is resident all the same, and compaction is what
    /// returns it. The maps count because a shred with no payload at all is
    /// free by [`Self::live`] and is not free here — which is the whole reason
    /// the global budget is kept in this number rather than that one.
    pub fn footprint(&self) -> (footprint: usize)
        ensures
            exists|capacity: usize|
                capacity >= self.arena@.len() && footprint == #[trigger] resident(
                    capacity as int,
                    self@.shreds.len(),
                    self@.progress.len(),
                ),
    {
        let capacity: usize = capacity(&self.arena);
        self.footprint_at(capacity)
    }

    /// The same, for an arena of the given capacity.
    pub fn footprint_at(&self, capacity: usize) -> (footprint: usize)
        ensures
            footprint == resident(capacity as int, self@.shreds.len(), self@.progress.len()),
    {
        proof {
            assert(self@.shreds.dom() =~= self.shreds@.dom());
        }
        let shreds: usize = cost(self.shreds.len(), PER_SHRED_OVERHEAD);
        let batches: usize = cost(self.progress.len(), PER_BATCH_OVERHEAD);
        capacity.saturating_add(shreds).saturating_add(batches)
    }
}

impl SlotBuffer {
    /// Whatever was inserted, batches begin at zero and right behind every shred
    /// held that closes one, and nowhere else.
    pub proof fn batches_begin_behind_closing_shreds(&self)
        requires
            self.wf(),
        ensures
            forall|index: u32| #[trigger]
                self.starts@.contains(index) <==> index == 0 || (self.shreds@.contains_key(
                    (index - 1) as u32,
                ) && self.shreds@[(index - 1) as u32].data_complete),
    {
        assert forall|index: u32| #[trigger] self.starts@.contains(index) <==> index == 0 || (
        self.shreds@.contains_key((index - 1) as u32) && self.shreds@[(index
            - 1) as u32].data_complete) by {
            assert(self.starts@.contains(index) <==> self@.is_start(index as int));
        }
    }

    /// Whatever was inserted, the arena holds the bytes of the shreds held and
    /// those stranded, and no others.
    pub proof fn the_arena_is_accounted_for(&self)
        requires
            self.wf(),
        ensures
            self.arena@.len() == self.stale + self@.total_len(),
            forall|index: u32| #[trigger]
                self.shreds@.contains_key(index) ==> self.shreds@[index].at
                    + self.shreds@[index].len <= self.arena@.len(),
    {
    }

    /// Learning where a slot ends changes nothing else about it.
    pub proof fn lemma_marked(&self, before: SlotBuffer)
        requires
            before.wf(),
            self.arena == before.arena,
            self.stale == before.stale,
            self.shreds == before.shreds,
            self.starts == before.starts,
            self.progress == before.progress,
        ensures
            self.wf(),
            self@ == (SlotView { last_index: self.last_index, ..before@ }),
    {
        let (view, next) = (before@, self@);
        assert(next.shreds =~= view.shreds);
        crate::sums::lemma_sum_same(
            |i: int| next.data_len(i),
            |i: int| view.data_len(i),
            0,
            u32::MAX + 1,
        );
        assert forall|index: u32| #[trigger] self.starts@.contains(index) <==> next.is_start(
            index as int,
        ) by {
            assert(view.is_start(index as int) <==> before.starts@.contains(index));
        }
        assert forall|start: u32| #[trigger] self.progress@.contains_key(start) implies {
            &&& start == 0 || next.has(start - 1)
            &&& next.is_start(start as int) ==> next.caches_hold(
                start as int,
                self.progress@[start],
            )
        } by {
            assert(before.progress@.contains_key(start));
            if next.is_start(start as int) {
                let kept = self.progress@[start];
                assert(view.caches_hold(start as int, kept));
                if let Some(extent) = kept.extent {
                    assert forall|i: int| start <= i <= extent.last implies #[trigger] next.has(i)
                        && next.shred(i) == view.shred(i) by {
                        assert(view.has(i));
                    }
                }
                view.lemma_caches_agree(next, start as int, kept);
            }
        }
    }
}

/// What a slot misses is every shred below the one that closes it that has not come,
/// or, for as long as that has not come, below the highest that has; in order, and
/// nothing else.
pub proof fn what_is_missing_is_what_has_not_come(
    slot: SlotBuffer,
    missing: Vec<u32>,
    last: u32,
    index: u32,
)
    requires
        call_ensures(SlotBuffer::missing, (&slot,), missing),
        slot@.last_index == Some(last) || (slot@.last_index is None && slot@.shreds.contains_key(
            last,
        ) && forall|held: u32| #[trigger] slot@.shreds.contains_key(held) ==> held <= last),
    ensures
        missing@.contains(index) <==> index <= last && !slot@.shreds.contains_key(index),
        forall|i: int, j: int| 0 <= i < j < missing@.len() ==> missing@[i] < missing@[j],
{
    if slot@.last_index is None {
        if slot@.reaches(index) {
            let held = choose|held: u32|
                index <= held && #[trigger] slot@.shreds.contains_key(held);
            assert(held <= last);
        }
        if index <= last {
            assert(slot@.shreds.contains_key(last));
        }
    }
    assert(missing@.contains(index) <==> slot@.lacks(index));
}

/// Nothing held is free: every shred costs 64 bytes more than its arena holds, and
/// every batch begun 128.
pub proof fn every_shred_and_batch_is_paid_for(slot: SlotBuffer, capacity: usize, footprint: usize)
    requires
        call_ensures(SlotBuffer::footprint_at, (&slot, capacity), footprint),
        capacity + slot@.shreds.len() * 64 + slot@.progress.len() * 128 <= usize::MAX,
    ensures
        footprint == capacity + slot@.shreds.len() * 64 + slot@.progress.len() * 128,
{
}

/// Bytes that copies displaced are not kept about for long: once a shred is in there
/// are, but for those it displaced itself, no more of them than 65536 or than the
/// shreds held take up.
pub proof fn what_is_stranded_is_bounded(
    slot: &mut SlotBuffer,
    index: u32,
    data: &[u8],
    data_complete: bool,
    received: u64,
    recovered: bool,
    duplicate: bool,
)
    requires
        call_ensures(
            SlotBuffer::insert,
            (slot, index, data, data_complete, received, recovered),
            duplicate,
        ),
    ensures
        ({
            let displaced = if old(slot)@.shreds.contains_key(index) {
                old(slot)@.shreds[index].data.len() as int
            } else {
                0
            };
            &&& duplicate <==> old(slot)@.shreds.contains_key(index)
            &&& final(slot).stale <= 65_536 + displaced || final(slot).stale <= old(
                slot
            )@.total_len() + displaced
            &&& final(slot)@.total_len() == old(slot)@.total_len() - displaced + data@.len()
        }),
{
}

} // verus!
