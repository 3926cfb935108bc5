//! What comes out of a slot's batches, whatever order their shreds arrive in.
//!
//! A batch is read in pieces, so what it comes to is settled over many calls
//! rather than by any one of them. What ties the calls together is stated here:
//! at every moment, the entries handed over so far are the front of what reading
//! the batch at one go would give.

use crate::decoder::{read_batch, resumable, Progress, MAX_BATCH_BYTES};
use crate::entries::{handed_over, over_budget, to_hold, Assembler, BatchView};
use crate::shred::DataView;
use crate::slot::{AdvanceView, HeldShred, SlotView};
use crate::wire::EntryView;
use vstd::prelude::*;

verus! {

/// What one pass over a batch yielded.
pub open spec fn yielded(advance: Option<AdvanceView>) -> Seq<EntryView> {
    match advance {
        Some(advance) => advance.entries,
        None => Seq::empty(),
    }
}

/// The entries that pieces of the batch beginning at `start` hold, in the order
/// the pieces came.
pub open spec fn from_batch(batches: Seq<BatchView>, start: int) -> Seq<EntryView>
    decreases batches.len(),
{
    if batches.len() == 0 {
        Seq::empty()
    } else {
        from_batch(batches.drop_last(), start) + if batches.last().first_shred == start {
            batches.last().entries
        } else {
            Seq::empty()
        }
    }
}

/// Whether two copies of a shred carry the same thing, whenever they arrived and
/// by whichever way.
pub open spec fn alike(shred: HeldShred, other: HeldShred) -> bool {
    shred.data == other.data && shred.data_complete == other.data_complete
}

impl SlotView {
    /// The bytes of the batch at `start` that can be read: those of every shred
    /// up to the first gap, or up to the shred that closes the batch.
    pub open spec fn arrived(self, start: int) -> Seq<u8> {
        self.span(start, self.run_end(start))
    }

    /// Whether the batch at `start` is all there.
    pub open spec fn whole(self, start: int) -> bool {
        self.run_end(start) > start && self.closes(self.run_end(start) - 1)
    }

    /// Whether `entries` are what the batch at `start` has rightly yielded so
    /// far: whatever bytes may still arrive, reading the lot at one go gives
    /// those entries followed by what reading on gives. Of a batch nothing more
    /// comes out of, they are all that reading it at one go gives, unless it ran
    /// past its bounds.
    pub open spec fn delivered(self, start: int, entries: Seq<EntryView>) -> bool {
        let progress = self.progress_of(start);
        let arrived = self.arrived(start);
        if progress.closed {
            ||| arrived.len() > MAX_BATCH_BYTES
            ||| {
                &&& entries == read_batch(arrived, None).entries
                &&& self.whole(start) || forall|more: Seq<u8>| #[trigger]
                    read_batch(arrived + more, None) == read_batch(arrived, None)
            }
        } else {
            &&& progress.consumed <= arrived.len()
            &&& forall|more: Seq<u8>| #[trigger]
                read_batch(arrived + more, None) == read_batch(
                    arrived.skip(progress.consumed as int) + more,
                    progress.remaining,
                ).after(entries, progress.consumed as nat)
        }
    }

    /// Whether the pass over the batch at `start` can be taken up again: its bytes
    /// can be counted, and reading on gives what reading at one go would have.
    pub open spec fn can_resume(self, start: int) -> bool {
        let progress = self.progress_of(start);
        let unread = self.unread(start, progress.consumed as int);
        &&& self.span_len(start, self.run_end(start)) <= usize::MAX
        &&& self.reads(start, progress) ==> {
            &&& resumable(unread, progress.remaining)
            &&& read_batch(unread, progress.remaining).taken <= unread.len()
        }
    }

    /// Whether every batch that is all there has been read to its end.
    pub open spec fn read_up(self) -> bool {
        forall|start: int|
            0 <= start <= u32::MAX && #[trigger] self.is_start(start) && self.whole(start)
                ==> self.progress_of(start).closed
    }

    /// Whether everything that can be read has been: of no batch that is still open
    /// do the bytes that arrived and were not read hold another whole entry.
    pub open spec fn caught_up(self) -> bool {
        forall|start: int|
            0 <= start <= u32::MAX && #[trigger] self.is_start(start) && !self.progress_of(
                start,
            ).closed ==> self.idle(start, self.progress_of(start))
    }

    /// Whether a batch read this far has no whole entry left to read.
    pub open spec fn idle(self, start: int, progress: Progress) -> bool {
        read_batch(
            self.unread(start, progress.consumed as int),
            progress.remaining,
        ).entries.len() == 0
    }

    /// Whether handing over `batches` for the shred at `index` keeps count of
    /// every batch of the slot: if they had yielded what they should, they have
    /// still. A copy of a shred that differs from the one held is no part of any
    /// batch a leader wrote, and nothing is said of those.
    pub open spec fn keeps_count(
        self,
        index: u32,
        shred: HeldShred,
        post: SlotView,
        batches: Seq<BatchView>,
    ) -> bool {
        (self.shreds.contains_key(index) ==> alike(self.shreds[index], shred)) ==> forall|
            start: u32,
            entries: Seq<EntryView>,
        |
            #![trigger self.delivered(start as int, entries)]
            self.delivered(start as int, entries) ==> post.delivered(
                start as int,
                entries + from_batch(batches, start as int),
            )
    }
}

proof fn lemma_after_twice(
    reading: crate::decoder::Reading,
    entries: Seq<EntryView>,
    taken: nat,
    front: Seq<EntryView>,
    before: nat,
)
    ensures
        reading.after(entries, taken).after(front, before) == reading.after(
            front + entries,
            before + taken,
        ),
{
    assert(reading.after(entries, taken).after(front, before) =~= reading.after(
        front + entries,
        before + taken,
    ));
}

impl SlotView {
    /// Up to where a run ends every shred is held and only the last may close the
    /// batch. It ends there for a reason.
    proof fn lemma_run(self, start: int)
        requires
            0 <= start <= u32::MAX + 1,
        ensures
            start <= self.run_end(start) <= u32::MAX + 1,
            forall|index: int| start <= index < self.run_end(start) ==> #[trigger] self.has(index),
            forall|index: int|
                start <= index < self.run_end(start) - 1 ==> !#[trigger] self.closes(index),
            !self.has(self.run_end(start)) || self.whole(start),
        decreases u32::MAX + 1 - start,
    {
        if self.has(start) && !self.closes(start) {
            self.lemma_run(start + 1);
            if self.run_end(start) == start + 1 {
                assert(!self.whole(start + 1));
            }
        }
    }

    /// Slots that hold the same bytes under the same indices read alike.
    proof fn lemma_same_chunks(self, other: SlotView, start: int)
        requires
            0 <= start <= u32::MAX + 1,
            forall|index: int| #[trigger]
                self.has(index) == other.has(index) && (self.has(index) ==> alike(
                    self.shred(index),
                    other.shred(index),
                )),
        ensures
            self.run_end(start) == other.run_end(start),
            self.arrived(start) == other.arrived(start),
            self.whole(start) == other.whole(start),
    {
        self.lemma_same_run(other, start);
        self.lemma_run(start);
        assert forall|index: int| start <= index < self.run_end(start) implies (
        #[trigger] self.shred(index)).data == other.shred(index).data by {
            assert(self.has(index));
        }
        self.lemma_same_span(other, start, self.run_end(start));
        let last = self.run_end(start) - 1;
        assert(self.has(last) == other.has(last));
    }

    proof fn lemma_same_run(self, other: SlotView, start: int)
        requires
            0 <= start <= u32::MAX + 1,
            forall|index: int| #[trigger]
                self.has(index) == other.has(index) && (self.has(index) ==> alike(
                    self.shred(index),
                    other.shred(index),
                )),
        ensures
            self.run_end(start) == other.run_end(start),
        decreases u32::MAX + 1 - start,
    {
        assert(self.has(start) == other.has(start));
        if self.has(start) && !self.closes(start) {
            self.lemma_same_run(other, start + 1);
        }
    }

    proof fn lemma_same_span(self, other: SlotView, start: int, end: int)
        requires
            0 <= start <= end,
            forall|index: int|
                start <= index < end ==> (#[trigger] self.shred(index)).data == other.shred(
                    index,
                ).data,
        ensures
            self.span(start, end) == other.span(start, end),
        decreases end - start,
    {
        if start < end {
            assert(self.shred(end - 1).data == other.shred(end - 1).data);
            self.lemma_same_span(other, start, end - 1);
        }
    }

    /// A shred that was not held extends a run or leaves it as it was, and a batch
    /// that was all there is not extended.
    proof fn lemma_run_extends(self, other: SlotView, index: u32, start: int) -> (more: Seq<u8>)
        requires
            0 <= start <= u32::MAX + 1,
            !self.shreds.contains_key(index),
            other.shreds == self.shreds.insert(index, other.shreds[index]),
        ensures
            other.arrived(start) == self.arrived(start) + more,
            self.whole(start) ==> other.whole(start) && more == Seq::<u8>::empty(),
    {
        let end = self.run_end(start);
        self.lemma_run(start);
        assert forall|i: int| start <= i < end implies #[trigger] other.has(i) && other.shred(i)
            == self.shred(i) by {
            assert(self.has(i));
        }
        assert forall|i: int| start <= i < end implies (#[trigger] self.shred(i)).data
            == other.shred(i).data by {
            assert(other.has(i));
        }
        self.lemma_same_span(other, start, end);
        if self.whole(start) {
            assert(other.has(end - 1) && other.closes(end - 1));
            assert forall|i: int| start <= i < end - 1 implies #[trigger] other.has(i)
                && !other.closes(i) by {
                assert(!self.closes(i));
            }
            other.lemma_run_end_skip(start, end - 1);
            assert(other.run_end(start) == end);
            let none = Seq::<u8>::empty();
            assert(other.arrived(start) =~= self.arrived(start) + none);
            none
        } else {
            assert forall|i: int| start <= i < end implies #[trigger] other.has(i)
                && !other.closes(i) by {
                assert(self.has(i));
                if i < end - 1 {
                    assert(!self.closes(i));
                }
            }
            other.lemma_run_end_skip(start, end);
            other.lemma_run(end);
            other.lemma_span_split(start, end, other.run_end(end));
            other.span(end, other.run_end(end))
        }
    }

    /// Reading on in a batch keeps count of it, with what that yields behind what
    /// was yielded before.
    #[verifier::spinoff_prover]
    #[verifier::rlimit(40)]
    pub proof fn lemma_reading_on_delivers(self, start: u32, entries: Seq<EntryView>)
        requires
            self.delivered(start as int, entries),
            self.can_resume(start as int),
        ensures
            self.advanced(start as int).delivered(
                start as int,
                entries + yielded(
                    self.pass(start as int, self.progress_of(start as int)).1,
                ),
            ),
    {
        reveal(SlotView::pass);
        let at = start as int;
        let next = self.advanced(at);
        let progress = self.progress_of(at);
        let (after, advance) = self.pass(at, progress);
        assert(next.progress_of(at) == after);
        assert forall|index: int| #[trigger] self.has(index) == next.has(index) && (self.has(
            index,
        ) ==> alike(self.shred(index), next.shred(index))) by {}
        self.lemma_same_chunks(next, at);
        self.lemma_run(at);
        let arrived = self.arrived(at);
        self.lemma_span(at, self.run_end(at));
        let more_entries = entries + yielded(advance);
        if self.reads(at, progress) {
            let consumed = progress.consumed as int;
            let unread = self.unread(at, consumed);
            assert(unread =~= arrived.skip(consumed));
            let reading = read_batch(unread, progress.remaining);
            assert(more_entries =~= entries + reading.entries);
            assert forall|more: Seq<u8>| #[trigger] read_batch(arrived + more, None)
                == if reading.outcome is Waiting {
                read_batch(
                    arrived.skip(consumed + reading.taken) + more,
                    reading.remaining,
                ).after(more_entries, (consumed + reading.taken) as nat)
            } else {
                reading.after(entries, consumed as nat)
            } by {
                assert(read_batch(arrived + more, None) == read_batch(
                    unread + more,
                    progress.remaining,
                ).after(entries, consumed as nat));
                if reading.outcome is Waiting {
                    let rest = unread.skip(reading.taken as int);
                    assert(rest =~= arrived.skip(consumed + reading.taken));
                    lemma_after_twice(
                        read_batch(rest + more, reading.remaining),
                        reading.entries,
                        reading.taken,
                        entries,
                        consumed as nat,
                    );
                }
            }
            let none = Seq::<u8>::empty();
            assert(arrived + none =~= arrived);
            assert(unread + none =~= unread);
            assert(read_batch(arrived + none, None) == read_batch(
                unread + none,
                progress.remaining,
            ).after(entries, consumed as nat));
            if after.closed && !(reading.outcome is Waiting) {
                assert forall|more: Seq<u8>| #[trigger]
                    read_batch(arrived + more, None) == read_batch(arrived, None) by {
                    assert(read_batch(arrived + none, None) == reading.after(
                        entries,
                        consumed as nat,
                    ));
                }
            }
        } else {
            assert(more_entries =~= entries);
        }
    }

    /// And says nothing of the other batches.
    pub proof fn lemma_reading_on_leaves_others(
        self,
        start: u32,
        other: u32,
        entries: Seq<EntryView>,
    )
        requires
            other != start,
        ensures
            self.advanced(start as int).delivered(other as int, entries) == self.delivered(
                other as int,
                entries,
            ),
    {
        let next = self.advanced(start as int);
        assert forall|index: int| #[trigger] self.has(index) == next.has(index) && (self.has(
            index,
        ) ==> alike(self.shred(index), next.shred(index))) by {}
        self.lemma_same_chunks(next, other as int);
        assert(next.progress_of(other as int) == self.progress_of(other as int));
    }

    /// Storing a shred, or the same shred again, keeps count of every batch.
    #[verifier::spinoff_prover]
    #[verifier::rlimit(40)]
    pub proof fn storing_a_shred_keeps_count(
        self,
        index: u32,
        shred: HeldShred,
        start: u32,
        entries: Seq<EntryView>,
    )
        requires
            self.shreds.contains_key(index) ==> alike(self.shreds[index], shred),
            self.delivered(start as int, entries),
        ensures
            self.inserted(index, shred).delivered(start as int, entries),
    {
        reveal(SlotView::inserted);
        let at = start as int;
        let next = self.inserted(index, shred);
        let progress = self.progress_of(at);
        let kept = next.progress_of(at);
        self.lemma_inserted_shreds(index, shred);
        assert(kept.consumed == progress.consumed && kept.remaining == progress.remaining
            && kept.closed == progress.closed);
        if self.shreds.contains_key(index) {
            assert forall|i: int| #[trigger] self.has(i) == next.has(i) && (self.has(i) ==> alike(
                self.shred(i),
                next.shred(i),
            )) by {}
            self.lemma_same_chunks(next, at);
        } else {
            assert(next.shreds == self.shreds.insert(index, next.shreds[index]));
            let arrived = self.arrived(at);
            let more = self.lemma_run_extends(next, index, at);
            let grown = next.arrived(at);
            if progress.closed {
                if grown.len() <= MAX_BATCH_BYTES {
                    if self.whole(at) {
                        assert(grown =~= arrived);
                    } else {
                        assert(read_batch(arrived + more, None) == read_batch(arrived, None));
                        assert forall|rest: Seq<u8>| #[trigger]
                            read_batch(grown + rest, None) == read_batch(grown, None) by {
                            assert(grown + rest =~= arrived + (more + rest));
                            assert(read_batch(arrived + (more + rest), None) == read_batch(
                                arrived,
                                None,
                            ));
                        }
                    }
                }
            } else {
                let consumed = progress.consumed as int;
                assert forall|rest: Seq<u8>| #[trigger]
                    read_batch(grown + rest, None) == read_batch(
                        grown.skip(consumed) + rest,
                        progress.remaining,
                    ).after(entries, consumed as nat) by {
                    assert(grown + rest =~= arrived + (more + rest));
                    assert(grown.skip(consumed) + rest =~= arrived.skip(consumed) + (more + rest));
                    assert(read_batch(arrived + (more + rest), None) == read_batch(
                        arrived.skip(consumed) + (more + rest),
                        progress.remaining,
                    ).after(entries, consumed as nat));
                }
            }
        }
    }
}

proof fn lemma_from_batch_joined(front: Seq<BatchView>, back: Seq<BatchView>, start: int)
    ensures
        from_batch(front + back, start) == from_batch(front, start) + from_batch(back, start),
    decreases back.len(),
{
    if back.len() == 0 {
        assert(front + back =~= front);
        assert(from_batch(front, start) + Seq::empty() =~= from_batch(front, start));
    } else {
        assert((front + back).drop_last() =~= front + back.drop_last());
        lemma_from_batch_joined(front, back.drop_last(), start);
        assert(from_batch(front + back, start) =~= from_batch(front, start) + from_batch(
            back,
            start,
        ));
    }
}

/// What a pass hands over is what it yielded, under the batch it went over.
proof fn lemma_from_pass(at: int, advance: Option<AdvanceView>, start: int)
    requires
        0 <= at <= u32::MAX,
    ensures
        from_batch(handed_over(at, advance), start) == if start == at {
            yielded(advance)
        } else {
            Seq::empty()
        },
{
    reveal(handed_over);
    let batches = handed_over(at, advance);
    if batches.len() > 0 {
        assert(batches.drop_last() =~= Seq::empty());
        assert(from_batch(batches.drop_last(), start) =~= Seq::empty());
        assert(from_batch(batches, start) =~= if start == at {
            yielded(advance)
        } else {
            Seq::empty()
        });
    } else {
        assert(yielded(advance) =~= Seq::empty());
    }
}

impl SlotView {
    /// Reading on in one batch after storing a shred keeps count of every batch.
    #[verifier::spinoff_prover]
    #[verifier::rlimit(40)]
    pub proof fn lemma_pass_keeps_count(self, at: u32, start: u32, entries: Seq<EntryView>)
        requires
            self.delivered(start as int, entries),
            self.can_resume(at as int),
        ensures
            self.advanced(at as int).delivered(
                start as int,
                entries + from_batch(
                    handed_over(
                        at as int,
                        self.pass(at as int, self.progress_of(at as int)).1,
                    ),
                    start as int,
                ),
            ),
    {
        lemma_from_pass(
            at as int,
            self.pass(at as int, self.progress_of(at as int)).1,
            start as int,
        );
        if start == at {
            self.lemma_reading_on_delivers(start, entries);
        } else {
            self.lemma_reading_on_leaves_others(at, start, entries);
            assert(entries + Seq::empty() =~= entries);
        }
    }

    /// Accepting a shred keeps count of every batch, where the passes that takes
    /// can be taken up again.
    #[verifier::spinoff_prover]
    #[verifier::rlimit(40)]
    pub proof fn lemma_accepting_keeps_count(
        self,
        index: u32,
        last_in_slot: bool,
        shred: HeldShred,
    )
        requires
            index < u32::MAX,
            ({
                let stored = self.marked(index, last_in_slot).inserted(index, shred);
                let at = stored.containing(index as int);
                &&& stored.can_resume(at)
                &&& stored.is_start(index + 1) ==> stored.advanced(at).can_resume(index + 1)
            }),
        ensures
            ({
                let accepted = self.accepted(index, last_in_slot, shred);
                self.keeps_count(index, shred, accepted.slot, accepted.batches)
            }),
    {
        let accepted = self.accepted(index, last_in_slot, shred);
        let marked = self.marked(index, last_in_slot);
        let stored = marked.inserted(index, shred);
        let at = stored.containing(index as int);
        stored.lemma_containing(index as int);
        let read = stored.advanced(at);
        let first = handed_over(at, stored.pass(at, stored.progress_of(at)).1);
        if self.shreds.contains_key(index) ==> alike(self.shreds[index], shred) {
            assert forall|start: u32, entries: Seq<EntryView>|
                #![trigger self.delivered(start as int, entries)]
                self.delivered(start as int, entries) implies accepted.slot.delivered(
                start as int,
                entries + from_batch(accepted.batches, start as int),
            ) by {
                let s = start as int;
                assert forall|i: int| #[trigger] self.has(i) == marked.has(i) && (self.has(i)
                    ==> alike(self.shred(i), marked.shred(i))) by {}
                self.lemma_same_chunks(marked, s);
                assert(marked.progress_of(s) == self.progress_of(s));
                assert(marked.delivered(s, entries));
                marked.storing_a_shred_keeps_count(index, shred, start, entries);
                stored.lemma_pass_keeps_count(at as u32, start, entries);
                let so_far = entries + from_batch(first, s);
                assert(read.delivered(s, so_far));
                if stored.is_start(index + 1) {
                    let second = handed_over(
                        index + 1,
                        read.pass(index + 1, read.progress_of(index + 1)).1,
                    );
                    read.lemma_pass_keeps_count((index + 1) as u32, start, so_far);
                    lemma_from_batch_joined(first, second, s);
                    assert(so_far + from_batch(second, s) =~= entries + from_batch(
                        first + second,
                        s,
                    ));
                }
            }
        }
    }

    /// A pass leaves no whole entry unread.
    #[verifier::spinoff_prover]
    #[verifier::rlimit(60)]
    proof fn lemma_pass_catches_up(self, start: int)
        requires
            0 <= start <= u32::MAX,
            self.can_resume(start),
        ensures
            ({
                let after = self.pass(start, self.progress_of(start)).0;
                after.closed || self.idle(start, after)
            }),
    {
        reveal(SlotView::pass);
        let progress = self.progress_of(start);
        let after = self.pass(start, progress).0;
        self.lemma_run(start);
        self.lemma_span(start, self.run_end(start));
        let arrived = self.arrived(start);
        let consumed = progress.consumed as int;
        let unread = self.unread(start, consumed);
        if self.reads(start, progress) && !after.closed {
            let reading = read_batch(unread, progress.remaining);
            let none = Seq::<u8>::empty();
            let rest = unread.skip(reading.taken as int);
            assert(unread + none =~= unread);
            assert(rest + none =~= rest);
            assert(reading.outcome is Waiting);
            assert(read_batch(unread + none, progress.remaining) == read_batch(
                rest + none,
                reading.remaining,
            ).after(reading.entries, reading.taken));
            assert(self.unread(start, consumed + reading.taken) =~= rest);
            assert(after.consumed == consumed + reading.taken);
        } else if !after.closed {
            assert(unread =~= Seq::empty());
        }
    }

    /// Whatever arrives, everything that can be read has been once it has been dealt
    /// with.
    #[verifier::spinoff_prover]
    #[verifier::rlimit(40)]
    pub proof fn accepting_catches_up(self, index: u32, last_in_slot: bool, shred: HeldShred)
        requires
            index < u32::MAX,
            self.caught_up(),
            ({
                let stored = self.marked(index, last_in_slot).inserted(index, shred);
                let at = stored.containing(index as int);
                &&& stored.can_resume(at)
                &&& stored.is_start(index + 1) ==> stored.advanced(at).can_resume(index + 1)
            }),
        ensures
            self.accepted(index, last_in_slot, shred).slot.caught_up(),
    {
        let marked = self.marked(index, last_in_slot);
        let stored = marked.inserted(index, shred);
        let at = stored.containing(index as int);
        stored.lemma_containing(index as int);
        let read = stored.advanced(at);
        let post = self.accepted(index, last_in_slot, shred).slot;
        marked.lemma_inserted_shreds(index, shred);
        assert forall|start: int|
            0 <= start <= u32::MAX && #[trigger] post.is_start(start) && !post.progress_of(
                start,
            ).closed implies post.idle(start, post.progress_of(start)) by {
            assert forall|i: int| #[trigger] post.has(i) == stored.has(i) && (post.has(i) ==> alike(
                post.shred(i),
                stored.shred(i),
            )) by {}
            post.lemma_same_chunks(stored, start);
            assert(stored.is_start(start)) by {
                assert(post.has(start - 1) == stored.has(start - 1));
            }
            if start == index + 1 {
                assert forall|i: int| #[trigger] read.has(i) == stored.has(i) && (read.has(i)
                    ==> alike(read.shred(i), stored.shred(i))) by {}
                read.lemma_same_chunks(stored, start);
                read.lemma_pass_catches_up(start);
            } else if start == at {
                stored.lemma_pass_catches_up(start);
            } else {
                marked.other_batches_do_not_change(index, shred, start as u32);
                assert forall|i: int| #[trigger] self.has(i) == marked.has(i) && (self.has(i)
                    ==> alike(self.shred(i), marked.shred(i))) by {}
                self.lemma_same_chunks(marked, start);
                assert(self.is_start(start)) by {
                    if start > 0 {
                        assert(stored.closes(start - 1));
                        assert(self.has(start - 1) == marked.has(start - 1));
                    }
                }
                let progress = self.progress_of(start);
                let kept = stored.progress_of(start);
                assert(kept.consumed == progress.consumed && kept.remaining == progress.remaining
                    && kept.closed == progress.closed) by {
                    reveal(SlotView::inserted);
                }
                assert(self.idle(start, progress));
            }
        }
    }

    /// A pass over a batch that is all there reads it to its end.
    proof fn lemma_pass_closes(self, start: int, progress: Progress)
        requires
            0 <= start <= u32::MAX,
            self.whole(start),
        ensures
            self.pass(start, progress).0.closed,
    {
        reveal(SlotView::pass);
        self.lemma_run(start);
        assert(self.has(start));
    }

    /// Whatever arrives, every batch that is all there has been read to its end
    /// once it has been dealt with.
    #[verifier::spinoff_prover]
    #[verifier::rlimit(40)]
    pub proof fn accepting_reads_up(self, index: u32, last_in_slot: bool, shred: HeldShred)
        requires
            index < u32::MAX,
            self.read_up(),
        ensures
            self.accepted(index, last_in_slot, shred).slot.read_up(),
    {
        let marked = self.marked(index, last_in_slot);
        let stored = marked.inserted(index, shred);
        let at = stored.containing(index as int);
        stored.lemma_containing(index as int);
        let read = stored.advanced(at);
        let post = self.accepted(index, last_in_slot, shred).slot;
        marked.lemma_inserted_shreds(index, shred);
        assert forall|start: int|
            0 <= start <= u32::MAX && #[trigger] post.is_start(start) && post.whole(
                start,
            ) implies post.progress_of(start).closed by {
            assert forall|i: int| #[trigger] post.has(i) == stored.has(i) && (post.has(i) ==> alike(
                post.shred(i),
                stored.shred(i),
            )) by {}
            post.lemma_same_chunks(stored, start);
            assert(stored.is_start(start)) by {
                assert(post.has(start - 1) == stored.has(start - 1));
            }
            if start == index + 1 {
                assert forall|i: int| #[trigger] read.has(i) == stored.has(i) && (read.has(i)
                    ==> alike(read.shred(i), stored.shred(i))) by {}
                read.lemma_same_chunks(stored, start);
                read.lemma_pass_closes(start, read.progress_of(start));
            } else if start == at {
                stored.lemma_pass_closes(start, stored.progress_of(start));
            } else {
                marked.other_batches_do_not_change(index, shred, start as u32);
                assert forall|i: int| #[trigger] self.has(i) == marked.has(i) && (self.has(i)
                    ==> alike(self.shred(i), marked.shred(i))) by {}
                self.lemma_same_chunks(marked, start);
                stored.lemma_run(start);
                marked.lemma_run(start);
                assert(stored.has(start) && marked.has(start));
                assert(marked.whole(start));
                assert(self.is_start(start)) by {
                    if start > 0 {
                        assert(stored.closes(start - 1));
                        assert(self.has(start - 1) == marked.has(start - 1));
                    }
                }
                assert(self.progress_of(start).closed);
                assert(stored.progress_of(start).closed) by {
                    reveal(SlotView::inserted);
                }
            }
        }
    }

    /// A batch that is all there, has been read to its end and ran within its
    /// bounds has come out whole: what it yielded is what reading it at one go
    /// gives.
    pub proof fn a_whole_batch_has_come_out_whole(self, start: int, entries: Seq<EntryView>)
        requires
            0 <= start <= u32::MAX,
            self.read_up(),
            self.is_start(start),
            self.whole(start),
            self.arrived(start).len() <= MAX_BATCH_BYTES,
            self.delivered(start, entries),
        ensures
            entries == read_batch(self.arrived(start), None).entries,
    {
    }
}

/// What a shred of a slot carries, as its leader wrote it.
pub struct Chunk {
    pub data: Seq<u8>,
    pub data_complete: bool,
}

/// One call of the assembler: what it was handed, what it made of it, and where
/// it stood before, in between and after.
pub struct Arrival {
    pub before: Assembler,
    pub swept: Assembler,
    pub shred: DataView,
    pub recovered: bool,
    pub now: u64,
    pub after: Assembler,
    pub batches: Seq<BatchView>,
}

impl Arrival {
    /// Whether the call went the way [`Assembler::insert`] promises, did not find
    /// `slot` past its time, and, if the shred is one of that slot's, handed over
    /// a shred the leader `sent` and had room for it.
    pub open spec fn taken_in(self, slot: u64, sent: Map<u32, Chunk>) -> bool {
        &&& self.before.swept(self.now, self.swept)
        &&& self.swept.slot(slot) == self.before.slot(slot)
        &&& self.swept.dealt_with(
            self.shred,
            self.recovered,
            self.now,
            self.after,
            self.batches,
        )
        &&& self.shred.slot == slot ==> {
            &&& self.shred.index < u32::MAX
            &&& !over_budget(self.swept.bytes as int, self.shred.data.len() as int)
            &&& !self.swept.slot(slot).full(self.shred.index, self.shred.data.len())
            &&& sent.contains_key(self.shred.index)
            &&& self.shred.data == sent[self.shred.index].data
            &&& self.shred.data_complete == sent[self.shred.index].data_complete
        }
    }

    /// What the call handed over of the batch of `slot` beginning at `start`.
    pub open spec fn handed(self, slot: u64, start: int) -> Seq<EntryView> {
        if self.shred.slot == slot {
            from_batch(self.batches, start)
        } else {
            Seq::empty()
        }
    }
}

/// Whether `arrivals` are all that happened to `slot`, of which nothing was held
/// at first: shreds its leader `sent`, in any order and any number of times, and
/// whatever came for other slots in between.
pub open spec fn is_history(arrivals: Seq<Arrival>, slot: u64, sent: Map<u32, Chunk>) -> bool {
    &&& forall|i: int| 0 <= i < arrivals.len() ==> (#[trigger] arrivals[i]).taken_in(slot, sent)
    &&& arrivals.len() > 0 ==> arrivals[0].before.slot(slot) == SlotView::empty()
    &&& forall|i: int|
        0 < i < arrivals.len() ==> (#[trigger] arrivals[i]).before.slot(slot) == arrivals[i
            - 1].after.slot(slot)
}

/// Whether the shred at `index` was among them.
pub open spec fn came(arrivals: Seq<Arrival>, slot: u64, index: int) -> bool {
    exists|i: int|
        0 <= i < arrivals.len() && (#[trigger] arrivals[i]).shred.slot == slot
            && arrivals[i].shred.index == index
}

/// Everything that was handed over of the batch of `slot` beginning at `start`,
/// in the order of the calls.
pub open spec fn all_handed(arrivals: Seq<Arrival>, slot: u64, start: int) -> Seq<EntryView>
    decreases arrivals.len(),
{
    if arrivals.len() == 0 {
        Seq::empty()
    } else {
        all_handed(arrivals.drop_last(), slot, start) + arrivals.last().handed(slot, start)
    }
}

/// The bytes of the shreds from `from` up to `to`, one behind the other.
pub open spec fn put_together(sent: Map<u32, Chunk>, from: int, to: int) -> Seq<u8>
    decreases to - from,
{
    if to <= from {
        Seq::empty()
    } else {
        put_together(sent, from, to - 1) + sent[(to - 1) as u32].data
    }
}

/// Whether the shreds from `start` to `last` are a batch the leader wrote, and all
/// of it came: what precedes it closes a batch, and of its own shreds the last
/// alone does.
pub open spec fn is_complete_batch(
    arrivals: Seq<Arrival>,
    slot: u64,
    sent: Map<u32, Chunk>,
    start: u32,
    last: u32,
) -> bool {
    &&& start <= last
    &&& start == 0 || came(arrivals, slot, start - 1) && sent[(start - 1) as u32].data_complete
    &&& forall|index: int| start <= index <= last ==> #[trigger] came(arrivals, slot, index)
    &&& forall|index: u32|
        start <= index <= last ==> (#[trigger] sent[index]).data_complete == (index == last)
}

/// Whether all the leader sent of a slot is the one batch that ends at `last`.
pub open spec fn is_lone_batch(sent: Map<u32, Chunk>, last: u32) -> bool {
    forall|index: u32| #[trigger]
        sent.contains_key(index) ==> index <= last && sent[index].data_complete == (index == last)
}

/// Where a slot stands after all that happened to it.
spec fn standing(arrivals: Seq<Arrival>, slot: u64) -> SlotView {
    if arrivals.len() == 0 {
        SlotView::empty()
    } else {
        arrivals.last().after.slot(slot)
    }
}

/// What a slot holds are shreds its leader sent.
spec fn holds_what_was_sent(view: SlotView, sent: Map<u32, Chunk>) -> bool {
    forall|index: u32| #[trigger]
        view.shreds.contains_key(index) ==> sent.contains_key(index) && view.shreds[index].data
            == sent[index].data && view.shreds[index].data_complete == sent[index].data_complete
}

/// A slot nothing has arrived of has nothing left to read.
pub(crate) proof fn lemma_nothing_to_read()
    ensures
        SlotView::empty().read_up(),
{
    let view = SlotView::empty();
    assert forall|start: int|
        0 <= start <= u32::MAX && #[trigger] view.is_start(start) && view.whole(
            start,
        ) implies view.progress_of(start).closed by {
        assert(!view.has(start));
    }
}

proof fn lemma_nothing_is_delivered(start: int)
    requires
        0 <= start <= u32::MAX,
    ensures
        SlotView::empty().delivered(start, Seq::empty()),
{
    let view = SlotView::empty();
    assert(!view.has(start));
    assert(view.arrived(start) =~= Seq::empty());
    assert forall|more: Seq<u8>| #[trigger]
        read_batch(view.arrived(start) + more, None) == read_batch(
            view.arrived(start).skip(0) + more,
            None,
        ).after(Seq::empty(), 0) by {
        let reading = read_batch(view.arrived(start) + more, None);
        assert(view.arrived(start).skip(0) =~= view.arrived(start));
        assert(reading.after(Seq::empty(), 0) =~= reading);
    }
}

/// One call, given that everything was in order before it.
#[verifier::spinoff_prover]
#[verifier::rlimit(40)]
proof fn lemma_arrival(arrival: Arrival, slot: u64, sent: Map<u32, Chunk>)
    requires
        arrival.taken_in(slot, sent),
        arrival.before.slot(slot).read_up(),
        holds_what_was_sent(arrival.before.slot(slot), sent),
    ensures
        arrival.after.slot(slot).read_up(),
        holds_what_was_sent(arrival.after.slot(slot), sent),
        forall|start: u32, entries: Seq<EntryView>|
            #![trigger arrival.before.slot(slot).delivered(start as int, entries)]
            arrival.before.slot(slot).delivered(start as int, entries) ==> arrival.after.slot(
                slot,
            ).delivered(start as int, entries + arrival.handed(slot, start as int)),
        forall|index: u32| #[trigger]
            arrival.after.slot(slot).shreds.contains_key(index) <==> arrival.before.slot(
                slot,
            ).shreds.contains_key(index) || (arrival.shred.slot == slot && arrival.shred.index
                == index),
{
    let before = arrival.before.slot(slot);
    let after = arrival.after.slot(slot);
    if arrival.shred.slot == slot {
        let index = arrival.shred.index;
        let shred = to_hold(arrival.shred, arrival.now, arrival.recovered);
        let last_in_slot = arrival.shred.last_in_slot;
        before.accepting_reads_up(index, last_in_slot, shred);
        before.accepting_stores_the_shred(index, last_in_slot, shred);
        assert(before.keeps_count(index, shred, after, arrival.batches));
    } else {
        arrival.swept.slots_do_not_disturb_each_other(
            arrival.shred,
            arrival.recovered,
            arrival.now,
            arrival.after,
            arrival.batches,
            slot,
        );
        assert forall|start: u32, entries: Seq<EntryView>|
            #![trigger before.delivered(start as int, entries)]
            before.delivered(start as int, entries) implies after.delivered(
            start as int,
            entries + arrival.handed(slot, start as int),
        ) by {
            assert(entries + Seq::empty() =~= entries);
        }
    }
}

#[verifier::spinoff_prover]
#[verifier::rlimit(40)]
proof fn lemma_history(arrivals: Seq<Arrival>, slot: u64, sent: Map<u32, Chunk>)
    requires
        is_history(arrivals, slot, sent),
    ensures
        standing(arrivals, slot).read_up(),
        holds_what_was_sent(standing(arrivals, slot), sent),
        forall|start: u32| #[trigger]
            standing(arrivals, slot).delivered(
                start as int,
                all_handed(arrivals, slot, start as int),
            ),
        forall|index: u32|
            came(arrivals, slot, index as int) ==> #[trigger] standing(
                arrivals,
                slot,
            ).shreds.contains_key(index),
    decreases arrivals.len(),
{
    let view = standing(arrivals, slot);
    if arrivals.len() == 0 {
        lemma_nothing_to_read();
        assert forall|start: u32| #[trigger]
            view.delivered(start as int, all_handed(arrivals, slot, start as int)) by {
            lemma_nothing_is_delivered(start as int);
        }
    } else {
        let earlier = arrivals.drop_last();
        let arrival = arrivals.last();
        assert forall|i: int| 0 <= i < earlier.len() implies (#[trigger] earlier[i]).taken_in(
            slot,
            sent,
        ) by {
            assert(earlier[i] == arrivals[i]);
        }
        assert forall|i: int| 0 < i < earlier.len() implies (#[trigger] earlier[i]).before.slot(
            slot,
        ) == earlier[i - 1].after.slot(slot) by {
            assert(arrivals[i].before.slot(slot) == arrivals[i - 1].after.slot(slot));
        }
        lemma_history(earlier, slot, sent);
        let before = standing(earlier, slot);
        assert(arrivals[arrivals.len() - 1].taken_in(slot, sent));
        assert(arrival.swept.slot(slot) == before);
        assert forall|index: u32| came(arrivals, slot, index as int) implies came(
            earlier,
            slot,
            index as int,
        ) || (arrival.shred.slot == slot && arrival.shred.index == index) by {
            let i = choose|i: int|
                0 <= i < arrivals.len() && (#[trigger] arrivals[i]).shred.slot == slot
                    && arrivals[i].shred.index == index;
            if i < earlier.len() {
                assert(earlier[i].shred.slot == slot);
            }
        }
        lemma_arrival(arrival, slot, sent);
        assert forall|start: u32| #[trigger]
            view.delivered(start as int, all_handed(arrivals, slot, start as int)) by {
            assert(before.delivered(start as int, all_handed(earlier, slot, start as int)));
        }
    }
}

proof fn lemma_put_together(view: SlotView, sent: Map<u32, Chunk>, from: int, to: int)
    requires
        0 <= from <= to,
        holds_what_was_sent(view, sent),
        forall|index: int| from <= index < to ==> #[trigger] view.has(index),
    ensures
        view.span(from, to) == put_together(sent, from, to),
    decreases to - from,
{
    if from < to {
        lemma_put_together(view, sent, from, to - 1);
        assert(view.has(to - 1));
    }
}

/// In a slot that has taken a batch in, the batch is all there.
proof fn lemma_complete_batch(
    arrivals: Seq<Arrival>,
    slot: u64,
    sent: Map<u32, Chunk>,
    start: u32,
    last: u32,
)
    requires
        is_history(arrivals, slot, sent),
        is_complete_batch(arrivals, slot, sent, start, last),
    ensures
        ({
            let view = standing(arrivals, slot);
            &&& view.is_start(start as int)
            &&& view.whole(start as int)
            &&& view.arrived(start as int) == put_together(sent, start as int, last + 1)
        }),
{
    lemma_history(arrivals, slot, sent);
    let view = standing(arrivals, slot);
    assert forall|index: int| start <= index <= last implies #[trigger] view.has(index)
        && view.closes(index) == (index == last) by {
        assert(came(arrivals, slot, index));
        assert(view.shreds.contains_key(index as u32));
        assert(sent[index as u32].data_complete == (index == last));
    }
    assert(view.has(last as int));
    view.lemma_run_end_skip(start as int, last as int);
    assert(view.run_end(start as int) == last + 1);
    lemma_put_together(view, sent, start as int, last + 1);
    if start > 0 {
        assert(view.shreds.contains_key((start - 1) as u32));
    }
}

/// Whatever order the shreds of a batch arrive in, however often, and whatever
/// else arrives in between, the pieces handed over of it hold, one behind the
/// other, exactly the entries that reading the batch at one go gives: in order,
/// each once. That is as long as the batch runs within its bounds, the slot is
/// not let go and its shreds are not refused.
pub proof fn a_batch_comes_out_once_in_whatever_order_it_arrives(
    arrivals: Seq<Arrival>,
    slot: u64,
    sent: Map<u32, Chunk>,
    start: u32,
    last: u32,
)
    requires
        is_history(arrivals, slot, sent),
        is_complete_batch(arrivals, slot, sent, start, last),
        put_together(sent, start as int, last + 1).len() <= MAX_BATCH_BYTES,
    ensures
        all_handed(arrivals, slot, start as int) == read_batch(
            put_together(sent, start as int, last + 1),
            None,
        ).entries,
{
    lemma_history(arrivals, slot, sent);
    lemma_complete_batch(arrivals, slot, sent, start, last);
    let view = standing(arrivals, slot);
    assert(view.delivered(start as int, all_handed(arrivals, slot, start as int)));
    view.a_whole_batch_has_come_out_whole(
        start as int,
        all_handed(arrivals, slot, start as int),
    );
}

/// No piece is empty.
proof fn lemma_pieces_hold_something(
    view: SlotView,
    index: u32,
    last_in_slot: bool,
    shred: HeldShred,
)
    ensures
        forall|i: int|
            0 <= i < view.accepted(index, last_in_slot, shred).batches.len() ==> (
            #[trigger] view.accepted(index, last_in_slot, shred).batches[i]).entries.len() > 0,
{
    reveal(handed_over);
}

/// A shred of a lone batch carries no other batch forward.
proof fn lemma_lone_batch(
    view: SlotView,
    sent: Map<u32, Chunk>,
    last: u32,
    index: u32,
    last_in_slot: bool,
    shred: HeldShred,
)
    requires
        holds_what_was_sent(view, sent),
        is_lone_batch(sent, last),
        index < u32::MAX,
        sent.contains_key(index),
        shred.data_complete == sent[index].data_complete,
    ensures
        forall|i: int|
            0 <= i < view.accepted(index, last_in_slot, shred).batches.len() ==> (
            #[trigger] view.accepted(index, last_in_slot, shred).batches[i]).first_shred == 0,
{
    reveal(handed_over);
    reveal(SlotView::pass);
    let marked = view.marked(index, last_in_slot);
    let stored = marked.inserted(index, shred);
    marked.lemma_inserted_shreds(index, shred);
    let at = stored.containing(index as int);
    stored.lemma_containing(index as int);
    assert(at == 0) by {
        if at > 0 {
            assert(stored.closes(at - 1));
            assert(at - 1 == index || view.shreds.contains_key((at - 1) as u32));
            assert(sent.contains_key((at - 1) as u32));
        }
    }
    let read = stored.advanced(at);
    if stored.is_start(index + 1) {
        assert(stored.closes(index as int));
        assert(index == last);
        assert(!read.has(index + 1)) by {
            if read.has(index + 1) {
                assert(view.shreds.contains_key((index + 1) as u32));
                assert(sent.contains_key((index + 1) as u32));
            }
        }
    }
}

/// Pieces that hold nothing of a batch are not pieces of it.
proof fn lemma_no_pieces(batches: Seq<BatchView>, start: int)
    requires
        from_batch(batches, start).len() == 0,
        forall|i: int| 0 <= i < batches.len() ==> (#[trigger] batches[i]).entries.len() > 0,
    ensures
        forall|i: int| 0 <= i < batches.len() ==> (#[trigger] batches[i]).first_shred != start,
    decreases batches.len(),
{
    if batches.len() > 0 {
        let front = batches.drop_last();
        assert(batches[batches.len() - 1].entries.len() > 0);
        assert forall|i: int| 0 <= i < front.len() implies (#[trigger] front[i]).entries.len()
            > 0 by {
            assert(batches[i].entries.len() > 0);
        }
        lemma_no_pieces(front, start);
        assert forall|i: int| 0 <= i < batches.len() implies (#[trigger] batches[i]).first_shred
            != start by {
            if i < front.len() {
                assert(front[i].first_shred != start);
            }
        }
    }
}

/// Once all of a batch has come, nothing that arrives afterwards, a resent shred
/// of it included, gives another piece of it. Where the slot consists of nothing
/// else, nothing is handed over at all.
#[verifier::spinoff_prover]
#[verifier::rlimit(40)]
pub proof fn a_resent_batch_gives_nothing(
    arrivals: Seq<Arrival>,
    again: Arrival,
    slot: u64,
    sent: Map<u32, Chunk>,
    start: u32,
    last: u32,
)
    requires
        is_history(arrivals.push(again), slot, sent),
        is_complete_batch(arrivals, slot, sent, start, last),
        put_together(sent, start as int, last + 1).len() <= MAX_BATCH_BYTES,
        again.shred.slot == slot,
    ensures
        forall|i: int|
            0 <= i < again.batches.len() ==> (#[trigger] again.batches[i]).first_shred != start,
        start == 0 && is_lone_batch(sent, last) ==> again.batches.len() == 0,
{
    let all = arrivals.push(again);
    assert(all.drop_last() =~= arrivals);
    assert(all[arrivals.len() as int] == again);
    assert(again.taken_in(slot, sent));
    assert forall|i: int| 0 <= i < arrivals.len() implies (#[trigger] arrivals[i]).taken_in(
        slot,
        sent,
    ) by {
        assert(all[i] == arrivals[i]);
    }
    assert forall|i: int| 0 < i < arrivals.len() implies (#[trigger] arrivals[i]).before.slot(slot)
        == arrivals[i - 1].after.slot(slot) by {
        assert(all[i].before.slot(slot) == all[i - 1].after.slot(slot));
    }
    if arrivals.len() > 0 {
        assert(all[0] == arrivals[0]);
    }
    assert(is_history(arrivals, slot, sent));
    assert forall|index: int| came(arrivals, slot, index) implies #[trigger] came(
        all,
        slot,
        index,
    ) by {
        let i = choose|i: int|
            0 <= i < arrivals.len() && (#[trigger] arrivals[i]).shred.slot == slot
                && arrivals[i].shred.index == index;
        assert(all[i].shred.slot == slot);
    }
    a_batch_comes_out_once_in_whatever_order_it_arrives(arrivals, slot, sent, start, last);
    a_batch_comes_out_once_in_whatever_order_it_arrives(all, slot, sent, start, last);
    let before = all_handed(arrivals, slot, start as int);
    assert(all_handed(all, slot, start as int) == before + from_batch(
        again.batches,
        start as int,
    ));
    let view = standing(arrivals, slot);
    assert(again.before.slot(slot) == view) by {
        assert(came(arrivals, slot, last as int));
        assert(all[arrivals.len() as int].before.slot(slot) == all[arrivals.len()
            - 1].after.slot(slot));
    }
    let index = again.shred.index;
    let shred = to_hold(again.shred, again.now, again.recovered);
    let last_in_slot = again.shred.last_in_slot;
    assert(again.batches == view.accepted(index, last_in_slot, shred).batches);
    lemma_pieces_hold_something(view, index, last_in_slot, shred);
    lemma_no_pieces(again.batches, start as int);
    if start == 0 && is_lone_batch(sent, last) {
        lemma_history(arrivals, slot, sent);
        lemma_lone_batch(view, sent, last, index, last_in_slot, shred);
        if again.batches.len() > 0 {
            assert(again.batches[0].first_shred != start);
        }
    }
}

/// Where a slot consists of a single batch, every piece handed over for it is a
/// piece of that batch, and none is empty.
pub proof fn a_lone_batch_comes_in_pieces_of_its_own(
    arrivals: Seq<Arrival>,
    slot: u64,
    sent: Map<u32, Chunk>,
    last: u32,
    call: int,
    piece: int,
)
    requires
        is_history(arrivals, slot, sent),
        is_lone_batch(sent, last),
        0 <= call < arrivals.len(),
        arrivals[call].shred.slot == slot,
        0 <= piece < arrivals[call].batches.len(),
    ensures
        arrivals[call].batches[piece].first_shred == 0,
        arrivals[call].batches[piece].entries.len() > 0,
{
    let earlier = arrivals.take(call);
    let arrival = arrivals[call];
    assert(arrival.taken_in(slot, sent));
    assert forall|i: int| 0 <= i < earlier.len() implies (#[trigger] earlier[i]).taken_in(
        slot,
        sent,
    ) by {
        assert(earlier[i] == arrivals[i]);
    }
    assert forall|i: int| 0 < i < earlier.len() implies (#[trigger] earlier[i]).before.slot(slot)
        == earlier[i - 1].after.slot(slot) by {
        assert(arrivals[i].before.slot(slot) == arrivals[i - 1].after.slot(slot));
    }
    lemma_history(earlier, slot, sent);
    let view = arrival.before.slot(slot);
    assert(view == standing(earlier, slot));
    let index = arrival.shred.index;
    let shred = to_hold(arrival.shred, arrival.now, arrival.recovered);
    let last_in_slot = arrival.shred.last_in_slot;
    assert(arrival.batches == view.accepted(index, last_in_slot, shred).batches);
    lemma_pieces_hold_something(view, index, last_in_slot, shred);
    lemma_lone_batch(view, sent, last, index, last_in_slot, shred);
}

impl Arrival {
    /// Whether the call went the way [`Assembler::insert`] promises, did not find
    /// `slot` past its time, and, if the shred is one of that slot's, handed over
    /// a shred the leader `sent`, with half a gigabyte not yet taken up by all that
    /// is held.
    pub open spec fn offered(self, slot: u64, sent: Map<u32, Chunk>) -> bool {
        &&& self.before.swept(self.now, self.swept)
        &&& self.swept.slot(slot) == self.before.slot(slot)
        &&& self.swept.dealt_with(
            self.shred,
            self.recovered,
            self.now,
            self.after,
            self.batches,
        )
        &&& self.shred.slot == slot ==> {
            &&& self.swept.bytes + self.shred.data.len() + 192 <= 536_870_912
            &&& sent.contains_key(self.shred.index)
            &&& self.shred.data == sent[self.shred.index].data
            &&& self.shred.data_complete == sent[self.shred.index].data_complete
        }
    }
}

/// Whether what a leader `sent` is a block of `count` shreds the sniper has room
/// for: no more than 8192 of them, and of no more than eight megabytes, with any one
/// of them counted twice.
pub open spec fn is_block(sent: Map<u32, Chunk>, count: int) -> bool {
    &&& 0 <= count <= 8_192
    &&& forall|index: u32| #[trigger] sent.contains_key(index) <==> index < count
    &&& forall|index: u32|
        index < count ==> put_together(sent, 0, count).len() + (#[trigger] sent[index]).data.len()
            <= 8_388_608
}

/// What a slot holds of a block comes to no more than the block.
proof fn lemma_held_of_block(view: SlotView, sent: Map<u32, Chunk>, count: int, upto: int)
    requires
        holds_what_was_sent(view, sent),
        is_block(sent, count),
        0 <= upto <= count,
    ensures
        view.span_len(0, upto) <= put_together(sent, 0, upto).len(),
    decreases upto,
{
    if upto > 0 {
        lemma_held_of_block(view, sent, count, upto - 1);
        assert(view.span_len(0, upto) == view.span_len(0, upto - 1) + view.data_len(upto - 1));
        if view.has(upto - 1) {
            assert(view.shreds.contains_key((upto - 1) as u32));
        }
    }
}

#[verifier::spinoff_prover]
#[verifier::rlimit(60)]
proof fn lemma_shreds_of_block(view: SlotView, sent: Map<u32, Chunk>, count: int)
    requires
        holds_what_was_sent(view, sent),
        is_block(sent, count),
    ensures
        view.total_len() <= put_together(sent, 0, count).len(),
        view.shreds.len() <= count,
        forall|index: u32|
            index < count && !view.shreds.contains_key(index) ==> view.shreds.len() < count,
{
    lemma_held_of_block(view, sent, count, count);
    let lens = |index: int| view.data_len(index);
    crate::sums::lemma_sum_split(lens, 0, count, u32::MAX + 1);
    assert forall|index: int| count <= index < u32::MAX + 1 implies #[trigger] lens(index) == 0 by {
        if view.has(index) {
            assert(sent.contains_key(index as u32));
        }
    }
    crate::sums::lemma_sum_zero(lens, count, u32::MAX + 1);
    lemma_indices(count);
    let all = indices(count);
    assert(view.shreds.dom().subset_of(all)) by {
        assert forall|index: u32| view.shreds.dom().contains(index) implies all.contains(index) by {
            assert(view.shreds.contains_key(index));
            assert(sent.contains_key(index));
        }
    }
    vstd::set_lib::lemma_len_subset(view.shreds.dom(), all);
    assert forall|index: u32|
        index < count && !view.shreds.contains_key(index) implies view.shreds.len() < count by {
        let fewer = all.remove(index);
        assert(view.shreds.dom().subset_of(fewer));
        vstd::set_lib::lemma_len_subset(view.shreds.dom(), fewer);
    }
}

spec fn indices(count: int) -> Set<u32> {
    Set::new(|index: u32| index < count)
}

proof fn lemma_indices(count: int)
    requires
        0 <= count <= u32::MAX,
    ensures
        indices(count).finite(),
        indices(count).len() == count,
    decreases count,
{
    if count == 0 {
        assert(indices(count) =~= Set::empty());
    } else {
        lemma_indices(count - 1);
        assert(indices(count) =~= indices(count - 1).insert((count - 1) as u32));
    }
}

/// No shred of a block there is room for is refused: whatever order its shreds
/// arrive in, however often, and whatever else arrives in between, every one of them
/// is taken in.
#[verifier::spinoff_prover]
#[verifier::rlimit(40)]
pub proof fn no_shred_of_a_block_is_refused(
    arrivals: Seq<Arrival>,
    slot: u64,
    sent: Map<u32, Chunk>,
    count: int,
)
    requires
        is_block(sent, count),
        forall|i: int| 0 <= i < arrivals.len() ==> (#[trigger] arrivals[i]).offered(slot, sent),
        arrivals.len() > 0 ==> arrivals[0].before.slot(slot) == SlotView::empty(),
        forall|i: int|
            0 < i < arrivals.len() ==> (#[trigger] arrivals[i]).before.slot(slot) == arrivals[i
                - 1].after.slot(slot),
    ensures
        is_history(arrivals, slot, sent),
        forall|i: int|
            0 <= i < arrivals.len() && (#[trigger] arrivals[i]).shred.slot == slot
                ==> arrivals[i].after.slot(slot).shreds.contains_key(arrivals[i].shred.index),
    decreases arrivals.len(),
{
    if arrivals.len() > 0 {
        let earlier = arrivals.drop_last();
        let arrival = arrivals.last();
        assert forall|i: int| 0 <= i < earlier.len() implies (#[trigger] earlier[i]).offered(
            slot,
            sent,
        ) by {
            assert(earlier[i] == arrivals[i]);
        }
        assert forall|i: int| 0 < i < earlier.len() implies (#[trigger] earlier[i]).before.slot(
            slot,
        ) == earlier[i - 1].after.slot(slot) by {
            assert(arrivals[i].before.slot(slot) == arrivals[i - 1].after.slot(slot));
        }
        no_shred_of_a_block_is_refused(earlier, slot, sent, count);
        lemma_history(earlier, slot, sent);
        let view = standing(earlier, slot);
        assert(arrivals[arrivals.len() - 1].offered(slot, sent));
        assert(arrival.swept.slot(slot) == view);
        lemma_shreds_of_block(view, sent, count);
        assert(arrival.taken_in(slot, sent)) by {
            if arrival.shred.slot == slot {
                assert(sent[arrival.shred.index].data.len() == arrival.shred.data.len());
            }
        }
        assert forall|i: int| 0 <= i < arrivals.len() implies (#[trigger] arrivals[i]).taken_in(
            slot,
            sent,
        ) by {
            if i < earlier.len() {
                assert(earlier[i].taken_in(slot, sent));
            }
        }
        lemma_arrival(arrival, slot, sent);
        assert forall|i: int|
            0 <= i < arrivals.len() && (
            #[trigger] arrivals[i]).shred.slot == slot implies arrivals[i].after.slot(
            slot,
        ).shreds.contains_key(arrivals[i].shred.index) by {
            if i < earlier.len() {
                assert(earlier[i].shred.slot == slot);
            }
        }
    }
}

/// A block comes out whole. Whatever order its shreds arrive in, however often, and
/// whatever else arrives in between, what is handed over of each of its batches are
/// the entries the leader put into that batch, in order and each once: the batch
/// begins with their number, they lie behind it, and it runs to no more than a
/// quarter of a megabyte.
pub proof fn a_block_comes_out_whole(
    arrivals: Seq<Arrival>,
    slot: u64,
    sent: Map<u32, Chunk>,
    count: int,
    start: u32,
    last: u32,
    entries: Seq<EntryView>,
    ends: Seq<int>,
)
    requires
        is_block(sent, count),
        forall|i: int| 0 <= i < arrivals.len() ==> (#[trigger] arrivals[i]).offered(slot, sent),
        arrivals.len() > 0 ==> arrivals[0].before.slot(slot) == SlotView::empty(),
        forall|i: int|
            0 < i < arrivals.len() ==> (#[trigger] arrivals[i]).before.slot(slot) == arrivals[i
                - 1].after.slot(slot),
        is_complete_batch(arrivals, slot, sent, start, last),
        ({
            let bytes = put_together(sent, start as int, last + 1);
            &&& 8 <= bytes.len() <= 262_144
            &&& crate::shred::eight_at(bytes, 0) == entries.len()
            &&& entries.len() * 48 <= 262_144
            &&& crate::decoder::lie_in(bytes, entries, ends)
            &&& ends[0] == 8
        }),
    ensures
        all_handed(arrivals, slot, start as int) == entries,
{
    no_shred_of_a_block_is_refused(arrivals, slot, sent, count);
    a_batch_comes_out_once_in_whatever_order_it_arrives(arrivals, slot, sent, start, last);
    crate::decoder::a_batch_is_read_entry_by_entry(
        put_together(sent, start as int, last + 1),
        entries,
        ends,
    );
}

#[verifier::spinoff_prover]
#[verifier::rlimit(60)]
proof fn lemma_history_catches_up(arrivals: Seq<Arrival>, slot: u64, sent: Map<u32, Chunk>)
    requires
        is_history(arrivals, slot, sent),
    ensures
        standing(arrivals, slot).caught_up(),
        forall|index: u32| #[trigger]
            standing(arrivals, slot).shreds.contains_key(index) ==> came(
                arrivals,
                slot,
                index as int,
            ),
    decreases arrivals.len(),
{
    let view = standing(arrivals, slot);
    if arrivals.len() == 0 {
        assert forall|start: int|
            0 <= start <= u32::MAX && #[trigger] view.is_start(start) && !view.progress_of(
                start,
            ).closed implies view.idle(start, view.progress_of(start)) by {
            assert(!view.has(start));
            assert(view.unread(start, 0) =~= Seq::empty());
        }
    } else {
        let earlier = arrivals.drop_last();
        let arrival = arrivals.last();
        assert forall|i: int| 0 <= i < earlier.len() implies (#[trigger] earlier[i]).taken_in(
            slot,
            sent,
        ) by {
            assert(earlier[i] == arrivals[i]);
        }
        assert forall|i: int| 0 < i < earlier.len() implies (#[trigger] earlier[i]).before.slot(
            slot,
        ) == earlier[i - 1].after.slot(slot) by {
            assert(arrivals[i].before.slot(slot) == arrivals[i - 1].after.slot(slot));
        }
        lemma_history_catches_up(earlier, slot, sent);
        lemma_history(earlier, slot, sent);
        assert(arrivals[arrivals.len() - 1].taken_in(slot, sent));
        assert(arrival.swept.slot(slot) == standing(earlier, slot));
        lemma_arrival(arrival, slot, sent);
        if arrival.shred.slot != slot {
            arrival.swept.slots_do_not_disturb_each_other(
                arrival.shred,
                arrival.recovered,
                arrival.now,
                arrival.after,
                arrival.batches,
                slot,
            );
        }
        assert forall|index: u32| #[trigger] view.shreds.contains_key(index) implies came(
            arrivals,
            slot,
            index as int,
        ) by {
            if standing(earlier, slot).shreds.contains_key(index) {
                assert(came(earlier, slot, index as int));
                let i = choose|i: int|
                    0 <= i < earlier.len() && (#[trigger] earlier[i]).shred.slot == slot
                        && earlier[i].shred.index == index;
                assert(arrivals[i].shred.slot == slot && arrivals[i].shred.index == index);
            } else {
                assert(arrivals[arrivals.len() - 1].shred.slot == slot);
            }
        }
    }
}

/// Nothing is held back. A batch of which the shreds up to `end` have come and the
/// next has not has already given every entry that lies whole in what has come of
/// it, without waiting for the shred that closes it.
#[verifier::spinoff_prover]
#[verifier::rlimit(40)]
pub proof fn what_can_be_read_has_come_out(
    arrivals: Seq<Arrival>,
    slot: u64,
    sent: Map<u32, Chunk>,
    count: int,
    start: u32,
    end: u32,
    entries: Seq<EntryView>,
    ends: Seq<int>,
)
    requires
        is_block(sent, count),
        forall|i: int| 0 <= i < arrivals.len() ==> (#[trigger] arrivals[i]).offered(slot, sent),
        arrivals.len() > 0 ==> arrivals[0].before.slot(slot) == SlotView::empty(),
        forall|i: int|
            0 < i < arrivals.len() ==> (#[trigger] arrivals[i]).before.slot(slot) == arrivals[i
                - 1].after.slot(slot),
        start == 0 || came(arrivals, slot, start - 1) && sent[(start - 1) as u32].data_complete,
        start <= end,
        forall|index: int| start <= index < end ==> #[trigger] came(arrivals, slot, index),
        forall|index: u32| start <= index < end ==> !(#[trigger] sent[index]).data_complete,
        !came(arrivals, slot, end as int),
        ({
            let bytes = put_together(sent, start as int, end as int);
            &&& 8 <= bytes.len() <= 262_144
            &&& entries.len() < crate::shred::eight_at(bytes, 0)
            &&& crate::shred::eight_at(bytes, 0) * 48 <= 262_144
            &&& crate::decoder::lie_in(bytes, entries, ends)
            &&& ends[0] == 8
            &&& ends.last() == bytes.len() || crate::wire::entry_on_wire(
                bytes.skip(ends.last()),
            ) is Short
        }),
    ensures
        all_handed(arrivals, slot, start as int) == entries,
{
    no_shred_of_a_block_is_refused(arrivals, slot, sent, count);
    lemma_history(arrivals, slot, sent);
    lemma_history_catches_up(arrivals, slot, sent);
    let view = standing(arrivals, slot);
    let at = start as int;
    assert forall|index: int| at <= index < end implies #[trigger] view.has(index) && !view.closes(
        index,
    ) by {
        assert(came(arrivals, slot, index));
        assert(view.shreds.contains_key(index as u32));
        assert(!sent[index as u32].data_complete);
    }
    view.lemma_run_end_skip(at, end as int);
    assert(!view.has(end as int));
    assert(view.run_end(at) == end);
    lemma_put_together(view, sent, at, end as int);
    let bytes = put_together(sent, at, end as int);
    assert(view.arrived(at) == bytes);
    assert(view.is_start(at)) by {
        if start > 0 {
            assert(view.shreds.contains_key((start - 1) as u32));
        }
    }
    let handed = all_handed(arrivals, slot, at);
    assert(view.delivered(at, handed));
    crate::decoder::a_batch_cut_short_gives_what_is_whole(bytes, entries, ends);
    let progress = view.progress_of(at);
    if progress.closed {
        assert(handed == read_batch(bytes, None).entries);
    } else {
        let none = Seq::<u8>::empty();
        let rest = bytes.skip(progress.consumed as int);
        assert(bytes + none =~= bytes);
        assert(rest + none =~= rest);
        assert(read_batch(bytes + none, None) == read_batch(
            rest + none,
            progress.remaining,
        ).after(handed, progress.consumed as nat));
        assert(view.unread(at, progress.consumed as int) =~= rest);
        assert(view.idle(at, progress));
        assert(handed + read_batch(rest, progress.remaining).entries =~= handed);
    }
}

impl SlotView {
    proof fn lemma_earliest(self, from: int, to: int)
        requires
            from < to,
        ensures
            forall|i: int|
                from <= i < to ==> (#[trigger] self.shred(i)).received >= self.earliest(from, to),
            exists|i: int|
                from <= i < to && (#[trigger] self.shred(i)).received == self.earliest(from, to),
        decreases to - from,
    {
        if to > from + 1 {
            self.lemma_earliest(from, to - 1);
            let i = choose|i: int|
                from <= i < to - 1 && (#[trigger] self.shred(i)).received == self.earliest(
                    from,
                    to - 1,
                );
            if self.shred(to - 1).received < self.earliest(from, to - 1) {
                assert(self.shred(to - 1).received == self.earliest(from, to));
            } else {
                assert(self.shred(i).received == self.earliest(from, to));
            }
        } else {
            assert(self.shred(from).received == self.earliest(from, to));
        }
    }

    /// What a pass over a batch says of it is true of the shreds that have come, up to
    /// the first gap or the one that closes the batch: it counts them to the last, is
    /// timed from the first of them to arrive, and says whether any had to be rebuilt.
    /// A batch opens with its first entries, once. It is settled as decoded if it ever
    /// gave any, as a marker if it held none, and as failed if it is cut short, runs
    /// past a quarter of a megabyte or is none; and is closed just when it is settled.
    #[verifier::spinoff_prover]
    #[verifier::rlimit(60)]
    pub proof fn what_is_said_of_a_batch_is_so(self, start: int, progress: Progress)
        requires
            0 <= start <= u32::MAX,
            self.span_len(start, self.run_end(start)) <= usize::MAX,
        ensures
            self.pass(start, progress).1 matches Some(advance) ==> {
                let last = advance.last_shred as int;
                &&& start <= last
                &&& forall|i: int| start <= i <= last ==> #[trigger] self.has(i)
                &&& forall|i: int| start <= i < last ==> !#[trigger] self.closes(i)
                &&& self.closes(last) || !self.has(last + 1)
                &&& forall|i: int|
                    start <= i <= last ==> (#[trigger] self.shred(i)).received >= advance.since
                &&& exists|i: int|
                    start <= i <= last && (#[trigger] self.shred(i)).received == advance.since
                &&& advance.recovered <==> exists|i: int|
                    start <= i <= last && (#[trigger] self.shred(i)).recovered
                &&& advance.opened <==> advance.entries.len() > 0 && !progress.opened
                &&& advance.finished is Some <==> self.pass(start, progress).0.closed
                &&& advance.finished == Some(crate::metrics::BatchOutcome::Decoded)
                    ==> progress.opened || advance.entries.len() > 0
                &&& advance.finished == Some(crate::metrics::BatchOutcome::Marker)
                    ==> !progress.opened && advance.entries.len() == 0
                &&& self.closes(last) ==> advance.finished is Some
                &&& !self.closes(last) && self.arrived(start).len() > 262_144 ==> advance.finished
                    == Some(crate::metrics::BatchOutcome::Failed) && advance.entries.len() == 0
            },
            progress.closed ==> self.pass(start, progress) == (progress, None::<AdvanceView>),
            self.pass(start, progress).0.opened <==> progress.opened || yielded(
                self.pass(start, progress).1,
            ).len() > 0,
    {
        reveal(SlotView::pass);
        self.lemma_run(start);
        let end = self.run_end(start);
        self.lemma_span(start, end);
        if self.has(start) {
            self.lemma_earliest(start, end);
        }
    }
}

/// A piece that is handed over names where its batch begins and how far it has come,
/// and those are shreds the slot holds: the batch begins at zero or behind a shred
/// that closes one, everything from there to its last shred has come, and it goes no
/// further because that shred closes it or the next has not come. No piece is empty.
#[verifier::spinoff_prover]
#[verifier::rlimit(60)]
pub proof fn a_piece_names_the_shreds_it_came_from(
    assembler: Assembler,
    shred: DataView,
    recovered: bool,
    now: u64,
    post: Assembler,
    batches: Seq<BatchView>,
    i: int,
)
    requires
        assembler.dealt_with(shred, recovered, now, post, batches),
        shred.index < u32::MAX,
        0 <= i < batches.len(),
    ensures
        ({
            let held = post.slots@[shred.slot].value@;
            let piece = batches[i];
            &&& piece.entries.len() > 0
            &&& piece.first_shred <= piece.last_shred
            &&& forall|index: u32|
                piece.first_shred <= index <= piece.last_shred
                    ==> #[trigger] held.shreds.contains_key(index)
            &&& forall|index: u32|
                piece.first_shred <= index < piece.last_shred ==> !(
                #[trigger] held.shreds[index]).data_complete
            &&& held.shreds[piece.last_shred].data_complete || piece.last_shred == u32::MAX
                || !held.shreds.contains_key((piece.last_shred + 1) as u32)
            &&& piece.first_shred == 0 || (held.shreds.contains_key((piece.first_shred - 1) as u32)
                && held.shreds[(piece.first_shred - 1) as u32].data_complete)
        }),
{
    reveal(handed_over);
    let before = assembler.slot(shred.slot);
    let hold = to_hold(shred, now, recovered);
    let accepted = before.accepted(shred.index, shred.last_in_slot, hold);
    let stored = before.marked(shred.index, shred.last_in_slot).inserted(shred.index, hold);
    let start = stored.containing(shred.index as int);
    stored.lemma_containing(shred.index as int);
    let read = stored.advanced(start);
    let held = post.slots@[shred.slot].value@;
    assert(held == accepted.slot);
    assert(held.shreds == stored.shreds);
    let piece = batches[i];
    lemma_piece_of_pass(stored, start, stored.progress_of(start));
    if stored.is_start(shred.index + 1) {
        lemma_piece_of_pass(read, shred.index + 1, read.progress_of(shred.index + 1));
    }
    assert(read.shreds == stored.shreds);
    assert(held.is_start(piece.first_shred as int));
}

proof fn lemma_piece_of_pass(view: SlotView, start: int, progress: Progress)
    requires
        0 <= start <= u32::MAX,
    ensures
        view.pass(start, progress).1 matches Some(advance) ==> {
            let last = advance.last_shred as int;
            &&& start <= last
            &&& forall|index: u32|
                start <= index <= last ==> #[trigger] view.shreds.contains_key(index)
            &&& forall|index: u32|
                start <= index < last ==> !(#[trigger] view.shreds[index]).data_complete
            &&& view.shreds[advance.last_shred].data_complete || last == u32::MAX
                || !view.shreds.contains_key((last + 1) as u32)
        },
{
    reveal(SlotView::pass);
    view.lemma_run(start);
    if let Some(advance) = view.pass(start, progress).1 {
        assert forall|index: u32|
            start <= index <= advance.last_shred implies #[trigger] view.shreds.contains_key(
            index,
        ) by {
            assert(view.has(index as int));
        }
        assert forall|index: u32|
            start <= index < advance.last_shred implies !(
        #[trigger] view.shreds[index]).data_complete by {
            assert(view.has(index as int));
            assert(!view.closes(index as int));
        }
    }
}

} // verus!
