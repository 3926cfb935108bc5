use shred_sniper::clock::{Clock, SECOND};
use shred_sniper::decoder::{Progress, MAX_BATCH_BYTES};
use shred_sniper::entries::{
    Assembler, DecodedBatch, MAX_BUFFERED_BYTES, MAX_BUFFERED_SLOTS, MAX_SLOT_BYTES,
    MAX_SLOT_SHREDS,
};
use shred_sniper::metrics::{BatchOutcome, Event};
use shred_sniper::shred::DataShred;
use shred_sniper::slot::{Payload, SlotBuffer, COMPACT_FLOOR};
use solana_keypair::Keypair;
use solana_signer::Signer;
use solana_transaction::versioned::VersionedTransaction;
use solana_transaction::{Address, CompiledInstruction, Message, VersionedMessage};
use std::time::{Duration, Instant};

const SLOT: u64 = 42;
const RETENTION: u64 = 30 * SECOND;
/// Comfortably under the smallest shard a leader would produce.
const CHUNK: usize = 900;

/// An entry on the wire.
type WireEntry = (u64, solana_hash::Hash, Vec<VersionedTransaction>);

fn assembler() -> Assembler {
    Assembler::new(RETENTION, Clock::start())
}

fn transaction(payer: &Keypair, program: &Address) -> VersionedTransaction {
    let message = Message {
        account_keys: vec![payer.pubkey(), *program],
        instructions: vec![CompiledInstruction {
            program_id_index: 1,
            accounts: vec![0],
            data: vec![1, 2, 3],
        }],
        ..Default::default()
    };
    VersionedTransaction {
        signatures: vec![Default::default()],
        message: VersionedMessage::Legacy(message),
    }
}

/// A bincode `Vec<Entry>` batch, exactly what a leader shreds.
fn batch(entries: usize, transactions: usize) -> (Vec<u8>, usize) {
    let payer = Keypair::new();
    let program = Keypair::new().pubkey();
    let entries: Vec<WireEntry> = (0..entries)
        .map(|index| {
            let transactions = (0..transactions)
                .map(|_| transaction(&payer, &program))
                .collect();
            (index as u64, solana_hash::Hash::default(), transactions)
        })
        .collect();
    let expected = entries.iter().map(|entry| entry.2.len()).sum();
    (bincode::serialize(&entries).unwrap(), expected)
}

fn shred(slot: u64, index: u32, data: &[u8], data_complete: bool) -> DataShred<'_> {
    DataShred {
        slot,
        index,
        fec_set_index: 0,
        data_complete,
        last_in_slot: data_complete,
        reference_tick: 0,
        data,
        shard: &[],
    }
}

/// Transactions in what a shred handed over.
fn count(batches: &[DecodedBatch]) -> usize {
    batches
        .iter()
        .flat_map(|batch| &batch.entries)
        .map(|entry| entry.transactions.len())
        .sum()
}

/// Feeds a batch to the assembler split across shreds of `chunk` bytes, and
/// reports the transactions each shred released. A batch is decoded as it
/// arrives, so which shred released what is the whole point.
fn feed_each(
    assembler: &mut Assembler,
    slot: u64,
    payload: &[u8],
    chunk: usize,
    reverse: bool,
) -> Vec<usize> {
    let chunks: Vec<&[u8]> = payload.chunks(chunk).collect();
    let last = chunks.len() - 1;
    let mut shreds: Vec<(u32, &[u8])> = chunks
        .into_iter()
        .enumerate()
        .map(|(index, data)| (index as u32, data))
        .collect();
    if reverse {
        shreds.reverse();
    }

    shreds
        .into_iter()
        .map(|(index, data)| {
            let shred = shred(slot, index, data, index as usize == last);
            count(&assembler.insert(&shred, false))
        })
        .collect()
}

/// Feeds a batch to the assembler split across shreds, and reports the
/// transactions that came back out.
fn feed(assembler: &mut Assembler, slot: u64, payload: &[u8], reverse: bool) -> usize {
    feed_each(assembler, slot, payload, CHUNK, reverse)
        .into_iter()
        .sum()
}

#[test]
fn reassembles_a_batch_split_across_shreds() {
    let (payload, expected) = batch(4, 3);
    assert!(payload.len() > CHUNK, "batch should span several shreds");
    assert_eq!(feed(&mut assembler(), SLOT, &payload, false), expected);
}

#[test]
fn reassembles_a_batch_delivered_out_of_order() {
    let (payload, expected) = batch(4, 3);
    assert_eq!(feed(&mut assembler(), SLOT, &payload, true), expected);
}

#[test]
fn emits_a_batch_only_once() {
    let (payload, expected) = batch(2, 2);
    let mut assembler = assembler();
    assert_eq!(feed(&mut assembler, SLOT, &payload, false), expected);
    assert_eq!(
        feed(&mut assembler, SLOT, &payload, false),
        0,
        "the batch was emitted twice"
    );
}

/// Shreds carry no signature, so a spoofed slot number used to be enough to
/// evict every live slot and blind the sniper for good.
#[test]
fn a_spoofed_slot_does_not_blind_the_assembler() {
    let mut assembler = assembler();
    for slot in [u64::MAX, u64::MAX - 1, 0] {
        assembler.insert(
            &DataShred {
                slot,
                index: 0,
                fec_set_index: 0,
                data_complete: false,
                last_in_slot: false,
                reference_tick: 0,
                data: &[1, 2, 3],
                shard: &[],
            },
            false,
        );
    }

    let (payload, expected) = batch(2, 2);
    assert_eq!(feed(&mut assembler, SLOT, &payload, false), expected);
}

/// A slot whose tail is lost outright leaves nothing above the gap to mark where
/// it should have ended, so counting gaps below the highest shred held reports
/// it as whole. Only the closing shred's index says otherwise.
#[test]
fn counts_a_lost_tail_as_missing() {
    let now = 0;
    let mut buffer = SlotBuffer::new();
    for index in [0u32, 1, 3] {
        buffer.insert(index, &[], false, now, false);
    }

    assert_eq!(
        buffer.missing(),
        vec![2],
        "the interior gap is all that is visible without the closing shred"
    );

    buffer.last_index = Some(5);
    assert_eq!(
        buffer.missing(),
        vec![2, 4, 5],
        "the tail past the highest shred held has to count too"
    );
}

/// Shreds are appended to the arena as they arrive, so a batch delivered in
/// order is already one run of bytes there and needs no staging at all. Anything
/// else has to be stitched, and both paths have to yield the same bytes — the
/// fast one is worth nothing if it quietly never fires.
fn assembled(order: [u32; 3]) -> (Payload, Vec<u8>) {
    let now = 0;
    let mut buffer = SlotBuffer::new();
    for index in order {
        buffer.insert(index, &[index as u8; 4], index == 2, now, false);
    }

    let extent = buffer.extent(0, None).expect("the run begins at zero");
    assert!(extent.complete, "shred two closed the batch");
    let (payload, base) = buffer.payload(0, &extent, &mut Progress::default());
    assert_eq!(base, 0, "nothing had been read yet");
    let bytes = match &payload {
        Payload::Arena { at, len } => buffer.arena[*at..*at + *len].to_vec(),
        Payload::Stitched(stitched) => stitched.clone(),
    };
    (payload, bytes)
}

#[test]
fn an_in_order_batch_is_decoded_where_it_lies() {
    let expected: Vec<u8> = [[0u8; 4], [1; 4], [2; 4]].concat();

    let (payload, bytes) = assembled([0, 1, 2]);
    assert!(matches!(payload, Payload::Arena { .. }));
    assert_eq!(bytes, expected);

    let (payload, bytes) = assembled([2, 0, 1]);
    assert!(matches!(payload, Payload::Stitched(_)));
    assert_eq!(bytes, expected);
}

/// A duplicate strands the bytes it displaces in the arena, and nothing but
/// compaction ever takes them back. Without it one index resent often enough
/// would grow a slot's arena until the process died — and the rewrite it does
/// has to leave the shreds still held readable.
#[test]
fn duplicates_do_not_grow_the_arena_without_bound() {
    let (payload, expected) = batch(4, 3);
    let chunks: Vec<&[u8]> = payload.chunks(CHUNK).collect();
    assert!(chunks.len() > 1, "batch should span several shreds");

    let mut assembler = assembler();
    let duplicate = shred(SLOT, 0, chunks[0], false);
    // The first copy releases whatever entries it already carries whole; every
    // copy after it is bytes we have already read.
    let opened = count(&assembler.insert(&duplicate, false));
    // Far more dead bytes than the floor, so compaction has to have run.
    let resends = 8 * COMPACT_FLOOR / CHUNK;
    for _ in 0..resends {
        assert!(
            assembler.insert(&duplicate, false).is_empty(),
            "a resent shred handed over its entries twice"
        );
    }

    let arena = assembler.slots.get(&SLOT).unwrap().arena.len();
    assert!(
        arena < 4 * COMPACT_FLOOR,
        "{arena} bytes held for {resends} resends of one shred",
    );

    // The batch still has to come out whole once the rest of it arrives, which
    // is what says compaction rewrote the offsets rather than shuffling the
    // bytes out from under them.
    assert_eq!(
        opened + feed(&mut assembler, SLOT, &payload, false),
        expected
    );
}

/// Bounding the buffers and the indices a sender can touch says nothing about
/// what they hold. Every index a leader could use, filled with as much as a
/// shred carries, is tens of megabytes in a single slot — and the sender of a
/// shred is never checked.
#[test]
fn one_slot_cannot_be_filled_past_its_budget() {
    let mut assembler = assembler();
    let data = vec![0u8; 1024];
    let attempted = 32_768usize;
    for index in 0..attempted as u32 {
        assembler.insert(&shred(SLOT, index, &data, false), false);
    }

    assert!(
        attempted * data.len() > 2 * MAX_SLOT_BYTES,
        "the attempt has to overshoot the budget to prove anything"
    );
    let buffer = assembler.slots.get(&SLOT).unwrap();
    let held = buffer.live();
    assert!(
        held <= MAX_SLOT_BYTES,
        "{held} bytes held against a budget of {MAX_SLOT_BYTES}"
    );
    assert_eq!(
        assembler.bytes,
        buffer.footprint(),
        "the running total drifted"
    );
}

/// The budget has to be answered across slots too: the per-slot cap multiplied
/// by the number of buffers is far more memory than the machine has, and a
/// spoofed slot number is free.
#[test]
fn a_full_budget_refuses_shreds_it_would_otherwise_decode() {
    let (payload, expected) = batch(1, 1);
    assert!(expected > 0, "the payload has to be worth something");

    let mut assembler = assembler();
    assembler.bytes = MAX_BUFFERED_BYTES;
    let refused = assembler.insert(&shred(SLOT, 0, &payload, true), false);
    assert!(
        refused.is_empty(),
        "a refused shred still handed over entries"
    );
    assert!(
        assembler.slots.get(&SLOT).is_none(),
        "a refused shred was buffered anyway"
    );
    assert_eq!(assembler.take_events(), vec![Event::OverBudget]);

    // The same shred against a clear budget, so what stopped it above was the
    // budget rather than anything about the payload.
    assembler.bytes = 0;
    let taken = assembler.insert(&shred(SLOT, 0, &payload, true), false);
    assert_eq!(count(&taken), expected);
}

/// A duplicate strands the bytes of the copy it displaced, and compaction is
/// what takes them back. Without it one index, resent, would grow the arena
/// without bound and fill the budget on its own.
#[test]
fn duplicates_do_not_fill_the_budget() {
    let mut assembler = assembler();
    let data = vec![7u8; 1024];
    let resends = 4096;
    for _ in 0..resends {
        assembler.insert(&shred(SLOT, 0, &data, false), false);
    }

    let buffer = assembler.slots.get(&SLOT).unwrap();
    assert_eq!(buffer.shreds.len(), 1, "one index, held once");
    assert_eq!(
        buffer.live(),
        data.len(),
        "one shred resent read as more than one shred held"
    );
    // Compaction only pays for itself above `COMPACT_FLOOR`, so the arena is
    // allowed to carry that much stranded before it is rebuilt — but not the
    // megabytes the resends would otherwise have appended.
    assert!(
        assembler.bytes < 4 * COMPACT_FLOOR,
        "{} bytes resident after {resends} resends of one shred",
        assembler.bytes
    );
    assert_eq!(
        assembler.bytes,
        buffer.footprint(),
        "the running total drifted"
    );
}

/// Slots given up on by the cap never pass through the sweep's callback, so a
/// total only ever decremented on the way out would climb until it refused
/// everything.
#[test]
fn the_budget_matches_what_is_actually_held() {
    let mut assembler = assembler();
    let data = vec![3u8; 512];
    for slot in 0..8 * MAX_BUFFERED_SLOTS as u64 {
        assembler.insert(&shred(slot, 0, &data, false), false);
    }

    let held: usize = assembler
        .slots
        .values()
        .into_iter()
        .map(SlotBuffer::footprint)
        .sum();
    assert!(held > 0, "everything was swept, which proves nothing");
    assert_eq!(assembler.bytes, held, "the running total drifted");
}

/// The byte budgets bound what shreds carry, and a shred is allowed to carry
/// nothing: `size` stopping at the headers is a legal payload of zero length.
/// Every one of those still takes a map entry, so without a cap on the count a
/// sender could pin the format's whole index space in a slot for free — and
/// every byte budget would read as satisfied while it did.
#[test]
fn empty_shreds_cannot_pin_a_slot_for_free() {
    let mut assembler = assembler();
    let attempted = 32_768u32;
    for index in 0..attempted {
        assembler.insert(&shred(SLOT, index, &[], false), false);
    }

    let buffer = assembler.slots.get(&SLOT).unwrap();
    assert_eq!(
        buffer.live(),
        0,
        "empty shreds are what makes this cost nothing by payload"
    );
    assert!(
        buffer.shreds.len() <= MAX_SLOT_SHREDS,
        "{} shreds held against a cap of {MAX_SLOT_SHREDS}",
        buffer.shreds.len()
    );
    assert!(
        assembler.bytes > 0,
        "the shreds held cost memory the budget could not see"
    );
}

/// A prefix that will not decode has nowhere to resume from, so every shred that
/// extends the run has it read again from the batch's first byte. Left unbounded
/// that is quadratic in what a sender chooses to send, and the bytes need only
/// be undecodable, which is most bytes.
#[test]
fn a_run_that_never_decodes_is_given_up_on() {
    let mut assembler = assembler();
    // A plausible entry count, so the batch is refused for its length rather
    // than for declaring something absurd, followed by bytes that will never
    // deserialize into an entry.
    let mut opening = 4u64.to_le_bytes().to_vec();
    opening.resize(CHUNK, 0xff);

    let shreds = 2 * MAX_BATCH_BYTES / CHUNK;
    let started = Instant::now();
    for index in 0..shreds as u32 {
        let body = if index == 0 {
            &opening
        } else {
            &vec![0xffu8; CHUNK]
        };
        assert!(
            assembler
                .insert(&shred(SLOT, index, body, false), false)
                .is_empty(),
            "undecodable bytes handed over entries"
        );
    }
    let spent = started.elapsed();

    let buffer = assembler.slots.get(&SLOT).unwrap();
    assert!(
        buffer.progress[&0].closed,
        "the run was still being re-read after {} bytes",
        shreds * CHUNK
    );
    // Generous by orders of magnitude against a machine under load: what this is
    // here to catch is the quadratic blow-up, which ran to seconds for a run
    // this size before the bound existed.
    assert!(
        spent < Duration::from_secs(5),
        "{shreds} undecodable shreds took {spent:?}"
    );
}

/// The count a batch opens with is the sender's word for how many entries
/// follow. Believing an impossible one costs the rest of the batch's arrival,
/// each shred of it re-reading bytes that can never satisfy it.
#[test]
fn an_impossible_entry_count_is_refused_at_once() {
    let mut assembler = assembler();
    let mut body = u64::MAX.to_le_bytes().to_vec();
    body.resize(CHUNK, 0);

    assert!(
        assembler
            .insert(&shred(SLOT, 0, &body, false), false)
            .is_empty(),
        "a batch claiming u64::MAX entries handed some over"
    );
    assert!(
        assembler.slots.get(&SLOT).unwrap().progress[&0].closed,
        "an impossible count was left open to be re-read"
    );
}

/// The cap on how many shreds a slot may hold must not be reachable by resending
/// one index, or a leader whose shred arrives twice would stop being decoded.
#[test]
fn a_resent_index_does_not_count_against_the_shred_cap() {
    let mut assembler = assembler();
    let data = vec![1u8; 64];
    for index in 0..MAX_SLOT_SHREDS as u32 {
        assembler.insert(&shred(SLOT, index, &data, false), false);
    }
    assert_eq!(
        assembler.slots.get(&SLOT).unwrap().shreds.len(),
        MAX_SLOT_SHREDS,
        "the slot has to be full for the rest of this to mean anything"
    );

    let replacement = vec![2u8; 64];
    assembler.insert(&shred(SLOT, 0, &replacement, false), false);

    let buffer = assembler.slots.get(&SLOT).unwrap();
    let stored = &buffer.shreds[&0];
    assert_eq!(
        buffer.bytes(stored),
        replacement.as_slice(),
        "a full slot refused a second copy of an index it already held"
    );
}

/// Spoofed slots can still cost memory until they age out, so the number of
/// buffers they can pin has to be bounded.
#[test]
fn slot_buffers_stay_capped() {
    let mut assembler = assembler();
    for slot in 0..8 * MAX_BUFFERED_SLOTS as u64 {
        assembler.insert(
            &DataShred {
                slot,
                index: 0,
                fec_set_index: 0,
                data_complete: false,
                last_in_slot: false,
                reference_tick: 0,
                data: &[1, 2, 3],
                shard: &[],
            },
            false,
        );
    }
    assert!(
        assembler.slots.len() <= MAX_BUFFERED_SLOTS + 1,
        "{} slot buffers held",
        assembler.slots.len()
    );
}

/// A shred that closes a batch also opens the one after it, and the shreds of
/// that later batch may already all be sitting in the buffer. The completion
/// check has to notice the batch the insert created a boundary in front of, not
/// only the batch the insert landed in.
#[test]
fn a_late_terminator_releases_the_batch_behind_it() {
    let (first, first_expected) = batch(2, 2);
    let (second, second_expected) = batch(2, 2);
    let halves = |payload: &[u8]| -> Vec<Vec<u8>> {
        payload
            .chunks(payload.len().div_ceil(2))
            .map(<[u8]>::to_vec)
            .collect()
    };
    let (first, second) = (halves(&first), halves(&second));

    let mut assembler = assembler();
    // The second batch arrives whole while the first is still missing, so
    // nothing yet says where it begins.
    assert!(assembler
        .insert(&shred(SLOT, 2, &second[0], false), false)
        .is_empty());
    assert!(
        assembler
            .insert(&shred(SLOT, 3, &second[1], true), false)
            .is_empty(),
        "no batch can be placed while the first one is open"
    );

    // The terminator of the first batch is what puts a boundary in front of the
    // second, and it has to release both.
    let opened = count(&assembler.insert(&shred(SLOT, 0, &first[0], false), false));
    let released = assembler.insert(&shred(SLOT, 1, &first[1], true), false);
    let ranges: Vec<(u32, u32)> = released
        .iter()
        .map(|batch| (batch.first_shred, batch.last_shred))
        .collect();
    assert_eq!(ranges, vec![(0, 1), (2, 3)]);
    assert_eq!(
        opened + count(&released),
        first_expected + second_expected,
        "every transaction of both batches has to come out exactly once"
    );
}

/// The point of the whole assembler: a batch is read as it arrives, so the
/// entries at its front reach the sniper without waiting for the shreds at its
/// back. Nothing may be handed over twice on the way.
#[test]
fn entries_come_out_before_the_batch_is_whole() {
    let (payload, expected) = batch(6, 2);
    let mut assembler = assembler();
    let released = feed_each(&mut assembler, SLOT, &payload, CHUNK, false);
    assert!(
        released.len() > 2,
        "a batch of one or two shreds proves nothing"
    );

    let early: usize = released[..released.len() - 1].iter().sum();
    assert!(
        early > 0,
        "nothing came out until the last shred: {released:?}"
    );
    assert_eq!(
        released.iter().sum::<usize>(),
        expected,
        "transactions were lost or repeated: {released:?}"
    );
}

/// Entries straddle shred boundaries, and so does the count a batch opens with.
/// Both have to survive being cut anywhere, so the batch is fed in pieces far
/// smaller than a leader would ever produce.
#[test]
fn an_entry_split_across_shreds_is_decoded_once() {
    let (payload, expected) = batch(4, 2);
    let mut assembler = assembler();
    let released = feed_each(&mut assembler, SLOT, &payload, 4, false);
    assert_eq!(released.iter().sum::<usize>(), expected);
}

/// Shreds that arrived out of order have to be stitched together, and doing that
/// for the whole batch on every shred would make a batch cost the square of its
/// length to read. Only the bytes still to be decoded are worth copying.
#[test]
fn stitching_only_covers_what_is_left_to_read() {
    let now = 0;
    let mut buffer = SlotBuffer::new();
    // Out of order, so the run is never one stretch of the arena.
    for index in [2u32, 1, 0, 3] {
        buffer.insert(index, &[index as u8; 100], index == 3, now, false);
    }

    let extent = buffer.extent(0, None).expect("the run begins at zero");
    // A progress of its own per case: what has been read only ever moves
    // forward, so these are three batches at three points, not one batch read
    // backwards.
    let read = |consumed: usize| Progress {
        consumed,
        ..Progress::default()
    };

    let (whole, base) = buffer.payload(0, &extent, &mut read(0));
    assert_eq!(base, 0);
    assert!(
        matches!(&whole, Payload::Stitched(bytes) if bytes.len() == 400),
        "the whole run has to be stitched while none of it has been read"
    );

    // Two shreds in, only the two behind them are worth copying.
    let (tail, base) = buffer.payload(0, &extent, &mut read(200));
    assert_eq!(base, 200, "the tail begins where the reading stopped");
    assert!(
        matches!(&tail, Payload::Stitched(bytes) if bytes.len() == 200),
        "the bytes already read were copied again"
    );

    // Part way into a shred, that shred is still needed whole.
    let (straddled, base) = buffer.payload(0, &extent, &mut read(150));
    assert_eq!(base, 100, "the shred holding the next entry starts at 100");
    assert!(matches!(&straddled, Payload::Stitched(bytes) if bytes.len() == 300));
}

/// The point of carrying the walk between shreds: a batch of `n` shreds is
/// crossed once, not once per shred. Both walks have to move — the run's
/// frontier and the point reading resumes at — or a long batch costs the square
/// of its length to take in.
#[test]
fn a_batch_is_walked_once_rather_than_once_per_shred() {
    // How far behind the run's end the two walks start on the last shred of a
    // batch of `entries`. Both have to be a constant: it is their growing with
    // the batch that made a batch cost the square of its length.
    let lag = |entries: usize| -> (usize, usize) {
        let (payload, expected) = batch(entries, 1);
        let chunks: Vec<&[u8]> = payload.chunks(64).collect();
        let last = chunks.len() - 1;
        assert!(last > 16, "a short batch would not show the difference");

        let mut assembler = assembler();
        let mut released = 0;
        for (index, data) in chunks.into_iter().enumerate() {
            let shred = shred(SLOT, index as u32, data, index == last);
            released += count(&assembler.insert(&shred, false));
        }
        assert_eq!(released, expected, "the batch still has to come out whole");

        let progress = &assembler.slots.get(&SLOT).unwrap().progress[&0];
        let extent = progress.extent.expect("the run was walked");
        assert_eq!(extent.last as usize, last, "the frontier reached the end");
        let (from, _) = progress.resume.expect("reading left a resume point");
        // The frontier is walked before this shred's bytes are read and the
        // resume point is set before they are decoded, so both are a pass behind
        // rather than at the end.
        (last - extent.last as usize, last - from as usize)
    };

    let short = lag(64);
    let long = lag(1024);
    assert_eq!(
        short, long,
        "the walks start further back on the longer batch: {short:?} against {long:?}"
    );
}

/// Bytes that are not entries have to be given up on rather than retried for
/// every shred that follows them.
#[test]
fn a_batch_that_is_not_entries_is_given_up_on() {
    let mut buffer = SlotBuffer::new();
    let now = 0;
    // A count no batch could hold, so the decoder is left owed entries that
    // never come.
    buffer.insert(0, &u64::MAX.to_le_bytes(), true, now, false);

    let advance = buffer
        .advance(0)
        .expect("the batch was closed by its shred");
    assert!(matches!(advance.finished, Some(BatchOutcome::Failed)));
    assert!(advance.entries.is_empty());
    assert!(
        buffer.advance(0).is_none(),
        "a batch already given up on was decoded again"
    );
}

/// What a slot has to say when it is let go: what it lacked, and how much of it
/// there was.
#[test]
fn a_slot_let_go_is_accounted_for() {
    let mut assembler = assembler();
    assembler.insert_at(&shred(SLOT, 0, &[1, 2], false), false, 0);
    assembler.insert_at(&shred(SLOT, 3, &[], true), false, 0);
    assembler.insert_at(&shred(SLOT + 1, 1, &[], false), false, 0);
    assembler.take_events();

    assembler.insert_at(&shred(SLOT + 2, 0, &[9], false), false, 31 * SECOND);
    let events = assembler.take_events();
    assert!(events.contains(&Event::Missing(2)));
    assert!(events.contains(&Event::Completeness {
        received: 2,
        expected: 4
    }));
    assert!(events.contains(&Event::Missing(1)));
    assert!(events.contains(&Event::Unterminated));
    assert_eq!(assembler.slots.len(), 1);
}

/// A batch that is read whole says so, with the time its first shred arrived.
#[test]
fn a_finished_batch_is_reported_once() {
    let (payload, expected) = batch(1, 2);
    let mut assembler = assembler();
    let batches = assembler.insert_at(&shred(SLOT, 0, &payload, true), true, 7);
    assert_eq!(count(&batches), expected);
    assert_eq!((batches[0].first_shred, batches[0].last_shred), (0, 0));
    assert_eq!(
        assembler.take_events(),
        vec![
            Event::Opened {
                since: 7,
                recovered: true
            },
            Event::Batch {
                outcome: BatchOutcome::Decoded,
                since: 7,
                recovered: true
            },
            Event::Entries(1),
        ]
    );

    assembler.insert_at(&shred(SLOT, 0, &payload, true), false, 8);
    assert_eq!(assembler.take_events(), vec![Event::Duplicate]);
}
