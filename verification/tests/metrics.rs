use shred_sniper::metrics::{
    BatchOutcome, Counter, Event, Metrics, PacketKind, Tally, Timer, Update,
};

fn updates(event: Event) -> Vec<Update> {
    let mut metrics = Metrics::new();
    metrics.note(event, 100);
    metrics.take_updates()
}

#[test]
fn packets_are_counted_by_kind() {
    let add = |counter| Update::Add(counter, 1);
    for (kind, counters) in [
        (PacketKind::Data, vec![Counter::ShredsReceived]),
        (
            PacketKind::Coding,
            vec![Counter::CodingShredsReceived, Counter::PacketsRejected],
        ),
        (PacketKind::Other, vec![Counter::PacketsRejected]),
    ] {
        let mut expected = vec![add(Counter::PacketsReceived)];
        expected.extend(counters.into_iter().map(add));
        assert_eq!(updates(Event::Packet(kind)), expected);
    }
}

/// `recovered` tags the latency rather than the count.
#[test]
fn a_batch_is_counted_and_timed() {
    assert_eq!(
        updates(Event::Batch {
            outcome: BatchOutcome::Marker,
            since: 60,
            recovered: true
        }),
        vec![
            Update::Add(
                Counter::Batches {
                    outcome: BatchOutcome::Marker
                },
                1
            ),
            Update::Time(Timer::Batch { recovered: true }, 40),
        ]
    );
    assert_eq!(
        updates(Event::Opened {
            since: 200,
            recovered: false
        }),
        vec![Update::Time(Timer::BatchOpening { recovered: false }, 0)]
    );
    assert_eq!(BatchOutcome::Decoded.as_str(), "decoded");
    assert_eq!(BatchOutcome::Marker.as_str(), "marker");
    assert_eq!(BatchOutcome::Failed.as_str(), "failed");
}

#[test]
fn a_transaction_moves_what_it_is() {
    let transaction = |vote, hit, opaque, offset| {
        updates(Event::Transaction {
            vote,
            hit,
            opaque,
            offset,
        })
    };
    assert_eq!(
        transaction(true, false, false, Some(5)),
        vec![Update::Add(Counter::Transactions { vote: true }, 1)]
    );
    assert_eq!(
        transaction(false, true, true, Some(5)),
        vec![
            Update::Add(Counter::Transactions { vote: false }, 1),
            Update::Add(Counter::TransactionsOpaque, 1),
            Update::Add(Counter::SnipeHits, 1),
            Update::Time(Timer::Snipe, 5),
        ]
    );
    assert_eq!(
        transaction(false, true, false, None),
        vec![
            Update::Add(Counter::Transactions { vote: false }, 1),
            Update::Add(Counter::SnipeHits, 1),
        ]
    );
}

/// Of a slot with nothing in it there is no part to have seen.
#[test]
fn an_empty_slot_has_no_completeness() {
    let completeness = |received, expected| updates(Event::Completeness { received, expected });
    assert_eq!(completeness(0, 0), vec![]);
    assert_eq!(
        completeness(3, 4),
        vec![Update::Share {
            received: 3,
            expected: 4
        }]
    );
}

#[test]
fn a_completed_slot_sets_the_current_one() {
    let mut metrics = Metrics::new();
    metrics.slot_completed(7, None, 3, 4);
    assert_eq!(
        metrics.take_updates(),
        vec![
            Update::Add(Counter::Slots, 1),
            Update::Size(Tally::SlotShreds, 3),
            Update::Size(Tally::SlotTransactions, 4),
        ]
    );
    assert_eq!(metrics.gauges.current_slot, 7);
    metrics.slot_completed(8, Some(9), 0, 0);
    assert!(metrics
        .take_updates()
        .contains(&Update::Time(Timer::SlotDuration, 9)));
}

/// The peak is what a reading of the depth between two exports cannot see.
#[test]
fn the_queue_remembers_its_peak() {
    let mut metrics = Metrics::new();
    metrics.queue_pushed(5);
    metrics.queue_pushed(7);
    metrics.queue_popped(10);
    assert_eq!(metrics.gauges.queue_depth, 2);
    metrics.queue_pushed(1);
    assert_eq!(metrics.take_peak(), 12);
    assert_eq!(metrics.take_peak(), 0);
    metrics.queue_popped(100);
    assert_eq!(metrics.gauges.queue_depth, 0);
    assert_eq!(
        metrics.take_updates(),
        vec![
            Update::Size(Tally::ReceiveBatch, 5),
            Update::Size(Tally::ReceiveBatch, 7),
            Update::Size(Tally::ReceiveBatch, 1),
        ]
    );
}

#[test]
fn events_are_noted_in_order() {
    let mut metrics = Metrics::new();
    metrics.note_all(
        &vec![
            Event::Duplicate,
            Event::BufferedSlots(3),
            Event::BufferedBytes(4),
            Event::Sources(5),
            Event::Missing(6),
            Event::Sent {
                reaction: 7,
                send: 8,
            },
            Event::Landed {
                round_trip: 9,
                slots_behind: 10,
            },
            Event::Delivery {
                arrival: 1,
                produced: 2,
            },
            Event::Processed { since: 90 },
        ],
        100,
    );
    assert_eq!(
        metrics.take_updates(),
        vec![
            Update::Add(Counter::ShredsDuplicate, 1),
            Update::Add(Counter::ShredsMissing, 6),
            Update::Add(Counter::FireSent, 1),
            Update::Time(Timer::FireReaction, 7),
            Update::Time(Timer::FireSend, 8),
            Update::Add(Counter::FireLanded, 1),
            Update::Time(Timer::FireRoundTrip, 9),
            Update::Size(Tally::FireSlotsBehind, 10),
            Update::Skew {
                arrival: 1,
                produced: 2
            },
            Update::Time(Timer::Packet, 10),
        ]
    );
    let gauges = metrics.gauges;
    assert_eq!(
        (gauges.buffered_slots, gauges.buffered_bytes, gauges.turbine_sources),
        (3, 4, 5)
    );
    metrics.set_udp_drops(11);
    metrics.set_tvu_peers(12);
    assert_eq!((metrics.gauges.udp_drops, metrics.gauges.tvu_peers), (11, 12));
    metrics.pool_exhausted();
    assert_eq!(
        metrics.take_updates(),
        vec![Update::Add(Counter::PoolExhausted, 1)]
    );
}

#[test]
fn every_other_event_is_a_count() {
    for (event, counter) in [
        (Event::OverBudget, Counter::ShredsOverBudget),
        (Event::Unterminated, Counter::SlotsUnterminated),
        (Event::FecSetIncomplete, Counter::FecSetsIncomplete),
        (Event::Forged, Counter::PacketsForged),
        (Event::Unverified, Counter::PacketsUnverified),
        (Event::Triggered, Counter::FireTriggers),
        (Event::Stale, Counter::FireStale),
        (Event::Dropped, Counter::FireDropped),
        (Event::Skipped, Counter::FireSkipped),
        (Event::Failed, Counter::FireFailed),
        (Event::Lost, Counter::FireLost),
        (Event::Entries(1), Counter::Entries),
        (Event::Recovered(1), Counter::ShredsRecovered),
        (Event::Watched { offset: None }, Counter::TransactionsWatched),
    ] {
        assert_eq!(updates(event), vec![Update::Add(counter, 1)]);
    }
}
