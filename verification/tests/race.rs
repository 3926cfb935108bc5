use shred_sniper::clock::{Clock, SECOND};
use shred_sniper::entries::DecodedBatch;
use shred_sniper::race::{Hit, RaceLine, Role, Slot, Span, Tracker};
use shred_sniper::wire::{Entry, Transaction};
use solana_keypair::Keypair;
use solana_signer::Signer;

fn slot_with(batches: &[(u32, u32, &[u32])]) -> Slot {
    let mut slot = Slot::new();
    for (first_shred, last_shred, entries) in batches {
        slot.batches.insert(
            *first_shred,
            Span {
                last_shred: *last_shred,
                entries: entries.to_vec(),
            },
        );
    }
    slot
}

fn hit(role: Role, first_shred: u32, entry: usize, transaction: usize) -> Hit {
    Hit {
        role,
        first_shred,
        entry,
        transaction,
        signature: String::new(),
    }
}

/// The gap has to count every transaction the leader put between the two,
/// including the ones in batches neither of them is in.
#[test]
fn counts_the_transactions_between_two_batches() {
    // Batch at shreds 0..=2 holds entries of 2 and 1 transactions; the one at
    // 3..=5 holds a single entry of 4.
    let slot = slot_with(&[(0, 2, &[2, 1]), (3, 5, &[4])]);

    let target = hit(Role::Target, 0, 1, 0);
    let searcher = hit(Role::Searcher, 3, 0, 2);

    let (target_transactions, target_entries) = slot.position(&target);
    let (searcher_transactions, searcher_entries) = slot.position(&searcher);

    assert_eq!(
        (target_transactions, target_entries),
        (2, 1),
        "two transactions and one entry precede it inside its own batch"
    );
    assert_eq!(
        (searcher_transactions, searcher_entries),
        (5, 2),
        "the whole first batch precedes it, then two of its own entry"
    );
    assert_eq!(searcher_transactions - target_transactions, 3);
    assert_eq!(searcher_entries - target_entries, 1);
}

/// A batch that never decoded sits between the two, so the count is short by
/// whatever it held and must not claim to be exact.
#[test]
fn a_hole_between_the_batches_is_not_exact() {
    let whole = slot_with(&[(0, 2, &[1]), (3, 5, &[1])]);
    assert!(whole.tiled(0, 3));

    let holed = slot_with(&[(0, 2, &[1]), (6, 8, &[1])]);
    assert!(
        !holed.tiled(0, 6),
        "the batch covering shreds 3..=5 is missing"
    );
}

/// Order within an entry is not order of execution, so the two have to be
/// distinguishable from a pair that merely sits close together.
#[test]
fn transactions_of_one_entry_share_a_position() {
    let slot = slot_with(&[(0, 2, &[4])]);
    let first = hit(Role::Target, 0, 0, 0);
    let second = hit(Role::Searcher, 0, 0, 3);

    assert_eq!(slot.position(&first).1, slot.position(&second).1);
    assert_eq!(
        slot.position(&second).0 - slot.position(&first).0,
        3,
        "the transaction gap is still real, it just does not order them"
    );
}

fn address(keypair: &Keypair) -> [u8; 32] {
    keypair.pubkey().to_bytes()
}

/// A key further down the account list is not the sender, and counting it as one
/// would pair the bot against transactions it never sent.
#[test]
fn only_the_fee_payer_decides_whose_transaction_it_is() {
    let bot = Keypair::new();
    let bystander = Keypair::new();
    let tracker = Tracker::new(
        &[address(&bot)],
        &[address(&Keypair::new())],
        Clock::start(),
    )
    .expect("both sides are configured");

    let transaction = |payer: &Keypair, mentioned: &Keypair| Transaction {
        signatures: vec![[0; 64]],
        account_keys: vec![address(payer), address(mentioned)],
        programs: vec![1],
        lookups: None,
    };

    assert!(
        matches!(
            tracker.role(&transaction(&bot, &bystander)),
            Some(Role::Searcher)
        ),
        "the bot is paying"
    );
    assert!(
        tracker.role(&transaction(&bystander, &bot)).is_none(),
        "the bot is only mentioned"
    );
}

fn entry(payer: &Keypair, signature: u8) -> Entry {
    Entry {
        num_hashes: 0,
        hash: [0; 32],
        transactions: vec![Transaction {
            signatures: vec![[signature; 64]],
            account_keys: vec![address(payer)],
            programs: Vec::new(),
            lookups: None,
        }],
    }
}

/// A batch reaches the tracker in pieces, so a hit in the second piece sits
/// after everything the first one held. Counting its entry from the piece it
/// arrived in would place it at the front of its batch and report the bot as
/// ahead of a wallet it was behind.
#[test]
fn a_batch_arriving_in_pieces_keeps_its_order() {
    let bot = Keypair::new();
    let wallet = Keypair::new();
    let mut tracker = Tracker::new(&[address(&bot)], &[address(&wallet)], Clock::start())
        .expect("both sides are configured");

    // The wallet is in the batch's first entry, the bot in its third, and the
    // two reach the tracker in separate pieces of the same batch.
    tracker.batch(
        7,
        &DecodedBatch {
            first_shred: 0,
            last_shred: 0,
            entries: vec![entry(&wallet, 0), entry(&Keypair::new(), 0)],
        },
    );
    tracker.batch(
        7,
        &DecodedBatch {
            first_shred: 0,
            last_shred: 1,
            entries: vec![entry(&bot, 0)],
        },
    );

    let slot = tracker.slots.get(&7).expect("the slot is still open");
    let span = &slot.batches[&0];
    assert_eq!(span.entries, vec![1, 1, 1], "the pieces have to add up");
    assert_eq!(span.last_shred, 1, "the batch grew with its second piece");

    let position = |role| {
        slot.position(
            slot.hits
                .iter()
                .find(|hit| hit.role == role)
                .expect("both sides are in the slot"),
        )
    };
    assert_eq!(position(Role::Target), (0, 0), "the wallet went first");
    assert_eq!(position(Role::Searcher), (2, 2), "the bot came third");
}

/// The bot does not exist yet, so watching a wallet on its own has to be a
/// working configuration rather than a half-finished one.
#[test]
fn a_watched_wallet_alone_is_enough() {
    let wallet = address(&Keypair::new());
    assert!(Tracker::new(&[], &[wallet], Clock::start()).is_some());
    assert!(Tracker::new(&[wallet], &[wallet], Clock::start()).is_some());
    assert!(
        Tracker::new(&[wallet], &[], Clock::start()).is_none(),
        "a bot with nothing to race is nothing to measure"
    );
}

/// A slot is reported once it has gone quiet, as the distance between the two
/// sides and nothing but that.
#[test]
fn a_settled_slot_is_reported() {
    let bot = Keypair::new();
    let wallet = Keypair::new();
    let mut tracker =
        Tracker::new(&[address(&bot)], &[address(&wallet)], Clock::start()).unwrap();
    tracker.batch_at(
        7,
        &DecodedBatch {
            first_shred: 0,
            last_shred: 2,
            entries: vec![entry(&wallet, 1), entry(&bot, 2)],
        },
        0,
    );
    assert!(tracker.take_lines().is_empty());

    tracker.batch_at(
        8,
        &DecodedBatch {
            first_shred: 0,
            last_shred: 0,
            entries: vec![entry(&wallet, 3)],
        },
        3600 * SECOND,
    );
    let lines = tracker.take_lines();
    assert_eq!(lines.len(), 1);
    let base58 = |byte: u8| solana_signature::Signature::from([byte; 64]).to_string();
    match &lines[0] {
        RaceLine::Pair {
            slot,
            target,
            searcher,
            tx_gap,
            entry_gap,
            same_entry,
            exact,
        } => {
            assert_eq!((*slot, *tx_gap, *entry_gap), (7, 1, 1));
            assert!(!same_entry);
            assert!(exact);
            assert_eq!(target, &base58(1));
            assert_eq!(searcher, &base58(2));
        }
        _ => panic!("both sides traded"),
    }

    tracker.batch_at(
        9,
        &DecodedBatch {
            first_shred: 0,
            last_shred: 0,
            entries: vec![entry(&bot, 4)],
        },
        7200 * SECOND,
    );
    let lines = tracker.take_lines();
    assert!(matches!(&lines[0], RaceLine::Target { slot: 8, target } if *target == base58(3)));
    tracker.batch_at(
        10,
        &DecodedBatch {
            first_shred: 0,
            last_shred: 0,
            entries: Vec::new(),
        },
        10800 * SECOND,
    );
    let lines = tracker.take_lines();
    assert!(matches!(&lines[0], RaceLine::Searcher { slot: 9, searcher } if *searcher == base58(4)));
}

/// Which of two pieces reaches further does not matter: the batch reaches as far
/// as the further one, and its entries add up in the order they came.
#[test]
fn a_shorter_piece_takes_nothing_back() {
    let wallet = Keypair::new();
    let mut tracker =
        Tracker::new(&[], &[address(&wallet)], Clock::start()).expect("a wallet is watched");
    for (last_shred, who) in [(5, Keypair::new()), (3, wallet)] {
        tracker.batch(
            7,
            &DecodedBatch {
                first_shred: 2,
                last_shred,
                entries: vec![entry(&who, 0)],
            },
        );
    }
    let slot = tracker.slots.get(&7).expect("the slot is still open");
    let span = &slot.batches[&2];
    assert_eq!((span.last_shred, &span.entries), (5, &vec![1, 1]));
    assert_eq!(slot.hits.len(), 1);
    assert_eq!((slot.hits[0].first_shred, slot.hits[0].entry), (2, 1));
}
