use shred_sniper::clock::{MILLISECOND, SECOND};
use shred_sniper::fire::{
    fresh_enough, write_memo, Aim, Blockhash, Fire, Handover, Latest, Pending, Sender, Sighting,
    Taken, Trigger, MAX_PENDING, MAX_TRIGGER_AGE, PENDING_TTL,
};
use shred_sniper::metrics::Event;
use solana_keypair::Keypair;
use solana_signer::Signer;

/// Far enough into a run for a trigger to be old.
const NOW: u64 = 1000 * SECOND;

fn trigger(slot: u64, age: u64) -> Trigger {
    Trigger {
        slot,
        target: [0; 64],
        detected: NOW - age,
    }
}

/// Triggers that arrive while a send is in flight are all about the same race,
/// and the last of them knows the most about it. Holding them in order would
/// answer the oldest slot first — and then answer nothing else, because the
/// cooldown would cover the rest.
#[test]
fn a_new_trigger_takes_the_place_of_the_one_waiting() {
    let mut latest = Latest::new();

    assert!(matches!(latest.put(trigger(10, 0)), Handover::Waiting));
    for slot in [11u64, 12] {
        assert!(
            matches!(latest.put(trigger(slot, 0)), Handover::Displaced),
            "slot {slot} did not report displacing the one before it"
        );
    }

    let Taken::Trigger(taken) = latest.take(false) else {
        panic!("a trigger was waiting");
    };
    assert_eq!(
        taken.slot, 12,
        "the sender answered a slot it had left behind"
    );
}

/// And nothing is left behind it: what the sender took is all there was.
#[test]
fn taking_the_trigger_empties_the_slot() {
    let mut latest = Latest::new();
    latest.put(trigger(10, 0));
    assert!(matches!(latest.take(false), Taken::Trigger(_)));
    assert!(matches!(latest.take(false), Taken::Nothing));

    assert!(
        matches!(latest.take(true), Taken::Stopping),
        "a trigger came back out twice"
    );
}

/// Being the only trigger there is does not make one worth sending: a send that
/// outlasted the race leaves the survivor addressed to a block that has since
/// been built.
#[test]
fn a_trigger_older_than_a_slot_is_let_go() {
    let stale = trigger(10, MAX_TRIGGER_AGE + MILLISECOND);
    assert!(fresh_enough(stale, NOW).is_none());

    let fresh = trigger(10, 0);
    assert!(fresh_enough(fresh, NOW).is_some());
    assert!(fresh_enough(trigger(10, MAX_TRIGGER_AGE), NOW).is_some());
}

/// A trigger is counted by what became of it on the way.
#[test]
fn handovers_are_counted() {
    let mut fire = Fire::new();
    fire.trigger(7, [1; 64], 5);
    assert_eq!(fire.take_events(), vec![Event::Triggered]);
    fire.see(
        &Sighting::Target {
            slot: 8,
            signature: [2; 64],
            detected: 6,
        },
        9,
    );
    assert_eq!(fire.take_events(), vec![Event::Triggered, Event::Stale]);
    let waiting = fire.latest.trigger.unwrap();
    assert_eq!((waiting.slot, waiting.target, waiting.detected), (8, [2; 64], 6));
    assert_eq!(Handover::Lost.counted(), vec![Event::Dropped]);
}

fn pending(signature: u8, sent: u64) -> Pending {
    Pending {
        signature: [signature; 64],
        trigger_slot: 100,
        sent,
    }
}

/// Only what we sent can land, and it lands once.
#[test]
fn an_answer_lands_once() {
    let mut fire = Fire::new();
    fire.remember(pending(1, 10), 10);
    fire.remember(pending(2, 20), 20);
    fire.landed(&[3; 64], 103, 50);
    assert!(fire.take_events().is_empty());
    fire.see(
        &Sighting::Own {
            slot: 103,
            signature: [1; 64],
        },
        50,
    );
    assert_eq!(
        fire.take_events(),
        vec![Event::Landed {
            round_trip: 40,
            slots_behind: 3
        }]
    );
    fire.landed(&[1; 64], 103, 60);
    assert!(fire.take_events().is_empty());
    fire.landed(&[2; 64], 99, 15);
    assert_eq!(
        fire.take_events(),
        vec![Event::Landed {
            round_trip: 0,
            slots_behind: 0
        }]
    );
}

/// A send that failed is not one that failed to land.
#[test]
fn a_forgotten_answer_is_not_lost() {
    let mut fire = Fire::new();
    fire.remember(pending(1, 0), 0);
    fire.forget(&[1; 64]);
    fire.forget(&[1; 64]);
    assert_eq!(fire.pending.len(), 0);
    fire.remember(pending(2, PENDING_TTL), PENDING_TTL);
    assert!(fire.take_events().is_empty());
}

/// Answers are given up on by age and by number, the eldest first.
#[test]
fn answers_never_seen_are_given_up_on() {
    let mut fire = Fire::new();
    fire.remember(pending(1, 0), 0);
    fire.remember(pending(2, 5), 5);
    fire.remember(pending(3, PENDING_TTL + 1), PENDING_TTL + 1);
    assert_eq!(fire.take_events(), vec![Event::Lost]);
    assert_eq!(fire.pending.len(), 2);

    let mut fire = Fire::new();
    for _ in 0..MAX_PENDING + 2 {
        fire.remember(pending(1, 0), 0);
    }
    assert_eq!(fire.pending.len(), MAX_PENDING);
    assert_eq!(fire.take_events(), vec![Event::Lost, Event::Lost]);
}

const PROGRAM: [u8; 32] = [5; 32];
const BLOCKHASH: [u8; 32] = [6; 32];

fn sender(keypair: &Keypair, cooldown: u64) -> Sender {
    Sender::new(keypair.to_bytes(), PROGRAM, "sniped".to_string(), cooldown)
}

/// What becomes of a trigger, in the order it is asked.
#[test]
fn a_sender_decides_on_every_trigger() {
    let mut sender = sender(&Keypair::new(), 300 * MILLISECOND);
    assert!(sender
        .consider(trigger(10, MAX_TRIGGER_AGE + 1), Some(BLOCKHASH), NOW)
        .is_none());
    assert_eq!(sender.take_events(), vec![Event::Stale]);

    assert!(sender.consider(trigger(10, 0), None, NOW).is_none());
    assert_eq!(sender.take_events(), vec![Event::Failed]);

    let aim = sender
        .consider(trigger(10, 0), Some(BLOCKHASH), NOW)
        .expect("nothing stands against it");
    assert_eq!((aim.nonce, aim.blockhash, aim.trigger.slot), (1, BLOCKHASH, 10));
    assert!(sender.take_events().is_empty());

    let soon = NOW + 300 * MILLISECOND - 1;
    assert!(sender.consider(trigger(11, 0), Some(BLOCKHASH), soon).is_none());
    assert_eq!(sender.take_events(), vec![Event::Skipped]);

    let aim = sender
        .consider(trigger(11, 0), Some(BLOCKHASH), soon + 1)
        .expect("the cooldown is over");
    assert_eq!(aim.nonce, 2);
}

/// However often it is asked, a sender answers no sooner than the cooldown allows,
/// and counts its answers.
#[test]
fn a_run_of_answers_keeps_its_distance() {
    let cooldown = 300 * MILLISECOND;
    let mut sender = sender(&Keypair::new(), cooldown);
    let answers: Vec<(u64, u64)> = (0..40)
        .filter_map(|step| {
            let now = NOW + step * 70 * MILLISECOND;
            let trigger = Trigger {
                slot: step,
                target: [0; 64],
                detected: now,
            };
            let blockhash = if step % 7 == 0 { None } else { Some(BLOCKHASH) };
            Some((now, sender.consider(trigger, blockhash, now)?.nonce))
        })
        .collect();
    assert_eq!(answers.len(), 8);
    for (at, (now, nonce)) in answers.iter().enumerate() {
        assert_eq!(*nonce, at as u64 + 1);
        assert!(answers[at + 1..]
            .iter()
            .all(|(later, number)| later - now >= cooldown && number > nonce));
    }
}

/// The memo names what it answers, and its number.
#[test]
fn a_memo_says_what_it_answers() {
    assert_eq!(
        write_memo("sniped", 42, 107, &[0; 64]),
        format!("sniped slot=42 n=107 target={}", "1".repeat(64))
    );
    assert_ne!(
        write_memo("x", 1, 23, &[0; 64]),
        write_memo("x", 12, 3, &[0; 64])
    );
}

/// What goes out is a transaction the cluster would take: ours, calling the memo
/// program with the memo.
#[test]
fn a_fire_is_a_signed_memo() {
    let keypair = Keypair::new();
    let mut sender = sender(&keypair, 0);
    let mut fire = Fire::new();
    let aim = Aim {
        trigger: Trigger {
            slot: 42,
            target: [0; 64],
            detected: NOW,
        },
        blockhash: BLOCKHASH,
        nonce: 7,
    };
    let shot = sender.fire(&mut fire, &aim, NOW + 5).expect("a keypair signs");
    assert_eq!(fire.pending.len(), 1);
    assert_eq!(fire.pending[0].signature, shot.signature);
    assert_eq!((fire.pending[0].trigger_slot, fire.pending[0].sent), (42, NOW + 5));

    let transaction: solana_transaction::Transaction = bincode::deserialize(&shot.wire).unwrap();
    assert_eq!(<[u8; 64]>::from(transaction.signatures[0]), shot.signature);
    assert!(transaction.signatures[0].verify(
        keypair.pubkey().as_ref(),
        &transaction.message.serialize()
    ));
    assert_eq!(transaction.message.recent_blockhash.to_bytes(), BLOCKHASH);
    assert_eq!(transaction.message.account_keys[0], keypair.pubkey());
    assert_eq!(transaction.message.instructions.len(), 1);
    let instruction = &transaction.message.instructions[0];
    assert_eq!(
        transaction.message.account_keys[instruction.program_id_index as usize].to_bytes(),
        PROGRAM
    );
    assert_eq!(
        instruction.data,
        format!("sniped slot=42 n=7 target={}", "1".repeat(64)).into_bytes()
    );

    // Another number is another transaction.
    let other = sender
        .fire(&mut fire, &Aim { nonce: 8, ..aim }, NOW + 6)
        .expect("a keypair signs");
    assert_ne!(other.wire, shot.wire);
    assert_ne!(other.signature, shot.signature);

    sender.settle(&mut fire, &aim.trigger, &shot.signature, true, NOW + 5, NOW + 9);
    assert_eq!(
        sender.take_events(),
        vec![Event::Sent {
            reaction: 9,
            send: 4
        }]
    );
    sender.settle(&mut fire, &aim.trigger, &other.signature, false, NOW + 6, NOW + 9);
    assert_eq!(sender.take_events(), vec![Event::Failed]);
    assert_eq!(fire.pending.len(), 1);
}

/// Without a key, or with more to say than a transaction can hold, nothing goes
/// out.
#[test]
fn a_fire_can_fail_to_be_signed() {
    let aim = Aim {
        trigger: trigger(1, 0),
        blockhash: BLOCKHASH,
        nonce: 1,
    };
    let mut fire = Fire::new();
    let mut keyless = Sender::new([7; 64], PROGRAM, "sniped".to_string(), 0);
    assert!(keyless.fire(&mut fire, &aim, NOW).is_none());
    assert_eq!(keyless.take_events(), vec![Event::Failed]);

    let mut wordy = Sender::new(Keypair::new().to_bytes(), PROGRAM, "x".repeat(70_000), 0);
    assert!(wordy.fire(&mut fire, &aim, NOW).is_none());
    assert_eq!(wordy.take_events(), vec![Event::Failed]);
    assert_eq!(fire.pending.len(), 0);

    let signed = Some((vec![1, 2, 3], [9; 64]));
    let shot = wordy.load(&mut fire, &aim, signed, NOW).unwrap();
    assert_eq!((shot.wire, shot.signature), (vec![1, 2, 3], [9; 64]));
    assert_eq!(fire.pending[0].signature, [9; 64]);
}

#[test]
fn a_blockhash_has_an_age() {
    let mut blockhash = Blockhash::new();
    assert_eq!((blockhash.get(), blockhash.age(5)), (None, None));
    blockhash.set(BLOCKHASH, 5);
    assert_eq!((blockhash.get(), blockhash.age(12)), (Some(BLOCKHASH), Some(7)));
}
