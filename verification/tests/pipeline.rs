use shred_sniper::addresses::Ip;
use shred_sniper::clock::Clock;
use shred_sniper::config::{Config, Setting};
use shred_sniper::fire::Sighting;
use shred_sniper::leaders::Schedule;
use shred_sniper::metrics::{Event, PacketKind};
use shred_sniper::pipeline::{LogLine, Pipeline, SlotState, TICK};
use shred_sniper::race::RaceLine;
use shred_sniper::receiver::Packet;
use shred_sniper::shred::DataShred;
use solana_keypair::Keypair;
use solana_signer::Signer;
use solana_transaction::versioned::VersionedTransaction;
use solana_transaction::{Address, CompiledInstruction, Message, VersionedMessage};

const SHRED_VERSION: u16 = 4242;
const PEER: Ip = Ip::V4(0x7f00_0001);
const VOTE: &str = "Vote111111111111111111111111111111111111111";

fn config(settings: &[(&str, String)]) -> Config {
    let vars = settings
        .iter()
        .map(|(name, value)| Setting {
            name: name.to_string(),
            value: value.clone(),
        })
        .collect();
    Config::from_env(&vars, None, None).ok().unwrap()
}

fn pipeline(settings: &[(&str, String)], searcher: Option<[u8; 32]>) -> Pipeline {
    Pipeline::new(
        &config(settings),
        SHRED_VERSION,
        searcher,
        None,
        false,
        Clock::start(),
    )
}

fn transaction(payer: &Address, programs: &[Address], signature: u8) -> VersionedTransaction {
    let mut account_keys = vec![*payer];
    account_keys.extend(programs);
    VersionedTransaction {
        signatures: vec![[signature; 64].into()],
        message: VersionedMessage::Legacy(Message {
            account_keys,
            instructions: (0..programs.len())
                .map(|at| CompiledInstruction {
                    program_id_index: at as u8 + 1,
                    accounts: vec![0],
                    data: vec![],
                })
                .collect(),
            ..Default::default()
        }),
    }
}

/// A batch of one entry.
fn batch(transactions: Vec<VersionedTransaction>) -> Vec<u8> {
    bincode::serialize(&vec![(1u64, solana_hash::Hash::default(), transactions)]).unwrap()
}

/// A datagram with one data shred in it.
fn datagram(slot: u64, index: u32, data: &[u8], flags: u8, version: u16) -> Packet {
    let mut bytes = vec![0; 64];
    bytes.push(0x90);
    bytes.extend(slot.to_le_bytes());
    bytes.extend(index.to_le_bytes());
    bytes.extend(version.to_le_bytes());
    bytes.extend(0u32.to_le_bytes());
    bytes.extend(1u16.to_le_bytes());
    bytes.push(flags);
    bytes.extend((64 + 24 + data.len() as u16).to_le_bytes());
    bytes.extend(data);
    bytes.resize(1203, 0);
    let mut packet = Packet::new();
    packet.buffer[..1203].copy_from_slice(&bytes);
    packet.meta.size = 1203;
    packet.meta.addr = PEER;
    packet
}

#[test]
fn what_is_no_shred_is_counted_and_dropped() {
    let mut pipeline = pipeline(&[], None);
    let mut packet = Packet::new();
    packet.meta.size = 100;
    pipeline.packet(&packet);
    pipeline.packet(&datagram(7, 0, &[], 0, SHRED_VERSION + 1));
    assert_eq!(
        pipeline.take_events(),
        vec![
            Event::Packet(PacketKind::Other),
            Event::Packet(PacketKind::Other)
        ]
    );

    let mut unreadable = datagram(7, 0, &[], 0, SHRED_VERSION);
    unreadable.meta.discard = true;
    pipeline.packet(&unreadable);
    assert!(pipeline.take_events().is_empty());
    assert_eq!(pipeline.shreds_seen, 0);
}

/// A watched wallet's transaction is a trigger for a sniper that can sign, and
/// one of our own coming back around is a landing.
#[test]
fn the_two_matches_the_sniper_acts_on() {
    let wallet = Keypair::new().pubkey();
    let own = Keypair::new().pubkey();
    let settings = [("TARGET_WALLETS", wallet.to_string())];
    let data = batch(vec![
        transaction(&wallet, &[], 1),
        transaction(&own, &[], 2),
        transaction(&Keypair::new().pubkey(), &[wallet], 3),
    ]);

    let mut armed = pipeline(&settings, Some(own.to_bytes()));
    armed.packet(&datagram(42, 0, &data, 0b1100_0000, SHRED_VERSION));
    let sightings = armed.take_sightings();
    assert_eq!(sightings.len(), 2);
    assert!(
        matches!(sightings[0], Sighting::Target { slot: 42, signature, .. } if signature == [1; 64])
    );
    assert!(matches!(sightings[1], Sighting::Own { slot: 42, signature } if signature == [2; 64]));
    assert_eq!(armed.slot.transactions, 3);
    assert!(armed.take_sightings().is_empty());

    let mut watching = pipeline(&settings, None);
    watching.packet(&datagram(42, 0, &data, 0b1100_0000, SHRED_VERSION));
    assert!(watching.take_sightings().is_empty());
    let events = watching.take_events();
    assert_eq!(
        events
            .iter()
            .filter(|event| matches!(event, Event::Watched { .. }))
            .count(),
        1
    );
}

/// What a data shred makes the sniper say, in order.
#[test]
fn a_data_shred_is_followed_through() {
    let program = Keypair::new().pubkey();
    let vote: Address = VOTE.parse().unwrap();
    let payer = Keypair::new().pubkey();
    let data = batch(vec![
        transaction(&payer, &[vote], 1),
        transaction(&payer, &[vote, program], 2),
    ]);
    let mut pipeline = pipeline(&[("SNIPE_PROGRAM", program.to_string())], None);
    pipeline.slot = SlotState {
        number: 41,
        started: 10,
        shreds: 5,
        transactions: 6,
    };
    pipeline.started = 4;
    pipeline.shreds_seen = 9;
    let shred = DataShred {
        slot: 42,
        index: 0,
        fec_set_index: 0,
        data_complete: true,
        last_in_slot: true,
        reference_tick: 3,
        data: &data,
        shard: &[],
    };
    pipeline.data_shred_at(&shred, false, 30, 35);
    assert_eq!(
        pipeline.events,
        vec![
            Event::Completed {
                slot: 42,
                duration: Some(20),
                shreds: 5,
                transactions: 6
            },
            Event::Delivery {
                arrival: 0,
                produced: 3 * 6_250_000
            },
            Event::Transaction {
                vote: true,
                hit: false,
                opaque: false,
                offset: Some(0)
            },
            Event::Transaction {
                vote: true,
                hit: true,
                opaque: false,
                offset: Some(0)
            },
        ]
    );
    assert_eq!(TICK, 6_250_000);
    assert_eq!((pipeline.slot.number, pipeline.slot.started), (42, 30));
    assert_eq!((pipeline.slot.shreds, pipeline.slot.transactions), (1, 2));
    assert_eq!(pipeline.shreds_seen, 10);

    let log = pipeline.take_log();
    assert_eq!(log.len(), 2);
    assert!(matches!(
        log[0],
        LogLine::Slot {
            slot: 42,
            shreds: 9,
            uptime: 26
        }
    ));
    match &log[1] {
        LogLine::Transaction {
            slot,
            hit,
            signature,
            payer: paid,
            programs,
        } => {
            assert_eq!((*slot, *hit), (42, true));
            assert_eq!(
                signature,
                &solana_signature::Signature::from([2; 64]).to_string()
            );
            assert_eq!(paid, &payer.to_string());
            assert_eq!(programs, &format!("{vote}, {program}"));
        }
        _ => panic!("the hit was not logged"),
    }

    // A shred of a slot already left has no origin to be timed from, and one
    // that was rebuilt says nothing about delivery.
    pipeline.events.clear();
    pipeline.data_shred_at(&DataShred { slot: 41, ..shred }, false, 40, 40);
    assert!(matches!(
        pipeline.events[0],
        Event::Transaction { offset: None, .. }
    ));
    pipeline.events.clear();
    pipeline.data_shred_at(&DataShred { index: 1, ..shred }, true, 40, 40);
    assert!(!pipeline
        .events
        .iter()
        .any(|event| matches!(event, Event::Delivery { .. })));
}

/// The anchor moves forward, and back only for a slot far below it.
#[test]
fn the_anchor_follows_the_cluster() {
    let mut pipeline = pipeline(&[], None);
    pipeline.anchor(5000, 1);
    assert_eq!(
        pipeline.take_events(),
        vec![Event::Completed {
            slot: 5000,
            duration: None,
            shreds: 0,
            transactions: 0
        }]
    );
    for slot in [5000, 4999, 5000 - 1024] {
        pipeline.anchor(slot, 2);
        assert_eq!(pipeline.slot.number, 5000);
    }
    pipeline.anchor(5000 - 1025, 3);
    assert_eq!(pipeline.slot.number, 3975);
    pipeline.anchor(u64::MAX, 4);
    pipeline.anchor(3975, 5);
    assert_eq!(pipeline.slot.number, 3975, "a spoofed slot held the anchor");
}

/// A new peer is reported once.
#[test]
fn a_source_is_met_once() {
    let mut pipeline = pipeline(&[], None);
    pipeline.packet(&datagram(42, 0, &[], 0, SHRED_VERSION));
    pipeline.packet(&datagram(42, 1, &[], 0, SHRED_VERSION));
    let mut other = datagram(42, 2, &[], 0, SHRED_VERSION);
    other.meta.addr = Ip::V6(1);
    pipeline.packet(&other);
    let events = pipeline.take_events();
    let sources: Vec<&Event> = events
        .iter()
        .filter(|event| matches!(event, Event::Sources(_)))
        .collect();
    assert_eq!(sources, vec![&Event::Sources(1), &Event::Sources(2)]);
    assert_eq!(
        events
            .iter()
            .filter(|event| matches!(event, Event::Processed { .. }))
            .count(),
        3
    );
    let met = pipeline
        .take_log()
        .iter()
        .filter(|line| matches!(line, LogLine::Source(_)))
        .count();
    assert_eq!(met, 2);
}

/// Where there is a schedule to tell by, what nobody signed gets nowhere.
#[test]
fn a_forged_packet_gets_nowhere() {
    let wallet = Keypair::new().pubkey();
    let data = batch(vec![transaction(&wallet, &[], 1)]);
    let packet = datagram(42, 0, &data, 0b1100_0000, SHRED_VERSION);
    let config = config(&[("TARGET_WALLETS", wallet.to_string())]);
    let mut pipeline = Pipeline::new(
        &config,
        SHRED_VERSION,
        Some([9; 32]),
        Some(Schedule::default()),
        false,
        Clock::start(),
    );
    pipeline.packet(&packet);
    assert_eq!(pipeline.take_sightings().len(), 1, "taken on trust");
    assert!(pipeline.take_events().contains(&Event::Unverified));

    pipeline.reschedule(Schedule::fixed(42, vec![Keypair::new().pubkey().to_bytes()]));
    let held = pipeline.shreds_seen;
    pipeline.packet(&datagram(42, 1, &data, 0b1100_0000, SHRED_VERSION));
    assert_eq!(
        pipeline.take_events(),
        vec![Event::Packet(PacketKind::Data), Event::Forged]
    );
    assert!(pipeline.take_sightings().is_empty());
    assert_eq!(pipeline.shreds_seen, held);
}

/// The address we sign with is ours, listed or not, and both sides of the race
/// are followed.
#[test]
fn arming_is_enough_to_be_recognised() {
    let own = Keypair::new().pubkey();
    let wallet = Keypair::new().pubkey();
    let settings = [
        ("TARGET_WALLETS", wallet.to_string()),
        ("SEARCHER_WALLETS", own.to_string()),
    ];
    for (settings, searcher) in [
        (&settings[..], Some(own.to_bytes())),
        (&settings[..1], Some(own.to_bytes())),
        (&settings[..], None),
    ] {
        let mut pipeline = pipeline(settings, searcher);
        assert!(pipeline.searchers.contains(&own.to_bytes()));
        assert!(!pipeline.searchers.contains(&wallet.to_bytes()));
        assert!(pipeline.watched.contains(&wallet.to_bytes()));
        let data = batch(vec![transaction(&own, &[], 1), transaction(&wallet, &[], 2)]);
        pipeline.packet(&datagram(42, 0, &data, 0b1100_0000, SHRED_VERSION));
        let race = pipeline.race.as_mut().unwrap();
        assert_eq!(race.slots.get(&42).unwrap().hits.len(), 2);
        let lines = race.slots.get(&42).unwrap().report(42);
        assert!(matches!(
            lines[0],
            RaceLine::Pair {
                tx_gap: -1,
                same_entry: true,
                ..
            }
        ));
        assert!(pipeline.take_lines().is_empty());
    }
    assert!(pipeline(&[], None).race.is_none());
}

/// Only hits are logged, unless everything is to be.
#[test]
fn a_verbose_sniper_logs_every_transaction() {
    let payer = Keypair::new().pubkey();
    let unsigned = VersionedTransaction {
        signatures: vec![],
        message: VersionedMessage::Legacy(Message::default()),
    };
    let data = batch(vec![transaction(&payer, &[], 1), unsigned]);
    let mut quiet = pipeline(&[], None);
    quiet.packet(&datagram(42, 0, &data, 0b1100_0000, SHRED_VERSION));
    let logged = |log: Vec<LogLine>| {
        log.into_iter()
            .filter_map(|line| match line {
                LogLine::Transaction {
                    signature, payer, programs, ..
                } => Some((signature, payer, programs)),
                _ => None,
            })
            .collect::<Vec<_>>()
    };
    assert!(logged(quiet.take_log()).is_empty());

    let mut verbose = pipeline(&[], None);
    verbose.verbose = true;
    verbose.packet(&datagram(42, 0, &data, 0b1100_0000, SHRED_VERSION));
    let lines = logged(verbose.take_log());
    assert_eq!(lines.len(), 2);
    assert_eq!(lines[0].1, payer.to_string());
    assert_eq!(
        lines[1],
        ("<no signature>".to_string(), "?".to_string(), String::new())
    );
}
