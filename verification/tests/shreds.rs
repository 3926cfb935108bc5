use reed_solomon_erasure::galois_8::ReedSolomon;
use shred_sniper::clock::{Clock, SECOND};
use shred_sniper::config::{Config, Setting};
use shred_sniper::erasure::{Recovery, MAX_FEC_SETS};
use shred_sniper::leaders::Schedule;
use shred_sniper::metrics::Event;
use shred_sniper::pipeline::Pipeline;
use shred_sniper::receiver::Packet;
use shred_sniper::shred::{
    self, parse, DataShred, Shred, FEC_SET_INDEX, INDEX, LEAF_PREFIX, MAX_SHREDS_PER_SLOT,
    NODE_PREFIX, SIGNATURE,
};
use shred_sniper::verify::{Verdict, Verifier};
use solana_keypair::Keypair;
use solana_sha256_hasher::hashv;
use solana_signer::Signer;
use solana_transaction::versioned::VersionedTransaction;
use solana_transaction::{Message, VersionedMessage};

const SLOT: u64 = 42;
const RETENTION: u64 = 30 * SECOND;
/// Whatever a cluster would hash out; the point is that it is not zero.
const SHRED_VERSION: u16 = 4242;

/// Data shreds, and coding shreds, to an erasure batch.
const SET: usize = 32;
const PROOF: usize = 6;
const SHARD: usize = 1203 - 64 - 32 - 20 * PROOF;

/// A shred as its leader emits it.
struct LeaderShred {
    index: u32,
    fec_set_index: u32,
    data: bool,
    payload: Vec<u8>,
}

/// Shreds a payload the way a leader does: split over the data shreds of as many
/// erasure batches as it takes, each batch protected by as many coding shreds,
/// and signed by the root of the Merkle tree over all of them.
fn shreds_of(leader: &Keypair, slot: u64, payload: &[u8]) -> Vec<LeaderShred> {
    let chunks: Vec<&[u8]> = payload.chunks(SHARD - 24).collect();
    let sets = chunks.len().div_ceil(SET);
    let mut shreds = Vec::new();
    for set in 0..sets {
        let first = (set * SET) as u32;
        let mut shards: Vec<Vec<u8>> = Vec::new();
        for offset in 0..SET {
            let index = first as usize + offset;
            let data = chunks.get(index).copied().unwrap_or(&[]);
            let last = index + 1 == sets * SET;
            let mut shard = vec![0x90 | PROOF as u8];
            shard.extend(slot.to_le_bytes());
            shard.extend((index as u32).to_le_bytes());
            shard.extend(SHRED_VERSION.to_le_bytes());
            shard.extend(first.to_le_bytes());
            shard.extend(1u16.to_le_bytes());
            shard.push(if last { 0b1100_0000 } else { 0 });
            shard.extend((64 + 24 + data.len() as u16).to_le_bytes());
            shard.extend(data);
            shard.resize(SHARD, 0);
            shards.push(shard);
        }
        shards.resize(2 * SET, vec![0; SHARD]);
        ReedSolomon::new(SET, SET).unwrap().encode(&mut shards).unwrap();

        // Everything a leaf is made over: headers, shard and chained root.
        let covered: Vec<Vec<u8>> = shards
            .iter()
            .enumerate()
            .map(|(at, shard)| {
                let mut body = Vec::new();
                if at >= SET {
                    body.push(0x60 | PROOF as u8);
                    body.extend(slot.to_le_bytes());
                    body.extend((first + (at - SET) as u32).to_le_bytes());
                    body.extend(SHRED_VERSION.to_le_bytes());
                    body.extend(first.to_le_bytes());
                    body.extend((SET as u16).to_le_bytes());
                    body.extend((SET as u16).to_le_bytes());
                    body.extend(((at - SET) as u16).to_le_bytes());
                }
                body.extend(shard);
                body.extend([9; 32]);
                body
            })
            .collect();

        let mut levels: Vec<Vec<[u8; 32]>> = vec![covered
            .iter()
            .map(|body| hashv(&[&LEAF_PREFIX[..], body]).to_bytes())
            .collect()];
        while levels.last().unwrap().len() > 1 {
            let above = levels
                .last()
                .unwrap()
                .chunks(2)
                .map(|pair| {
                    hashv(&[&NODE_PREFIX[..], &pair[0][..20], &pair[1][..20]]).to_bytes()
                })
                .collect();
            levels.push(above);
        }
        let root = levels.last().unwrap()[0];
        let signature = leader.sign_message(&root);

        for (at, body) in covered.into_iter().enumerate() {
            let mut payload = signature.as_ref().to_vec();
            payload.extend(body);
            for (height, level) in levels.iter().take(PROOF).enumerate() {
                payload.extend(&level[(at >> height) ^ 1][..20]);
            }
            let offset = (at % SET) as u32;
            shreds.push(LeaderShred {
                index: first + offset,
                fec_set_index: first,
                data: at < SET,
                payload,
            });
        }
    }
    shreds
}

/// A payload and what its leader makes of it, data and coding apart.
fn shred(payload_len: usize) -> (Vec<u8>, Vec<LeaderShred>, Vec<LeaderShred>) {
    let payload: Vec<u8> = (0..payload_len).map(|byte| (byte % 251) as u8).collect();
    let (data, coding) = shreds_of(&Keypair::new(), SLOT, &payload)
        .into_iter()
        .partition(|shred| shred.data);
    (payload, data, coding)
}

/// Data shreds of a slot carry the payload split in index order.
fn reassemble<'a>(shreds: impl IntoIterator<Item = DataShred<'a>>) -> Vec<u8> {
    let mut shreds: Vec<_> = shreds.into_iter().collect();
    shreds.sort_by_key(|shred| shred.index);
    shreds
        .iter()
        .flat_map(|shred| shred.data)
        .copied()
        .collect()
}

fn recovery() -> Recovery {
    Recovery::new(RETENTION, Clock::start())
}

fn feed(recovery: &mut Recovery, payload: &[u8]) -> Vec<Vec<u8>> {
    match shred::parse(payload, SHRED_VERSION) {
        Some(Shred::Data(shred)) => recovery.insert_data(&shred),
        Some(Shred::Coding(shred)) => recovery.insert_coding(&shred),
        None => panic!("shred did not parse"),
    }
}

#[test]
fn parses_data_shreds_like_agave() {
    let (payload, data, coding) = shred(40 * 1024);
    assert!(data.len() > 32 && !coding.is_empty());

    let mut parsed_data = Vec::new();
    for shred in &data {
        let Some(Shred::Data(parsed)) = shred::parse(&shred.payload, SHRED_VERSION) else {
            panic!("data shred did not parse");
        };
        assert_eq!(parsed.slot, SLOT);
        assert_eq!(parsed.index, shred.index);
        assert_eq!(parsed.fec_set_index, shred.fec_set_index);
        parsed_data.push(parsed);
    }
    assert_eq!(reassemble(parsed_data), payload);

    for shred in &coding {
        let Some(Shred::Coding(parsed)) = shred::parse(&shred.payload, SHRED_VERSION) else {
            panic!("coding shred did not parse");
        };
        assert_eq!(parsed.slot, SLOT);
        assert_eq!(parsed.fec_set_index, shred.fec_set_index);
        assert!(parsed.position < parsed.num_coding);
    }
}

#[test]
fn recovers_data_shreds_dropped_by_turbine() {
    let (payload, data, coding) = shred(40 * 1024);
    let dropped = &data[..2];

    let mut recovery = recovery();
    let mut recovered = Vec::new();
    for shred in data.iter().skip(dropped.len()).chain(coding.iter()) {
        recovered.extend(feed(&mut recovery, &shred.payload));
    }

    assert_eq!(recovered.len(), dropped.len());
    for shred in dropped {
        let Some(Shred::Data(expected)) = shred::parse(&shred.payload, SHRED_VERSION) else {
            panic!("data shred did not parse");
        };
        let actual = recovered
            .iter()
            .filter_map(|body| shred::parse_data(body, SHRED_VERSION))
            .find(|actual| actual.index == expected.index)
            .expect("shred was not recovered");

        assert_eq!(actual.slot, expected.slot);
        assert_eq!(actual.fec_set_index, expected.fec_set_index);
        assert_eq!(actual.data_complete, expected.data_complete);
        assert_eq!(actual.shard, expected.shard);
        assert_eq!(actual.data, expected.data);
    }
    assert_eq!(recovery.take_events(), vec![Event::Recovered(2)]);

    // What the assembler would end up with: the kept shreds plus the recovered
    // ones have to add back up to the leader's payload.
    let kept = data.iter().skip(dropped.len()).filter_map(|shred| {
        match shred::parse(&shred.payload, SHRED_VERSION) {
            Some(Shred::Data(shred)) => Some(shred),
            _ => None,
        }
    });
    let filled = recovered
        .iter()
        .filter_map(|body| shred::parse_data(body, SHRED_VERSION));
    assert_eq!(reassemble(kept.chain(filled)), payload);
}

#[test]
fn keeps_quiet_when_nothing_was_lost() {
    let (_, data, coding) = shred(40 * 1024);

    let mut recovery = recovery();
    for shred in data.iter().chain(coding.iter()) {
        let recovered = feed(&mut recovery, &shred.payload);
        assert!(recovered.is_empty());
    }
}

/// Eviction used to be anchored to the highest slot number seen, so one spoofed
/// shred froze it and the cache grew without bound from there.
#[test]
fn a_spoofed_slot_does_not_stop_eviction() {
    let mut recovery = recovery();
    let spoofed = DataShred {
        slot: u64::MAX,
        index: 0,
        fec_set_index: 0,
        data_complete: false,
        last_in_slot: false,
        reference_tick: 0,
        data: &[],
        shard: &[1, 2, 3],
    };
    recovery.insert_data(&spoofed);

    for slot in 0..8 * MAX_FEC_SETS as u64 {
        recovery.insert_data(&DataShred { slot, ..spoofed });
    }
    assert!(
        recovery.sets.len() <= MAX_FEC_SETS + 1,
        "{} batches held",
        recovery.sets.len()
    );
}

#[test]
fn gives_up_when_the_batch_is_beyond_repair() {
    let (_, data, coding) = shred(40 * 1024);
    let Some(Shred::Coding(first)) = shred::parse(&coding[0].payload, SHRED_VERSION) else {
        panic!("coding shred did not parse");
    };
    // One short of what Reed-Solomon needs for the first batch.
    let keep = first.num_data - 1;

    let mut recovery = recovery();
    let mut recovered = Vec::new();
    for shred in data
        .iter()
        .filter(|shred| shred.fec_set_index == first.fec_set_index)
        .take(keep.saturating_sub(1))
        .chain(coding.iter().take(1))
    {
        recovered.extend(feed(&mut recovery, &shred.payload));
    }

    assert!(recovered.is_empty());
}

/// A batch that is let go before it could be recovered is one that was lost.
#[test]
fn a_batch_let_go_unresolved_is_counted() {
    let (_, _, coding) = shred(40 * 1024);
    let mut recovery = recovery();
    let Some(Shred::Coding(first)) = shred::parse(&coding[0].payload, SHRED_VERSION) else {
        panic!("coding shred did not parse");
    };
    assert!(recovery.insert_coding_at(&first, 0).is_empty());
    let mut other = first;
    other.slot += 1;
    recovery.insert_coding_at(&other, 3600 * SECOND);
    assert_eq!(recovery.take_events(), vec![Event::FecSetIncomplete]);
    assert_eq!(recovery.sets.len(), 1);
}

/// One data shred, straight from a leader.
fn data_shred() -> Vec<u8> {
    let payload: Vec<u8> = (0..4096u32).map(|byte| byte as u8).collect();
    shreds_of(&Keypair::new(), 42, &payload)
        .into_iter()
        .find(|shred| shred.data)
        .unwrap()
        .payload
}

/// Nothing checks the signature, so a forged field parses on its merits.
fn forge(payload: &[u8], offset: usize, value: u32) -> Vec<u8> {
    let mut forged = payload.to_vec();
    let at = SIGNATURE + offset;
    forged[at..at + 4].copy_from_slice(&value.to_le_bytes());
    forged
}

/// Everything downstream sizes its bookkeeping by the shred index, so an index
/// no leader could have produced has to be rejected right here.
#[test]
fn rejects_an_impossible_shred_index() {
    let payload = data_shred();
    assert!(
        parse(&payload, SHRED_VERSION).is_some(),
        "the untouched shred should parse"
    );

    for index in [MAX_SHREDS_PER_SLOT, u32::MAX] {
        let forged = forge(&payload, INDEX, index);
        assert!(
            parse(&forged, SHRED_VERSION).is_none(),
            "index {index} was accepted"
        );
    }
}

/// A shred belongs to the erasure batch it opens or a later one, never to one
/// that starts after it.
#[test]
fn rejects_a_batch_starting_past_the_shred() {
    let payload = data_shred();
    let Some(Shred::Data(shred)) = parse(&payload, SHRED_VERSION) else {
        panic!("data shred did not parse");
    };
    let index = shred.index;

    for first in [index + 1, u32::MAX] {
        let forged = forge(&payload, FEC_SET_INDEX, first);
        assert!(
            parse(&forged, SHRED_VERSION).is_none(),
            "batch index {first} was accepted"
        );
    }
}

/// Shreds of another cluster carry another version, and we hold buffers for
/// everything we accept, so they have no business getting in.
#[test]
fn rejects_a_foreign_shred_version() {
    let payload = data_shred();
    for version in [0, SHRED_VERSION - 1, SHRED_VERSION + 1, u16::MAX] {
        assert!(
            parse(&payload, version).is_none(),
            "version {version} was taken for {SHRED_VERSION}"
        );
    }
}

/// The version sits in the common header, so it guards coding shreds too.
#[test]
fn rejects_a_foreign_version_on_coding_shreds() {
    let payload: Vec<u8> = (0..40 * 1024u32).map(|byte| byte as u8).collect();
    let coding = shreds_of(&Keypair::new(), 42, &payload)
        .into_iter()
        .find(|shred| !shred.data)
        .expect("a payload this size produces coding shreds")
        .payload;

    assert!(
        matches!(parse(&coding, SHRED_VERSION), Some(Shred::Coding(_))),
        "the untouched coding shred should parse"
    );
    assert!(parse(&coding, SHRED_VERSION + 1).is_none());
}

/// Every field of a shred, at a value of its own.
#[test]
fn reads_every_field_of_a_data_shred() {
    let mut payload = data_shred();
    payload[SIGNATURE + 21] = 0b1100_0000 | 37;
    let Some(Shred::Data(shred)) = parse(&payload, SHRED_VERSION) else {
        panic!("data shred did not parse");
    };
    assert_eq!((shred.slot, shred.index, shred.fec_set_index), (42, 0, 0));
    assert!(shred.data_complete && shred.last_in_slot);
    assert_eq!(shred.reference_tick, 37);
    assert_eq!(shred.data.len(), SHARD - 24);
    assert_eq!(&shred.data[..4], &[0, 1, 2, 3]);
    assert_eq!(shred.shard.len(), SHARD);

    payload[SIGNATURE + 21] = 0b0100_0000;
    let Some(Shred::Data(shred)) = parse(&payload, SHRED_VERSION) else {
        panic!("data shred did not parse");
    };
    assert!(shred.data_complete && !shred.last_in_slot);
    assert!(parse(&payload[..SIGNATURE], SHRED_VERSION).is_none());
    assert!(parse(&[], SHRED_VERSION).is_none());
}

/// A slot's shreds as its leader would emit them, with the key that signed.
fn leader_slot() -> (Keypair, Vec<Vec<u8>>) {
    leader_slot_at(SLOT)
}

fn leader_slot_at(slot: u64) -> (Keypair, Vec<Vec<u8>>) {
    let leader = Keypair::new();
    let payload: Vec<u8> = (0..40 * 1024u32).map(|byte| byte as u8).collect();
    let shreds = shreds_of(&leader, slot, &payload)
        .into_iter()
        .map(|shred| shred.payload)
        .collect();
    (leader, shreds)
}

fn judge(schedule: Schedule) -> Verifier {
    Verifier::new(schedule, RETENTION, Clock::start())
}

/// The leader's own shreds pass, and the same shreds fail the moment the slot is
/// said to have belonged to somebody else.
#[test]
fn the_leaders_shreds_pass_and_a_strangers_do_not() {
    let (leader, shreds) = leader_slot();

    let mut mine = judge(Schedule::fixed(SLOT, vec![leader.pubkey().to_bytes()]));
    for payload in &shreds {
        assert!(
            matches!(mine.check(payload, SHRED_VERSION, SLOT), Verdict::Signed),
            "the leader's own shred was refused"
        );
    }
    assert!(mine.take_events().is_empty());
    assert_eq!(mine.verified.len(), 2, "one root per erasure batch");

    let mut theirs = judge(Schedule::fixed(
        SLOT,
        vec![Keypair::new().pubkey().to_bytes()],
    ));
    assert!(matches!(
        theirs.check(&shreds[0], SHRED_VERSION, SLOT),
        Verdict::Forged
    ));
    assert_eq!(theirs.take_events(), vec![Event::Forged]);
}

/// The attack the whole module exists for: rewriting a shred an attacker
/// received, so that a batch boundary — or anything else — says what they want
/// it to.
#[test]
fn a_rewritten_shred_is_refused() {
    let (leader, shreds) = leader_slot();
    let mut verifier = judge(Schedule::fixed(SLOT, vec![leader.pubkey().to_bytes()]));

    // The honest shred first, so the batch it belongs to is already verified and
    // cached. A forgery must not inherit that.
    assert!(matches!(
        verifier.check(&shreds[0], SHRED_VERSION, SLOT),
        Verdict::Signed
    ));

    for offset in [64 + 21, 64 + 9, 200] {
        let mut forged = shreds[0].clone();
        forged[offset] ^= 0b0100_0000;
        assert!(
            matches!(
                verifier.check(&forged, SHRED_VERSION, SLOT),
                Verdict::Forged
            ),
            "a shred rewritten at byte {offset} passed as the leader's"
        );
    }
}

/// Naming a slot the schedule has nothing to say about, so that the signature
/// never gets a leader to be checked against. Answering it with "unproven" would
/// have made every check above optional: an attacker picks the slot, so an
/// attacker picks whether to be checked.
#[test]
fn a_slot_the_cluster_cannot_have_reached_is_refused() {
    let (leader, _) = leader_slot();
    let (_, forged) = leader_slot_at(SLOT + 100_000);

    let mut verifier = judge(Schedule::fixed(SLOT, vec![leader.pubkey().to_bytes()]));
    assert!(
        matches!(
            verifier.check(&forged[0], SHRED_VERSION, SLOT + 100_000),
            Verdict::Forged
        ),
        "a shred escaped the leader check by claiming a distant slot"
    );
}

/// The other side of that edge: a slot just past the window is somewhere the
/// cluster genuinely could be, so it is unproven rather than false.
#[test]
fn a_slot_just_past_the_window_is_unproven() {
    let (leader, shreds) = leader_slot();
    let mut verifier = judge(Schedule::fixed(SLOT, vec![leader.pubkey().to_bytes()]));
    assert!(matches!(
        verifier.check(&shreds[0], SHRED_VERSION, SLOT + 1),
        Verdict::Unknown
    ));
}

/// No window at all — startup, or an RPC that has never answered — says nothing
/// about any slot. Refusing on it would blind the sniper exactly when it has
/// least reason to be blind.
#[test]
fn no_schedule_at_all_refuses_nothing() {
    let (_, shreds) = leader_slot();
    let mut verifier = judge(Schedule::default());
    assert!(matches!(
        verifier.check(&shreds[0], SHRED_VERSION, SLOT),
        Verdict::Unknown
    ));
    assert_eq!(verifier.take_events(), vec![Event::Unverified]);
}

/// A root that was verified is remembered for that slot only, and not for ever.
#[test]
fn a_verified_root_is_forgotten_with_time() {
    let (leader, shreds) = leader_slot();
    let mut verifier = judge(Schedule::fixed(SLOT, vec![leader.pubkey().to_bytes()]));
    assert_eq!(
        verifier.check_at(&shreds[0], SHRED_VERSION, SLOT, 0),
        Verdict::Signed
    );
    assert_eq!(verifier.verified.len(), 1);

    // Nobody leads the slot any more, yet the root is known.
    verifier.reschedule(Schedule::fixed(SLOT, vec![[1; 32]]));
    assert_eq!(
        verifier.check_at(&shreds[1], SHRED_VERSION, SLOT, 1),
        Verdict::Signed
    );
    assert_eq!(
        verifier.check_at(&shreds[1], SHRED_VERSION, SLOT, 1000 * SECOND),
        Verdict::Forged
    );
    assert_eq!(verifier.verified.len(), 0);
}

/// The whole way: shreds lost in turbine are rebuilt from the coding shreds of
/// their batch, and the transactions they carried come out as if they had
/// arrived.
#[test]
fn what_turbine_lost_is_rebuilt_on_the_way() {
    let leader = Keypair::new();
    let wallet = Keypair::new().pubkey();
    let transaction = VersionedTransaction {
        signatures: vec![[1; 64].into()],
        message: VersionedMessage::Legacy(Message {
            account_keys: vec![wallet],
            ..Default::default()
        }),
    };
    let entries: Vec<(u64, solana_hash::Hash, Vec<VersionedTransaction>)> = (0..300)
        .map(|_| (1, solana_hash::Hash::default(), vec![transaction.clone()]))
        .collect();
    let payload = bincode::serialize(&entries).unwrap();
    assert!(payload.len() > SHARD * SET, "one batch proves less than two");

    let vars = vec![Setting {
        name: "TARGET_WALLETS".to_string(),
        value: wallet.to_string(),
    }];
    let config = Config::from_env(&vars, None, None).ok().unwrap();
    let schedule = Schedule::fixed(SLOT, vec![leader.pubkey().to_bytes()]);
    let mut pipeline = Pipeline::new(
        &config,
        SHRED_VERSION,
        Some([9; 32]),
        Some(schedule),
        false,
        Clock::start(),
    );
    for shred in shreds_of(&leader, SLOT, &payload) {
        if shred.data && shred.index % 3 == 0 {
            continue;
        }
        let mut packet = Packet::new();
        packet.buffer[..shred.payload.len()].copy_from_slice(&shred.payload);
        packet.meta.size = shred.payload.len();
        pipeline.packet(&packet);
    }

    assert_eq!(pipeline.take_sightings().len(), 300);
    assert_eq!(pipeline.slot.transactions, 300);
    let events = pipeline.take_events();
    assert_eq!(
        events
            .iter()
            .filter_map(|event| match event {
                Event::Recovered(count) => Some(*count),
                _ => None,
            })
            .sum::<u64>(),
        (0..64).filter(|index| index % 3 == 0).count() as u64
    );
    assert!(!events.contains(&Event::Forged));
    assert!(!events.contains(&Event::Unverified));
}
