use shred_sniper::addresses::Ip;
use shred_sniper::receiver::{next, source, Batch, Meta, Next, Packet, Silence, Source, RECV_BATCH};

/// Receiving asserts that every `Meta` handed to it is untouched, so a batch
/// coming back from the parser has to be indistinguishable from a fresh one or
/// refilling it trips the assert on a debug build.
#[test]
fn a_recycled_batch_looks_untouched() {
    let mut batch = Batch::new(0);
    for packet in batch.packets.iter_mut().take(3) {
        packet.meta.size = 1232;
        packet.meta.port = 8001;
    }
    batch.filled = 3;
    assert_eq!(batch.received().len(), 3);

    batch.clear();

    assert_eq!(batch.filled, 0);
    assert!(batch.received().is_empty());
    assert!(batch
        .packets
        .iter()
        .all(|packet| packet.meta == Meta::default()));
}

#[test]
fn a_fresh_batch_has_room() {
    let batch = Batch::new(3);
    assert_eq!(batch.packets.len(), RECV_BATCH);
    assert_eq!((batch.filled, batch.socket), (0, 3));
    assert_eq!(batch.packets[0].buffer.len(), 1232);
}

/// What a packet holds is what was received into it, unless it is not to be
/// read.
#[test]
fn a_packet_yields_what_was_received() {
    let mut packet = Packet::new();
    assert_eq!(packet.data(), Some(&[][..]));
    packet.buffer[..3].copy_from_slice(&[7, 8, 9]);
    packet.meta = Meta {
        size: 3,
        addr: Ip::V6(1),
        port: 9,
        discard: false,
    };
    assert_eq!(packet.data(), Some(&[7, 8, 9][..]));
    packet.meta.discard = true;
    assert_eq!(packet.data(), None);
    packet.meta.discard = false;
    packet.meta.size = 1233;
    assert_eq!(packet.data(), None);
}

#[test]
fn a_receiver_keeps_its_socket_drained() {
    assert_eq!(source(true, true), Source::Spare);
    assert_eq!(source(false, true), Source::Pool);
    assert_eq!(source(false, false), Source::Fresh);

    assert_eq!(next(Ok(0)), Next::Keep);
    assert_eq!(next(Ok(5)), Next::Deliver(5));
    assert_eq!(next(Err(Silence::WouldBlock)), Next::Keep);
    assert_eq!(next(Err(Silence::TimedOut)), Next::Keep);
    assert_eq!(next(Err(Silence::Broken)), Next::Complain);
}
