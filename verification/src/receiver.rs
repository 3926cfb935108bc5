//! Datagrams on their way from the sockets to the parser, and their buffers' way
//! back.

use crate::addresses::Ip;
use vstd::prelude::*;
use vstd::slice::slice_subrange;

verus! {

/// A receive call returns as soon as the first datagram is ready and takes
/// whatever else is already queued behind it. A full batch is therefore a
/// ceiling rather than something we wait for: at line rate it collapses 64
/// syscalls into one, and on a quiet socket it costs exactly what receiving a
/// single datagram does.
pub const RECV_BATCH: usize = 64;

/// Batches a receiver may hold before it has to allocate. Deep enough to ride
/// out a hiccup in the parser, shallow enough that the steady state is a
/// handful of buffers going back and forth.
pub const POOL_BATCHES: usize = 4;

/// The most a datagram can carry.
pub const PACKET_DATA_SIZE: usize = 1232;

/// What is known about a datagram besides its bytes.
#[derive(Clone, Copy, Debug, PartialEq, Eq, Structural)]
pub struct Meta {
    pub size: usize,
    pub addr: Ip,
    pub port: u16,
    /// Whether the payload is not to be read.
    pub discard: bool,
}

impl Meta {
    /// The meta of a packet nothing was received into.
    pub open spec fn untouched() -> Meta {
        Meta { size: 0, addr: Ip::V4(0), port: 0, discard: false }
    }
}

impl Default for Meta {
    fn default() -> (meta: Meta)
        ensures
            meta == Meta::untouched(),
    {
        Meta { size: 0, addr: Ip::V4(0), port: 0, discard: false }
    }
}

/// Room for a datagram.
pub struct Packet {
    pub buffer: Vec<u8>,
    pub meta: Meta,
}

impl Packet {
    /// Room for a datagram, and none in it.
    pub fn new() -> (packet: Packet)
        ensures
            packet.meta == Meta::untouched(),
            packet.buffer@.len() == PACKET_DATA_SIZE,
    {
        let mut buffer: Vec<u8> = Vec::new();
        while buffer.len() < PACKET_DATA_SIZE
            invariant
                buffer@.len() <= PACKET_DATA_SIZE,
            decreases PACKET_DATA_SIZE - buffer@.len(),
        {
            buffer.push(0);
        }
        Packet { buffer, meta: Meta::default() }
    }

    /// The datagram, unless it is not to be read.
    pub fn data(&self) -> (data: Option<&[u8]>)
        ensures
            match data {
                Some(data) => {
                    &&& !self.meta.discard
                    &&& self.meta.size <= self.buffer@.len()
                    &&& data@ == self.buffer@.take(self.meta.size as int)
                },
                None => self.meta.discard || self.meta.size > self.buffer@.len(),
            },
    {
        if self.meta.discard || self.meta.size > self.buffer.len() {
            None
        } else {
            Some(slice_subrange(self.buffer.as_slice(), 0, self.meta.size))
        }
    }
}

/// Datagrams travelling from a receiver thread to the parser, and then back to
/// be refilled. Handing the buffers back is what keeps the hot path free of an
/// allocation per datagram, without trading it for the ~80 KiB of zeroing a
/// fresh batch would cost.
pub struct Batch {
    pub packets: Vec<Packet>,
    pub filled: usize,
    /// Which receiver to hand this buffer back to, so a slow socket cannot drain
    /// a fast one's pool.
    pub socket: usize,
}

impl Batch {
    /// Nothing was received past what counts as filled.
    pub open spec fn orderly(self) -> bool {
        &&& self.filled <= self.packets@.len()
        &&& forall|i: int|
            self.filled <= i < self.packets@.len() ==> (#[trigger] self.packets@[i]).meta
                == Meta::untouched()
    }

    /// Nothing was received into it at all, so it can be filled.
    pub open spec fn clean(self) -> bool {
        &&& self.filled == 0
        &&& forall|i: int|
            0 <= i < self.packets@.len() ==> (#[trigger] self.packets@[i]).meta
                == Meta::untouched()
    }

    pub fn new(socket: usize) -> (batch: Batch)
        ensures
            batch.clean(),
            batch.packets@.len() == RECV_BATCH,
            batch.socket == socket,
    {
        let mut packets: Vec<Packet> = Vec::new();
        while packets.len() < RECV_BATCH
            invariant
                packets@.len() <= RECV_BATCH,
                forall|i: int|
                    0 <= i < packets@.len() ==> (#[trigger] packets@[i]).meta == Meta::untouched(),
            decreases RECV_BATCH - packets@.len(),
        {
            packets.push(Packet::new());
        }
        Batch { packets, filled: 0, socket }
    }

    pub fn received(&self) -> (received: &[Packet])
        requires
            self.filled <= self.packets@.len(),
        ensures
            received@ == self.packets@.take(self.filled as int),
    {
        slice_subrange(self.packets.as_slice(), 0, self.filled)
    }

    /// Receiving expects every `Meta` to be untouched, so clearing what the last
    /// fill wrote is precisely what makes the buffer reusable.
    pub fn clear(&mut self)
        requires
            old(self).filled <= old(self).packets@.len(),
        ensures
            final(self).filled == 0,
            final(self).socket == old(self).socket,
            final(self).packets@.len() == old(self).packets@.len(),
            forall|i: int|
                0 <= i < final(self).packets@.len() ==> (#[trigger] final(self).packets@[i])
                    == (Packet {
                    meta: if i < old(self).filled {
                        Meta::untouched()
                    } else {
                        old(self).packets@[i].meta
                    },
                    ..old(self).packets@[i]
                }),
            old(self).orderly() ==> final(self).clean(),
    {
        let mut i: usize = 0;
        while i < self.filled
            invariant
                i <= self.filled <= self.packets@.len(),
                self.filled == old(self).filled,
                self.socket == old(self).socket,
                self.packets@.len() == old(self).packets@.len(),
                forall|j: int|
                    0 <= j < self.packets@.len() ==> (#[trigger] self.packets@[j]) == (Packet {
                        meta: if j < i {
                            Meta::untouched()
                        } else {
                            old(self).packets@[j].meta
                        },
                        ..old(self).packets@[j]
                    }),
            decreases self.filled - i,
        {
            self.packets[i].meta = Meta::default();
            i = i + 1;
        }
        self.filled = 0;
    }
}

/// Where the batch a receiver fills next comes from.
#[derive(Clone, Copy, Debug, PartialEq, Eq, Structural)]
pub enum Source {
    /// The one the kernel left empty the last time, which is still clean.
    Spare,
    /// One the parser has handed back.
    Pool,
    /// Newly made. An exhausted pool means the parser is behind. Allocating
    /// instead of waiting keeps the socket drained, and the extra buffer joins
    /// the pool once it comes back.
    Fresh,
}

pub fn source(spare: bool, pooled: bool) -> (source: Source)
    ensures
        source == if spare {
            Source::Spare
        } else if pooled {
            Source::Pool
        } else {
            Source::Fresh
        },
{
    if spare {
        Source::Spare
    } else if pooled {
        Source::Pool
    } else {
        Source::Fresh
    }
}

/// Why nothing was received.
#[derive(Clone, Copy, Debug, PartialEq, Eq, Structural)]
pub enum Silence {
    WouldBlock,
    TimedOut,
    Broken,
}

/// What a receiver does after a receive call.
#[derive(Clone, Copy, Debug, PartialEq, Eq, Structural)]
pub enum Next {
    /// Hand the batch, with that many datagrams in it, to the parser.
    Deliver(usize),
    /// Keep the batch for the next call.
    Keep,
    /// Keep it, and say that something is wrong.
    Complain,
}

/// The read timeout firing on a quiet socket is how the exit flag gets looked
/// at, not something to report.
pub fn next(received: Result<usize, Silence>) -> (next: Next)
    ensures
        next == match received {
            Ok(filled) => if filled == 0 {
                Next::Keep
            } else {
                Next::Deliver(filled)
            },
            Err(Silence::Broken) => Next::Complain,
            Err(_) => Next::Keep,
        },
{
    match received {
        Ok(filled) => if filled == 0 {
            Next::Keep
        } else {
            Next::Deliver(filled)
        },
        Err(Silence::Broken) => Next::Complain,
        Err(_) => Next::Keep,
    }
}

/// A batch that came back from the parser is as good as new: cleared, it can be filled
/// again, by the receiver it belongs to, and the room in it is what it was.
pub proof fn a_cleared_batch_can_be_filled_again(batch: &mut Batch)
    requires
        call_ensures(Batch::clear, (batch,), ()),
        old(batch).filled <= old(batch).packets@.len(),
        forall|i: int|
            old(batch).filled <= i < old(batch).packets@.len() ==> {
                let meta = (#[trigger] old(batch).packets@[i]).meta;
                meta.size == 0 && meta.port == 0 && !meta.discard && meta.addr == Ip::V4(0)
            },
    ensures
        final(batch).filled == 0,
        final(batch).socket == old(batch).socket,
        final(batch).packets@.len() == old(batch).packets@.len(),
        forall|i: int|
            0 <= i < final(batch).packets@.len() ==> {
                let packet = #[trigger] final(batch).packets@[i];
                &&& packet.meta.size == 0
                &&& packet.meta.port == 0
                &&& packet.meta.addr == Ip::V4(0)
                &&& !packet.meta.discard
                &&& packet.buffer == old(batch).packets@[i].buffer
            },
{
}

/// What was received is handed over: all of it where there is any, and nothing where
/// there is none.
pub proof fn what_is_received_is_delivered(filled: usize, after: Next)
    requires
        call_ensures(next, (Ok::<usize, Silence>(filled),), after),
    ensures
        filled > 0 ==> after == Next::Deliver(filled),
        filled == 0 ==> after is Keep,
{
}

/// A quiet socket is nothing to complain of, a broken one is, and neither delivers
/// anything.
pub proof fn only_a_broken_socket_is_complained_of(silence: Silence, after: Next)
    requires
        call_ensures(next, (Err::<usize, Silence>(silence),), after),
    ensures
        after is Complain <==> silence is Broken,
        !(after is Deliver),
{
}

/// A batch is made anew only where there is none to fill: none left over, and none
/// handed back.
pub proof fn a_batch_is_made_only_where_there_is_none(spare: bool, pooled: bool, from: Source)
    requires
        call_ensures(source, (spare, pooled), from),
    ensures
        from is Fresh <==> !spare && !pooled,
        from is Spare <==> spare,
{
}

/// What is read of a packet is as many of its first bytes as were received into it,
/// unless it is not to be read.
pub proof fn a_packet_is_read_as_far_as_it_was_filled(packet: Packet, data: Option<&[u8]>)
    requires
        call_ensures(Packet::data, (&packet,), data),
        packet.meta.size <= packet.buffer@.len(),
    ensures
        data is Some <==> !packet.meta.discard,
        data matches Some(data) ==> {
            &&& data@.len() == packet.meta.size
            &&& forall|i: int| 0 <= i < data@.len() ==> #[trigger] data@[i] == packet.buffer@[i]
        },
{
}

/// A batch has room for 64 datagrams of 1232 bytes, and none in it.
pub proof fn a_batch_has_room_for_a_receive_call(
    socket: usize,
    batch: Batch,
    packet: Packet,
    received: &[Packet],
)
    requires
        call_ensures(Batch::new, (socket,), batch),
        call_ensures(Batch::received, (&batch,), received),
        call_ensures(Packet::new, (), packet),
    ensures
        batch.packets@.len() == 64,
        batch.socket == socket,
        received@.len() == 0,
        packet.buffer@.len() == 1232,
        packet.meta.size == 0,
{
}

} // verus!
