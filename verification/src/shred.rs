//! Merkle shred wire format, as far as the sniper needs it.
//!
//! All offsets here are relative to the shred *body*: the payload with its
//! leading 64-byte signature stripped. Erasure recovery reconstructs bodies
//! rather than payloads, so live and recovered shreds share one parser.

use vstd::prelude::*;
use vstd::slice::slice_subrange;

verus! {

pub const SIGNATURE: usize = 64;

// Common header, present in both shred types.
pub const SLOT: usize = 1;

pub const INDEX: usize = 9;

pub const VERSION: usize = 13;

pub const FEC_SET_INDEX: usize = 15;

// Data header.
pub const DATA_FLAGS: usize = 21;

pub const DATA_SIZE: usize = 22;

pub const DATA_HEADERS: usize = 24;

// Coding header.
pub const CODE_NUM_DATA: usize = 19;

pub const CODE_NUM_CODING: usize = 21;

pub const CODE_POSITION: usize = 23;

pub const CODE_HEADERS: usize = 25;

// A coding shred fills a whole packet, and everything past the erasure coded
// region is the Merkle root, the proof and, when resigned, the retransmitter
// signature. The shard is therefore longest for an unresigned shred with an
// empty proof.
pub const CODE_PAYLOAD: usize = 1228;

/// A data shred leaves a coding shred's headers' worth of the packet unused.
pub const DATA_PAYLOAD: usize = 1203;

pub const MERKLE_ROOT: usize = 32;

pub const PROOF_ENTRY: usize = 20;

pub const MAX_SHARD: usize = 1107;

/// A leader never puts more than this many data shreds in a slot, and
/// everything downstream sizes its bookkeeping by the index, so a bogus one has
/// to be rejected here.
pub const MAX_SHREDS_PER_SLOT: u32 = 32_768;

/// What every leaf of a shred Merkle tree is hashed behind:
/// a zero byte and `SOLANA_MERKLE_SHREDS_LEAF`.
pub const LEAF_PREFIX: [u8; 26] = [
    0, 83, 79, 76, 65, 78, 65, 95, 77, 69, 82, 75, 76, 69, 95, 83, 72, 82, 69, 68, 83, 95, 76, 69,
    65, 70,
];

/// What every inner node of a shred Merkle tree is hashed behind:
/// a one byte and `SOLANA_MERKLE_SHREDS_NODE`.
pub const NODE_PREFIX: [u8; 26] = [
    1, 83, 79, 76, 65, 78, 65, 95, 77, 69, 82, 75, 76, 69, 95, 83, 72, 82, 69, 68, 83, 95, 78, 79,
    68, 69,
];

#[derive(Debug, Clone, Copy)]
pub struct DataShred<'a> {
    pub slot: u64,
    pub index: u32,
    pub fec_set_index: u32,
    pub data_complete: bool,
    /// Set on the shred that closes the slot, which also closes its batch.
    pub last_in_slot: bool,
    /// How far into the slot the leader was, in ticks.
    pub reference_tick: u8,
    /// Entry bytes carried by this shred.
    pub data: &'a [u8],
    /// The slice erasure coding is computed over, needed to recover siblings.
    /// For a recovered shred this is the whole body.
    pub shard: &'a [u8],
}

#[derive(Debug, Clone, Copy)]
pub struct CodingShred<'a> {
    pub slot: u64,
    pub fec_set_index: u32,
    pub num_data: usize,
    pub num_coding: usize,
    pub position: usize,
    pub shard: &'a [u8],
}

#[derive(Debug, Clone, Copy)]
pub enum Shred<'a> {
    Data(DataShred<'a>),
    Coding(CodingShred<'a>),
}

/// What a leader's signature on a shred is made over, and the signature.
#[derive(Debug, Clone, Copy)]
pub struct Signed<'a> {
    /// Merkle root of the erasure batch, rebuilt from the shred's own bytes.
    pub root: [u8; 32],
    pub signature: &'a [u8],
}

/// A data shred, its slices taken as byte sequences.
#[verifier::ext_equal]
pub struct DataView {
    pub slot: u64,
    pub index: u32,
    pub fec_set_index: u32,
    pub data_complete: bool,
    pub last_in_slot: bool,
    pub reference_tick: u8,
    pub data: Seq<u8>,
    pub shard: Seq<u8>,
}

/// A coding shred, its slice taken as a byte sequence.
#[verifier::ext_equal]
pub struct CodingView {
    pub slot: u64,
    pub fec_set_index: u32,
    pub num_data: usize,
    pub num_coding: usize,
    pub position: usize,
    pub shard: Seq<u8>,
}

pub enum ShredView {
    Data(DataView),
    Coding(CodingView),
}

impl<'a> View for DataShred<'a> {
    type V = DataView;

    open spec fn view(&self) -> DataView {
        DataView {
            slot: self.slot,
            index: self.index,
            fec_set_index: self.fec_set_index,
            data_complete: self.data_complete,
            last_in_slot: self.last_in_slot,
            reference_tick: self.reference_tick,
            data: self.data@,
            shard: self.shard@,
        }
    }
}

impl<'a> View for CodingShred<'a> {
    type V = CodingView;

    open spec fn view(&self) -> CodingView {
        CodingView {
            slot: self.slot,
            fec_set_index: self.fec_set_index,
            num_data: self.num_data,
            num_coding: self.num_coding,
            position: self.position,
            shard: self.shard@,
        }
    }
}

impl<'a> View for Shred<'a> {
    type V = ShredView;

    open spec fn view(&self) -> ShredView {
        match self {
            Shred::Data(shred) => ShredView::Data(shred@),
            Shred::Coding(shred) => ShredView::Coding(shred@),
        }
    }
}

impl ShredView {
    pub open spec fn slot(self) -> u64 {
        match self {
            ShredView::Data(shred) => shred.slot,
            ShredView::Coding(shred) => shred.slot,
        }
    }
}

/// The little-endian number written in `width` bytes at `at`.
pub open spec fn little_endian(bytes: Seq<u8>, at: int, width: nat) -> nat
    decreases width,
{
    if width == 0 {
        0
    } else {
        bytes[at] as nat + 256 * little_endian(bytes, at + 1, (width - 1) as nat)
    }
}

/// Whether the variant byte is that of a resigned shred, which carries a
/// retransmitter signature at its end.
pub open spec fn resigned(variant: u8) -> bool {
    variant / 16 == 0x7 || variant / 16 == 0xb
}

/// Bytes of a packet given to the Merkle proof and whatever follows it. The low
/// nibble of the variant is the number of proof entries.
pub open spec fn proof_tail(variant: u8) -> int {
    PROOF_ENTRY * (variant % 16) + if resigned(variant) {
        SIGNATURE as int
    } else {
        0
    }
}

/// Size of the erasure coded slice of a shred of this variant.
pub open spec fn shard_size(variant: u8) -> int {
    MAX_SHARD - proof_tail(variant)
}

pub open spec fn is_data_variant(variant: u8) -> bool {
    variant / 16 == 0x9 || variant / 16 == 0xb
}

pub open spec fn is_coding_variant(variant: u8) -> bool {
    variant / 16 == 0x6 || variant / 16 == 0x7
}

/// Whether the body carries the cluster's shred version.
pub open spec fn version_is(body: Seq<u8>, shred_version: u16) -> bool {
    body.len() >= VERSION + 2 && little_endian(body, VERSION as int, 2) == shred_version
}

/// Where the entry bytes of a data shred end in its body. The wire counts from
/// the start of the payload, signature included.
pub open spec fn data_end(body: Seq<u8>) -> int {
    little_endian(body, DATA_SIZE as int, 2) - SIGNATURE
}

/// Whether a body is a data shred the sniper takes.
pub open spec fn is_data(body: Seq<u8>, shred_version: u16) -> bool {
    &&& version_is(body, shred_version)
    &&& body.len() >= shard_size(body[0])
    &&& DATA_HEADERS <= data_end(body) <= shard_size(body[0])
    &&& little_endian(body, INDEX as int, 4) < MAX_SHREDS_PER_SLOT
    &&& little_endian(body, FEC_SET_INDEX as int, 4) <= little_endian(body, INDEX as int, 4)
}

/// The fields of a data shred body.
pub open spec fn data_fields(body: Seq<u8>) -> DataView {
    let flags = body[DATA_FLAGS as int];
    DataView {
        slot: little_endian(body, SLOT as int, 8) as u64,
        index: little_endian(body, INDEX as int, 4) as u32,
        fec_set_index: little_endian(body, FEC_SET_INDEX as int, 4) as u32,
        data_complete: (flags / 64) % 2 == 1,
        last_in_slot: flags / 64 == 3,
        reference_tick: flags % 64,
        data: body.subrange(DATA_HEADERS as int, data_end(body)),
        shard: body.take(shard_size(body[0])),
    }
}

/// Whether a body is a coding shred the sniper takes.
pub open spec fn is_coding(body: Seq<u8>, shred_version: u16) -> bool {
    &&& version_is(body, shred_version)
    &&& body.len() >= CODE_HEADERS + shard_size(body[0])
    &&& little_endian(body, FEC_SET_INDEX as int, 4) < MAX_SHREDS_PER_SLOT
}

/// The fields of a coding shred body.
pub open spec fn coding_fields(body: Seq<u8>) -> CodingView {
    CodingView {
        slot: little_endian(body, SLOT as int, 8) as u64,
        fec_set_index: little_endian(body, FEC_SET_INDEX as int, 4) as u32,
        num_data: little_endian(body, CODE_NUM_DATA as int, 2) as usize,
        num_coding: little_endian(body, CODE_NUM_CODING as int, 2) as usize,
        position: little_endian(body, CODE_POSITION as int, 2) as usize,
        shard: body.subrange(CODE_HEADERS as int, CODE_HEADERS + shard_size(body[0])),
    }
}

/// The shred a packet holds, if it holds one.
pub open spec fn parsed(packet: Seq<u8>, shred_version: u16) -> Option<ShredView> {
    let body = packet.skip(SIGNATURE as int);
    if packet.len() <= SIGNATURE {
        None
    } else if is_data_variant(body[0]) && is_data(body, shred_version) {
        Some(ShredView::Data(data_fields(body)))
    } else if is_coding_variant(body[0]) && is_coding(body, shred_version) {
        Some(ShredView::Coding(coding_fields(body)))
    } else {
        None
    }
}

/// What `solana_sha256_hasher` computes: the SHA-256 digest of a byte sequence.
pub uninterp spec fn sha256(bytes: Seq<u8>) -> Seq<u8>;

/// Bytes of a whole packet holding a shred of this variant.
pub open spec fn payload_size(variant: u8) -> int {
    if is_data_variant(variant) {
        DATA_PAYLOAD as int
    } else {
        CODE_PAYLOAD as int
    }
}

/// Where in its packet the Merkle proof of a shred of this variant begins.
/// Everything between the signature and here is what the leaf is made over.
pub open spec fn proof_start(variant: u8) -> int {
    payload_size(variant) - proof_tail(variant)
}

/// `at`, or the end of the packet where that comes first.
pub open spec fn within(packet: Seq<u8>, at: int) -> int {
    if at <= packet.len() {
        at
    } else {
        packet.len() as int
    }
}

/// The proof bytes a packet holds, which are fewer than its variant promises
/// when the packet was cut short.
pub open spec fn proof_bytes(packet: Seq<u8>) -> Seq<u8> {
    let variant = packet[SIGNATURE as int];
    let from = proof_start(variant);
    packet.subrange(within(packet, from), within(packet, from + PROOF_ENTRY * (variant % 16)))
}

/// Where a shred stands among the leaves of its erasure batch's Merkle tree:
/// data shreds first, in index order, then coding shreds.
pub open spec fn leaf_index(shred: ShredView) -> nat {
    match shred {
        ShredView::Data(shred) => (shred.index - shred.fec_set_index) as nat,
        ShredView::Coding(shred) => (shred.num_data + shred.position) as nat,
    }
}

pub open spec fn leaf_node(packet: Seq<u8>) -> Seq<u8> {
    let covered = packet.subrange(
        SIGNATURE as int,
        within(packet, proof_start(packet[SIGNATURE as int])),
    );
    sha256(LEAF_PREFIX@ + covered)
}

/// The parent of two siblings, of which only the first bytes are hashed.
pub open spec fn parent_node(left: Seq<u8>, right: Seq<u8>) -> Seq<u8> {
    sha256(NODE_PREFIX@ + left.take(PROOF_ENTRY as int) + right.take(PROOF_ENTRY as int))
}

/// The root reached from `node`, the `index`-th of its level, by joining it with
/// each sibling the proof holds in turn.
pub open spec fn climb(node: Seq<u8>, index: nat, proof: Seq<u8>) -> Seq<u8>
    decreases proof.len(),
{
    if proof.len() < PROOF_ENTRY {
        node
    } else {
        let parent = if index % 2 == 0 {
            parent_node(node, proof)
        } else {
            parent_node(proof, node)
        };
        climb(parent, index / 2, proof.skip(PROOF_ENTRY as int))
    }
}

/// The Merkle root a packet holding `shred` hashes to.
pub open spec fn merkle_root(packet: Seq<u8>, shred: ShredView) -> Seq<u8> {
    climb(leaf_node(packet), leaf_index(shred), proof_bytes(packet))
}

/// Reading two to eight bytes one at a time gives their little-endian number,
/// and it fits the integer of that width.
proof fn lemma_little_endian(bytes: Seq<u8>, at: int)
    ensures
        little_endian(bytes, at, 2) == bytes[at] + 256 * bytes[at + 1],
        little_endian(bytes, at, 4) == bytes[at] + 256 * bytes[at + 1] + 65_536 * bytes[at + 2]
            + 16_777_216 * bytes[at + 3],
        little_endian(bytes, at, 8) == little_endian(bytes, at, 4) + 4_294_967_296 * little_endian(
            bytes,
            at + 4,
            4,
        ),
        little_endian(bytes, at, 4) <= u32::MAX,
        little_endian(bytes, at, 8) <= u64::MAX,
{
    reveal_with_fuel(little_endian, 9);
}

/// A number read from the front of a body does not change when the body is cut
/// short behind it.
proof fn lemma_little_endian_take(bytes: Seq<u8>, len: int, at: int, width: nat)
    requires
        0 <= at,
        at + width <= len <= bytes.len(),
    ensures
        little_endian(bytes.take(len), at, width) == little_endian(bytes, at, width),
    decreases width,
{
    if width > 0 {
        lemma_little_endian_take(bytes, len, at + 1, (width - 1) as nat);
    }
}

/// Nor does it when more bytes follow.
pub proof fn lemma_little_endian_front(bytes: Seq<u8>, more: Seq<u8>, at: int, width: nat)
    requires
        0 <= at,
        at + width <= bytes.len(),
    ensures
        little_endian(bytes + more, at, width) == little_endian(bytes, at, width),
    decreases width,
{
    if width > 0 {
        lemma_little_endian_front(bytes, more, at + 1, (width - 1) as nat);
    }
}

/// A body truncated to its erasure shard, which is all that recovery rebuilds,
/// reads as the very same data shred as the whole body.
pub proof fn a_shard_reads_like_its_body(body: Seq<u8>, shred_version: u16)
    requires
        is_data(body, shred_version),
    ensures
        is_data(data_fields(body).shard, shred_version),
        data_fields(data_fields(body).shard) == data_fields(body),
{
    let len = shard_size(body[0]);
    let shard = body.take(len);
    assert(shard[0] == body[0]);
    lemma_little_endian_take(body, len, VERSION as int, 2);
    lemma_little_endian_take(body, len, DATA_SIZE as int, 2);
    lemma_little_endian_take(body, len, SLOT as int, 8);
    lemma_little_endian_take(body, len, INDEX as int, 4);
    lemma_little_endian_take(body, len, FEC_SET_INDEX as int, 4);
    assert(data_fields(shard) =~= data_fields(body));
}

/// A packet is a shred of one cluster at most: what parses under one version
/// parses under no other.
pub proof fn a_foreign_version_is_rejected(packet: Seq<u8>, shred_version: u16, other: u16)
    requires
        parsed(packet, shred_version) is Some,
        other != shred_version,
    ensures
        parsed(packet, other) is None,
{
}

/// Whatever parses is bounded: a data shred's index is one a leader could have
/// used and lies in the erasure batch it names, and no shred carries more than
/// a shard.
pub proof fn parsed_shreds_are_bounded(packet: Seq<u8>, shred_version: u16)
    ensures
        parsed(packet, shred_version) matches Some(shred) ==> match shred {
            ShredView::Data(shred) => {
                &&& shred.fec_set_index <= shred.index < MAX_SHREDS_PER_SLOT
                &&& shred.data.len() + DATA_HEADERS <= shred.shard.len() <= MAX_SHARD
            },
            ShredView::Coding(shred) => {
                &&& shred.fec_set_index < MAX_SHREDS_PER_SLOT
                &&& DATA_HEADERS < shred.shard.len() <= MAX_SHARD
            },
        },
{
}

pub fn parse<'a>(packet: &'a [u8], shred_version: u16) -> (shred: Option<Shred<'a>>)
    ensures
        shred is Some <==> parsed(packet@, shred_version) is Some,
        shred matches Some(shred) ==> parsed(packet@, shred_version) == Some(shred@),
{
    if packet.len() <= SIGNATURE {
        return None;
    }
    let body = slice_subrange(packet, SIGNATURE, packet.len());
    assert(body@ =~= packet@.skip(SIGNATURE as int));
    let kind: u8 = body[0] / 16;
    if kind == 0x9 || kind == 0xb {
        match parse_data(body, shred_version) {
            Some(shred) => Some(Shred::Data(shred)),
            None => None,
        }
    } else if kind == 0x6 || kind == 0x7 {
        match parse_coding(body, shred_version) {
            Some(shred) => Some(Shred::Coding(shred)),
            None => None,
        }
    } else {
        None
    }
}

/// The version an entrypoint answers with, if it has one. A real shred version is
/// never zero, so zero means the entrypoint has not worked its own out yet.
/// Carrying on would filter out every shred there is.
pub fn announced(shred_version: u16) -> (announced: Option<u16>)
    ensures
        announced == if shred_version == 0 {
            None
        } else {
            Some(shred_version)
        },
{
    if shred_version == 0 {
        None
    } else {
        Some(shred_version)
    }
}

/// Shreds of another cluster, or of another fork of ours, carry a different
/// version. Dropping them costs nothing and keeps foreign traffic out of the
/// buffers. Nothing signs the field, so this is hygiene, not authentication:
/// it filters misdirected traffic, not an adversary who knows we are here.
pub fn version_matches(body: &[u8], shred_version: u16) -> (matches: bool)
    ensures
        matches == version_is(body@, shred_version),
{
    match read_u16(body, VERSION) {
        Some(version) => version == shred_version as usize,
        None => false,
    }
}

/// Parses a data shred body. Recovered shreds are bodies truncated to their
/// erasure shard, which is why nothing past `shard` is required.
pub fn parse_data<'a>(body: &'a [u8], shred_version: u16) -> (shred: Option<DataShred<'a>>)
    ensures
        shred is Some <==> is_data(body@, shred_version),
        shred matches Some(shred) ==> shred@ == data_fields(body@),
{
    if !version_matches(body, shred_version) {
        return None;
    }
    let shard_len: usize = shard_len(body[0])?;
    if body.len() < shard_len {
        return None;
    }
    let shard = slice_subrange(body, 0, shard_len);

    // The size on the wire is an offset into the payload, not the body.
    let size: usize = read_u16(body, DATA_SIZE)?;
    if size < SIGNATURE + DATA_HEADERS || size - SIGNATURE > shard_len {
        return None;
    }
    let end: usize = size - SIGNATURE;

    // A shred belongs to the erasure batch it opens or a later one, never an
    // earlier one, and recovery indexes shards by the difference.
    let index: u32 = read_u32(body, INDEX)?;
    if index >= MAX_SHREDS_PER_SLOT {
        return None;
    }
    let fec_set_index: u32 = read_u32(body, FEC_SET_INDEX)?;
    if fec_set_index > index {
        return None;
    }
    let flags: u8 = body[DATA_FLAGS];
    let data = slice_subrange(shard, DATA_HEADERS, end);
    proof {
        assert(data@ =~= body@.subrange(DATA_HEADERS as int, data_end(body@)));
        assert(shard@ =~= body@.take(shard_size(body@[0])));
    }
    Some(
        DataShred {
            slot: read_u64(body, SLOT)?,
            index,
            fec_set_index,
            data_complete: (flags / 64) % 2 == 1,
            last_in_slot: flags / 64 == 3,
            reference_tick: flags % 64,
            data,
            shard,
        },
    )
}

pub fn parse_coding<'a>(body: &'a [u8], shred_version: u16) -> (shred: Option<CodingShred<'a>>)
    ensures
        shred is Some <==> is_coding(body@, shred_version),
        shred matches Some(shred) ==> shred@ == coding_fields(body@),
{
    if !version_matches(body, shred_version) {
        return None;
    }
    let shard_len: usize = shard_len(body[0])?;
    if body.len() < CODE_HEADERS + shard_len {
        return None;
    }
    let shard = slice_subrange(body, CODE_HEADERS, CODE_HEADERS + shard_len);
    let fec_set_index: u32 = read_u32(body, FEC_SET_INDEX)?;
    if fec_set_index >= MAX_SHREDS_PER_SLOT {
        return None;
    }
    Some(
        CodingShred {
            slot: read_u64(body, SLOT)?,
            fec_set_index,
            num_data: read_u16(body, CODE_NUM_DATA)?,
            num_coding: read_u16(body, CODE_NUM_CODING)?,
            position: read_u16(body, CODE_POSITION)?,
            shard,
        },
    )
}

/// Size of the erasure coded slice, which is the same for data and coding
/// shreds of one batch. The low nibble of the variant is the Merkle proof
/// length; resigned shreds also carry a retransmitter signature at the end.
pub fn shard_len(variant: u8) -> (len: Option<usize>)
    ensures
        len == Some(shard_size(variant) as usize),
        DATA_HEADERS < shard_size(variant) <= MAX_SHARD,
{
    let proof_len: usize = PROOF_ENTRY * (variant % 16) as usize;
    let resigned_len: usize = if variant / 16 == 0x7 || variant / 16 == 0xb {
        SIGNATURE
    } else {
        0
    };
    let len: usize = MAX_SHARD.checked_sub(proof_len + resigned_len)?;
    if len > DATA_HEADERS {
        Some(len)
    } else {
        None
    }
}

/// Two little-endian bytes at `offset`.
pub fn read_u16(body: &[u8], offset: usize) -> (value: Option<usize>)
    requires
        offset + 2 <= usize::MAX,
    ensures
        value is Some <==> body@.len() >= offset + 2,
        value matches Some(value) ==> value == little_endian(body@, offset as int, 2),
        value matches Some(value) ==> value <= u16::MAX,
{
    if body.len() < offset + 2 {
        return None;
    }
    proof {
        lemma_little_endian(body@, offset as int);
    }
    Some(body[offset] as usize + 256 * body[offset + 1] as usize)
}

/// Four little-endian bytes at `offset`.
pub fn read_u32(body: &[u8], offset: usize) -> (value: Option<u32>)
    requires
        offset + 4 <= usize::MAX,
    ensures
        value is Some <==> body@.len() >= offset + 4,
        value matches Some(value) ==> value == little_endian(body@, offset as int, 4),
{
    if body.len() < offset + 4 {
        return None;
    }
    proof {
        lemma_little_endian(body@, offset as int);
    }
    Some(
        body[offset] as u32 + 256 * body[offset + 1] as u32 + 65_536 * body[offset + 2] as u32
            + 16_777_216 * body[offset + 3] as u32,
    )
}

/// Eight little-endian bytes at `offset`.
pub fn read_u64(body: &[u8], offset: usize) -> (value: Option<u64>)
    requires
        offset + 8 <= usize::MAX,
    ensures
        value is Some <==> body@.len() >= offset + 8,
        value matches Some(value) ==> value == little_endian(body@, offset as int, 8),
{
    if body.len() < offset + 8 {
        return None;
    }
    proof {
        lemma_little_endian(body@, offset as int);
    }
    let low: u32 = read_u32(body, offset)?;
    let high: u32 = read_u32(body, offset + 4)?;
    Some(low as u64 + 4_294_967_296 * high as u64)
}

/// Calls `solana_sha256_hasher::hashv`, which hashes the three slices as one
/// byte string, each right behind the one before.
#[verifier::external_body]
fn hash(prefix: &[u8], first: &[u8], second: &[u8]) -> (digest: [u8; 32])
    ensures
        digest@ == sha256(prefix@ + first@ + second@),
{
    solana_sha256_hasher::hashv(&[prefix, first, second]).to_bytes()
}

/// The Merkle root of the erasure batch a shred claims to belong to, and the
/// signature it carries over it. `None` for a packet that is no shred.
///
/// The root is rebuilt from the packet alone, so it is the leader's only if
/// every byte the leaf covers is. A packet cut short of its proof climbs as far
/// as the proof it still holds, which ends at some other root rather than at an
/// excuse not to be checked.
pub fn signed<'a>(packet: &'a [u8], shred_version: u16) -> (signed: Option<Signed<'a>>)
    ensures
        signed is Some <==> parsed(packet@, shred_version) is Some,
        signed matches Some(signed) ==> {
            &&& signed.root@ == merkle_root(packet@, parsed(packet@, shred_version)->0)
            &&& signed.signature@ == packet@.take(SIGNATURE as int)
        },
{
    let shred = parse(packet, shred_version)?;
    let variant: u8 = packet[SIGNATURE];
    proof {
        let body = packet@.skip(SIGNATURE as int);
        assert(body[0] == variant);
        lemma_little_endian(body, CODE_NUM_DATA as int);
        lemma_little_endian(body, CODE_POSITION as int);
    }
    let mut index: u32 = match shred {
        Shred::Data(shred) => shred.index - shred.fec_set_index,
        Shred::Coding(shred) => shred.num_data as u32 + shred.position as u32,
    };
    let proof_len: usize = PROOF_ENTRY * (variant % 16) as usize;
    let resigned_len: usize = if variant / 16 == 0x7 || variant / 16 == 0xb {
        SIGNATURE
    } else {
        0
    };
    let payload: usize = if variant / 16 == 0x9 || variant / 16 == 0xb {
        DATA_PAYLOAD
    } else {
        CODE_PAYLOAD
    };
    let start: usize = at_most(payload - proof_len - resigned_len, packet.len());
    let end: usize = at_most(payload - resigned_len, packet.len());
    let empty = slice_subrange(packet, 0, 0);
    let mut root = hash(
        LEAF_PREFIX.as_slice(),
        slice_subrange(packet, SIGNATURE, start),
        empty,
    );
    proof {
        let covered = packet@.subrange(SIGNATURE as int, start as int);
        assert(LEAF_PREFIX@ + covered + empty@ =~= LEAF_PREFIX@ + covered);
    }
    let mut at: usize = start;
    while PROOF_ENTRY <= end - at
        invariant
            at <= end <= packet.len(),
            climb(root@, index as nat, packet@.subrange(at as int, end as int)) == merkle_root(
                packet@,
                parsed(packet@, shred_version)->0,
            ),
        decreases end - at,
    {
        let ghost rest = packet@.subrange(at as int, end as int);
        let sibling = slice_subrange(packet, at, at + PROOF_ENTRY);
        let node = slice_subrange(root.as_slice(), 0, PROOF_ENTRY);
        proof {
            assert(sibling@ =~= rest.take(PROOF_ENTRY as int));
            assert(node@ =~= root@.take(PROOF_ENTRY as int));
            assert(packet@.subrange(at + PROOF_ENTRY, end as int) =~= rest.skip(
                PROOF_ENTRY as int,
            ));
        }
        root =
        if index % 2 == 0 {
            hash(NODE_PREFIX.as_slice(), node, sibling)
        } else {
            hash(NODE_PREFIX.as_slice(), sibling, node)
        };
        index = index / 2;
        at = at + PROOF_ENTRY;
    }
    Some(Signed { root, signature: slice_subrange(packet, 0, SIGNATURE) })
}

fn at_most(value: usize, limit: usize) -> (least: usize)
    ensures
        least == if value <= limit {
            value
        } else {
            limit
        },
{
    if value <= limit {
        value
    } else {
        limit
    }
}

/// The numbers that two, four and eight bytes spell, the lowest first.
pub open spec fn two_at(bytes: Seq<u8>, at: int) -> int {
    bytes[at] + 256 * bytes[at + 1]
}

pub open spec fn four_at(bytes: Seq<u8>, at: int) -> int {
    two_at(bytes, at) + 65_536 * two_at(bytes, at + 2)
}

pub open spec fn eight_at(bytes: Seq<u8>, at: int) -> int {
    four_at(bytes, at) + 4_294_967_296 * four_at(bytes, at + 4)
}

/// Bytes that follow the part of a packet its root is signed over: twenty for each
/// step of the proof, and a retransmitter's signature where there is one.
pub open spec fn unsigned_tail(variant: u8) -> int {
    20 * (variant % 16) + if variant / 16 == 7 || variant / 16 == 11 {
        64int
    } else {
        0
    }
}

/// What the bytes of a packet are read as.
#[verifier::spinoff_prover]
#[verifier::rlimit(60)]
proof fn lemma_fields(packet: Seq<u8>)
    requires
        packet.len() > 64 + 25,
    ensures
        ({
            let body = packet.skip(64);
            &&& body[0] == packet[64]
            &&& little_endian(body, 13, 2) == two_at(packet, 77)
            &&& little_endian(body, 22, 2) == two_at(packet, 86)
            &&& little_endian(body, 9, 4) == four_at(packet, 73)
            &&& little_endian(body, 15, 4) == four_at(packet, 79)
            &&& little_endian(body, 1, 8) == eight_at(packet, 65)
            &&& little_endian(body, 19, 2) == two_at(packet, 83)
            &&& little_endian(body, 21, 2) == two_at(packet, 85)
            &&& little_endian(body, 23, 2) == two_at(packet, 87)
            &&& four_at(packet, 73) <= u32::MAX
            &&& four_at(packet, 79) <= u32::MAX
            &&& eight_at(packet, 65) <= u64::MAX
        }),
{
    let body = packet.skip(64);
    lemma_little_endian(body, 13);
    lemma_little_endian(body, 22);
    lemma_little_endian(body, 9);
    lemma_little_endian(body, 15);
    lemma_little_endian(body, 1);
    lemma_little_endian(body, 5);
    lemma_little_endian(body, 19);
    lemma_little_endian(body, 21);
    lemma_little_endian(body, 23);
    assert(forall|i: int| 0 <= i < 25 ==> #[trigger] body[i] == packet[64 + i]);
}

/// A data shred is read from where a leader writes it. Behind the signature of 64
/// bytes come a byte for the variant, eight for the slot, four for the index, two
/// for the version, four for the erasure batch, two for the parent and one of
/// flags; then two that say where in the packet the entries, which follow, end. A
/// packet that holds all that, and nothing out of bounds, is a data shred; one of
/// that variant that does not is none.
#[verifier::spinoff_prover]
#[verifier::rlimit(60)]
pub proof fn a_data_shred_is_read_as_it_is_written(packet: Seq<u8>, shred_version: u16)
    requires
        packet.len() > 64,
        packet[64] / 16 == 9 || packet[64] / 16 == 11,
    ensures
        ({
            let room = 1107 - unsigned_tail(packet[64]);
            let well_written = {
                &&& packet.len() >= 64 + room
                &&& two_at(packet, 77) == shred_version
                &&& 88 <= two_at(packet, 86) <= 64 + room
                &&& four_at(packet, 73) < 32_768
                &&& four_at(packet, 79) <= four_at(packet, 73)
            };
            match parsed(packet, shred_version) {
                Some(ShredView::Data(shred)) => {
                    &&& well_written
                    &&& shred.slot == eight_at(packet, 65)
                    &&& shred.index == four_at(packet, 73)
                    &&& shred.fec_set_index == four_at(packet, 79)
                    &&& shred.data_complete == ((packet[85] / 64) % 2 == 1)
                    &&& shred.last_in_slot == (packet[85] >= 192)
                    &&& shred.reference_tick == packet[85] % 64
                    &&& shred.data == packet.subrange(88, two_at(packet, 86))
                    &&& shred.shard == packet.subrange(64, 64 + room)
                },
                Some(ShredView::Coding(_)) => false,
                None => !well_written,
            }
        }),
{
    let room = 1107 - unsigned_tail(packet[64]);
    let body = packet.skip(64);
    assert(body[0] == packet[64]);
    assert(shard_size(body[0]) == room);
    if packet.len() >= 64 + room {
        lemma_fields(packet);
        assert(body[21] == packet[85]);
        assert(body.take(room) =~= packet.subrange(64, 64 + room));
        let end = two_at(packet, 86);
        if 88 <= end <= 64 + room {
            assert(body.subrange(24, end - 64) =~= packet.subrange(88, end));
        }
    }
}

/// A coding shred is read from where a leader writes it: behind what all shreds
/// begin with come how many data and how many coding shreds its batch has and
/// which of the latter it is, two bytes each, and then its shard.
pub proof fn a_coding_shred_is_read_as_it_is_written(packet: Seq<u8>, shred_version: u16)
    requires
        packet.len() > 64,
        packet[64] / 16 == 6 || packet[64] / 16 == 7,
    ensures
        ({
            let room = 1107 - unsigned_tail(packet[64]);
            let well_written = {
                &&& packet.len() >= 89 + room
                &&& two_at(packet, 77) == shred_version
                &&& four_at(packet, 79) < 32_768
            };
            match parsed(packet, shred_version) {
                Some(ShredView::Coding(shred)) => {
                    &&& well_written
                    &&& shred.slot == eight_at(packet, 65)
                    &&& shred.fec_set_index == four_at(packet, 79)
                    &&& shred.num_data == two_at(packet, 83)
                    &&& shred.num_coding == two_at(packet, 85)
                    &&& shred.position == two_at(packet, 87)
                    &&& shred.shard == packet.subrange(89, 89 + room)
                },
                Some(ShredView::Data(_)) => false,
                None => !well_written,
            }
        }),
{
    let room = 1107 - unsigned_tail(packet[64]);
    let body = packet.skip(64);
    assert(body[0] == packet[64]);
    assert(shard_size(body[0]) == room);
    if packet.len() >= 89 + room {
        lemma_fields(packet);
        assert(body.subrange(25, 25 + room) =~= packet.subrange(89, 89 + room));
    }
}

/// Nothing else is a shred.
pub proof fn other_packets_are_no_shreds(packet: Seq<u8>, shred_version: u16)
    requires
        packet.len() <= 64 || !(packet[64] / 16 == 6 || packet[64] / 16 == 7 || packet[64] / 16 == 9
            || packet[64] / 16 == 11),
    ensures
        parsed(packet, shred_version) is None,
{
    if packet.len() > 64 {
        assert(packet.skip(64)[0] == packet[64]);
    }
}

/// The parts of a shred fill its packet: the signature, for a coding shred its
/// headers of 25 bytes, the shard, a root of 32 bytes, the proof at twenty bytes a
/// step, and a retransmitter's signature where the variant says there is one. So
/// what the leaf covers ends, and the proof begins, 32 bytes behind the shard.
pub proof fn the_parts_of_a_shred_fill_its_packet(packet: Seq<u8>, shred_version: u16)
    ensures
        match parsed(packet, shred_version) {
            Some(ShredView::Data(shred)) => {
                &&& 64 + shred.shard.len() + 32 + unsigned_tail(packet[64]) == 1203
                &&& proof_start(packet[64]) == 64 + shred.shard.len() + 32
            },
            Some(ShredView::Coding(shred)) => {
                &&& 64 + 25 + shred.shard.len() + 32 + unsigned_tail(packet[64]) == 1228
                &&& proof_start(packet[64]) == 64 + 25 + shred.shard.len() + 32
            },
            None => true,
        },
{
    if packet.len() > 64 {
        assert(packet.skip(64)[0] == packet[64]);
    }
}

/// Whether `nodes` lead from the leaf a packet hashes to up to its root, one step
/// of the proof after the other: `at[i]` is where the node of level `i` stands
/// among those of its level, its sibling the `i`-th of the proof, which begins at
/// `from`. Even nodes stand left of their sibling and odd ones right, and of both
/// the first twenty bytes are hashed.
pub open spec fn leads_up(
    packet: Seq<u8>,
    from: int,
    at: Seq<nat>,
    nodes: Seq<Seq<u8>>,
    steps: int,
) -> bool {
    &&& nodes.len() == steps + 1
    &&& at.len() == steps + 1
    &&& nodes[0] == sha256(
        seq![
            0u8, 83, 79, 76, 65, 78, 65, 95, 77, 69, 82, 75, 76, 69, 95, 83, 72, 82, 69, 68, 83, 95,
            76, 69, 65, 70,
        ] + packet.subrange(64, from),
    )
    &&& forall|i: int| #![trigger nodes[i]]
        0 < i <= steps ==> {
            let sibling = packet.subrange(from + 20 * (i - 1), from + 20 * i);
            let node = nodes[i - 1].take(20);
            &&& at[i] == at[i - 1] / 2
            &&& nodes[i] == sha256(
                seq![
                    1u8, 83, 79, 76, 65, 78, 65, 95, 77, 69, 82, 75, 76, 69, 95, 83, 72, 82, 69, 68,
                    83, 95, 78, 79, 68, 69,
                ] + if at[i - 1] % 2 == 0 {
                    node + sibling
                } else {
                    sibling + node
                },
            )
        }
}

#[verifier::spinoff_prover]
#[verifier::rlimit(60)]
proof fn lemma_leads_up(
    packet: Seq<u8>,
    from: int,
    at: Seq<nat>,
    nodes: Seq<Seq<u8>>,
    steps: int,
    level: int,
)
    requires
        leads_up(packet, from, at, nodes, steps),
        0 <= level <= steps,
        0 <= from,
        from + 20 * steps <= packet.len(),
    ensures
        climb(
            nodes[level],
            at[level],
            packet.subrange(from + 20 * level, from + 20 * steps),
        ) == nodes[steps],
    decreases steps - level,
{
    let rest = packet.subrange(from + 20 * level, from + 20 * steps);
    if level < steps {
        lemma_leads_up(packet, from, at, nodes, steps, level + 1);
        let sibling = packet.subrange(from + 20 * level, from + 20 * (level + 1));
        let node = nodes[level].take(20);
        assert(rest.take(20) =~= sibling);
        assert(rest.skip(20) =~= packet.subrange(from + 20 * (level + 1), from + 20 * steps));
        assert(nodes[level + 1] == if at[level] % 2 == 0 {
            parent_node(nodes[level], rest)
        } else {
            parent_node(rest, nodes[level])
        }) by {
            let prefix = seq![
                1u8, 83, 79, 76, 65, 78, 65, 95, 77, 69, 82, 75, 76, 69, 95, 83, 72, 82, 69, 68, 83,
                95, 78, 79, 68, 69,
            ];
            assert(NODE_PREFIX@ =~= prefix);
            assert(prefix + node + sibling =~= prefix + (node + sibling));
            assert(prefix + sibling + node =~= prefix + (sibling + node));
        }
    }
}

/// A shred hashes to the root its proof leads up to, from the leaf made over all
/// that stands between the signature and the proof. The proof stands at the end of
/// the packet, in front of the retransmitter's signature where there is one, and
/// begins with the sibling of the leaf: data shreds are the first leaves, in order
/// of their index, and coding shreds follow.
#[verifier::spinoff_prover]
#[verifier::rlimit(60)]
pub proof fn a_shred_hashes_to_the_root_its_proof_leads_to(
    packet: Seq<u8>,
    shred_version: u16,
    shred: ShredView,
    at: Seq<nat>,
    nodes: Seq<Seq<u8>>,
)
    requires
        parsed(packet, shred_version) == Some(shred),
        packet.len() >= if shred is Data {
            1203int
        } else {
            1228
        },
        ({
            let whole: int = if shred is Data {
                1203
            } else {
                1228
            };
            leads_up(
                packet,
                whole - unsigned_tail(packet[64]),
                at,
                nodes,
                (packet[64] % 16) as int,
            )
        }),
        at[0] == match shred {
            ShredView::Data(shred) => shred.index - shred.fec_set_index,
            ShredView::Coding(shred) => shred.num_data + shred.position,
        },
    ensures
        merkle_root(packet, shred) == nodes.last(),
{
    let whole: int = if shred is Data {
        1203
    } else {
        1228
    };
    let from = whole - unsigned_tail(packet[64]);
    let steps = (packet[64] % 16) as int;
    assert(packet.skip(64)[0] == packet[64]);
    assert(LEAF_PREFIX@ =~= seq![
        0u8, 83, 79, 76, 65, 78, 65, 95, 77, 69, 82, 75, 76, 69, 95, 83, 72, 82, 69, 68, 83, 95, 76,
        69, 65, 70,
    ]);
    lemma_leads_up(packet, from, at, nodes, steps, 0);
    assert(leaf_node(packet) == nodes[0]);
    assert(proof_bytes(packet) =~= packet.subrange(from + 20 * 0, from + 20 * steps));
}

/// A retransmitter's signature is no part of what the leader signed: whatever
/// stands in its place, and behind it, a resigned shred is the same shred and
/// hashes to the same root.
#[verifier::spinoff_prover]
#[verifier::rlimit(60)]
pub proof fn a_retransmitter_changes_no_root(
    packet: Seq<u8>,
    other: Seq<u8>,
    shred_version: u16,
    shred: ShredView,
)
    requires
        parsed(packet, shred_version) == Some(shred),
        packet[64] / 16 == 7 || packet[64] / 16 == 11,
        ({
            let signed: int = if shred is Data {
                1203 - 64
            } else {
                1228 - 64
            };
            &&& packet.len() >= signed
            &&& other.len() >= signed
            &&& packet.take(signed) == other.take(signed)
        }),
    ensures
        parsed(other, shred_version) == Some(shred),
        merkle_root(other, shred) == merkle_root(packet, shred),
{
    let signed: int = if shred is Data {
        1203 - 64
    } else {
        1228 - 64
    };
    assert(forall|i: int|
        0 <= i < signed ==> #[trigger] packet[i] == packet.take(signed)[i] && other[i]
            == other.take(signed)[i]);
    let (body, theirs) = (packet.skip(64), other.skip(64));
    assert(body[0] == packet[64] && theirs[0] == other[64]);
    assert(packet[64] == other[64]);
    lemma_fields(packet);
    lemma_fields(other);
    assert(forall|i: int| 0 <= i < signed - 64 ==> #[trigger] body[i] == theirs[i]);
    let room = 1107 - unsigned_tail(packet[64]);
    if shred is Data {
        let end = two_at(packet, 86);
        assert(body.subrange(24, end - 64) =~= theirs.subrange(24, end - 64));
        assert(body.take(room) =~= theirs.take(room));
        assert(data_fields(theirs) =~= data_fields(body));
    } else {
        assert(body.subrange(25, 25 + room) =~= theirs.subrange(25, 25 + room));
        assert(coding_fields(theirs) =~= coding_fields(body));
    }
    let from = proof_start(packet[64]);
    let steps = (packet[64] % 16) as int;
    assert(packet.subrange(64, from) =~= other.subrange(64, from));
    assert(proof_bytes(packet) =~= proof_bytes(other));
}

/// What is signed of a shred is the root its proof leads up to, and the signature is
/// what it begins with.
pub proof fn what_is_signed_is_the_root(
    packet: &[u8],
    shred_version: u16,
    signed_: Option<Signed<'_>>,
    shred: ShredView,
    at: Seq<nat>,
    nodes: Seq<Seq<u8>>,
)
    requires
        call_ensures(signed, (packet, shred_version), signed_),
        parsed(packet@, shred_version) == Some(shred),
        packet@.len() >= if shred is Data {
            1203int
        } else {
            1228
        },
        ({
            let whole: int = if shred is Data {
                1203
            } else {
                1228
            };
            leads_up(
                packet@,
                whole - unsigned_tail(packet@[64]),
                at,
                nodes,
                (packet@[64] % 16) as int,
            )
        }),
        at[0] == match shred {
            ShredView::Data(shred) => shred.index - shred.fec_set_index,
            ShredView::Coding(shred) => shred.num_data + shred.position,
        },
    ensures
        signed_ matches Some(signed_) && signed_.root@ == nodes.last() && signed_.signature@
            == packet@.take(64),
{
    a_shred_hashes_to_the_root_its_proof_leads_to(packet@, shred_version, shred, at, nodes);
}

/// Every version but zero is one an entrypoint can have.
pub proof fn no_version_is_zero(shred_version: u16, version: Option<u16>)
    requires
        call_ensures(announced, (shred_version,), version),
    ensures
        version is None <==> shred_version == 0,
        version matches Some(version) ==> version == shred_version,
{
}

/// A shred is read out of a packet just where the packet is one, and as what it is.
pub proof fn a_packet_is_read_as_the_shred_it_is(
    packet: &[u8],
    shred_version: u16,
    read: Option<Shred<'_>>,
)
    requires
        call_ensures(parse, (packet, shred_version), read),
    ensures
        read is Some <==> parsed(packet@, shred_version) is Some,
        read matches Some(shred) ==> parsed(packet@, shred_version) == Some(shred@),
{
}

} // verus!
