//! Entries as a leader writes them, and the part of them the sniper reads.

use crate::wire::Decoding::{Malformed, Short, Whole};
use bincode::ErrorKind::Io;
use solana_transaction::versioned::VersionedTransaction;
use solana_transaction::Address;
use std::io::Cursor;
use vstd::prelude::*;

verus! {

/// An entry in the form it is deserialized to.
type WireEntry = (u64, solana_hash::Hash, Vec<VersionedTransaction>);

/// A transaction, as far as the sniper looks at one.
pub struct Transaction {
    pub signatures: Vec<[u8; 64]>,
    /// Addresses the message itself lists. The first is the fee payer; what a
    /// lookup table would resolve is not here.
    pub account_keys: Vec<[u8; 32]>,
    /// Position among the accounts of the program each instruction calls.
    pub programs: Vec<u8>,
    /// Lookup tables the message refers to, where its version has any at all.
    pub lookups: Option<usize>,
}

/// A run of transactions the leader executed together, and the proof-of-history
/// hash it recorded them under.
pub struct Entry {
    pub num_hashes: u64,
    pub hash: [u8; 32],
    pub transactions: Vec<Transaction>,
}

#[verifier::ext_equal]
pub struct TransactionView {
    pub signatures: Seq<[u8; 64]>,
    pub account_keys: Seq<[u8; 32]>,
    pub programs: Seq<u8>,
    pub lookups: Option<usize>,
}

#[verifier::ext_equal]
pub struct EntryView {
    pub num_hashes: u64,
    pub hash: [u8; 32],
    pub transactions: Seq<TransactionView>,
}

impl View for Transaction {
    type V = TransactionView;

    open spec fn view(&self) -> TransactionView {
        TransactionView {
            signatures: self.signatures@,
            account_keys: self.account_keys@,
            programs: self.programs@,
            lookups: self.lookups,
        }
    }
}

impl View for Entry {
    type V = EntryView;

    open spec fn view(&self) -> EntryView {
        EntryView {
            num_hashes: self.num_hashes,
            hash: self.hash,
            transactions: self.transactions@.map_values(|transaction: Transaction| transaction@),
        }
    }
}

/// What the front of a run of bytes holds.
pub enum Decoding {
    /// A whole entry, and how many bytes it took.
    Whole(Entry, u64),
    /// The bytes end part way through an entry.
    Short,
    /// The bytes are no entry, and no more of them would make one.
    Malformed,
}

pub enum DecodingView {
    Whole(EntryView, nat),
    Short,
    Malformed,
}

impl View for Decoding {
    type V = DecodingView;

    open spec fn view(&self) -> DecodingView {
        match self {
            Decoding::Whole(entry, len) => DecodingView::Whole(entry@, *len as nat),
            Decoding::Short => DecodingView::Short,
            Decoding::Malformed => DecodingView::Malformed,
        }
    }
}

/// What `bincode` reads off the front of `bytes` as an entry.
pub uninterp spec fn entry_on_wire(bytes: Seq<u8>) -> DecodingView;

/// Whether more bytes behind `bytes` would change nothing about what their
/// front holds.
pub open spec fn settled(bytes: Seq<u8>) -> bool {
    forall|more: Seq<u8>| #[trigger] entry_on_wire(bytes + more) == entry_on_wire(bytes)
}

/// Calls `bincode::deserialize_from` on the wire form of an entry: a hash count,
/// a hash and its transactions, one behind the other.
///
/// The bytes are read front to back, so an entry takes no more bytes than there
/// are, and anything but running out of them — an entry, or bytes that are none
/// — is settled by the bytes read so far, whatever may follow. Running out is
/// the one way reading from memory fails, so that is what an I/O error means.
#[verifier::external_body]
pub(crate) fn read_entry(bytes: &[u8]) -> (read: Decoding)
    ensures
        read@ == entry_on_wire(bytes@),
        read matches Decoding::Whole(_, len) ==> len <= bytes@.len(),
        !(read is Short) ==> settled(bytes@),
{
    let mut cursor = Cursor::new(bytes);
    match bincode::deserialize_from::<_, WireEntry>(&mut cursor) {
        Ok((num_hashes, hash, signed)) => Whole(Entry {
            num_hashes,
            hash: hash.to_bytes(),
            transactions: signed.into_iter().map(|VersionedTransaction { signatures, message }| Transaction {
                signatures: signatures.into_iter().map(Into::into).collect(),
                account_keys: message.static_account_keys().iter().map(Address::to_bytes).collect(),
                programs: message.instructions().iter().map(|call| call.program_id_index).collect(),
                lookups: message.address_table_lookups().map(<[_]>::len),
            }).collect(),
        }, cursor.position()),
        Err(err) => match *err { Io(_) => Short, _ => Malformed },
    }
}

} // verus!
