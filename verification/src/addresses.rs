//! Sets of addresses, and how keys and signatures are written out.

use rustc_hash::FxHashSet;
use vstd::prelude::*;

verus! {

/// Where on the internet something is, by the number its address stands for.
#[derive(Clone, Copy, Debug, PartialEq, Eq, Structural)]
pub enum Ip {
    V4(u32),
    V6(u128),
}

/// The hasher behind [`FxHashSet`].
#[verifier::external_type_specification]
#[verifier::external_body]
pub struct ExFxBuildHasher(rustc_hash::FxBuildHasher);

/// A set of addresses that are looked up once per transaction. Only the
/// configuration fills it, never the wire.
pub struct Addresses {
    set: FxHashSet<[u8; 32]>,
}

impl View for Addresses {
    type V = Set<[u8; 32]>;

    closed spec fn view(&self) -> Set<[u8; 32]> {
        self.set@
    }
}

/// Calls `insert` on a [`FxHashSet`] of addresses, which then holds that address
/// as well and otherwise what it held.
#[verifier::external_body]
fn insert(set: &mut FxHashSet<[u8; 32]>, address: [u8; 32])
    ensures
        final(set)@ == old(set)@.insert(address),
{
    set.insert(address);
}

/// Calls `contains` on a [`FxHashSet`] of addresses: whether it holds this one.
#[verifier::external_body]
fn holds(set: &FxHashSet<[u8; 32]>, address: &[u8; 32]) -> (holds: bool)
    ensures
        holds == set@.contains(*address),
{
    set.contains(address)
}

impl Addresses {
    pub fn of(addresses: &[[u8; 32]]) -> (set: Addresses)
        ensures
            set@ == addresses@.to_set(),
    {
        let mut set: FxHashSet<[u8; 32]> = FxHashSet::default();
        let mut i: usize = 0;
        assert(set@ =~= addresses@.take(0).to_set());
        while i < addresses.len()
            invariant
                i <= addresses@.len(),
                set@ == addresses@.take(i as int).to_set(),
            decreases addresses@.len() - i,
        {
            proof {
                let before = addresses@.take(i as int);
                assert(addresses@.take(i + 1) =~= before.push(addresses@[i as int]));
                crate::maps::lemma_push_contains(before, addresses@[i as int]);
                assert(addresses@.take(i + 1).to_set() =~= before.to_set().insert(
                    addresses@[i as int],
                ));
            }
            insert(&mut set, addresses[i]);
            i = i + 1;
        }
        assert(addresses@.take(i as int) =~= addresses@);
        Addresses { set }
    }

    pub fn contains(&self, address: &[u8; 32]) -> (contains: bool)
        ensures
            contains == self@.contains(*address),
    {
        holds(&self.set, address)
    }
}

/// Whether two keys, or two signatures, are the same.
pub fn same<const N: usize>(left: &[u8; N], right: &[u8; N]) -> (same: bool)
    ensures
        same == (*left == *right),
{
    let mut i: usize = 0;
    while i < N
        invariant
            i <= N,
            forall|j: int| 0 <= j < i ==> left@[j] == right@[j],
        decreases N - i,
    {
        if left[i] != right[i] {
            return false;
        }
        i = i + 1;
    }
    assert(left@ =~= right@);
    assert(*left =~= *right);
    true
}

/// Whether `address` is among `addresses`.
pub fn listed(addresses: &Vec<[u8; 32]>, address: &[u8; 32]) -> (listed: bool)
    ensures
        listed == addresses@.contains(*address),
{
    let mut i: usize = 0;
    while i < addresses.len()
        invariant
            i <= addresses@.len(),
            forall|j: int| 0 <= j < i ==> addresses@[j] != *address,
        decreases addresses@.len() - i,
    {
        if same(&addresses[i], address) {
            return true;
        }
        i = i + 1;
    }
    false
}

/// What `Signature` displays itself as: its bytes in base 58.
pub uninterp spec fn signature_text(signature: Seq<u8>) -> Seq<char>;

/// Calls `to_string` on a `solana_signature::Signature`.
#[verifier::external_body]
pub(crate) fn write_signature(signature: &[u8; 64]) -> (text: String)
    ensures
        text@ == signature_text(signature@),
{
    solana_signature::Signature::from(*signature).to_string()
}

/// What `Address` displays itself as: its bytes in base 58.
pub uninterp spec fn address_text(address: Seq<u8>) -> Seq<char>;

/// Calls `to_string` on a `solana_transaction::Address`.
#[verifier::external_body]
pub(crate) fn write_address(address: &[u8; 32]) -> (text: String)
    ensures
        text@ == address_text(address@),
{
    solana_transaction::Address::from(*address).to_string()
}

/// The address a text spells in base 58, or what `Address::from_str` has to say
/// about a text that spells none.
pub uninterp spec fn address_spelled(text: Seq<char>) -> Result<Seq<u8>, Seq<char>>;

/// Calls `Address::from_str`.
#[verifier::external_body]
pub(crate) fn read_address(text: &str) -> (address: Result<[u8; 32], String>)
    ensures
        match address {
            Ok(address) => address_spelled(text@) == Ok::<Seq<u8>, Seq<char>>(address@),
            Err(reason) => address_spelled(text@) == Err::<Seq<u8>, Seq<char>>(reason@),
        },
{
    match text.parse::<solana_transaction::Address>() {
        Ok(address) => Ok(address.to_bytes()),
        Err(error) => Err(error.to_string()),
    }
}

} // verus!
