//! Reading keys, in the format `solana-keygen` writes.
//!
//! Two things are read here and they are not the same thing. A keypair is a
//! secret and only the side that signs needs one; an address is public and is
//! all that watching a wallet requires. They share a file format only because
//! the bench happens to hold both keys of the wallet it is racing — reading an
//! address out of a keypair file is a convenience for that, not an invitation
//! to hand the sniper a secret it has no use for.

use crate::addresses::read_address;
use crate::text::{characters, trim};
use solana_keypair::Keypair;
use solana_signer::Signer;
use vstd::prelude::*;

verus! {

/// A key file that cannot be used, and why.
pub struct KeyError {
    pub path: String,
    pub reason: String,
}

impl KeyError {
    pub open spec fn said(self) -> Seq<char> {
        self.path@ + ": "@ + self.reason@
    }

    pub fn text(&self) -> (text: String)
        ensures
            text@ == self.said(),
    {
        let mut text = self.path.clone();
        text.append(": ");
        text.append(self.reason.as_str());
        text
    }
}

/// A keypair and the address it signs for.
#[derive(Clone, Copy)]
pub struct Keys {
    pub keypair: [u8; 64],
    pub address: [u8; 32],
}

/// What `serde_json` makes of a text that should be an array of bytes: the bytes,
/// or what it says is wrong.
pub uninterp spec fn json_bytes(text: Seq<char>) -> Result<Seq<u8>, Seq<char>>;

/// Calls `serde_json::from_str` for a `Vec<u8>`.
#[verifier::external_body]
fn read_bytes(text: &str) -> (bytes: Result<Vec<u8>, String>)
    ensures
        match bytes {
            Ok(bytes) => json_bytes(text@) == Ok::<Seq<u8>, Seq<char>>(bytes@),
            Err(reason) => json_bytes(text@) == Err::<Seq<u8>, Seq<char>>(reason@),
        },
{
    match serde_json::from_str::<Vec<u8>>(text) {
        Ok(bytes) => Ok(bytes),
        Err(error) => Err(error.to_string()),
    }
}

/// The address an ed25519 keypair signs for, or what `Keypair` says is wrong with
/// bytes that are none.
pub uninterp spec fn keypair_address(bytes: Seq<u8>) -> Result<Seq<u8>, Seq<char>>;

/// Calls `Keypair::try_from` and `Signer::pubkey`. Only 64 bytes can be a
/// keypair.
#[verifier::external_body]
fn read_keypair(bytes: &[u8]) -> (address: Result<[u8; 32], String>)
    ensures
        match address {
            Ok(address) => keypair_address(bytes@) == Ok::<Seq<u8>, Seq<char>>(address@),
            Err(reason) => keypair_address(bytes@) == Err::<Seq<u8>, Seq<char>>(reason@),
        },
        address is Ok ==> bytes@.len() == 64,
{
    match Keypair::try_from(bytes) {
        Ok(keypair) => Ok(keypair.pubkey().to_bytes()),
        Err(error) => Err(error.to_string()),
    }
}

/// A keypair file's bytes and the address they sign for, or why it has none.
pub open spec fn keys_in(read: Result<Seq<char>, Seq<char>>) -> Result<
    (Seq<u8>, Seq<u8>),
    Seq<char>,
> {
    match read {
        Err(reason) => Err(reason),
        Ok(text) => match json_bytes(text) {
            Err(reason) => Err("not a keypair file: "@ + reason),
            Ok(bytes) => match keypair_address(bytes) {
                Err(reason) => Err(reason),
                Ok(address) => Ok((bytes, address)),
            },
        },
    }
}

/// The address a file holds, or why it holds none.
pub open spec fn address_in(read: Result<Seq<char>, Seq<char>>) -> Result<Seq<u8>, Seq<char>> {
    match read {
        Err(reason) => Err(reason),
        Ok(text) => {
            let inner = crate::text::trimmed(text);
            if inner.len() > 0 && inner[0] == '[' {
                match keys_in(read) {
                    Err(reason) => Err(reason),
                    Ok((_, address)) => Ok(address),
                }
            } else {
                match crate::addresses::address_spelled(inner) {
                    Err(reason) => Err("not an address: "@ + reason),
                    Ok(address) => Ok(address),
                }
            }
        },
    }
}

/// What reading a file came to.
pub open spec fn reading(read: Result<String, String>) -> Result<Seq<char>, Seq<char>> {
    match read {
        Ok(text) => Ok(text@),
        Err(reason) => Err(reason@),
    }
}

fn prefixed(prefix: &str, reason: String) -> (text: String)
    ensures
        text@ == prefix@ + reason@,
{
    let mut text = prefix.to_owned();
    text.append(reason.as_str());
    text
}

/// 64 bytes as an array.
fn settled(bytes: &Vec<u8>) -> (array: [u8; 64])
    requires
        bytes@.len() == 64,
    ensures
        array@ == bytes@,
{
    let mut array: [u8; 64] = [0;64];
    let mut i: usize = 0;
    while i < 64
        invariant
            i <= 64,
            bytes@.len() == 64,
            forall|j: int| 0 <= j < i ==> array@[j] == bytes@[j],
        decreases 64 - i,
    {
        array[i] = bytes[i];
        i = i + 1;
    }
    assert(array@ =~= bytes@);
    array
}

/// What a file that held `bytes` comes to, given the address they sign for or
/// why they sign for none.
pub fn keys_from(path: &str, bytes: &Vec<u8>, address: Result<[u8; 32], String>) -> (keys: Result<
    Keys,
    KeyError,
>)
    requires
        address is Ok ==> bytes@.len() == 64,
    ensures
        match (keys, address) {
            (Ok(keys), Ok(address)) => keys.keypair@ == bytes@ && keys.address == address,
            (Err(error), Err(reason)) => error.path@ == path@ && error.reason == reason,
            _ => false,
        },
{
    match address {
        Ok(address) => Ok(Keys { keypair: settled(bytes), address }),
        Err(reason) => Err(KeyError { path: path.to_owned(), reason }),
    }
}

/// What a file that holds no keypair comes to, given the address it spells or
/// why it spells none.
pub fn address_from(path: &str, spelled: Result<[u8; 32], String>) -> (address: Result<
    [u8; 32],
    KeyError,
>)
    ensures
        match (address, spelled) {
            (Ok(address), Ok(spelled)) => address == spelled,
            (Err(error), Err(reason)) => error.path@ == path@ && error.reason@
                == "not an address: "@ + reason@,
            _ => false,
        },
{
    match spelled {
        Ok(address) => Ok(address),
        Err(reason) => Err(
            KeyError { path: path.to_owned(), reason: prefixed("not an address: ", reason) },
        ),
    }
}

/// A keypair from a `solana-keygen` JSON file: the 64 bytes of an ed25519
/// keypair as a decimal array. `read` is what reading the file at `path` came
/// to.
pub fn keypair(path: &str, read: &Result<String, String>) -> (keys: Result<Keys, KeyError>)
    ensures
        match keys {
            Ok(keys) => keys_in(reading(*read)) == Ok::<(Seq<u8>, Seq<u8>), Seq<char>>(
                (keys.keypair@, keys.address@),
            ),
            Err(error) => error.path@ == path@ && keys_in(reading(*read)) == Err::<
                (Seq<u8>, Seq<u8>),
                Seq<char>,
            >(error.reason@),
        },
{
    let text = match read {
        Ok(text) => text,
        Err(reason) => {
            return Err(KeyError { path: path.to_owned(), reason: reason.clone() });
        },
    };
    let bytes = match read_bytes(text.as_str()) {
        Ok(bytes) => bytes,
        Err(reason) => {
            return Err(
                KeyError {
                    path: path.to_owned(),
                    reason: prefixed("not a keypair file: ", reason),
                },
            );
        },
    };
    keys_from(path, &bytes, read_keypair(bytes.as_slice()))
}

/// What there is to answer with: nothing where no keypair file is named, which
/// leaves the sniper watching only, and else the keypair in it. `read` is what
/// reading the file came to, and does not matter where there is none.
pub fn arming(path: Option<&str>, read: &Result<String, String>) -> (keys: Result<
    Option<Keys>,
    KeyError,
>)
    ensures
        match (path, keys) {
            (None, keys) => keys == Ok::<Option<Keys>, KeyError>(None),
            (Some(_), Ok(Some(keys))) => keys_in(reading(*read)) == Ok::<
                (Seq<u8>, Seq<u8>),
                Seq<char>,
            >((keys.keypair@, keys.address@)),
            (Some(_), Ok(None)) => false,
            (Some(path), Err(error)) => error.path@ == path@ && keys_in(reading(*read)) == Err::<
                (Seq<u8>, Seq<u8>),
                Seq<char>,
            >(error.reason@),
        },
{
    match path {
        None => Ok(None),
        Some(path) => match keypair(path, read) {
            Ok(keys) => Ok(Some(keys)),
            Err(error) => Err(error),
        },
    }
}

/// An address from either a keypair file or a file holding nothing but a base58
/// pubkey, so that whichever of the two an operator has to hand works.
pub fn address(path: &str, read: &Result<String, String>) -> (address: Result<[u8; 32], KeyError>)
    ensures
        match address {
            Ok(address) => address_in(reading(*read)) == Ok::<Seq<u8>, Seq<char>>(address@),
            Err(error) => error.path@ == path@ && address_in(reading(*read)) == Err::<
                Seq<u8>,
                Seq<char>,
            >(error.reason@),
        },
{
    let text = match read {
        Ok(text) => text,
        Err(reason) => {
            return Err(KeyError { path: path.to_owned(), reason: reason.clone() });
        },
    };
    let inner = trim(text.as_str());
    let chars = characters(inner);
    if chars.len() > 0 && chars[0] == '[' {
        return match keypair(path, read) {
            Ok(keys) => Ok(keys.address),
            Err(error) => Err(error),
        };
    }
    address_from(path, read_address(inner))
}

/// Either kind of file gives the same address: what a file holding a keypair
/// gives is the address that keypair signs for, the very one a file spelling it
/// out would give.
pub proof fn either_file_will_do(keypair_file: Seq<char>, address_file: Seq<char>)
    requires
        crate::text::trimmed(keypair_file).len() > 0,
        crate::text::trimmed(keypair_file)[0] == '[',
        crate::text::trimmed(address_file).len() > 0 ==> crate::text::trimmed(address_file)[0]
            != '[',
        keys_in(Ok(keypair_file)) is Ok,
        crate::addresses::address_spelled(crate::text::trimmed(address_file)) == Ok::<
            Seq<u8>,
            Seq<char>,
        >(keys_in(Ok(keypair_file))->Ok_0.1),
    ensures
        address_in(Ok(keypair_file)) == address_in(Ok(address_file)),
{
}

/// A keypair is read out of a file whole: the bytes the file spells and the address
/// they sign for. A file that cannot be read, spells no bytes, or spells bytes that
/// are no keypair, is refused by its path with what is wrong with it.
pub proof fn a_keypair_file_gives_its_keypair(
    path: &str,
    read: &Result<String, String>,
    keys: Result<Keys, KeyError>,
)
    requires
        call_ensures(keypair, (path, read), keys),
    ensures
        keys is Ok <==> {
            &&& read is Ok
            &&& json_bytes(read->Ok_0@) is Ok
            &&& keypair_address(json_bytes(read->Ok_0@)->Ok_0) is Ok
        },
        keys matches Ok(keys) ==> {
            &&& json_bytes(read->Ok_0@) == Ok::<Seq<u8>, Seq<char>>(keys.keypair@)
            &&& keypair_address(keys.keypair@) == Ok::<Seq<u8>, Seq<char>>(keys.address@)
        },
        keys matches Err(error) ==> error.path@ == path@,
        keys matches Err(error) ==> (read matches Err(reason) ==> error.reason@ == reason@),
{
}

/// Without a keypair file there is nothing to answer with, and that is no mistake;
/// with one there is its keypair, or it is refused.
pub proof fn a_sniper_without_a_keypair_only_watches(
    path: Option<&str>,
    read: &Result<String, String>,
    armed: Result<Option<Keys>, KeyError>,
)
    requires
        call_ensures(arming, (path, read), armed),
    ensures
        path is None ==> armed matches Ok(None),
        path is Some ==> !(armed matches Ok(None)),
        path is Some && armed is Ok ==> {
            let keys = armed->Ok_0->0;
            &&& read is Ok
            &&& json_bytes(read->Ok_0@) == Ok::<Seq<u8>, Seq<char>>(keys.keypair@)
            &&& keypair_address(keys.keypair@) == Ok::<Seq<u8>, Seq<char>>(keys.address@)
        },
        path matches Some(path) ==> (armed matches Err(error) ==> error.path@ == path@),
{
}

/// An address file gives the address it spells, with white space about it or without.
pub proof fn an_address_file_gives_its_address(
    path: &str,
    read: &Result<String, String>,
    found: Result<[u8; 32], KeyError>,
    before: Seq<char>,
    spelled: Seq<char>,
    after: Seq<char>,
)
    requires
        call_ensures(address, (path, read), found),
        read matches Ok(text) && text@ == before + spelled + after,
        spelled.len() > 0,
        spelled[0] != '[',
        crate::text::trimmed(before + spelled + after) == spelled,
    ensures
        found is Ok <==> crate::addresses::address_spelled(spelled) is Ok,
        found matches Ok(found) ==> crate::addresses::address_spelled(spelled) == Ok::<
            Seq<u8>,
            Seq<char>,
        >(found@),
        found matches Err(error) ==> error.path@ == path@,
{
}

/// A file that is refused is named, and then what is wrong with it.
pub proof fn a_refused_file_is_named(error: KeyError, text: String)
    requires
        call_ensures(KeyError::text, (&error,), text),
    ensures
        text@.len() == error.path@.len() + 2 + error.reason@.len(),
        text@.take(error.path@.len() as int) == error.path@,
        text@.skip((error.path@.len() + 2) as int) == error.reason@,
{
    reveal_strlit(": ");
    assert(text@.take(error.path@.len() as int) =~= error.path@);
    assert(text@.skip((error.path@.len() + 2) as int) =~= error.reason@);
}

} // verus!
