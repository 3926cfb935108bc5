use shred_sniper::keys::{address, address_from, arming, keypair, keys_from};
use solana_keypair::Keypair;
use solana_signer::Signer;

fn json(bytes: &[u8]) -> String {
    format!("{bytes:?}")
}

#[test]
fn a_keypair_file_is_read() {
    let key = Keypair::new();
    let keys = keypair("id.json", &Ok(json(&key.to_bytes()))).ok().unwrap();
    assert_eq!(keys.keypair, key.to_bytes());
    assert_eq!(keys.address, key.pubkey().to_bytes());
}

/// Whichever of the two an operator has to hand works.
#[test]
fn an_address_is_read_from_either_file() {
    let key = Keypair::new();
    let expected = key.pubkey().to_bytes();
    let from = |text: String| address("wallet", &Ok(text)).ok().unwrap();
    assert_eq!(from(format!(" \n{}\n", json(&key.to_bytes()))), expected);
    assert_eq!(from(format!("\t{}\r\n", key.pubkey())), expected);
}

#[test]
fn a_key_file_can_be_unusable() {
    let text = |read: Result<String, String>| keypair("id.json", &read).err().unwrap().text();
    assert_eq!(text(Err("gone".to_string())), "id.json: gone");
    assert!(text(Ok("{}".to_string())).starts_with("id.json: not a keypair file: invalid type"));
    assert!(text(Ok("[300]".to_string())).starts_with("id.json: not a keypair file: "));
    assert!(text(Ok("[1, 2]".to_string())).starts_with("id.json: signature error"));
    let mut bytes = Keypair::new().to_bytes();
    bytes[40] ^= 1;
    assert!(text(Ok(json(&bytes))).starts_with("id.json: signature error"));

    let text = |read: Result<String, String>| address("wallet", &read).err().unwrap().text();
    assert_eq!(text(Err("gone".to_string())), "wallet: gone");
    assert_eq!(
        text(Ok("abc".to_string())),
        "wallet: not an address: String is the wrong size"
    );
    assert_eq!(
        text(Ok("0".repeat(32))),
        "wallet: not an address: Invalid Base58 string"
    );
    assert!(text(Ok("[".to_string())).starts_with("wallet: not a keypair file: "));
}

#[test]
fn what_was_found_is_what_comes_back() {
    let keys = keys_from("p", &vec![3; 64], Ok([4; 32])).ok().unwrap();
    assert_eq!((keys.keypair, keys.address), ([3; 64], [4; 32]));
    let error = keys_from("p", &vec![], Err("no".to_string())).err().unwrap();
    assert_eq!((error.path.as_str(), error.reason.as_str()), ("p", "no"));
    assert_eq!(address_from("p", Ok([4; 32])).ok(), Some([4; 32]));
    let error = address_from("p", Err("no".to_string())).err().unwrap();
    assert_eq!(error.text(), "p: not an address: no");
}

/// Without a keypair file the sniper only watches; with one that cannot be used
/// it does not start.
#[test]
fn a_sniper_is_armed_by_its_keypair() {
    let key = Keypair::new();
    assert!(matches!(arming(None, &Ok(String::new())), Ok(None)));
    assert!(matches!(arming(None, &Err("gone".to_string())), Ok(None)));
    let Ok(Some(keys)) = arming(Some("id.json"), &Ok(json(&key.to_bytes()))) else {
        panic!("the keypair is usable");
    };
    assert_eq!(keys.keypair, key.to_bytes());
    assert_eq!(keys.address, key.pubkey().to_bytes());
    let error = arming(Some("id.json"), &Err("gone".to_string()))
        .err()
        .unwrap();
    assert_eq!(error.text(), "id.json: gone");
}
