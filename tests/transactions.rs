use blockchain::address::{decode_address, encode_address};
use blockchain::error::LedgerError;
use blockchain::transaction::Transaction;
use blockchain::tx::{TXInput, TXOutput};
use blockchain::wallet::{hash_pub_key, Wallet};
use crypto::digest::Digest;

fn wallet(seed_byte: u8) -> Wallet {
    Wallet::from_seed(&[seed_byte; 32])
}

fn pkh_of(w: &Wallet) -> Vec<u8> {
    let mut k = w.public_key.clone();
    hash_pub_key(&mut k);
    k
}

/// A previous transaction paying 50 to `w`, and a transfer spending it.
fn spend_setup(w: &Wallet) -> (Transaction, Transaction) {
    let mut prev = Transaction {
        id: String::new(),
        vin: vec![TXInput { txid: String::new(), vout: -1, signature: vec![], pub_key: b"x".to_vec() }],
        vout: vec![TXOutput { value: 50, pub_key_hash: pkh_of(w) }],
    };
    prev.id = prev.hash();
    let mut tx = Transaction {
        id: String::new(),
        vin: vec![TXInput { txid: prev.id.clone(), vout: 0, signature: vec![], pub_key: w.public_key.clone() }],
        vout: vec![TXOutput { value: 50, pub_key_hash: vec![3; 20] }],
    };
    tx.id = tx.hash();
    (prev, tx)
}

#[test]
fn hash_pub_key_is_ripemd160_of_sha256() {
    let mut key = vec![1u8, 2, 3];
    let mut sha = crypto::sha2::Sha256::new();
    sha.input(&key);
    let mut d = [0u8; 32];
    sha.result(&mut d);
    let mut rip = crypto::ripemd160::Ripemd160::new();
    rip.input(&d);
    let mut expected = [0u8; 20];
    rip.result(&mut expected);
    hash_pub_key(&mut key);
    assert_eq!(key, expected.to_vec());
}

#[test]
fn keypair_from_seed() {
    let w = wallet(7);
    let (secret, public) = crypto::ed25519::keypair(&[7u8; 32]);
    assert_eq!(w.public_key, public.to_vec());
    assert_eq!(w.secret_key, secret.to_vec());
    assert_eq!(&w.secret_key[..32], &[7u8; 32]);
    assert_eq!(&w.secret_key[32..], &w.public_key[..]);
}

#[test]
fn address_round_trip() {
    let w = wallet(1);
    let pkh = pkh_of(&w);
    let addr = encode_address(&pkh);
    assert_ne!(addr.len(), 0);
    assert_eq!(decode_address(&addr).unwrap(), pkh);
    assert_eq!(w.get_address(), addr);
    let direct = bitcoincash_addr::Address::new(
        pkh.clone(),
        bitcoincash_addr::Scheme::Base58,
        bitcoincash_addr::HashType::Script,
        bitcoincash_addr::Network::Main,
    )
    .encode()
    .unwrap();
    assert_eq!(addr, direct);
    let decoded = bitcoincash_addr::Address::decode(&addr).unwrap();
    assert_eq!(decoded.hash_type, bitcoincash_addr::HashType::Script);
    assert_eq!(decoded.body, pkh);
}

#[test]
fn address_depends_on_public_key_only() {
    let w = wallet(2);
    let other = Wallet { secret_key: vec![0; 64], public_key: w.public_key.clone() };
    assert_eq!(w.get_address(), other.get_address());
    assert_ne!(w.get_address(), wallet(3).get_address());
}

#[test]
fn invalid_addresses() {
    assert!(matches!(decode_address("not an address"), Err(LedgerError::InvalidAddress)));
    assert!(matches!(decode_address("bitcoincash:qqq"), Err(LedgerError::InvalidAddress)));
    assert!(matches!(decode_address("été"), Err(LedgerError::InvalidAddress)));
    assert!(matches!(decode_address(""), Err(LedgerError::InvalidAddress)));
    assert!(matches!(TXOutput::new(5, String::from("bad")), Err(LedgerError::InvalidAddress)));
}

#[test]
fn output_locks_to_decoded_address() {
    let w = wallet(4);
    let o = TXOutput::new(42, w.get_address()).unwrap();
    assert_eq!(o.value, 42);
    assert_eq!(o.pub_key_hash, pkh_of(&w));
    assert!(o.can_be_unlocked_with(&pkh_of(&w)));
    assert!(o.is_locked_with_key(&pkh_of(&w)));
    assert!(!o.is_locked_with_key(&[0; 20]));
}

#[test]
fn input_unlocks_with_its_key_hash() {
    let w = wallet(5);
    let input = TXInput { txid: String::from("t"), vout: 0, signature: vec![], pub_key: w.public_key.clone() };
    assert!(input.can_unlock_output_with(&pkh_of(&w)));
    assert!(!input.can_unlock_output_with(&[1; 20]));
}

#[test]
fn coinbase_with_default_note() {
    let w = wallet(6);
    let to = w.get_address();
    let cb = Transaction::new_coinbase(to.clone(), String::new()).unwrap();
    assert!(cb.is_coinbase());
    assert_eq!(cb.vin.len(), 1);
    assert_eq!(cb.vin[0].txid, "");
    assert_eq!(cb.vin[0].vout, -1);
    assert_eq!(cb.vin[0].pub_key, format!("Reward to '{}'", to).into_bytes());
    assert_eq!(cb.vout.len(), 1);
    assert_eq!(cb.vout[0].value, 100);
    assert_eq!(cb.vout[0].pub_key_hash, pkh_of(&w));
    assert_eq!(cb.id, cb.computed_hash());
}

#[test]
fn coinbase_with_data_and_bad_address() {
    let w = wallet(6);
    let cb = Transaction::new_coinbase(w.get_address(), String::from("hello")).unwrap();
    assert_eq!(cb.vin[0].pub_key, b"hello".to_vec());
    assert!(matches!(Transaction::new_coinbase(String::from("nope"), String::new()), Err(LedgerError::InvalidAddress)));
}

#[test]
fn trim_copy_clears_inputs() {
    let w = wallet(8);
    let (_, mut tx) = spend_setup(&w);
    tx.vin[0].signature = vec![1, 2, 3];
    let t = tx.trim_copy();
    assert_eq!(t.id, tx.id);
    assert_eq!(t.vin[0].txid, tx.vin[0].txid);
    assert_eq!(t.vin[0].vout, 0);
    assert!(t.vin[0].signature.is_empty());
    assert!(t.vin[0].pub_key.is_empty());
    assert_eq!(t.vout[0].value, 50);
}

#[test]
fn sign_then_verify() {
    let w = wallet(9);
    let (prev, mut tx) = spend_setup(&w);
    let prevs = vec![prev];
    tx.sign(&w.secret_key, &prevs).unwrap();
    assert_eq!(tx.vin[0].signature.len(), 64);
    assert!(tx.verify(&prevs).unwrap());
    let mut tampered = tx.clone();
    tampered.vout[0].value = 49;
    assert!(!tampered.verify(&prevs).unwrap());
    let mut short = tx.clone();
    short.vin[0].signature.pop();
    assert!(!short.verify(&prevs).unwrap());
}

#[test]
fn signing_message_is_hash_of_trimmed_copy_with_key_hash() {
    let w = wallet(10);
    let (prev, mut tx) = spend_setup(&w);
    let mut copy = tx.trim_copy();
    copy.vin[0].pub_key = prev.vout[0].pub_key_hash.clone();
    let message = copy.hash();
    tx.sign(&w.secret_key, &vec![prev]).unwrap();
    let expected = crypto::ed25519::signature(message.as_bytes(), &w.secret_key);
    assert_eq!(tx.vin[0].signature, expected.to_vec());
}

#[test]
fn signing_twice_gives_the_same_signatures() {
    let w = wallet(11);
    let (prev, mut tx) = spend_setup(&w);
    let prevs = vec![prev];
    tx.sign(&w.secret_key, &prevs).unwrap();
    let once = tx.vin[0].signature.clone();
    tx.sign(&w.secret_key, &prevs).unwrap();
    assert_eq!(tx.vin[0].signature, once);
    assert!(tx.verify(&prevs).unwrap());
}

#[test]
fn missing_previous_transaction() {
    let w = wallet(12);
    let (_, mut tx) = spend_setup(&w);
    let before = tx.clone();
    assert!(matches!(tx.sign(&w.secret_key, &vec![]), Err(LedgerError::MissingPrevTx(_))));
    assert_eq!(tx.vin[0].signature, before.vin[0].signature);
    assert!(matches!(tx.verify(&vec![]), Err(LedgerError::MissingPrevTx(_))));
}

#[test]
fn output_index_out_of_range_is_missing() {
    let w = wallet(13);
    let (prev, mut tx) = spend_setup(&w);
    tx.vin[0].vout = 3;
    assert!(matches!(tx.sign(&w.secret_key, &vec![prev]), Err(LedgerError::MissingPrevTx(_))));
}

#[test]
fn coinbase_signs_and_verifies_trivially() {
    let w = wallet(14);
    let mut cb = Transaction::new_coinbase(w.get_address(), String::new()).unwrap();
    let before = cb.clone();
    cb.sign(&w.secret_key, &vec![]).unwrap();
    assert_eq!(cb.vin[0].signature, before.vin[0].signature);
    assert!(cb.verify(&vec![]).unwrap());
}
