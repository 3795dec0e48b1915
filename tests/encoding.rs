use blockchain::encoding::encode_transaction;
use blockchain::primitives::to_hex;
use blockchain::transaction::Transaction;
use blockchain::tx::{TXInput, TXOutput};
use crypto::digest::Digest;

fn sample_tx() -> Transaction {
    Transaction {
        id: String::from("abc"),
        vin: vec![
            TXInput { txid: String::from("prev"), vout: 1, signature: vec![9, 8], pub_key: vec![1, 2, 3] },
            TXInput { txid: String::new(), vout: -1, signature: vec![], pub_key: b"data".to_vec() },
        ],
        vout: vec![
            TXOutput { value: 100, pub_key_hash: vec![7; 20] },
            TXOutput { value: -5, pub_key_hash: vec![] },
        ],
    }
}

fn tuple_form(tx: &Transaction) -> (String, Vec<(String, i32, Vec<u8>, Vec<u8>)>, Vec<(i32, Vec<u8>)>) {
    (
        tx.id.clone(),
        tx.vin.iter().map(|i| (i.txid.clone(), i.vout, i.signature.clone(), i.pub_key.clone())).collect(),
        tx.vout.iter().map(|o| (o.value, o.pub_key_hash.clone())).collect(),
    )
}

fn sha256_hex(data: &[u8]) -> String {
    let mut hasher = crypto::sha2::Sha256::new();
    hasher.input(data);
    hasher.result_str()
}

#[test]
fn transaction_encoding_matches_bincode() {
    let tx = sample_tx();
    let expected = bincode::serialize(&tuple_form(&tx)).unwrap();
    assert_eq!(encode_transaction(&tx), expected);
}

#[test]
fn empty_transaction_encoding() {
    let tx = Transaction { id: String::new(), vin: vec![], vout: vec![] };
    assert_eq!(encode_transaction(&tx), vec![0u8; 24]);
}

#[test]
fn hex_is_lower_case_two_digits_per_byte() {
    assert_eq!(to_hex(&[0x00, 0x0f, 0xa5, 0xff]), "000fa5ff");
    assert_eq!(to_hex(&[]), "");
}

#[test]
fn transaction_hash_is_sha256_of_encoding_without_id() {
    let mut tx = sample_tx();
    let mut cleared = tuple_form(&tx);
    cleared.0 = String::new();
    let expected = sha256_hex(&bincode::serialize(&cleared).unwrap());
    let h = tx.hash();
    assert_eq!(h, expected);
    assert_eq!(tx.id, "");
    assert_eq!(h.len(), 64);
}

#[test]
fn hash_ignores_the_id() {
    let mut a = sample_tx();
    let mut b = sample_tx();
    b.id = String::from("something else entirely");
    assert_eq!(a.hash(), b.hash());
    let c = sample_tx();
    assert_eq!(c.computed_hash(), a.hash());
}

#[test]
fn hash_depends_on_outputs() {
    let mut a = sample_tx();
    let mut b = sample_tx();
    b.vout[0].value = 101;
    assert_ne!(a.hash(), b.hash());
}
