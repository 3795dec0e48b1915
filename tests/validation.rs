use blockchain::block::Block;
use blockchain::blockchain::Blockchain;
use blockchain::error::LedgerError;
use blockchain::transaction::Transaction;
use blockchain::tx::{TXInput, TXOutput};
use blockchain::utxoset::{UTXOSet, UtxoIndex};
use blockchain::wallet::{hash_pub_key, Wallets};
use crypto::digest::Digest;
use merkle_cbt::merkle_tree::{Merge, CBMT};

struct Sha256Merge;

impl Merge for Sha256Merge {
    type Item = Vec<u8>;

    fn merge(left: &Vec<u8>, right: &Vec<u8>) -> Vec<u8> {
        let mut hasher = crypto::sha2::Sha256::new();
        hasher.input(left);
        hasher.input(right);
        let mut out = vec![0u8; 32];
        hasher.result(&mut out);
        out
    }
}

fn setup() -> (UTXOSet, Wallets, String, String) {
    let mut wallets = Wallets::new(vec![]);
    let a = wallets.create_wallet().unwrap();
    let b = wallets.create_wallet().unwrap();
    let bc = Blockchain::create_blockchain(a.clone()).unwrap();
    let mut set = UTXOSet { blockchain: bc, index: UtxoIndex::empty() };
    set.reindex();
    (set, wallets, a, b)
}

#[test]
fn merkle_root_in_preimage_matches_cbmt() {
    let (_, _, a, b) = setup();
    let txs = vec![
        Transaction::new_coinbase(a.clone(), String::from("one")).unwrap(),
        Transaction::new_coinbase(b.clone(), String::from("two")).unwrap(),
        Transaction::new_coinbase(a.clone(), String::from("three")).unwrap(),
    ];
    let leaves: Vec<Vec<u8>> = txs.iter().map(|t| t.computed_hash().into_bytes()).collect();
    let root = CBMT::<Vec<u8>, Sha256Merge>::build_merkle_tree(&leaves).root();
    let block = Block::new(txs, String::new(), 0).unwrap();
    let data = block.prepare_hash_data();
    assert_eq!(&data[0..8], &[0u8; 8]);
    assert_eq!(&data[8..16], &32u64.to_le_bytes());
    assert_eq!(&data[16..48], &root[..]);
    assert_eq!(&data[48..64], &block.timestamp.to_le_bytes());
    assert_eq!(&data[64..72], &4u64.to_le_bytes());
}

#[test]
fn spending_an_output_twice_is_refused() {
    let (mut set, wallets, a, b) = setup();
    let tx = Transaction::new_utxo(&b, &a, 30, &set, &wallets).unwrap();
    let cb = Transaction::new_coinbase(a.clone(), String::from("first")).unwrap();
    let r = set.blockchain.add_block(vec![cb.clone(), tx.clone(), tx.clone()]);
    assert!(matches!(r, Err(LedgerError::InvalidTransaction)));
    set.blockchain.add_block(vec![cb.clone(), tx.clone()]).unwrap();
    let cb2 = Transaction::new_coinbase(a.clone(), String::from("second")).unwrap();
    let r = set.blockchain.add_block(vec![cb2, tx]);
    assert!(matches!(r, Err(LedgerError::InvalidTransaction)));
    assert_eq!(set.blockchain.get_best_height(), 1);
}

#[test]
fn a_forged_signature_is_refused() {
    let (mut set, wallets, a, b) = setup();
    let mut tx = Transaction::new_utxo(&b, &a, 30, &set, &wallets).unwrap();
    tx.vin[0].signature[0] ^= 1;
    assert!(!set.blockchain.verify_transaction(&tx).unwrap());
    let cb = Transaction::new_coinbase(a.clone(), String::new()).unwrap();
    assert!(matches!(set.blockchain.add_block(vec![cb, tx]), Err(LedgerError::BadSignature)));
    assert_eq!(set.blockchain.get_best_height(), 0);
}

#[test]
fn unbalanced_values_are_refused() {
    let (mut set, wallets, a, b) = setup();
    let w = wallets.get_wallet(&a).unwrap();
    let genesis_cb = set.blockchain.get_blocks()[0].get_transactions()[0].clone();
    let mut to_b = TXOutput::new(90, b.clone()).unwrap();
    to_b.value = 90;
    let mut tx = Transaction {
        id: String::new(),
        vin: vec![TXInput { txid: genesis_cb.id.clone(), vout: 0, signature: vec![], pub_key: w.public_key.clone() }],
        vout: vec![to_b],
    };
    tx.id = tx.hash();
    set.blockchain.sign_transaction(&mut tx, &w.secret_key).unwrap();
    assert!(set.blockchain.verify_transaction(&tx).unwrap());
    let cb = Transaction::new_coinbase(a.clone(), String::new()).unwrap();
    assert!(matches!(set.blockchain.add_block(vec![cb, tx]), Err(LedgerError::InvalidTransaction)));
}

#[test]
fn unknown_input_is_refused() {
    let (mut set, wallets, a, _) = setup();
    let w = wallets.get_wallet(&a).unwrap();
    let mut pkh = w.public_key.clone();
    hash_pub_key(&mut pkh);
    let tx = Transaction {
        id: String::from("x"),
        vin: vec![TXInput { txid: String::from("nowhere"), vout: 0, signature: vec![], pub_key: w.public_key.clone() }],
        vout: vec![TXOutput { value: 1, pub_key_hash: pkh }],
    };
    let cb = Transaction::new_coinbase(a.clone(), String::new()).unwrap();
    assert!(matches!(set.blockchain.add_block(vec![cb, tx]), Err(LedgerError::MissingPrevTx(_))));
}

#[test]
fn update_with_unknown_record_fails_and_keeps_index() {
    let (mut set, _, a, _) = setup();
    let cb = Transaction::new_coinbase(a.clone(), String::new()).unwrap();
    let spend = Transaction {
        id: String::from("s"),
        vin: vec![TXInput { txid: String::from("nowhere"), vout: 0, signature: vec![], pub_key: vec![] }],
        vout: vec![],
    };
    let block = Block::new(vec![cb, spend], String::new(), 1).unwrap();
    let before = set.count_transactions();
    assert!(matches!(set.update(&block), Err(LedgerError::StorageError)));
    assert_eq!(set.count_transactions(), before);
}
