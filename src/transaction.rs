//! Transactions: coinbase and transfer construction, hashing, signing and verification.
use vstd::prelude::*;
use vstd::string::StringExecFns;
use crate::address::{address_body_of, is_plain_text};
use crate::blockchain::{chain_prev, inputs_found};
use crate::encoding::{encode_transaction, transaction_bytes};
use crate::error::LedgerError;
use crate::primitives::{
    ed25519_accepts, ed25519_sign, ed25519_signature_of, ed25519_verify, hex_of, pub_key_hash_of,
    sha256, sha256_of, to_hex,
};
use crate::tx::{
    copy_bytes, copy_inputs, copy_outputs, inputs_view, outputs_view, InputModel, OutputModel,
    TXInput, TXOutput,
};
use crate::utxoset::{entries_of, select, UTXOSet};
use crate::wallet::{hash_pub_key, Wallets};

verus! {

/// A transaction: its id, the outputs it spends and the outputs it creates.
#[derive(Debug, Clone)]
pub struct Transaction {
    pub id: String,
    pub vin: Vec<TXInput>,
    pub vout: Vec<TXOutput>,
}

/// The value of a transaction.
pub struct TxModel {
    pub id: Seq<char>,
    pub vin: Seq<InputModel>,
    pub vout: Seq<OutputModel>,
}

impl View for Transaction {
    type V = TxModel;

    open spec fn view(&self) -> TxModel {
        TxModel { id: self.id@, vin: inputs_view(self.vin@), vout: outputs_view(self.vout@) }
    }
}

/// The hash of a transaction: hex SHA-256 of its canonical bytes with the id left empty.
pub open spec fn tx_hash(vin: Seq<InputModel>, vout: Seq<OutputModel>) -> Seq<char> {
    hex_of(sha256_of(transaction_bytes(TxModel { id: seq![], vin, vout })))
}

/// The reward that a coinbase transaction mints.
pub const SUBSIDY: i32 = 100;

/// A coinbase: one input with an empty `txid` and index -1.
pub open spec fn is_coinbase_model(t: TxModel) -> bool {
    &&& t.vin.len() == 1
    &&& t.vin[0].txid.len() == 0
    &&& t.vin[0].vout == -1
}

/// The inputs with signature and key cleared.
pub open spec fn trimmed_inputs(vin: Seq<InputModel>) -> Seq<InputModel> {
    Seq::new(
        vin.len(),
        |j: int| InputModel { txid: vin[j].txid, vout: vin[j].vout, signature: seq![], pub_key: seq![] },
    )
}

/// The trimmed copy: inputs cleared, outputs and id kept.
pub open spec fn trimmed(t: TxModel) -> TxModel {
    TxModel { id: t.id, vin: trimmed_inputs(t.vin), vout: t.vout }
}

/// The trimmed inputs with input `k`'s key slot bound to `key`.
pub open spec fn signing_inputs(vin: Seq<InputModel>, k: int, key: Seq<u8>) -> Seq<InputModel> {
    trimmed_inputs(vin).update(
        k,
        InputModel { txid: vin[k].txid, vout: vin[k].vout, signature: seq![], pub_key: key },
    )
}

/// The models of a list of transactions.
pub open spec fn txs_view(s: Seq<Transaction>) -> Seq<TxModel> {
    s.map_values(|t: Transaction| t@)
}

/// The first transaction with the given id.
pub open spec fn lookup(prev: Seq<TxModel>, id: Seq<char>) -> Option<TxModel>
    decreases prev.len(),
{
    if prev.len() == 0 {
        None
    } else {
        match lookup(prev.drop_last(), id) {
            Some(t) => Some(t),
            None => if prev.last().id == id { Some(prev.last()) } else { None },
        }
    }
}

/// Input `i` names a known transaction with a non-empty id, and an output index within it.
pub open spec fn input_resolves(t: TxModel, prev: Seq<TxModel>, i: int) -> bool {
    match lookup(prev, t.vin[i].txid) {
        Some(p) => p.id.len() > 0 && 0 <= t.vin[i].vout < p.vout.len(),
        None => false,
    }
}

pub open spec fn resolvable(t: TxModel, prev: Seq<TxModel>) -> bool {
    forall|i: int| 0 <= i < t.vin.len() ==> #[trigger] input_resolves(t, prev, i)
}

/// The output that input `i` spends.
pub open spec fn referenced_output(t: TxModel, prev: Seq<TxModel>, i: int) -> OutputModel {
    lookup(prev, t.vin[i].txid).unwrap().vout[t.vin[i].vout as int]
}

/// The message signed for input `i`: the UTF-8 text of the hash of the trimmed copy
/// whose input `i` carries the public-key hash of the output it spends.
pub open spec fn signing_message(t: TxModel, prev: Seq<TxModel>, i: int) -> Seq<u8> {
    vstd::utf8::encode_utf8(
        tx_hash(signing_inputs(t.vin, i, referenced_output(t, prev, i).pub_key_hash), t.vout),
    )
}

/// The transaction with every input signed under `secret`.
pub open spec fn signed(t: TxModel, prev: Seq<TxModel>, secret: Seq<u8>) -> TxModel {
    TxModel {
        id: t.id,
        vin: Seq::new(
            t.vin.len(),
            |i: int|
                InputModel {
                    txid: t.vin[i].txid,
                    vout: t.vin[i].vout,
                    signature: ed25519_signature_of(signing_message(t, prev, i), secret),
                    pub_key: t.vin[i].pub_key,
                },
        ),
        vout: t.vout,
    }
}

/// Input `i` carries a well-sized key and a signature of its message under that key.
pub open spec fn input_verifies(t: TxModel, prev: Seq<TxModel>, i: int) -> bool {
    &&& t.vin[i].pub_key.len() == 32
    &&& t.vin[i].signature.len() == 64
    &&& ed25519_accepts(signing_message(t, prev, i), t.vin[i].pub_key, t.vin[i].signature)
}

pub open spec fn verifies(t: TxModel, prev: Seq<TxModel>) -> bool {
    forall|i: int| 0 <= i < t.vin.len() ==> #[trigger] input_verifies(t, prev, i)
}

/// The data that a coinbase carries when none is given.
pub open spec fn reward_note(to: Seq<char>) -> Seq<char> {
    "Reward to '"@ + to + "'"@
}

/// The coinbase paying the reward to `pub_key_hash` and carrying `data`.
pub open spec fn coinbase_model(data: Seq<char>, pub_key_hash: Seq<u8>) -> TxModel {
    let vin = seq![
        InputModel {
            txid: seq![],
            vout: -1i32,
            signature: seq![],
            pub_key: vstd::utf8::encode_utf8(data),
        },
    ];
    let vout = seq![OutputModel { value: SUBSIDY, pub_key_hash }];
    TxModel { id: tx_hash(vin, vout), vin, vout }
}

proof fn lemma_lookup_prefix(prev: Seq<TxModel>, id: Seq<char>, n: int)
    requires
        0 <= n <= prev.len(),
        lookup(prev.subrange(0, n), id) is Some,
    ensures
        lookup(prev, id) == lookup(prev.subrange(0, n), id),
    decreases prev.len(),
{
    if n == prev.len() {
        assert(prev.subrange(0, n) =~= prev);
    } else {
        assert(prev.drop_last().subrange(0, n) =~= prev.subrange(0, n));
        lemma_lookup_prefix(prev.drop_last(), id, n);
    }
}

/// The position of the first transaction in `prev` whose id is `id`.
pub fn find_prev(prev: &Vec<Transaction>, id: &String) -> (r: Option<usize>)
    ensures
        match r {
            Some(k) => k < prev@.len() && lookup(txs_view(prev@), id@) == Some(prev@[k as int]@),
            None => lookup(txs_view(prev@), id@) is None,
        },
{
    let ghost all = txs_view(prev@);
    let mut i: usize = 0;
    while i < prev.len()
        invariant
            i <= prev@.len(),
            all == txs_view(prev@),
            lookup(all.subrange(0, i as int), id@) is None,
        decreases prev@.len() - i,
    {
        proof {
            let next = all.subrange(0, i + 1);
            assert(next.drop_last() =~= all.subrange(0, i as int));
            assert(next.last() == prev@[i as int]@);
        }
        if prev[i].id == *id {
            proof { lemma_lookup_prefix(all, id@, i + 1); }
            return Some(i);
        }
        i = i + 1;
    }
    assert(all.subrange(0, all.len() as int) =~= all);
    None
}

/// Whether input `i` resolves against `prev`, and if so where it points.
pub(crate) fn resolve_input(tx: &Transaction, prev: &Vec<Transaction>, i: usize) -> (r: Option<usize>)
    requires
        i < tx@.vin.len(),
    ensures
        match r {
            Some(k) => input_resolves(tx@, txs_view(prev@), i as int) && k < prev@.len()
                && lookup(txs_view(prev@), tx@.vin[i as int].txid) == Some(prev@[k as int]@),
            None => !input_resolves(tx@, txs_view(prev@), i as int),
        },
{
    match find_prev(prev, &tx.vin[i].txid) {
        None => None,
        Some(k) => {
            let p = &prev[k];
            if p.id.as_str().is_empty() || tx.vin[i].vout < 0 || tx.vin[i].vout as usize >= p.vout.len() {
                None
            } else {
                Some(k)
            }
        },
    }
}

/// Checks that every input resolves; otherwise names the first that does not.
fn check_resolvable(tx: &Transaction, prev: &Vec<Transaction>) -> (r: Result<(), LedgerError>)
    ensures
        r is Ok <==> resolvable(tx@, txs_view(prev@)),
        r matches Err(e) ==> e is MissingPrevTx,
{
    let mut i: usize = 0;
    while i < tx.vin.len()
        invariant
            i <= tx@.vin.len(),
            forall|j: int| 0 <= j < i ==> #[trigger] input_resolves(tx@, txs_view(prev@), j),
        decreases tx@.vin.len() - i,
    {
        if resolve_input(tx, prev, i).is_none() {
            return Err(LedgerError::MissingPrevTx(tx.vin[i].txid.clone()));
        }
        i = i + 1;
    }
    Ok(())
}

/// The hash of a transaction is the same whatever its id holds: it is taken with the
/// id cleared, over the inputs and outputs alone.
pub proof fn lemma_hash_ignores_id(t1: TxModel, t2: TxModel)
    requires
        t1.vin == t2.vin,
        t1.vout == t2.vout,
    ensures
        tx_hash(t1.vin, t1.vout) == tx_hash(t2.vin, t2.vout),
        tx_hash(t1.vin, t1.vout) == hex_of(sha256_of(transaction_bytes(
            TxModel { id: seq![], vin: t2.vin, vout: t2.vout },
        ))),
{
}

/// Signing a signed transaction again with the same key and previous transactions gives
/// the same transaction: the messages do not depend on the signatures.
pub proof fn lemma_sign_idempotent(t: TxModel, prev: Seq<TxModel>, secret: Seq<u8>)
    requires
        !is_coinbase_model(t),
        resolvable(t, prev),
    ensures
        !is_coinbase_model(signed(t, prev, secret)),
        resolvable(signed(t, prev, secret), prev),
        signed(signed(t, prev, secret), prev, secret) == signed(t, prev, secret),
{
    let s = signed(t, prev, secret);
    assert(trimmed_inputs(s.vin) =~= trimmed_inputs(t.vin));
    assert forall|i: int| 0 <= i < s.vin.len() implies #[trigger] input_resolves(s, prev, i) by {
        assert(input_resolves(t, prev, i));
    }
    assert forall|i: int| 0 <= i < s.vin.len() implies #[trigger] signing_message(s, prev, i)
        == signing_message(t, prev, i) by {
        assert(signing_inputs(s.vin, i, referenced_output(s, prev, i).pub_key_hash) =~= signing_inputs(
            t.vin,
            i,
            referenced_output(t, prev, i).pub_key_hash,
        ));
    }
    assert(signed(s, prev, secret).vin =~= s.vin);
}

/// The `(txid, output index)` that each input names.
pub open spec fn vin_refs(vin: Seq<InputModel>) -> Seq<(Seq<char>, i32)> {
    Seq::new(vin.len(), |i: int| (vin[i].txid, vin[i].vout))
}

/// The inputs of a transfer: each selected output, to be signed, with the sender's key.
pub open spec fn transfer_inputs(sel: Seq<(Seq<char>, i32)>, public_key: Seq<u8>) -> Seq<InputModel> {
    sel.map_values(|e: (Seq<char>, i32)| InputModel { txid: e.0, vout: e.1, signature: seq![], pub_key: public_key })
}

/// The outputs of a transfer: `amount` to the recipient, then any change to the sender.
pub open spec fn transfer_outputs(amount: i32, acc: int, to_pkh: Seq<u8>, from_pkh: Seq<u8>) -> Seq<OutputModel> {
    seq![OutputModel { value: amount, pub_key_hash: to_pkh }] + if acc > amount {
        seq![OutputModel { value: (acc - amount) as i32, pub_key_hash: from_pkh }]
    } else {
        seq![]
    }
}

/// The unsigned transfer with these inputs and outputs, its id set.
pub open spec fn unsigned_transfer(vin: Seq<InputModel>, vout: Seq<OutputModel>) -> TxModel {
    TxModel { id: tx_hash(vin, vout), vin, vout }
}

/// What `new_utxo` returns for these arguments, or the error it fails with.
pub open spec fn transfer_outcome(r: Result<Transaction, LedgerError>, to: Seq<char>, from: Seq<char>, amount: i32, bc: &UTXOSet, wallets: &Wallets) -> bool {
    let wm = wallets@;
    if !wm.contains_key(from) || !wm.contains_key(to) {
        r matches Err(e) && e is UnknownWallet
    } else {
        let w = wm[from];
        let (acc, sel) = select(entries_of(bc.index@), pub_key_hash_of(w.public_key), amount as int);
        if acc < amount {
            r matches Err(e) && e matches LedgerError::InsufficientFunds(a) && a == acc
        } else if !is_plain_text(to) || address_body_of(to) is None {
            r matches Err(e) && e is InvalidAddress
        } else if acc > amount && (!is_plain_text(from) || address_body_of(from) is None) {
            r matches Err(e) && e is InvalidAddress
        } else if w.secret_key.len() != 64 {
            r matches Err(e) && e is StorageError
        } else {
            let u = unsigned_transfer(
                transfer_inputs(sel, w.public_key),
                transfer_outputs(amount, acc, address_body_of(to).unwrap(), address_body_of(from).unwrap()),
            );
            let c = bc.blockchain@;
            if !inputs_found(c, u) {
                r matches Err(e) && e is MissingPrevTx
            } else if is_coinbase_model(u) {
                r matches Ok(t) && t@ == u
            } else if !resolvable(u, chain_prev(c, u)) {
                r matches Err(e) && e is MissingPrevTx
            } else {
                r matches Ok(t) && t@ == signed(u, chain_prev(c, u), w.secret_key)
            }
        }
    }
}

impl Transaction {
    /// A copy with the same fields.
    pub fn duplicate(&self) -> (r: Transaction)
        ensures
            r@ == self@,
    {
        Transaction { id: self.id.clone(), vin: copy_inputs(&self.vin), vout: copy_outputs(&self.vout) }
    }

    /// The hash of this transaction, leaving it unchanged.
    pub fn computed_hash(&self) -> (r: String)
        ensures
            r@ == tx_hash(self@.vin, self@.vout),
            r@.len() == 64,
    {
        let mut copy = self.duplicate();
        copy.hash()
    }

    /// A transfer of `amount` from the wallet at `from` to the wallet at `to`: it spends the
    /// outputs that the index selects for the sender, pays `amount` to `to`, returns any
    /// change to `from`, and is signed with the sender's key against the chain.
    pub fn new_utxo(to: &str, from: &str, amount: i32, bc: &UTXOSet, wallets: &Wallets) -> (r: Result<Transaction, LedgerError>)
        requires
            amount >= 0,
        ensures
            transfer_outcome(r, to@, from@, amount, bc, wallets),
            r matches Ok(t) ==> vin_refs(t@.vin).no_duplicates(),
    {
        let wallet = match wallets.get_wallet(from) {
            Some(w) => w,
            None => return Err(LedgerError::UnknownWallet),
        };
        if wallets.get_wallet(to).is_none() {
            return Err(LedgerError::UnknownWallet);
        }
        let mut pub_key_hash = copy_bytes(wallet.public_key.as_slice());
        hash_pub_key(&mut pub_key_hash);
        let (acc, sel) = bc.find_spendable_outputs(pub_key_hash.as_slice(), amount);
        if acc < amount as i64 {
            return Err(LedgerError::InsufficientFunds(acc));
        }
        let ghost pk = wallet@.public_key;
        let mut vin: Vec<TXInput> = Vec::new();
        let mut i: usize = 0;
        while i < sel.len()
            invariant
                i <= sel@.len(),
                pk == wallet@.public_key,
                inputs_view(vin@) == transfer_inputs(crate::utxoset::refs_view(sel@), pk).subrange(0, i as int),
            decreases sel@.len() - i,
        {
            let ghost prior = vin@;
            vin.push(TXInput {
                txid: sel[i].0.clone(),
                vout: sel[i].1,
                signature: Vec::new(),
                pub_key: copy_bytes(wallet.public_key.as_slice()),
            });
            assert(vin@ == prior.push(vin@.last()));
            assert(crate::utxoset::refs_view(sel@)[i as int] == sel@[i as int]@);
            assert(vin@.last()@ == transfer_inputs(crate::utxoset::refs_view(sel@), pk)[i as int]);
            assert(inputs_view(vin@) =~= inputs_view(prior).push(vin@.last()@));
            assert(inputs_view(vin@) =~= transfer_inputs(crate::utxoset::refs_view(sel@), pk).subrange(0, i + 1));
            i = i + 1;
        }
        assert(transfer_inputs(crate::utxoset::refs_view(sel@), pk).subrange(0, i as int) =~= transfer_inputs(
            crate::utxoset::refs_view(sel@),
            pk,
        ));
        let to_output = match TXOutput::new(amount, String::from_str(to)) {
            Ok(o) => o,
            Err(e) => return Err(e),
        };
        let mut vout: Vec<TXOutput> = vec![to_output];
        if acc > amount as i64 {
            let change = match TXOutput::new((acc - amount as i64) as i32, String::from_str(from)) {
                Ok(o) => o,
                Err(e) => return Err(e),
            };
            vout.push(change);
        }
        proof {
            let expected = transfer_outputs(amount, acc as int, address_body_of(to@).unwrap(), address_body_of(from@).unwrap());
            assert(outputs_view(vout@) =~= expected);
        }
        if wallet.secret_key.len() != 64 {
            return Err(LedgerError::StorageError);
        }
        let mut tx = Transaction { id: String::new(), vin, vout };
        let id = tx.hash();
        tx.id = id;
        let ghost unsigned = tx@;
        assert(vin_refs(unsigned.vin) =~= crate::utxoset::refs_view(sel@));
        match bc.blockchain.sign_transaction(&mut tx, wallet.secret_key.as_slice()) {
            Ok(()) => {
                assert(vin_refs(tx@.vin) =~= vin_refs(unsigned.vin));
                Ok(tx)
            },
            Err(e) => Err(e),
        }
    }

    /// Whether this is a coinbase transaction.
    pub fn is_coinbase(&self) -> (r: bool)
        ensures
            r == is_coinbase_model(self@),
    {
        self.vin.len() == 1 && self.vin[0].txid.as_str().is_empty() && self.vin[0].vout == -1
    }

    /// A copy with every input's signature and key cleared.
    pub fn trim_copy(&self) -> (r: Transaction)
        ensures
            r@ == trimmed(self@),
    {
        let mut vin: Vec<TXInput> = Vec::new();
        let mut i: usize = 0;
        while i < self.vin.len()
            invariant
                i <= self@.vin.len(),
                inputs_view(vin@) == trimmed_inputs(self@.vin).subrange(0, i as int),
            decreases self@.vin.len() - i,
        {
            let ghost before = vin@;
            vin.push(TXInput {
                txid: self.vin[i].txid.clone(),
                vout: self.vin[i].vout,
                signature: Vec::new(),
                pub_key: Vec::new(),
            });
            assert(self@.vin[i as int] == self.vin@[i as int]@);
            assert(vin@.drop_last() =~= before);
            assert(inputs_view(vin@) =~= inputs_view(before).push(vin@.last()@));
            assert(inputs_view(vin@) =~= trimmed_inputs(self@.vin).subrange(0, i + 1));
            i = i + 1;
        }
        let vout = copy_outputs(&self.vout);
        let r = Transaction { id: self.id.clone(), vin, vout };
        assert(r@.vin =~= trimmed(self@).vin);
        r
    }

    /// A coinbase paying the reward to `to`, carrying `data`, or a note naming `to` when
    /// `data` is empty.
    pub fn new_coinbase(to: String, data: String) -> (r: Result<Transaction, LedgerError>)
        ensures
            match r {
                Ok(t) => is_plain_text(to@) && address_body_of(to@) is Some
                    && t@ == coinbase_model(
                    if data@.len() == 0 { reward_note(to@) } else { data@ },
                    address_body_of(to@).unwrap(),
                ),
                Err(e) => e is InvalidAddress
                    && (!is_plain_text(to@) || address_body_of(to@) is None),
            },
    {
        let note = if data.as_str().is_empty() {
            String::from_str("Reward to '").concat(to.as_str()).concat("'")
        } else {
            data
        };
        let output = match TXOutput::new(SUBSIDY, to) {
            Ok(o) => o,
            Err(e) => return Err(e),
        };
        let input = TXInput {
            txid: String::new(),
            vout: -1,
            signature: Vec::new(),
            pub_key: copy_bytes(note.as_str().as_bytes()),
        };
        let mut tx = Transaction { id: String::new(), vin: vec![input], vout: vec![output] };
        let id = tx.hash();
        tx.id = id;
        proof {
            let pkh = tx@.vout[0].pub_key_hash;
            assert(tx@.vin =~= coinbase_model(note@, pkh).vin);
            assert(tx@.vout =~= coinbase_model(note@, pkh).vout);
        }
        Ok(tx)
    }

    /// The trimmed copy `tx_copy` with input `i`'s key slot set to `key`.
    fn bind_key(tx_copy: &mut Transaction, i: usize, key: Vec<u8>)
        requires
            i < old(tx_copy)@.vin.len(),
        ensures
            final(tx_copy)@.id == old(tx_copy)@.id,
            final(tx_copy)@.vout == old(tx_copy)@.vout,
            final(tx_copy)@.vin == old(tx_copy)@.vin.update(
                i as int,
                InputModel {
                    txid: old(tx_copy)@.vin[i as int].txid,
                    vout: old(tx_copy)@.vin[i as int].vout,
                    signature: seq![],
                    pub_key: key@,
                },
            ),
    {
        let cur = tx_copy.vin[i].duplicate();
        tx_copy.vin.set(i, TXInput { txid: cur.txid, vout: cur.vout, signature: Vec::new(), pub_key: key });
        assert(final(tx_copy)@.vin =~= old(tx_copy)@.vin.update(
            i as int,
            InputModel {
                txid: old(tx_copy)@.vin[i as int].txid,
                vout: old(tx_copy)@.vin[i as int].vout,
                signature: seq![],
                pub_key: key@,
            },
        )) by {
            assert(tx_copy.vin@ == old(tx_copy).vin@.update(i as int, tx_copy.vin@[i as int]));
        }
    }

    /// The message that input `i` is signed over; `k` is where its transaction is in `prev`.
    fn signing_id(tx_copy: &mut Transaction, prev_txs: &Vec<Transaction>, k: usize, i: usize, orig: Ghost<TxModel>) -> (r: String)
        requires
            i < orig@.vin.len(),
            old(tx_copy)@.vin == trimmed_inputs(orig@.vin),
            old(tx_copy)@.vout == orig@.vout,
            input_resolves(orig@, txs_view(prev_txs@), i as int),
            k < prev_txs@.len(),
            lookup(txs_view(prev_txs@), orig@.vin[i as int].txid) == Some(prev_txs@[k as int]@),
        ensures
            final(tx_copy)@.vin == trimmed_inputs(orig@.vin),
            final(tx_copy)@.vout == orig@.vout,
            vstd::utf8::encode_utf8(r@) == signing_message(orig@, txs_view(prev_txs@), i as int),
    {
        let prev = &prev_txs[k];
        assert(tx_copy@.vin.len() == orig@.vin.len());
        assert(tx_copy@.vin[i as int] == tx_copy.vin@[i as int]@);
        assert(prev@ == txs_view(prev_txs@)[k as int]);
        let v = tx_copy.vin[i].vout as usize;
        proof {
            assert(prev@.vout[v as int] == prev.vout@[v as int]@);
        }
        let key = copy_bytes(prev.vout[v].pub_key_hash.as_slice());
        let ghost key_view = key@;
        assert(key_view == referenced_output(orig@, txs_view(prev_txs@), i as int).pub_key_hash);
        Self::bind_key(tx_copy, i, key);
        assert(tx_copy@.vin =~= signing_inputs(orig@.vin, i as int, key_view));
        let id = tx_copy.hash();
        tx_copy.id = id.clone();
        Self::bind_key(tx_copy, i, Vec::new());
        assert(tx_copy@.vin =~= trimmed_inputs(orig@.vin));
        id
    }

    /// Signs every input under `private_key` (a 64-byte ed25519 secret key). Input `i` is
    /// signed over the hash of the trimmed copy whose input `i` carries the public-key hash
    /// of the output it spends. A coinbase is left as it is; an input whose transaction or
    /// output is not in `prev_txs` fails with `MissingPrevTx` and nothing is signed.
    pub fn sign(&mut self, private_key: &[u8], prev_txs: &Vec<Transaction>) -> (r: Result<(), LedgerError>)
        requires
            private_key@.len() == 64,
        ensures
            is_coinbase_model(old(self)@) ==> r is Ok && final(self)@ == old(self)@,
            !is_coinbase_model(old(self)@) && !resolvable(old(self)@, txs_view(prev_txs@)) ==> (
            r matches Err(e) && e is MissingPrevTx) && final(self)@ == old(self)@,
            !is_coinbase_model(old(self)@) && resolvable(old(self)@, txs_view(prev_txs@)) ==> r is Ok
                && final(self)@ == signed(old(self)@, txs_view(prev_txs@), private_key@)
                && forall|i: int| 0 <= i < final(self)@.vin.len() ==> #[trigger] final(self)@.vin[i].signature.len() == 64,
    {
        if self.is_coinbase() {
            return Ok(());
        }
        match check_resolvable(self, prev_txs) {
            Err(e) => return Err(e),
            Ok(()) => {},
        }
        let ghost orig = self@;
        let ghost prev = txs_view(prev_txs@);
        let ghost goal = signed(orig, prev, private_key@);
        let mut tx_copy = self.trim_copy();
        let n = self.vin.len();
        let mut i: usize = 0;
        while i < n
            invariant
                n == orig.vin.len(),
                i <= n,
                prev == txs_view(prev_txs@),
                goal == signed(orig, prev, private_key@),
                resolvable(orig, prev),
                private_key@.len() == 64,
                tx_copy@.vin == trimmed_inputs(orig.vin),
                tx_copy@.vout == orig.vout,
                self@.id == orig.id,
                self@.vout == orig.vout,
                self@.vin.len() == n,
                forall|j: int| 0 <= j < n ==> #[trigger] self@.vin[j] == if j < i { goal.vin[j] } else { orig.vin[j] },
                forall|j: int| 0 <= j < i ==> #[trigger] self@.vin[j].signature.len() == 64,
            decreases n - i,
        {
            assert(input_resolves(orig, prev, i as int));
            assert(self@.vin[i as int] == orig.vin[i as int]);
            let k = match resolve_input(self, prev_txs, i) {
                Some(k) => k,
                None => return Err(LedgerError::MissingPrevTx(self.vin[i].txid.clone())),
            };
            let id = Self::signing_id(&mut tx_copy, prev_txs, k, i, Ghost(orig));
            let signature = ed25519_sign(id.as_str().as_bytes(), private_key);
            let cur = self.vin[i].duplicate();
            let ghost before = self@;
            self.vin.set(i, TXInput { txid: cur.txid, vout: cur.vout, signature, pub_key: cur.pub_key });
            proof {
                assert forall|j: int| 0 <= j < n implies #[trigger] self@.vin[j] == if j < i + 1 { goal.vin[j] } else { orig.vin[j] } by {
                    if j != i {
                        assert(self@.vin[j] == before.vin[j]);
                    }
                }
                assert forall|j: int| 0 <= j < i + 1 implies #[trigger] self@.vin[j].signature.len() == 64 by {
                    if j != i {
                        assert(self@.vin[j] == before.vin[j]);
                    }
                }
            }
            i = i + 1;
        }
        assert(self@.vin =~= goal.vin);
        Ok(())
    }

    /// Whether every input's signature verifies; a coinbase verifies. An input whose
    /// transaction or output is not in `prev_txs` fails with `MissingPrevTx`.
    pub fn verify(&self, prev_txs: &Vec<Transaction>) -> (r: Result<bool, LedgerError>)
        ensures
            is_coinbase_model(self@) ==> (r matches Ok(b) && b),
            !is_coinbase_model(self@) && !resolvable(self@, txs_view(prev_txs@)) ==> (r matches Err(e)
                && e is MissingPrevTx),
            !is_coinbase_model(self@) && resolvable(self@, txs_view(prev_txs@)) ==> (r matches Ok(b)
                && b == verifies(self@, txs_view(prev_txs@))),
    {
        if self.is_coinbase() {
            return Ok(true);
        }
        match check_resolvable(self, prev_txs) {
            Err(e) => return Err(e),
            Ok(()) => {},
        }
        let ghost orig = self@;
        let ghost prev = txs_view(prev_txs@);
        let mut tx_copy = self.trim_copy();
        let n = self.vin.len();
        let mut i: usize = 0;
        while i < n
            invariant
                n == orig.vin.len(),
                i <= n,
                orig == self@,
                prev == txs_view(prev_txs@),
                resolvable(orig, prev),
                tx_copy@.vin == trimmed_inputs(orig.vin),
                tx_copy@.vout == orig.vout,
                forall|j: int| 0 <= j < i ==> #[trigger] input_verifies(orig, prev, j),
            decreases n - i,
        {
            assert(input_resolves(orig, prev, i as int));
            let k = match resolve_input(self, prev_txs, i) {
                Some(k) => k,
                None => return Err(LedgerError::MissingPrevTx(self.vin[i].txid.clone())),
            };
            let id = Self::signing_id(&mut tx_copy, prev_txs, k, i, Ghost(orig));
            let input = &self.vin[i];
            assert(orig.vin[i as int] == input@);
            if input.pub_key.len() != 32 || input.signature.len() != 64 {
                assert(!input_verifies(orig, prev, i as int));
                return Ok(false);
            }
            if !ed25519_verify(id.as_str().as_bytes(), input.pub_key.as_slice(), input.signature.as_slice()) {
                assert(!input_verifies(orig, prev, i as int));
                return Ok(false);
            }
            i = i + 1;
        }
        Ok(true)
    }

    /// Clears the id and returns the hash of the transaction.
    pub fn hash(&mut self) -> (r: String)
        ensures
            final(self).id@ == Seq::<char>::empty(),
            final(self).vin@ == old(self).vin@,
            final(self).vout@ == old(self).vout@,
            r@ == tx_hash(old(self)@.vin, old(self)@.vout),
            r@.len() == 64,
    {
        self.id = String::new();
        let data = encode_transaction(self);
        let digest = sha256(data.as_slice());
        proof { crate::primitives::lemma_hex_len(digest@); }
        to_hex(digest.as_slice())
    }
}

} // verus!
