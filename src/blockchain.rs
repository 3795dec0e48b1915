//! The block log: an append-only chain of sealed blocks, walked from the tip to genesis.
use vstd::prelude::*;
use crate::address::{address_body_of, is_plain_text};
use crate::block::{is_sealed, Block, BlockModel};
use crate::error::LedgerError;
use crate::transaction::{
    coinbase_model, find_prev, is_coinbase_model, lookup, referenced_output, resolvable, signed,
    txs_view, verifies, Transaction, TxModel,
};
use crate::tx::OutputModel;
use crate::utxoset::spent_refs;

verus! {

/// The data that the genesis coinbase carries.
pub const GENESIS_COINBASE_DATA: &'static str = "This is the Genesis Block";

/// The models of a list of blocks.
pub open spec fn blocks_view(s: Seq<Block>) -> Seq<BlockModel> {
    s.map_values(|b: Block| b@)
}

/// A block's transactions: a coinbase first, none after it, every output value
/// non-negative and every output list short enough to index with an `i32`.
pub open spec fn block_shape(txs: Seq<TxModel>) -> bool {
    &&& txs.len() >= 1
    &&& is_coinbase_model(txs[0])
    &&& forall|j: int| 1 <= j < txs.len() ==> !is_coinbase_model(#[trigger] txs[j])
    &&& forall|j: int| 0 <= j < txs.len() ==> tx_outputs_ok(#[trigger] txs[j])
}

/// Output values are non-negative and the outputs can be indexed with an `i32`.
pub open spec fn tx_outputs_ok(t: TxModel) -> bool {
    &&& t.vout.len() < i32::MAX
    &&& forall|k: int| 0 <= k < t.vout.len() ==> #[trigger] t.vout[k].value >= 0
}

/// The transaction that `s` holds under each input's id, in input order.
pub open spec fn prev_in(s: Seq<TxModel>, t: TxModel) -> Seq<TxModel> {
    Seq::new(t.vin.len(), |k: int| lookup(s, t.vin[k].txid).unwrap())
}

/// Every input of `t` names a transaction that `s` holds.
pub open spec fn found_in(s: Seq<TxModel>, t: TxModel) -> bool {
    forall|k: int| 0 <= k < t.vin.len() ==> #[trigger] lookup(s, t.vin[k].txid) is Some
}

/// The sum of the values of some outputs.
pub open spec fn outputs_total(vout: Seq<OutputModel>) -> int
    decreases vout.len(),
{
    if vout.len() == 0 { 0 } else { outputs_total(vout.drop_last()) + vout.last().value }
}

/// The sum of the values of the outputs that the first `n` inputs of `t` spend.
pub open spec fn inputs_total(t: TxModel, prev: Seq<TxModel>, n: int) -> int
    decreases n,
{
    if n <= 0 { 0 } else { inputs_total(t, prev, n - 1) + referenced_output(t, prev, n - 1).value }
}

/// A transfer that may follow the transactions `s` (a walk from the tip): every input
/// names an output of a transaction in `s`, every signature verifies, and the values it
/// spends add up to the values it creates.
pub open spec fn tx_valid_in(s: Seq<TxModel>, t: TxModel) -> bool {
    let prev = prev_in(s, t);
    &&& found_in(s, t)
    &&& resolvable(t, prev)
    &&& verifies(t, prev)
    &&& inputs_total(t, prev, t.vin.len() as int) == outputs_total(t.vout)
}

/// Some input of `t` names a transaction or an output that `s` lacks.
pub open spec fn transfer_missing(s: Seq<TxModel>, t: TxModel) -> bool {
    !found_in(s, t) || !resolvable(t, prev_in(s, t))
}

/// Every input of `t` is found in `s`, but a signature does not verify.
pub open spec fn transfer_forged(s: Seq<TxModel>, t: TxModel) -> bool {
    !transfer_missing(s, t) && !verifies(t, prev_in(s, t))
}

/// The signatures of `t` verify against `s`, but the values it spends and creates differ.
pub open spec fn transfer_unbalanced(s: Seq<TxModel>, t: TxModel) -> bool {
    let prev = prev_in(s, t);
    !transfer_missing(s, t) && verifies(t, prev) && inputs_total(t, prev, t.vin.len() as int) != outputs_total(t.vout)
}

/// What each error that refuses a block's transactions after `s` means: `MissingPrevTx`, a
/// transfer names what `s` lacks; `BadSignature`, a transfer's signature fails;
/// `InvalidTransaction`, a transfer's values do not balance or an output is spent twice.
pub open spec fn spend_error_fits(s: Seq<TxModel>, txs: Seq<TxModel>, e: LedgerError) -> bool {
    &&& e is MissingPrevTx ==> exists|j: int| 1 <= j < txs.len() && transfer_missing(s, #[trigger] txs[j])
    &&& e is BadSignature ==> exists|j: int| 1 <= j < txs.len() && transfer_forged(s, #[trigger] txs[j])
    &&& e is InvalidTransaction ==> (exists|j: int| 1 <= j < txs.len() && transfer_unbalanced(s, #[trigger] txs[j]))
        || !spent_refs(txs).no_duplicates()
        || (exists|k: int| 0 <= k < spent_refs(txs).len() && spent_refs(s).contains(#[trigger] spent_refs(txs)[k]))
}

/// A block's transactions may follow the transactions `s`: each transfer is valid, and no
/// output is spent twice, within the block or by `s`.
#[verifier::opaque]
pub open spec fn spends_ok(s: Seq<TxModel>, txs: Seq<TxModel>) -> bool {
    &&& forall|j: int| 1 <= j < txs.len() ==> tx_valid_in(s, #[trigger] txs[j])
    &&& spent_refs(txs).no_duplicates()
    &&& forall|k: int| 0 <= k < spent_refs(txs).len() ==> !spent_refs(s).contains(#[trigger] spent_refs(txs)[k])
}

/// A valid chain, genesis first: each block names its predecessor's hash, is sealed, sits
/// at the height of its position, starts with its only coinbase, and its transfers are
/// valid after the blocks before it.
pub open spec fn chain_wf(c: Seq<BlockModel>) -> bool {
    &&& c.len() >= 1
    &&& c[0].prev_block_hash.len() == 0
    &&& forall|i: int| 1 <= i < c.len() ==> #[trigger] c[i].prev_block_hash == c[i - 1].hash
    &&& forall|i: int| 0 <= i < c.len() ==> is_sealed(#[trigger] c[i])
    &&& forall|i: int| 0 <= i < c.len() ==> #[trigger] c[i].height == i
    &&& forall|i: int| 0 <= i < c.len() ==> block_shape(#[trigger] c[i].transactions)
    &&& forall|i: int| 0 <= i < c.len() ==> spends_ok(scan_order(c.subrange(0, i)), #[trigger] c[i].transactions)
}

/// The transactions in the order of a walk from the tip to genesis, each block's in order.
pub open spec fn scan_order(c: Seq<BlockModel>) -> Seq<TxModel>
    decreases c.len(),
{
    if c.len() == 0 {
        seq![]
    } else {
        scan_order(c.drop_first()) + c[0].transactions
    }
}

/// The blocks from the tip to genesis.
pub open spec fn tip_first(c: Seq<BlockModel>) -> Seq<BlockModel> {
    c.reverse()
}

/// The transaction that the chain holds under each input's id, in input order.
pub open spec fn chain_prev(c: Seq<BlockModel>, t: TxModel) -> Seq<TxModel> {
    Seq::new(t.vin.len(), |k: int| lookup(scan_order(c), t.vin[k].txid).unwrap())
}

/// Every input of `t` names a transaction that the chain holds.
pub open spec fn inputs_found(c: Seq<BlockModel>, t: TxModel) -> bool {
    forall|k: int| 0 <= k < t.vin.len() ==> #[trigger] lookup(scan_order(c), t.vin[k].txid) is Some
}

/// Block `i` of `c` is valid after the blocks before it.
pub open spec fn block_ok(c: Seq<BlockModel>, i: int) -> bool {
    &&& (i >= 1 ==> c[i].prev_block_hash == c[i - 1].hash)
    &&& is_sealed(c[i])
    &&& c[i].height == i
    &&& block_shape(c[i].transactions)
    &&& spends_ok(scan_order(c.subrange(0, i)), c[i].transactions)
}

proof fn lemma_block_ok_of_wf(c: Seq<BlockModel>, i: int)
    requires
        chain_wf(c),
        0 <= i < c.len(),
    ensures
        block_ok(c, i),
{
}

proof fn lemma_wf_of_blocks_ok(c: Seq<BlockModel>)
    requires
        c.len() >= 1,
        c[0].prev_block_hash.len() == 0,
        forall|j: int| 0 <= j < c.len() ==> #[trigger] block_ok(c, j),
    ensures
        chain_wf(c),
{
    assert forall|i: int| 1 <= i < c.len() implies #[trigger] c[i].prev_block_hash == c[i - 1].hash by {
        assert(block_ok(c, i));
    }
    assert forall|i: int| 0 <= i < c.len() implies is_sealed(#[trigger] c[i]) by {
        assert(block_ok(c, i));
    }
    assert forall|i: int| 0 <= i < c.len() implies #[trigger] c[i].height == i by {
        assert(block_ok(c, i));
    }
    assert forall|i: int| 0 <= i < c.len() implies block_shape(#[trigger] c[i].transactions) by {
        assert(block_ok(c, i));
    }
    assert forall|i: int| 0 <= i < c.len() implies spends_ok(scan_order(c.subrange(0, i)), #[trigger] c[i].transactions) by {
        assert(block_ok(c, i));
    }
}

/// The walk reads the last block's transactions first, then the rest of the chain.
pub proof fn lemma_scan_order_last(c: Seq<BlockModel>)
    requires
        c.len() > 0,
    ensures
        scan_order(c) == c.last().transactions + scan_order(c.drop_last()),
    decreases c.len(),
{
    if c.len() == 1 {
        assert(c.drop_first() =~= Seq::<BlockModel>::empty());
        assert(c.drop_last() =~= Seq::<BlockModel>::empty());
        assert(scan_order(c) =~= c.last().transactions + scan_order(c.drop_last()));
    } else {
        lemma_scan_order_last(c.drop_first());
        assert(c.drop_first().drop_last() =~= c.drop_last().drop_first());
        assert(c.drop_first().last() == c.last());
        assert(c.drop_last()[0] == c[0]);
        assert(scan_order(c) =~= c.last().transactions + scan_order(c.drop_last()));
    }
}

/// The spent references of two walks one after the other.
pub proof fn lemma_spent_refs_append(a: Seq<TxModel>, b: Seq<TxModel>)
    ensures
        spent_refs(a + b) == spent_refs(a) + spent_refs(b),
    decreases b.len(),
{
    if b.len() == 0 {
        assert(a + b =~= a);
        assert(spent_refs(a) + spent_refs(b) =~= spent_refs(a));
    } else {
        lemma_spent_refs_append(a, b.drop_last());
        assert((a + b).drop_last() =~= a + b.drop_last());
        assert((a + b).last() == b.last());
        assert(spent_refs(a + b) =~= spent_refs(a) + spent_refs(b));
    }
}

/// No output is spent twice in the first `n` blocks of a chain whose blocks each spend
/// only outputs that the blocks before them left unspent.
proof fn lemma_no_double_spend_prefix(c: Seq<BlockModel>, n: int)
    requires
        0 <= n <= c.len(),
        forall|i: int| 0 <= i < c.len() ==> spends_ok(scan_order(c.subrange(0, i)), #[trigger] c[i].transactions),
    ensures
        spent_refs(scan_order(c.subrange(0, n))).no_duplicates(),
    decreases n,
{
    if n == 0 {
        assert(scan_order(c.subrange(0, 0)) =~= Seq::<TxModel>::empty());
    } else {
        lemma_no_double_spend_prefix(c, n - 1);
        let p = c.subrange(0, n);
        lemma_scan_order_last(p);
        assert(p.drop_last() =~= c.subrange(0, n - 1));
        assert(p.last() == c[n - 1]);
        let txs = c[n - 1].transactions;
        let rest = scan_order(c.subrange(0, n - 1));
        lemma_spent_refs_append(txs, rest);
        assert(spends_ok(rest, txs));
        reveal(spends_ok);
        let a = spent_refs(txs);
        let b = spent_refs(rest);
        let all = a + b;
        assert forall|i: int, j: int| 0 <= i < j < all.len() implies all[i] != all[j] by {
            if j < a.len() {
            } else if i >= a.len() {
                assert(all[i] == b[i - a.len()] && all[j] == b[j - a.len()]);
            } else {
                assert(all[i] == a[i]);
                assert(!b.contains(a[i]));
                assert(all[j] == b[j - a.len()]);
            }
        }
    }
}

/// No double spend: across all inputs of a valid chain that are not coinbase inputs, no
/// `(txid, output index)` pair occurs twice.
pub proof fn lemma_no_double_spend(c: Seq<BlockModel>)
    requires
        chain_wf(c),
    ensures
        spent_refs(scan_order(c)).no_duplicates(),
{
    lemma_no_double_spend_prefix(c, c.len() as int);
    assert(c.subrange(0, c.len() as int) =~= c);
}

/// A copy of a list of transactions.
pub fn copy_transactions(v: &Vec<Transaction>) -> (r: Vec<Transaction>)
    ensures
        txs_view(r@) == txs_view(v@),
{
    let mut r: Vec<Transaction> = Vec::new();
    let mut i: usize = 0;
    while i < v.len()
        invariant
            i <= v@.len(),
            txs_view(r@) == txs_view(v@.subrange(0, i as int)),
        decreases v@.len() - i,
    {
        r.push(v[i].duplicate());
        assert(txs_view(v@.subrange(0, i + 1)) =~= txs_view(v@.subrange(0, i as int)).push(v@[i as int]@));
        i = i + 1;
    }
    assert(v@.subrange(0, v@.len() as int) =~= v@);
    r
}

/// A copy of a list of blocks.
fn copy_blocks(v: &Vec<Block>) -> (r: Vec<Block>)
    ensures
        blocks_view(r@) == blocks_view(v@),
{
    let mut r: Vec<Block> = Vec::new();
    let mut i: usize = 0;
    while i < v.len()
        invariant
            i <= v@.len(),
            blocks_view(r@) == blocks_view(v@.subrange(0, i as int)),
        decreases v@.len() - i,
    {
        r.push(v[i].duplicate());
        assert(blocks_view(v@.subrange(0, i + 1)) =~= blocks_view(v@.subrange(0, i as int)).push(v@[i as int]@));
        i = i + 1;
    }
    assert(v@.subrange(0, v@.len() as int) =~= v@);
    r
}

impl Block {
    /// A copy with the same fields.
    pub fn duplicate(&self) -> (r: Block)
        ensures
            r@ == self@,
    {
        Block {
            timestamp: self.timestamp,
            transactions: copy_transactions(&self.transactions),
            prev_block_hash: self.prev_block_hash.clone(),
            hash: self.hash.clone(),
            height: self.height,
            nonce: self.nonce,
        }
    }
}

/// Whether the transactions have the shape of a block's.
pub fn check_block_shape(txs: &Vec<Transaction>) -> (r: bool)
    ensures
        r == block_shape(txs_view(txs@)),
{
    let ghost m = txs_view(txs@);
    if txs.len() == 0 || !txs[0].is_coinbase() {
        return false;
    }
    let mut j: usize = 0;
    while j < txs.len()
        invariant
            j <= txs@.len(),
            m == txs_view(txs@),
            is_coinbase_model(m[0]),
            m.len() >= 1,
            forall|k: int| 1 <= k < j ==> !is_coinbase_model(#[trigger] m[k]),
            forall|k: int| 0 <= k < j ==> tx_outputs_ok(#[trigger] m[k]),
        decreases txs@.len() - j,
    {
        let t = &txs[j];
        assert(m[j as int] == t@);
        if j >= 1 && t.is_coinbase() {
            return false;
        }
        if t.vout.len() >= 0x7fff_ffffusize {
            assert(!tx_outputs_ok(m[j as int]));
            return false;
        }
        let mut k: usize = 0;
        while k < t.vout.len()
            invariant
                k <= t@.vout.len(),
                m == txs_view(txs@),
                j < m.len(),
                m[j as int] == t@,
                forall|q: int| 0 <= q < k ==> #[trigger] t@.vout[q].value >= 0,
            decreases t@.vout.len() - k,
        {
            assert(t@.vout[k as int] == t.vout@[k as int]@);
            if t.vout[k].value < 0 {
                assert(t@.vout[k as int].value < 0);
                assert(!tx_outputs_ok(t@));
                return false;
            }
            k = k + 1;
        }
        j = j + 1;
    }
    true
}

/// The transactions of the first `n` blocks as a walk from the `n`-th back to genesis reads them.
pub fn scan_prefix(blocks: &Vec<Block>, n: usize) -> (r: Vec<Transaction>)
    requires
        n <= blocks@.len(),
    ensures
        txs_view(r@) == scan_order(blocks_view(blocks@).subrange(0, n as int)),
{
    let ghost c = blocks_view(blocks@);
    let mut r: Vec<Transaction> = Vec::new();
    let mut k: usize = n;
    while k > 0
        invariant
            k <= n,
            n <= blocks@.len(),
            c == blocks_view(blocks@),
            txs_view(r@) == scan_order(c.subrange(k as int, n as int)),
        decreases k,
    {
        k = k - 1;
        let txs = copy_transactions(&blocks[k].transactions);
        let ghost before = r@;
        let mut j: usize = 0;
        while j < txs.len()
            invariant
                j <= txs@.len(),
                txs_view(r@) == txs_view(before) + txs_view(txs@).subrange(0, j as int),
            decreases txs@.len() - j,
        {
            let ghost prior = r@;
            r.push(txs[j].duplicate());
            assert(r@ == prior.push(r@.last()));
            assert(txs_view(r@) =~= txs_view(prior).push(txs@[j as int]@));
            assert(txs_view(r@) =~= txs_view(before) + txs_view(txs@).subrange(0, j + 1));
            j = j + 1;
        }
        proof {
            assert(c[k as int] == blocks@[k as int]@);
            let sub = c.subrange(k as int, n as int);
            assert(sub.drop_first() =~= c.subrange(k + 1, n as int));
            assert(txs_view(txs@).subrange(0, j as int) =~= sub[0].transactions);
            assert(txs_view(r@) =~= scan_order(sub));
        }
    }
    r
}

/// The transactions in `scan` that the inputs of `tx` name, in input order; `MissingPrevTx`
/// when one is missing.
fn prev_list(scan: &Vec<Transaction>, tx: &Transaction) -> (r: Result<Vec<Transaction>, LedgerError>)
    ensures
        match r {
            Ok(prev) => found_in(txs_view(scan@), tx@) && txs_view(prev@) == prev_in(txs_view(scan@), tx@),
            Err(e) => e is MissingPrevTx && !found_in(txs_view(scan@), tx@),
        },
{
    let ghost s = txs_view(scan@);
    let mut prev: Vec<Transaction> = Vec::new();
    let mut i: usize = 0;
    while i < tx.vin.len()
        invariant
            i <= tx@.vin.len(),
            s == txs_view(scan@),
            forall|k: int| 0 <= k < i ==> #[trigger] lookup(s, tx@.vin[k].txid) is Some,
            txs_view(prev@) == prev_in(s, tx@).subrange(0, i as int),
        decreases tx@.vin.len() - i,
    {
        assert(tx@.vin[i as int] == tx.vin@[i as int]@);
        match find_prev(scan, &tx.vin[i].txid) {
            Some(k) => {
                let ghost prior = prev@;
                prev.push(scan[k].duplicate());
                assert(prev@ == prior.push(prev@.last()));
                assert(txs_view(prev@) =~= txs_view(prior).push(scan@[k as int]@));
                assert(txs_view(prev@) =~= prev_in(s, tx@).subrange(0, i + 1));
            },
            None => {
                assert(lookup(s, tx@.vin[i as int].txid) is None);
                return Err(LedgerError::MissingPrevTx(tx.vin[i].txid.clone()));
            },
        }
        i = i + 1;
    }
    assert(prev_in(s, tx@).subrange(0, i as int) =~= prev_in(s, tx@));
    Ok(prev)
}

/// The sum of the values of `vout`.
fn sum_outputs(vout: &Vec<crate::tx::TXOutput>) -> (r: i128)
    ensures
        r == outputs_total(crate::tx::outputs_view(vout@)),
{
    let ghost m = crate::tx::outputs_view(vout@);
    let mut total: i128 = 0;
    let mut i: usize = 0;
    while i < vout.len()
        invariant
            i <= vout@.len(),
            m == crate::tx::outputs_view(vout@),
            total == outputs_total(m.subrange(0, i as int)),
            -0x8000_0000 * (i as int) <= total <= 0x7fff_ffff * (i as int),
        decreases vout@.len() - i,
    {
        proof {
            let next = m.subrange(0, i + 1);
            assert(next.drop_last() =~= m.subrange(0, i as int));
            assert(next.last() == vout@[i as int]@);
        }
        total = total + vout[i].value as i128;
        i = i + 1;
    }
    assert(m.subrange(0, i as int) =~= m);
    total
}

/// Whether `tx`, a transfer, may follow the transactions in `scan`, as `tx_valid_in` says.
fn check_transfer(scan: &Vec<Transaction>, tx: &Transaction) -> (r: Result<(), LedgerError>)
    requires
        !is_coinbase_model(tx@),
    ensures
        r is Ok <==> tx_valid_in(txs_view(scan@), tx@),
        r matches Err(e) ==> e is MissingPrevTx || e is BadSignature || e is InvalidTransaction,
        r matches Err(e) ==> (e is MissingPrevTx ==> transfer_missing(txs_view(scan@), tx@))
            && (e is BadSignature ==> transfer_forged(txs_view(scan@), tx@))
            && (e is InvalidTransaction ==> transfer_unbalanced(txs_view(scan@), tx@)),
{
    let ghost s = txs_view(scan@);
    let prev = match prev_list(scan, tx) {
        Ok(p) => p,
        Err(e) => return Err(e),
    };
    let ghost pv = txs_view(prev@);
    match tx.verify(&prev) {
        Ok(true) => {},
        Ok(false) => return Err(LedgerError::BadSignature),
        Err(e) => return Err(e),
    }
    let mut total_in: i128 = 0;
    let mut i: usize = 0;
    while i < tx.vin.len()
        invariant
            i <= tx@.vin.len(),
            pv == txs_view(prev@),
            resolvable(tx@, pv),
            total_in == inputs_total(tx@, pv, i as int),
            -0x8000_0000 * (i as int) <= total_in <= 0x7fff_ffff * (i as int),
        decreases tx@.vin.len() - i,
    {
        assert(crate::transaction::input_resolves(tx@, pv, i as int));
        let k = match crate::transaction::resolve_input(tx, &prev, i) {
            Some(k) => k,
            None => return Err(LedgerError::MissingPrevTx(tx.vin[i].txid.clone())),
        };
        assert(tx@.vin[i as int] == tx.vin@[i as int]@);
        let v = tx.vin[i].vout as usize;
        assert(prev@[k as int]@.vout[v as int] == prev@[k as int].vout@[v as int]@);
        total_in = total_in + prev[k].vout[v].value as i128;
        i = i + 1;
    }
    if total_in != sum_outputs(&tx.vout) {
        return Err(LedgerError::InvalidTransaction);
    }
    Ok(())
}

proof fn lemma_spent_refs_prefix(txs: Seq<TxModel>, j: int)
    requires
        0 <= j <= txs.len(),
    ensures
        spent_refs(txs.subrange(0, j)).len() <= spent_refs(txs).len(),
        spent_refs(txs.subrange(0, j)) == spent_refs(txs).subrange(0, spent_refs(txs.subrange(0, j)).len() as int),
    decreases txs.len(),
{
    if j == txs.len() {
        assert(txs.subrange(0, j) =~= txs);
        assert(spent_refs(txs).subrange(0, spent_refs(txs).len() as int) =~= spent_refs(txs));
    } else {
        assert(txs.drop_last().subrange(0, j) =~= txs.subrange(0, j));
        lemma_spent_refs_prefix(txs.drop_last(), j);
        let a = spent_refs(txs.subrange(0, j));
        assert(spent_refs(txs) == spent_refs(txs.drop_last()) + crate::utxoset::input_refs(txs.last()));
        assert(spent_refs(txs).subrange(0, a.len() as int) =~= spent_refs(txs.drop_last()).subrange(0, a.len() as int));
    }
}

/// Whether a block's transactions may follow the transactions in `scan`, as `spends_ok`
/// says; they must have a block's shape.
fn check_spends(scan: &Vec<Transaction>, txs: &Vec<Transaction>) -> (r: Result<(), LedgerError>)
    requires
        block_shape(txs_view(txs@)),
    ensures
        r is Ok <==> spends_ok(txs_view(scan@), txs_view(txs@)),
        r matches Err(e) ==> e is MissingPrevTx || e is BadSignature || e is InvalidTransaction,
        r matches Err(e) ==> spend_error_fits(txs_view(scan@), txs_view(txs@), e),
{
    let ghost s = txs_view(scan@);
    let ghost m = txs_view(txs@);
    let mut spent: Vec<(String, i32)> = Vec::new();
    let mut p: usize = 0;
    while p < scan.len()
        invariant
            p <= scan@.len(),
            s == txs_view(scan@),
            crate::utxoset::refs_view(spent@) == spent_refs(s.subrange(0, p as int)),
        decreases scan@.len() - p,
    {
        proof {
            let next = s.subrange(0, p + 1);
            assert(next.drop_last() =~= s.subrange(0, p as int));
            assert(next.last() == scan@[p as int]@);
        }
        crate::utxoset::record_inputs(&mut spent, &scan[p]);
        p = p + 1;
    }
    assert(s.subrange(0, p as int) =~= s);
    let ghost old_refs = spent_refs(s);
    let mut fresh: Vec<(String, i32)> = Vec::new();
    let mut j: usize = 0;
    while j < txs.len()
        invariant
            j <= txs@.len(),
            s == txs_view(scan@),
            m == txs_view(txs@),
            block_shape(m),
            crate::utxoset::refs_view(spent@) == old_refs,
            old_refs == spent_refs(s),
            crate::utxoset::refs_view(fresh@) == spent_refs(m.subrange(0, j as int)),
            forall|q: int| 1 <= q < j ==> tx_valid_in(s, #[trigger] m[q]),
            spent_refs(m.subrange(0, j as int)).no_duplicates(),
            forall|k: int| 0 <= k < spent_refs(m.subrange(0, j as int)).len() ==> !old_refs.contains(
                #[trigger] spent_refs(m.subrange(0, j as int))[k],
            ),
        decreases txs@.len() - j,
    {
        let tx = &txs[j];
        assert(m[j as int] == tx@);
        let ghost before = spent_refs(m.subrange(0, j as int));
        if j >= 1 {
            assert(!is_coinbase_model(m[j as int]));
            match check_transfer(scan, tx) {
                Ok(()) => {},
                Err(e) => {
                    assert(!tx_valid_in(s, m[j as int]));
                    proof { reveal(spends_ok); }
                    assert(spend_error_fits(s, m, e));
                    return Err(e);
                },
            }
        }
        proof {
            let next = m.subrange(0, j + 1);
            assert(next.drop_last() =~= m.subrange(0, j as int));
            assert(next.last() == tx@);
            lemma_spent_refs_prefix(m, j + 1);
        }
        if !tx.is_coinbase() {
            let ghost refs = tx@.vin.map_values(|i: crate::tx::InputModel| (i.txid, i.vout));
            let mut k: usize = 0;
            while k < tx.vin.len()
                invariant
                    k <= tx@.vin.len(),
                    m == txs_view(txs@),
                    j < m.len(),
                    m[j as int] == tx@,
                    !is_coinbase_model(tx@),
                    refs == tx@.vin.map_values(|i: crate::tx::InputModel| (i.txid, i.vout)),
                    crate::utxoset::refs_view(spent@) == old_refs,
                    crate::utxoset::refs_view(fresh@) == before + refs.subrange(0, k as int),
                    (before + refs.subrange(0, k as int)).no_duplicates(),
                    forall|q: int| 0 <= q < before.len() + k ==> !old_refs.contains(
                        #[trigger] (before + refs.subrange(0, k as int))[q],
                    ),
                    spent_refs(m.subrange(0, j + 1)) == before + refs,
                    spent_refs(m.subrange(0, j + 1)).len() <= spent_refs(m).len(),
                    spent_refs(m.subrange(0, j + 1)) == spent_refs(m).subrange(0, spent_refs(m.subrange(0, j + 1)).len() as int),
                    s == txs_view(scan@),
                    old_refs == spent_refs(s),
                decreases tx@.vin.len() - k,
            {
                assert(tx@.vin[k as int] == tx.vin@[k as int]@);
                let ghost cur = before + refs.subrange(0, k as int);
                let ghost x = refs[k as int];
                assert(refs.len() == tx@.vin.len());
                assert(spent_refs(m.subrange(0, j + 1)).len() == before.len() + refs.len());
                assert((before + refs)[before.len() + k] == x);
                assert(x == (tx.vin@[k as int].txid@, tx.vin@[k as int].vout));
                if crate::utxoset::is_spent(&spent, &tx.vin[k].txid, tx.vin[k].vout) {
                    proof {
                        let full = spent_refs(m);
                        let pos = before.len() + k;
                        let len = spent_refs(m.subrange(0, j + 1)).len() as int;
                        assert(spent_refs(m.subrange(0, j + 1))[pos] == x);
                        assert(full.subrange(0, len)[pos] == full[pos]);
                        assert(full[pos] == x);
                        assert(old_refs.contains(x));
                        reveal(spends_ok);
                        assert(!spends_ok(s, m));
                        assert(spend_error_fits(s, m, LedgerError::InvalidTransaction));
                    }
                    return Err(LedgerError::InvalidTransaction);
                }
                if crate::utxoset::is_spent(&fresh, &tx.vin[k].txid, tx.vin[k].vout) {
                    proof {
                        let full = spent_refs(m);
                        let pos = before.len() + k;
                        let len = spent_refs(m.subrange(0, j + 1)).len() as int;
                        assert(cur.contains(x));
                        let q = choose|q: int| 0 <= q < cur.len() && cur[q] == x;
                        assert(cur[q] == (before + refs)[q]);
                        assert(spent_refs(m.subrange(0, j + 1))[pos] == x);
                        assert(spent_refs(m.subrange(0, j + 1))[q] == x);
                        assert(full.subrange(0, len)[pos] == full[pos]);
                        assert(full.subrange(0, len)[q] == full[q]);
                        assert(full[pos] == x && full[q] == x && q != pos);
                        assert(!full.no_duplicates());
                        reveal(spends_ok);
                        assert(spend_error_fits(s, m, LedgerError::InvalidTransaction));
                    }
                    return Err(LedgerError::InvalidTransaction);
                }
                let ghost prior = fresh@;
                fresh.push((tx.vin[k].txid.clone(), tx.vin[k].vout));
                proof {
                    assert(fresh@ == prior.push(fresh@.last()));
                    assert(crate::utxoset::refs_view(fresh@) =~= crate::utxoset::refs_view(prior).push(x));
                    assert(before + refs.subrange(0, k + 1) =~= cur.push(x));
                    assert forall|a: int, b: int| 0 <= a < b < cur.push(x).len() implies cur.push(x)[a] != cur.push(x)[b] by {
                        if b == cur.len() {
                            if cur.push(x)[a] == x {
                                assert(cur.contains(x));
                            }
                        }
                    }
                }
                k = k + 1;
            }
            assert(refs.subrange(0, k as int) =~= refs);
        } else {
            proof {
                assert(spent_refs(m.subrange(0, j + 1)) =~= before);
            }
        }
        j = j + 1;
    }
    assert(m.subrange(0, j as int) =~= m);
    proof { reveal(spends_ok); }
    Ok(())
}

/// The chain of blocks, genesis first; the last block is the tip.
pub struct Blockchain {
    blocks: Vec<Block>,
}

impl View for Blockchain {
    type V = Seq<BlockModel>;

    closed spec fn view(&self) -> Seq<BlockModel> {
        blocks_view(self.blocks@)
    }
}

impl Blockchain {
    /// Every `Blockchain` is a valid chain.
    #[verifier::type_invariant]
    pub closed spec fn inv(&self) -> bool {
        chain_wf(blocks_view(self.blocks@))
    }

    /// The chain is valid.
    pub fn lemma_valid(&self)
        ensures
            chain_wf(self@),
    {
        proof { use_type_invariant(self); }
    }
}

/// Walks the chain from the tip to genesis, one block at a time.
pub struct BlockchainIter<'a> {
    blockchain: &'a Blockchain,
    remaining: usize,
}

impl<'a> BlockchainIter<'a> {
    pub closed spec fn wf(&self) -> bool {
        self.remaining <= self.blockchain.blocks@.len()
    }

    /// The blocks that are still to come, in the order they come.
    pub closed spec fn spec_rest(&self) -> Seq<BlockModel> {
        tip_first(self.blockchain@.subrange(0, self.remaining as int))
    }

    /// The next block towards genesis, or `None` after genesis.
    pub fn next(&mut self) -> (r: Option<Block>)
        requires
            old(self).wf(),
        ensures
            final(self).wf(),
            old(self).spec_rest().len() == 0 ==> r is None && final(self).spec_rest().len() == 0,
            old(self).spec_rest().len() > 0 ==> (r matches Some(b) && b@ == old(self).spec_rest()[0])
                && final(self).spec_rest() == old(self).spec_rest().drop_first(),
    {
        if self.remaining == 0 {
            return None;
        }
        self.remaining = self.remaining - 1;
        let b = self.blockchain.blocks[self.remaining].duplicate();
        proof {
            let all = self.blockchain@;
            assert(tip_first(all.subrange(0, self.remaining as int)) =~= tip_first(
                all.subrange(0, self.remaining + 1),
            ).drop_first());
        }
        Some(b)
    }
}

impl Blockchain {
    /// Opens the log from its blocks as a walk from the tip reads them. `ChainMissing` when
    /// there are none; `StorageError` when they do not form a valid chain.
    pub fn new(blocks_from_tip: Vec<Block>) -> (r: Result<Blockchain, LedgerError>)
        ensures
            match r {
                Ok(bc) => bc@ == blocks_view(blocks_from_tip@).reverse() && chain_wf(bc@),
                Err(e) => (e is ChainMissing && blocks_from_tip@.len() == 0) || (e is StorageError
                    && blocks_from_tip@.len() > 0 && !chain_wf(blocks_view(blocks_from_tip@).reverse())),
            },
    {
        if blocks_from_tip.len() == 0 {
            return Err(LedgerError::ChainMissing);
        }
        let ghost src = blocks_view(blocks_from_tip@);
        let n = blocks_from_tip.len();
        let mut blocks: Vec<Block> = Vec::new();
        let mut i: usize = n;
        while i > 0
            invariant
                i <= n,
                n == blocks_from_tip@.len(),
                src == blocks_view(blocks_from_tip@),
                blocks_view(blocks@) == src.reverse().subrange(0, (n - i) as int),
            decreases i,
        {
            i = i - 1;
            let b = blocks_from_tip[i].duplicate();
            let ghost before = blocks@;
            blocks.push(b);
            proof {
                assert(src[i as int] == blocks_from_tip@[i as int]@);
                assert(src.reverse()[(n - 1 - i) as int] == src[i as int]);
                assert(blocks@ == before.push(blocks@.last()));
                assert(blocks_view(blocks@) =~= blocks_view(before).push(blocks@.last()@));
                assert(blocks_view(blocks@) =~= src.reverse().subrange(0, (n - i) as int));
            }
        }
        assert(src.reverse().subrange(0, n as int) =~= src.reverse());
        if Self::check_wf(&blocks) {
            Ok(Blockchain { blocks })
        } else {
            Err(LedgerError::StorageError)
        }
    }

    /// Whether block `i` links to its predecessor, is sealed, sits at height `i` and has
    /// a block's shape.
    fn check_block_at(blocks: &Vec<Block>, i: usize) -> (r: bool)
        requires
            i < blocks@.len(),
        ensures
            r == block_ok(blocks_view(blocks@), i as int),
    {
        let b = &blocks[i];
        assert(blocks_view(blocks@)[i as int] == b@);
        if i >= 1 {
            assert(blocks_view(blocks@)[i - 1] == blocks@[i - 1]@);
            if b.prev_block_hash != blocks[i - 1].hash {
                return false;
            }
        }
        if i > 0x7fff_ffffusize || b.height != i as i32 {
            return false;
        }
        if !b.validate() {
            return false;
        }
        if b.hash != b.generate_hash() {
            return false;
        }
        if !check_block_shape(&b.transactions) {
            return false;
        }
        let scan = scan_prefix(blocks, i);
        check_spends(&scan, &b.transactions).is_ok()
    }

    /// Whether the blocks form a valid chain.
    fn check_wf(blocks: &Vec<Block>) -> (r: bool)
        ensures
            r == chain_wf(blocks_view(blocks@)),
    {
        let ghost c = blocks_view(blocks@);
        let n = blocks.len();
        if n == 0 {
            return false;
        }
        assert(c[0] == blocks@[0]@);
        if !blocks[0].prev_block_hash.as_str().is_empty() {
            return false;
        }
        let mut i: usize = 0;
        while i < n
            invariant
                n == blocks@.len(),
                c == blocks_view(blocks@),
                c.len() == n,
                c[0].prev_block_hash.len() == 0,
                i <= n,
                forall|j: int| 0 <= j < i ==> #[trigger] block_ok(c, j),
            decreases n - i,
        {
            if !Self::check_block_at(blocks, i) {
                proof {
                    if chain_wf(c) {
                        lemma_block_ok_of_wf(c, i as int);
                    }
                }
                return false;
            }
            i = i + 1;
        }
        proof { lemma_wf_of_blocks_ok(c); }
        true
    }

    /// A new chain whose genesis block pays the reward to `address`.
    pub fn create_blockchain(address: String) -> (r: Result<Blockchain, LedgerError>)
        ensures
            match r {
                Ok(bc) => chain_wf(bc@) && bc@.len() == 1 && is_plain_text(address@)
                    && address_body_of(address@) is Some && bc@[0].transactions == seq![
                    coinbase_model(GENESIS_COINBASE_DATA@, address_body_of(address@).unwrap()),
                ],
                Err(e) => (e is InvalidAddress && (!is_plain_text(address@) || address_body_of(address@) is None))
                    || e is ClockUnavailable || e is NonceExhausted,
            },
            !(is_plain_text(address@) && address_body_of(address@) is Some) ==> (r matches Err(e)
                && e is InvalidAddress),
    {
        let data = String::from_str(GENESIS_COINBASE_DATA);
        proof { reveal_strlit("This is the Genesis Block"); }
        let cbtx = match Transaction::new_coinbase(address, data) {
            Ok(t) => t,
            Err(e) => return Err(e),
        };
        let genesis = match Block::new_genesis_block(cbtx) {
            Ok(b) => b,
            Err(e) => return Err(e),
        };
        let ghost g = genesis@;
        let blocks = vec![genesis];
        proof {
            let c = blocks_view(blocks@);
            assert(c =~= seq![g]);
            assert(c[0] == g);
            assert(coinbase_model(GENESIS_COINBASE_DATA@, address_body_of(address@).unwrap()).vin.len() == 1);
            assert(block_shape(c[0].transactions)) by {
                let t = c[0].transactions[0];
                assert(t.vout.len() == 1);
            }
            assert(scan_order(c.subrange(0, 0)) =~= seq![]);
            assert(spent_refs(c[0].transactions) =~= seq![]) by {
                let txs = c[0].transactions;
                assert(txs.len() == 1);
                assert(is_coinbase_model(txs[0]));
                assert(txs.last() == txs[0]);
                assert(crate::utxoset::input_refs(txs.last()) =~= seq![]);
                assert(txs.drop_last() =~= Seq::<TxModel>::empty());
                assert(spent_refs(Seq::<TxModel>::empty()) =~= seq![]);
            }
            reveal(spends_ok);
            assert(spends_ok(scan_order(c.subrange(0, 0)), c[0].transactions));
        }
        let bc = Blockchain { blocks };
        Ok(bc)
    }

    /// Mines a block of `transactions` on the tip, at the next height, and appends it.
    /// Fails, leaving the chain as it was, when they lack a block's shape or the heights
    /// are used up (`StorageError`), when a transfer is not valid after the chain
    /// (`MissingPrevTx`, `BadSignature`, `InvalidTransaction`), or when the clock or
    /// mining fails.
    pub fn add_block(&mut self, transactions: Vec<Transaction>) -> (r: Result<Block, LedgerError>)
        ensures
            chain_wf(final(self)@),
            match r {
                Ok(b) => final(self)@ == old(self)@.push(b@) && b@.transactions == txs_view(transactions@)
                    && b@.prev_block_hash == old(self)@.last().hash && b.height == old(self)@.len(),
                Err(e) => final(self)@ == old(self)@ && (e is StorageError || e is NonceExhausted
                    || e is ClockUnavailable || e is MissingPrevTx || e is BadSignature
                    || e is InvalidTransaction),
            },
            !block_shape(txs_view(transactions@)) || !spends_ok(scan_order(old(self)@), txs_view(transactions@))
                || old(self)@.len() >= i32::MAX ==> r is Err && !(r matches Err(e) && (e is NonceExhausted
                || e is ClockUnavailable)),
            r matches Err(e) && e is StorageError ==> !block_shape(txs_view(transactions@))
                || old(self)@.len() >= i32::MAX,
            r matches Err(e) ==> spend_error_fits(scan_order(old(self)@), txs_view(transactions@), e),
            block_shape(txs_view(transactions@)) && spends_ok(scan_order(old(self)@), txs_view(transactions@))
                && old(self)@.len() < i32::MAX ==> r is Ok || (r matches Err(e) && (e is NonceExhausted
                || e is ClockUnavailable)),
    {
        proof { use_type_invariant(&*self); }
        let ghost c = self@;
        if !check_block_shape(&transactions) {
            return Err(LedgerError::StorageError);
        }
        let n = self.blocks.len();
        if n >= 0x7fff_ffffusize {
            return Err(LedgerError::StorageError);
        }
        let scan = self.scan();
        match check_spends(&scan, &transactions) {
            Ok(()) => {},
            Err(e) => return Err(e),
        }
        let tip = &self.blocks[n - 1];
        assert(c[n - 1] == tip@);
        let prev_hash = tip.get_hash();
        let block = match Block::new(transactions, prev_hash, n as i32) {
            Ok(b) => b,
            Err(e) => return Err(e),
        };
        let copy = block.duplicate();
        let mut blocks = copy_blocks(&self.blocks);
        blocks.push(block);
        proof {
            let d = blocks_view(blocks@);
            assert(d =~= c.push(copy@));
            assert forall|i: int| 1 <= i < d.len() implies #[trigger] d[i].prev_block_hash == d[i - 1].hash by {
                if i < n {
                    assert(c[i].prev_block_hash == c[i - 1].hash);
                }
            }
            assert forall|i: int| 0 <= i < d.len() implies is_sealed(#[trigger] d[i]) by {
                if i < n {
                    assert(is_sealed(c[i]));
                }
            }
            assert forall|i: int| 0 <= i < d.len() implies #[trigger] d[i].height == i by {
                if i < n {
                    assert(c[i].height == i);
                }
            }
            assert forall|i: int| 0 <= i < d.len() implies block_shape(#[trigger] d[i].transactions) by {
                if i < n {
                    assert(block_shape(c[i].transactions));
                }
            }
            assert forall|i: int| 0 <= i < d.len() implies spends_ok(scan_order(d.subrange(0, i)), #[trigger] d[i].transactions) by {
                assert(d.subrange(0, i) =~= c.subrange(0, i));
                if i < n {
                    assert(spends_ok(scan_order(c.subrange(0, i)), c[i].transactions));
                } else {
                    assert(c.subrange(0, i) =~= c);
                }
            }
        }
        self.blocks = blocks;
        Ok(copy)
    }

    /// The chain's transactions as a walk from the tip reads them.
    pub fn scan(&self) -> (r: Vec<Transaction>)
        ensures
            txs_view(r@) == scan_order(self@),
    {
        let ghost c = self@;
        let n = self.blocks.len();
        let mut r: Vec<Transaction> = Vec::new();
        let mut k: usize = n;
        while k > 0
            invariant
                k <= n,
                n == self.blocks@.len(),
                c == self@,
                c.len() == n,
                txs_view(r@) == scan_order(c.subrange(k as int, n as int)),
            decreases k,
        {
            k = k - 1;
            let txs = copy_transactions(&self.blocks[k].transactions);
            let ghost before = r@;
            let mut j: usize = 0;
            while j < txs.len()
                invariant
                    j <= txs@.len(),
                    txs_view(r@) == txs_view(before) + txs_view(txs@).subrange(0, j as int),
                decreases txs@.len() - j,
            {
                let ghost prior = r@;
                r.push(txs[j].duplicate());
                assert(r@ == prior.push(r@.last()));
                assert(txs_view(r@) =~= txs_view(prior).push(txs@[j as int]@));
                assert(txs_view(r@) =~= txs_view(before) + txs_view(txs@).subrange(0, j + 1));
                j = j + 1;
            }
            proof {
                assert(c[k as int] == self.blocks@[k as int]@);
                let sub = c.subrange(k as int, n as int);
                assert(sub.drop_first() =~= c.subrange(k + 1, n as int));
                assert(txs_view(txs@).subrange(0, j as int) =~= sub[0].transactions);
                assert(txs_view(r@) =~= scan_order(sub));
            }
        }
        assert(c.subrange(0, n as int) =~= c);
        r
    }

    /// The first transaction with id `id` in a walk from the tip; `NotFound` if none.
    pub fn find_transaction(&self, id: &String) -> (r: Result<Transaction, LedgerError>)
        ensures
            match r {
                Ok(t) => lookup(scan_order(self@), id@) == Some(t@),
                Err(e) => e is NotFound && lookup(scan_order(self@), id@) is None,
            },
    {
        let all = self.scan();
        match find_prev(&all, id) {
            Some(k) => Ok(all[k].duplicate()),
            None => Err(LedgerError::NotFound),
        }
    }

    /// The transactions that `tx`'s inputs name, found in the chain, in input order.
    fn get_prev_txs(&self, tx: &Transaction) -> (r: Result<Vec<Transaction>, LedgerError>)
        ensures
            match r {
                Ok(prev) => inputs_found(self@, tx@) && txs_view(prev@) == chain_prev(self@, tx@),
                Err(e) => e is MissingPrevTx && !inputs_found(self@, tx@),
            },
    {
        let mut prev: Vec<Transaction> = Vec::new();
        let mut i: usize = 0;
        while i < tx.vin.len()
            invariant
                i <= tx@.vin.len(),
                forall|k: int| 0 <= k < i ==> #[trigger] lookup(scan_order(self@), tx@.vin[k].txid) is Some,
                txs_view(prev@) == chain_prev(self@, tx@).subrange(0, i as int),
            decreases tx@.vin.len() - i,
        {
            assert(tx@.vin[i as int] == tx.vin@[i as int]@);
            let found = self.find_transaction(&tx.vin[i].txid);
            match found {
                Ok(t) => {
                    assert(chain_prev(self@, tx@)[i as int] == t@);
                    let ghost prior = prev@;
                    prev.push(t);
                    assert(prev@ == prior.push(prev@.last()));
                    assert(txs_view(prev@) =~= txs_view(prior).push(prev@.last()@));
                    assert(txs_view(prev@) =~= chain_prev(self@, tx@).subrange(0, i + 1));
                },
                Err(_) => {
                    assert(lookup(scan_order(self@), tx@.vin[i as int].txid) is None);
                    return Err(LedgerError::MissingPrevTx(tx.vin[i].txid.clone()));
                },
            }
            i = i + 1;
        }
        assert(chain_prev(self@, tx@).subrange(0, i as int) =~= chain_prev(self@, tx@));
        Ok(prev)
    }

    /// Signs `tx` against the transactions in the chain that its inputs name.
    pub fn sign_transaction(&self, tx: &mut Transaction, private_key: &[u8]) -> (r: Result<(), LedgerError>)
        requires
            private_key@.len() == 64,
        ensures
            !inputs_found(self@, old(tx)@) ==> (r matches Err(e) && e is MissingPrevTx) && final(tx)@ == old(tx)@,
            inputs_found(self@, old(tx)@) ==> {
                let prev = chain_prev(self@, old(tx)@);
                &&& is_coinbase_model(old(tx)@) ==> r is Ok && final(tx)@ == old(tx)@
                &&& !is_coinbase_model(old(tx)@) && !resolvable(old(tx)@, prev) ==> (r matches Err(e)
                    && e is MissingPrevTx) && final(tx)@ == old(tx)@
                &&& !is_coinbase_model(old(tx)@) && resolvable(old(tx)@, prev) ==> r is Ok && final(tx)@
                    == signed(old(tx)@, prev, private_key@)
            },
    {
        let prev_txs = match self.get_prev_txs(tx) {
            Ok(p) => p,
            Err(e) => return Err(e),
        };
        tx.sign(private_key, &prev_txs)
    }

    /// Verifies `tx` against the transactions in the chain that its inputs name.
    pub fn verify_transaction(&self, tx: &Transaction) -> (r: Result<bool, LedgerError>)
        ensures
            !inputs_found(self@, tx@) ==> (r matches Err(e) && e is MissingPrevTx),
            inputs_found(self@, tx@) ==> {
                let prev = chain_prev(self@, tx@);
                &&& is_coinbase_model(tx@) ==> (r matches Ok(b) && b)
                &&& !is_coinbase_model(tx@) && !resolvable(tx@, prev) ==> (r matches Err(e)
                    && e is MissingPrevTx)
                &&& !is_coinbase_model(tx@) && resolvable(tx@, prev) ==> (r matches Ok(b) && b
                    == verifies(tx@, prev))
            },
    {
        let prev_txs = match self.get_prev_txs(tx) {
            Ok(p) => p,
            Err(e) => return Err(e),
        };
        tx.verify(&prev_txs)
    }

    /// Copies of the blocks, from the tip to genesis.
    pub fn get_blocks(&self) -> (r: Vec<Block>)
        ensures
            blocks_view(r@) == tip_first(self@),
    {
        let mut it = self.iter();
        let mut blocks: Vec<Block> = Vec::new();
        let ghost all = tip_first(self@);
        while it.remaining > 0
            invariant
                it.wf(),
                all == tip_first(self@),
                all == blocks_view(blocks@) + it.spec_rest(),
                it.spec_rest().len() == it.remaining,
            decreases it.remaining,
        {
            let ghost rest = it.spec_rest();
            match it.next() {
                Some(b) => {
                    blocks.push(b);
                    assert(all =~= blocks_view(blocks@) + it.spec_rest()) by {
                        assert(rest =~= seq![rest[0]] + rest.drop_first());
                    }
                },
                None => {},
            }
        }
        assert(all =~= blocks_view(blocks@));
        blocks
    }

    /// The hash of the tip.
    pub fn tip_hash(&self) -> (r: String)
        ensures
            r@ == self@.last().hash,
    {
        proof { use_type_invariant(self); }
        let n = self.blocks.len();
        assert(self@[n - 1] == self.blocks@[n - 1]@);
        self.blocks[n - 1].get_hash()
    }

    /// The height of the tip.
    pub fn get_best_height(&self) -> (r: i32)
        ensures
            r == self@.last().height,
            r == self@.len() - 1,
    {
        proof { use_type_invariant(self); }
        let n = self.blocks.len();
        assert(self@[n - 1] == self.blocks@[n - 1]@);
        self.blocks[n - 1].height
    }

    /// The block hashes, from the tip to genesis.
    pub fn get_block_hashes(&self) -> (r: Vec<String>)
        ensures
            r@.len() == self@.len(),
            forall|i: int| 0 <= i < r@.len() ==> #[trigger] r@[i]@ == tip_first(self@)[i].hash,
    {
        let blocks = self.get_blocks();
        let mut list: Vec<String> = Vec::new();
        let mut i: usize = 0;
        while i < blocks.len()
            invariant
                i <= blocks@.len(),
                blocks_view(blocks@) == tip_first(self@),
                list@.len() == i,
                forall|j: int| 0 <= j < i ==> #[trigger] list@[j]@ == tip_first(self@)[j].hash,
            decreases blocks@.len() - i,
        {
            assert(blocks_view(blocks@)[i as int] == blocks@[i as int]@);
            list.push(blocks[i].get_hash());
            i = i + 1;
        }
        assert(blocks_view(blocks@).len() == blocks@.len());
        assert(tip_first(self@).len() == self@.len());
        list
    }

    /// A walk from the tip to genesis.
    pub fn iter(&self) -> (r: BlockchainIter<'_>)
        ensures
            r.wf(),
            r.spec_rest() == tip_first(self@),
    {
        let r = BlockchainIter { blockchain: self, remaining: self.blocks.len() };
        assert(self@.subrange(0, self@.len() as int) =~= self@);
        r
    }
}

} // verus!
