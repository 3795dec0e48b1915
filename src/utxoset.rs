//! The UTXO index: for each transaction id, its outputs that no input has spent yet.
use vstd::prelude::*;
use crate::blockchain::{chain_wf, scan_order, tx_outputs_ok, Blockchain};
use crate::transaction::{is_coinbase_model, Transaction, TxModel};
use crate::block::Block;
use crate::error::LedgerError;
use crate::transaction::txs_view;
use crate::tx::{bytes_equal, unspent_view, InputModel, OutputModel, TXOutputs, UnspentOutput};

verus! {

/// A record of the index: a transaction id and its unspent outputs with their positions.
pub type RecordModel = (Seq<char>, Seq<(i32, OutputModel)>);

/// The models of a list of records.
pub open spec fn records_view(s: Seq<(String, TXOutputs)>) -> Seq<RecordModel> {
    s.map_values(|e: (String, TXOutputs)| e@)
}

/// The models of a list of spent references.
pub open spec fn refs_view(s: Seq<(String, i32)>) -> Seq<(Seq<char>, i32)> {
    s.map_values(|e: (String, i32)| e@)
}

/// The position of the first record with key `id`.
pub open spec fn key_pos(m: Seq<RecordModel>, id: Seq<char>) -> Option<int>
    decreases m.len(),
{
    if m.len() == 0 {
        None
    } else {
        match key_pos(m.drop_last(), id) {
            Some(k) => Some(k),
            None => if m.last().0 == id { Some(m.len() - 1) } else { None },
        }
    }
}

/// Some output in `outs` sits at position `p`.
pub open spec fn has_position(outs: Seq<(i32, OutputModel)>, p: i32) -> bool {
    exists|x: int| 0 <= x < outs.len() && #[trigger] outs[x].0 == p
}

/// No two outputs in `outs` sit at the same position.
pub open spec fn positions_unique(outs: Seq<(i32, OutputModel)>) -> bool {
    forall|x: int, y: int| 0 <= x < y < outs.len() ==> #[trigger] outs[x].0 != #[trigger] outs[y].0
}

/// A well-formed index: no two records share an id, and no record holds a position twice.
pub open spec fn index_wf(m: Seq<RecordModel>) -> bool {
    &&& forall|a: int, b: int| 0 <= a < b < m.len() ==> #[trigger] m[a].0 != #[trigger] m[b].0
    &&& forall|a: int| 0 <= a < m.len() ==> positions_unique(#[trigger] m[a].1)
}

/// `existing` followed by those of `outs` whose position it does not hold yet.
pub open spec fn merge_outputs(existing: Seq<(i32, OutputModel)>, outs: Seq<(i32, OutputModel)>) -> Seq<(i32, OutputModel)>
    decreases outs.len(),
{
    if outs.len() == 0 {
        existing
    } else {
        let e = merge_outputs(existing, outs.drop_last());
        if has_position(e, outs.last().0) { e } else { e.push(outs.last()) }
    }
}

/// Adds outputs under `id`: those at new positions after the outputs of its record, or
/// all of them as a new record.
pub open spec fn add_outputs(m: Seq<RecordModel>, id: Seq<char>, outs: Seq<(i32, OutputModel)>) -> Seq<RecordModel> {
    if outs.len() == 0 {
        m
    } else {
        match key_pos(m, id) {
            Some(k) => m.update(k, (id, merge_outputs(m[k].1, outs))),
            None => m.push((id, outs)),
        }
    }
}

proof fn lemma_push_unique(e: Seq<(i32, OutputModel)>, x: (i32, OutputModel))
    requires
        positions_unique(e),
        !has_position(e, x.0),
    ensures
        positions_unique(e.push(x)),
{
    let f = e.push(x);
    assert forall|a: int, b: int| 0 <= a < b < f.len() implies #[trigger] f[a].0 != #[trigger] f[b].0 by {
        if b == e.len() {
            assert(f[a] == e[a]);
            if e[a].0 == x.0 {
                assert(has_position(e, x.0));
            }
        } else {
            assert(f[a] == e[a] && f[b] == e[b]);
        }
    }
}

proof fn lemma_merge_unique(existing: Seq<(i32, OutputModel)>, outs: Seq<(i32, OutputModel)>)
    requires
        positions_unique(existing),
    ensures
        positions_unique(merge_outputs(existing, outs)),
    decreases outs.len(),
{
    if outs.len() > 0 {
        lemma_merge_unique(existing, outs.drop_last());
        let e = merge_outputs(existing, outs.drop_last());
        if !has_position(e, outs.last().0) {
            lemma_push_unique(e, outs.last());
        }
    }
}

proof fn lemma_unspent_unique(t: TxModel, spent: Seq<(Seq<char>, i32)>, n: int)
    requires
        0 <= n < i32::MAX,
    ensures
        positions_unique(unspent_of(t, spent, n)),
        forall|x: int| 0 <= x < unspent_of(t, spent, n).len() ==> 0 <= #[trigger] unspent_of(t, spent, n)[x].0 < n,
    decreases n,
{
    if n > 0 {
        lemma_unspent_unique(t, spent, n - 1);
        let e = unspent_of(t, spent, n - 1);
        if !spent.contains((t.id, (n - 1) as i32)) {
            let x = ((n - 1) as i32, t.vout[n - 1]);
            if has_position(e, x.0) {
                let w = choose|w: int| 0 <= w < e.len() && #[trigger] e[w].0 == x.0;
                assert(e[w].0 < n - 1);
            }
            lemma_push_unique(e, x);
            let f = e.push(x);
            assert forall|y: int| 0 <= y < f.len() implies 0 <= #[trigger] f[y].0 < n by {
                if y < e.len() {
                    assert(f[y] == e[y]);
                }
            }
        }
    }
}

proof fn lemma_add_outputs_wf(m: Seq<RecordModel>, id: Seq<char>, outs: Seq<(i32, OutputModel)>)
    requires
        index_wf(m),
        positions_unique(outs),
    ensures
        index_wf(add_outputs(m, id, outs)),
{
    lemma_key_pos_facts(m, id);
    if outs.len() > 0 {
        match key_pos(m, id) {
            Some(k) => {
                lemma_merge_unique(m[k].1, outs);
                let n = add_outputs(m, id, outs);
                assert forall|a: int, b: int| 0 <= a < b < n.len() implies #[trigger] n[a].0 != #[trigger] n[b].0 by {
                    assert(n[a].0 == m[a].0 && n[b].0 == m[b].0);
                }
                assert forall|a: int| 0 <= a < n.len() implies positions_unique(#[trigger] n[a].1) by {
                    if a != k {
                        assert(n[a] == m[a]);
                    }
                }
            },
            None => {
                let n = add_outputs(m, id, outs);
                assert forall|a: int, b: int| 0 <= a < b < n.len() implies #[trigger] n[a].0 != #[trigger] n[b].0 by {
                    if b == m.len() {
                        assert(n[a] == m[a]);
                        assert(m[a].0 != id);
                    } else {
                        assert(n[a] == m[a] && n[b] == m[b]);
                    }
                }
                assert forall|a: int| 0 <= a < n.len() implies positions_unique(#[trigger] n[a].1) by {
                    if a < m.len() {
                        assert(n[a] == m[a]);
                    }
                }
            },
        }
    }
}

/// The unspent outputs of a walk over transactions whose outputs an `i32` indexes form a
/// well-formed index.
pub proof fn lemma_utxo_wf(s: Seq<TxModel>)
    requires
        forall|p: int| 0 <= p < s.len() ==> tx_outputs_ok(#[trigger] s[p]),
    ensures
        index_wf(utxo_of(s)),
    decreases s.len(),
{
    if s.len() > 0 {
        assert forall|p: int| 0 <= p < s.drop_last().len() implies tx_outputs_ok(#[trigger] s.drop_last()[p]) by {
            assert(s.drop_last()[p] == s[p]);
        }
        lemma_utxo_wf(s.drop_last());
        let t = s.last();
        assert(tx_outputs_ok(s[s.len() - 1]));
        lemma_unspent_unique(t, spent_refs(s.drop_last()), t.vout.len() as int);
        lemma_add_outputs_wf(utxo_of(s.drop_last()), t.id, unspent_of(t, spent_refs(s.drop_last()), t.vout.len() as int));
    } else {
        assert(utxo_of(s) =~= Seq::<RecordModel>::empty());
    }
}

/// The outputs that the inputs of `t` spend, unless `t` is a coinbase.
pub open spec fn input_refs(t: TxModel) -> Seq<(Seq<char>, i32)> {
    if is_coinbase_model(t) {
        seq![]
    } else {
        t.vin.map_values(|i: InputModel| (i.txid, i.vout))
    }
}

/// The outputs that the inputs of the transactions in `s` spend.
pub open spec fn spent_refs(s: Seq<TxModel>) -> Seq<(Seq<char>, i32)>
    decreases s.len(),
{
    if s.len() == 0 {
        seq![]
    } else {
        spent_refs(s.drop_last()) + input_refs(s.last())
    }
}

/// The first `n` outputs of `t`, with their positions, but those that `spent` names.
pub open spec fn unspent_of(t: TxModel, spent: Seq<(Seq<char>, i32)>, n: int) -> Seq<(i32, OutputModel)>
    decreases n,
{
    if n <= 0 {
        seq![]
    } else if spent.contains((t.id, (n - 1) as i32)) {
        unspent_of(t, spent, n - 1)
    } else {
        unspent_of(t, spent, n - 1).push(((n - 1) as i32, t.vout[n - 1]))
    }
}

/// The unspent outputs of a walk over `s`: each transaction's outputs that no input of a
/// transaction before it in the walk spends, gathered under the transaction's id.
pub open spec fn utxo_of(s: Seq<TxModel>) -> Seq<RecordModel>
    decreases s.len(),
{
    if s.len() == 0 {
        seq![]
    } else {
        let t = s.last();
        add_outputs(utxo_of(s.drop_last()), t.id, unspent_of(t, spent_refs(s.drop_last()), t.vout.len() as int))
    }
}

proof fn lemma_key_pos_prefix(m: Seq<RecordModel>, id: Seq<char>, n: int)
    requires
        0 <= n <= m.len(),
        key_pos(m.subrange(0, n), id) is Some,
    ensures
        key_pos(m, id) == key_pos(m.subrange(0, n), id),
    decreases m.len(),
{
    if n == m.len() {
        assert(m.subrange(0, n) =~= m);
    } else {
        assert(m.drop_last().subrange(0, n) =~= m.subrange(0, n));
        lemma_key_pos_prefix(m.drop_last(), id, n);
    }
}

pub proof fn lemma_key_pos_facts(m: Seq<RecordModel>, id: Seq<char>)
    ensures
        key_pos(m, id) matches Some(k) ==> 0 <= k < m.len() && m[k].0 == id,
        key_pos(m, id) is None ==> forall|k: int| 0 <= k < m.len() ==> #[trigger] m[k].0 != id,
    decreases m.len(),
{
    if m.len() > 0 {
        lemma_key_pos_facts(m.drop_last(), id);
        if key_pos(m, id) is None {
            assert forall|k: int| 0 <= k < m.len() implies #[trigger] m[k].0 != id by {
                if k < m.len() - 1 {
                    assert(m.drop_last()[k] == m[k]);
                }
            }
        }
    }
}

/// The position of the first record with key `id`.
pub fn find_record(records: &Vec<(String, TXOutputs)>, id: &String) -> (r: Option<usize>)
    ensures
        match r {
            Some(k) => key_pos(records_view(records@), id@) == Some(k as int),
            None => key_pos(records_view(records@), id@) is None,
        },
{
    let ghost m = records_view(records@);
    let mut i: usize = 0;
    while i < records.len()
        invariant
            i <= records@.len(),
            m == records_view(records@),
            key_pos(m.subrange(0, i as int), id@) is None,
        decreases records@.len() - i,
    {
        proof {
            let next = m.subrange(0, i + 1);
            assert(next.drop_last() =~= m.subrange(0, i as int));
            assert(next.last() == records@[i as int]@);
        }
        if records[i].0 == *id {
            proof { lemma_key_pos_prefix(m, id@, i + 1); }
            return Some(i);
        }
        i = i + 1;
    }
    assert(m.subrange(0, m.len() as int) =~= m);
    None
}

/// Whether some output of `outs` sits at position `p`.
fn holds_position(outs: &TXOutputs, p: i32) -> (r: bool)
    ensures
        r == has_position(outs@, p),
{
    let mut i: usize = 0;
    while i < outs.outputs.len()
        invariant
            i <= outs@.len(),
            forall|x: int| 0 <= x < i ==> #[trigger] outs@[x].0 != p,
        decreases outs@.len() - i,
    {
        assert(outs@[i as int] == outs.outputs@[i as int]@);
        if outs.outputs[i].vout == p {
            assert(outs@[i as int].0 == p);
            return true;
        }
        i = i + 1;
    }
    false
}

/// Adds to `outs` the outputs of `extra` at positions it does not hold yet.
fn merge_into(outs: &mut TXOutputs, extra: &TXOutputs)
    ensures
        final(outs)@ == merge_outputs(old(outs)@, extra@),
{
    let mut i: usize = 0;
    while i < extra.outputs.len()
        invariant
            i <= extra@.len(),
            outs@ == merge_outputs(old(outs)@, extra@.subrange(0, i as int)),
        decreases extra@.len() - i,
    {
        let u = &extra.outputs[i];
        assert(extra@[i as int] == u@);
        let ghost next = extra@.subrange(0, i + 1);
        assert(next.drop_last() =~= extra@.subrange(0, i as int));
        assert(next.last() == u@);
        if !holds_position(outs, u.vout) {
            let ghost prior = outs.outputs@;
            outs.outputs.push(UnspentOutput { vout: u.vout, output: u.output.duplicate() });
            assert(outs.outputs@ == prior.push(outs.outputs@.last()));
            assert(unspent_view(outs.outputs@) =~= unspent_view(prior).push(u@));
        }
        i = i + 1;
    }
    assert(extra@.subrange(0, extra@.len() as int) =~= extra@);
}

/// Adds `outs` under `id`, as `add_outputs` says.
pub fn add_record(records: &mut Vec<(String, TXOutputs)>, id: &String, outs: TXOutputs)
    ensures
        records_view(final(records)@) == add_outputs(records_view(old(records)@), id@, outs@),
{
    if outs.outputs.len() == 0 {
        return;
    }
    let ghost m = records_view(records@);
    match find_record(records, id) {
        Some(k) => {
            proof { lemma_key_pos_facts(m, id@); }
            let mut rec = records[k].1.duplicate();
            assert(m[k as int] == records@[k as int]@);
            merge_into(&mut rec, &outs);
            let ghost new_entry = (id@, rec@);
            records.set(k, (id.clone(), rec));
            assert(records_view(records@) =~= m.update(k as int, new_entry));
        },
        None => {
            let ghost o = outs@;
            records.push((id.clone(), outs));
            assert(records_view(records@) =~= m.push((id@, o)));
        },
    }
}

/// Whether `spent` names output `idx` of transaction `id`.
pub(crate) fn is_spent(spent: &Vec<(String, i32)>, id: &String, idx: i32) -> (r: bool)
    ensures
        r == refs_view(spent@).contains((id@, idx)),
{
    let ghost m = refs_view(spent@);
    let mut i: usize = 0;
    while i < spent.len()
        invariant
            i <= spent@.len(),
            m == refs_view(spent@),
            forall|j: int| 0 <= j < i ==> #[trigger] m[j] != (id@, idx),
        decreases spent@.len() - i,
    {
        assert(m[i as int] == spent@[i as int]@);
        if spent[i].1 == idx && spent[i].0 == *id {
            assert(m[i as int] == (id@, idx));
            return true;
        }
        i = i + 1;
    }
    false
}

/// The outputs of `tx` that `spent` does not name, with their positions.
fn unspent_outputs(tx: &Transaction, spent: &Vec<(String, i32)>) -> (r: TXOutputs)
    requires
        tx@.vout.len() < i32::MAX,
    ensures
        r@ == unspent_of(tx@, refs_view(spent@), tx@.vout.len() as int),
{
    let mut r = TXOutputs { outputs: Vec::new() };
    let mut k: usize = 0;
    while k < tx.vout.len()
        invariant
            k <= tx@.vout.len(),
            tx@.vout.len() < i32::MAX,
            r@ == unspent_of(tx@, refs_view(spent@), k as int),
        decreases tx@.vout.len() - k,
    {
        if !is_spent(spent, &tx.id, k as i32) {
            assert(tx@.vout[k as int] == tx.vout@[k as int]@);
            let ghost prior = r.outputs@;
            r.outputs.push(UnspentOutput { vout: k as i32, output: tx.vout[k].duplicate() });
            assert(r.outputs@ == prior.push(r.outputs@.last()));
            assert(r@ =~= unspent_of(tx@, refs_view(spent@), k as int).push((k as i32, tx@.vout[k as int])));
        }
        k = k + 1;
    }
    r
}

/// Adds the outputs that the inputs of `tx` spend, unless it is a coinbase.
pub(crate) fn record_inputs(spent: &mut Vec<(String, i32)>, tx: &Transaction)
    ensures
        refs_view(final(spent)@) == refs_view(old(spent)@) + input_refs(tx@),
{
    if tx.is_coinbase() {
        assert(refs_view(spent@) =~= refs_view(spent@) + input_refs(tx@));
        return;
    }
    let ghost start = refs_view(spent@);
    let ghost refs = tx@.vin.map_values(|i: InputModel| (i.txid, i.vout));
    let mut j: usize = 0;
    while j < tx.vin.len()
        invariant
            j <= tx@.vin.len(),
            refs == tx@.vin.map_values(|i: InputModel| (i.txid, i.vout)),
            refs_view(spent@) == start + refs.subrange(0, j as int),
        decreases tx@.vin.len() - j,
    {
        assert(tx@.vin[j as int] == tx.vin@[j as int]@);
        let ghost prior = spent@;
        spent.push((tx.vin[j].txid.clone(), tx.vin[j].vout));
        assert(spent@ == prior.push(spent@.last()));
        assert(spent@.last()@ == refs[j as int]);
        assert(refs_view(spent@) =~= refs_view(prior).push(refs[j as int]));
        assert(refs_view(spent@) =~= start + refs.subrange(0, j + 1));
        j = j + 1;
    }
    assert(refs.subrange(0, j as int) =~= refs);
}

/// Every transaction of a walk over a valid chain has non-negative output values and
/// outputs that an `i32` indexes.
pub proof fn lemma_scan_outputs_ok(c: Seq<crate::block::BlockModel>)
    requires
        forall|i: int| 0 <= i < c.len() ==> crate::blockchain::block_shape(#[trigger] c[i].transactions),
    ensures
        forall|p: int| 0 <= p < scan_order(c).len() ==> tx_outputs_ok(#[trigger] scan_order(c)[p]),
    decreases c.len(),
{
    if c.len() > 0 {
        assert forall|i: int| 0 <= i < c.drop_first().len() implies crate::blockchain::block_shape(
            #[trigger] c.drop_first()[i].transactions,
        ) by {
            assert(c.drop_first()[i] == c[i + 1]);
        }
        lemma_scan_outputs_ok(c.drop_first());
        let rest = scan_order(c.drop_first());
        assert forall|p: int| 0 <= p < scan_order(c).len() implies tx_outputs_ok(#[trigger] scan_order(c)[p]) by {
            if p >= rest.len() {
                assert(scan_order(c)[p] == c[0].transactions[p - rest.len()]);
                assert(crate::blockchain::block_shape(c[0].transactions));
            } else {
                assert(scan_order(c)[p] == rest[p]);
            }
        }
    }
}

/// The outputs that the inputs of `t` whose key hashes to `pkh` spend, unless `t` is a
/// coinbase.
pub open spec fn input_refs_by(t: TxModel, pkh: Seq<u8>) -> Seq<(Seq<char>, i32)> {
    if is_coinbase_model(t) {
        seq![]
    } else {
        refs_by(t.vin, pkh)
    }
}

pub open spec fn refs_by(vin: Seq<InputModel>, pkh: Seq<u8>) -> Seq<(Seq<char>, i32)>
    decreases vin.len(),
{
    if vin.len() == 0 {
        seq![]
    } else if crate::primitives::pub_key_hash_of(vin.last().pub_key) == pkh {
        refs_by(vin.drop_last(), pkh).push((vin.last().txid, vin.last().vout))
    } else {
        refs_by(vin.drop_last(), pkh)
    }
}

/// The outputs that inputs of the transactions in `s` whose key hashes to `pkh` spend.
pub open spec fn spent_refs_by(s: Seq<TxModel>, pkh: Seq<u8>) -> Seq<(Seq<char>, i32)>
    decreases s.len(),
{
    if s.len() == 0 {
        seq![]
    } else {
        spent_refs_by(s.drop_last(), pkh) + input_refs_by(s.last(), pkh)
    }
}

/// `t` once for each of its first `n` outputs that is locked to `pkh` and that `spent`
/// does not name.
pub open spec fn copies_for(t: TxModel, spent: Seq<(Seq<char>, i32)>, pkh: Seq<u8>, n: int) -> Seq<TxModel>
    decreases n,
{
    if n <= 0 {
        seq![]
    } else if !spent.contains((t.id, (n - 1) as i32)) && t.vout[n - 1].pub_key_hash == pkh {
        copies_for(t, spent, pkh, n - 1).push(t)
    } else {
        copies_for(t, spent, pkh, n - 1)
    }
}

/// The transactions of a walk over `s` with outputs locked to `pkh` that no input of a
/// transaction before it, with a key hashing to `pkh`, spends: once per such output.
pub open spec fn unspent_txs_of(s: Seq<TxModel>, pkh: Seq<u8>) -> Seq<TxModel>
    decreases s.len(),
{
    if s.len() == 0 {
        seq![]
    } else {
        unspent_txs_of(s.drop_last(), pkh) + copies_for(
            s.last(),
            spent_refs_by(s.drop_last(), pkh),
            pkh,
            s.last().vout.len() as int,
        )
    }
}

/// Takes one transaction of a walk into the transactions with unspent outputs locked to
/// `address` and into the references spent by `address`'s inputs.
fn absorb_for_address(found: &mut Vec<Transaction>, spent: &mut Vec<(String, i32)>, tx: &Transaction, address: &[u8])
    requires
        tx_outputs_ok(tx@),
    ensures
        txs_view(final(found)@) == txs_view(old(found)@) + copies_for(
            tx@,
            refs_view(old(spent)@),
            address@,
            tx@.vout.len() as int,
        ),
        refs_view(final(spent)@) == refs_view(old(spent)@) + input_refs_by(tx@, address@),
{
    let ghost start = txs_view(found@);
    let mut k: usize = 0;
    while k < tx.vout.len()
        invariant
            k <= tx@.vout.len(),
            tx@.vout.len() < i32::MAX,
            refs_view(spent@) == refs_view(old(spent)@),
            txs_view(found@) == start + copies_for(tx@, refs_view(spent@), address@, k as int),
        decreases tx@.vout.len() - k,
    {
        assert(tx@.vout[k as int] == tx.vout@[k as int]@);
        if !is_spent(spent, &tx.id, k as i32) && tx.vout[k].can_be_unlocked_with(address) {
            let ghost prior = found@;
            found.push(tx.duplicate());
            assert(found@ == prior.push(found@.last()));
            assert(txs_view(found@) =~= txs_view(prior).push(tx@));
        }
        k = k + 1;
    }
    if tx.is_coinbase() {
        assert(refs_view(spent@) =~= refs_view(spent@) + input_refs_by(tx@, address@));
        return;
    }
    let ghost before = refs_view(spent@);
    let mut j: usize = 0;
    while j < tx.vin.len()
        invariant
            j <= tx@.vin.len(),
            !is_coinbase_model(tx@),
            refs_view(spent@) == before + refs_by(tx@.vin.subrange(0, j as int), address@),
        decreases tx@.vin.len() - j,
    {
        assert(tx@.vin[j as int] == tx.vin@[j as int]@);
        let ghost next = tx@.vin.subrange(0, j + 1);
        assert(next.drop_last() =~= tx@.vin.subrange(0, j as int));
        assert(next.last() == tx@.vin[j as int]);
        if tx.vin[j].can_unlock_output_with(address) {
            let ghost prior = spent@;
            spent.push((tx.vin[j].txid.clone(), tx.vin[j].vout));
            assert(spent@ == prior.push(spent@.last()));
            assert(refs_view(spent@) =~= refs_view(prior).push((tx@.vin[j as int].txid, tx@.vin[j as int].vout)));
        }
        assert(refs_view(spent@) =~= before + refs_by(next, address@));
        j = j + 1;
    }
    assert(tx@.vin.subrange(0, j as int) =~= tx@.vin);
}

/// Takes one transaction of a walk into the unspent outputs and the spent references.
fn absorb_transaction(utxos: &mut Vec<(String, TXOutputs)>, spent: &mut Vec<(String, i32)>, tx: &Transaction)
    requires
        tx_outputs_ok(tx@),
    ensures
        records_view(final(utxos)@) == add_outputs(
            records_view(old(utxos)@),
            tx@.id,
            unspent_of(tx@, refs_view(old(spent)@), tx@.vout.len() as int),
        ),
        refs_view(final(spent)@) == refs_view(old(spent)@) + input_refs(tx@),
{
    let outs = unspent_outputs(tx, spent);
    add_record(utxos, &tx.id, outs);
    record_inputs(spent, tx);
}

/// Each record's outputs as `(txid, position, output)` entries, records in order.
pub open spec fn entries_of(m: Seq<RecordModel>) -> Seq<(Seq<char>, i32, OutputModel)>
    decreases m.len(),
{
    if m.len() == 0 {
        seq![]
    } else {
        entries_of(m.drop_last()) + record_entries(m.last())
    }
}

pub open spec fn record_entries(r: RecordModel) -> Seq<(Seq<char>, i32, OutputModel)> {
    r.1.map_values(|e: (i32, OutputModel)| (r.0, e.0, e.1))
}

/// Goes through `entries` in order and takes each output locked to `pkh` with a
/// non-negative value while the total taken is below `amount`: the total and what was taken.
pub open spec fn select(entries: Seq<(Seq<char>, i32, OutputModel)>, pkh: Seq<u8>, amount: int) -> (int, Seq<(Seq<char>, i32)>)
    decreases entries.len(),
{
    if entries.len() == 0 {
        (0, seq![])
    } else {
        let (acc, sel) = select(entries.drop_last(), pkh, amount);
        let e = entries.last();
        if e.2.pub_key_hash == pkh && e.2.value >= 0 && acc < amount {
            (acc + e.2.value, sel.push((e.0, e.1)))
        } else {
            (acc, sel)
        }
    }
}

/// Every entry of `entries_of(m)` carries the id of some record of `m`.
proof fn lemma_entry_ids(m: Seq<RecordModel>)
    ensures
        forall|a: int| 0 <= a < entries_of(m).len() ==> exists|k: int| 0 <= k < m.len() && #[trigger] entries_of(m)[a].0 == m[k].0,
    decreases m.len(),
{
    if m.len() > 0 {
        lemma_entry_ids(m.drop_last());
        let e = entries_of(m.drop_last());
        let r = record_entries(m.last());
        assert(entries_of(m) == e + r);
        assert forall|a: int| 0 <= a < entries_of(m).len() implies exists|k: int| 0 <= k < m.len() && #[trigger] entries_of(m)[a].0 == m[k].0 by {
            if a < e.len() {
                assert(entries_of(m)[a] == e[a]);
                let k = choose|k: int| 0 <= k < m.drop_last().len() && e[a].0 == m.drop_last()[k].0;
                assert(m.drop_last()[k] == m[k]);
            } else {
                assert(entries_of(m)[a] == r[a - e.len()]);
                assert(entries_of(m)[a].0 == m[m.len() - 1].0);
            }
        }
    }
}

/// In a well-formed index no two entries share an id and a position.
proof fn lemma_entries_distinct(m: Seq<RecordModel>)
    requires
        index_wf(m),
    ensures
        forall|a: int, b: int| 0 <= a < b < entries_of(m).len() ==> (#[trigger] entries_of(m)[a].0, entries_of(m)[a].1) != (
            #[trigger] entries_of(m)[b].0, entries_of(m)[b].1),
    decreases m.len(),
{
    if m.len() > 0 {
        let d = m.drop_last();
        assert forall|a: int, b: int| 0 <= a < b < d.len() implies #[trigger] d[a].0 != #[trigger] d[b].0 by {
            assert(d[a] == m[a] && d[b] == m[b]);
        }
        assert forall|a: int| 0 <= a < d.len() implies positions_unique(#[trigger] d[a].1) by {
            assert(d[a] == m[a]);
        }
        lemma_entries_distinct(d);
        lemma_entry_ids(d);
        let e = entries_of(d);
        let r = record_entries(m.last());
        assert(entries_of(m) == e + r);
        assert(positions_unique(m[m.len() - 1].1));
        assert forall|a: int, b: int| 0 <= a < b < entries_of(m).len() implies (#[trigger] entries_of(m)[a].0, entries_of(m)[a].1) != (
            #[trigger] entries_of(m)[b].0, entries_of(m)[b].1) by {
            let x = entries_of(m);
            if b < e.len() {
                assert(x[a] == e[a] && x[b] == e[b]);
            } else if a >= e.len() {
                assert(x[a] == r[a - e.len()] && x[b] == r[b - e.len()]);
                assert(r[a - e.len()].1 == m.last().1[a - e.len()].0);
                assert(r[b - e.len()].1 == m.last().1[b - e.len()].0);
            } else {
                assert(x[a] == e[a]);
                let k = choose|k: int| 0 <= k < d.len() && e[a].0 == d[k].0;
                assert(d[k] == m[k]);
                assert(x[b] == r[b - e.len()]);
                assert(x[b].0 == m[m.len() - 1].0);
            }
        }
    }
}

/// What `select` takes is the id and position of entries, each taken once.
proof fn lemma_select_distinct(entries: Seq<(Seq<char>, i32, OutputModel)>, pkh: Seq<u8>, amount: int)
    requires
        forall|a: int, b: int| 0 <= a < b < entries.len() ==> (#[trigger] entries[a].0, entries[a].1) != (
            #[trigger] entries[b].0, entries[b].1),
    ensures
        select(entries, pkh, amount).1.no_duplicates(),
        forall|s: int| 0 <= s < select(entries, pkh, amount).1.len() ==> exists|a: int| 0 <= a < entries.len()
            && #[trigger] select(entries, pkh, amount).1[s] == (entries[a].0, entries[a].1),
    decreases entries.len(),
{
    if entries.len() > 0 {
        let d = entries.drop_last();
        assert forall|a: int, b: int| 0 <= a < b < d.len() implies (#[trigger] d[a].0, d[a].1) != (#[trigger] d[b].0, d[b].1) by {
            assert(d[a] == entries[a] && d[b] == entries[b]);
        }
        lemma_select_distinct(d, pkh, amount);
        let prev = select(d, pkh, amount).1;
        let cur = select(entries, pkh, amount).1;
        let last = entries.last();
        assert forall|s: int| 0 <= s < prev.len() implies #[trigger] prev[s] != (last.0, last.1) by {
            let a = choose|a: int| 0 <= a < d.len() && prev[s] == (d[a].0, d[a].1);
            assert(d[a] == entries[a]);
            assert(last == entries[entries.len() - 1]);
        }
        assert forall|s: int| 0 <= s < cur.len() implies exists|a: int| 0 <= a < entries.len()
            && #[trigger] cur[s] == (entries[a].0, entries[a].1) by {
            if s < prev.len() {
                assert(cur[s] == prev[s]);
                let a = choose|a: int| 0 <= a < d.len() && prev[s] == (d[a].0, d[a].1);
                assert(d[a] == entries[a]);
            } else {
                assert(cur[s] == (last.0, last.1));
                assert(entries[entries.len() - 1] == last);
            }
        }
        assert forall|x: int, y: int| 0 <= x < y < cur.len() implies cur[x] != cur[y] by {
            if y >= prev.len() {
                assert(cur[x] == prev[x]);
            } else {
                assert(cur[x] == prev[x] && cur[y] == prev[y]);
            }
        }
    }
}

/// The entries whose outputs are locked to `pkh`.
pub open spec fn locked_to(entries: Seq<(Seq<char>, i32, OutputModel)>, pkh: Seq<u8>) -> Seq<(i32, OutputModel)>
    decreases entries.len(),
{
    if entries.len() == 0 {
        seq![]
    } else if entries.last().2.pub_key_hash == pkh {
        locked_to(entries.drop_last(), pkh).push((entries.last().1, entries.last().2))
    } else {
        locked_to(entries.drop_last(), pkh)
    }
}

/// The outputs but those at position `vout`.
pub open spec fn drop_vout(outs: Seq<(i32, OutputModel)>, vout: i32) -> Seq<(i32, OutputModel)>
    decreases outs.len(),
{
    if outs.len() == 0 {
        seq![]
    } else if outs.last().0 == vout {
        drop_vout(outs.drop_last(), vout)
    } else {
        drop_vout(outs.drop_last(), vout).push(outs.last())
    }
}

/// Spends output `vout` of `txid`: drops it from its record, and the record once empty;
/// `None` when no record has that id.
pub open spec fn spend_one(m: Seq<RecordModel>, txid: Seq<char>, vout: i32) -> Option<Seq<RecordModel>> {
    match key_pos(m, txid) {
        None => None,
        Some(k) => {
            let rest = drop_vout(m[k].1, vout);
            if rest.len() == 0 {
                Some(m.remove(k))
            } else {
                Some(m.update(k, (txid, rest)))
            }
        },
    }
}

/// Spends what each input names, in order.
pub open spec fn spend_all(m: Seq<RecordModel>, vin: Seq<InputModel>) -> Option<Seq<RecordModel>>
    decreases vin.len(),
{
    if vin.len() == 0 {
        Some(m)
    } else {
        match spend_all(m, vin.drop_last()) {
            None => None,
            Some(m2) => spend_one(m2, vin.last().txid, vin.last().vout),
        }
    }
}

/// Stores `outs` as the record of `id`, replacing the one there.
pub open spec fn set_record(m: Seq<RecordModel>, id: Seq<char>, outs: Seq<(i32, OutputModel)>) -> Seq<RecordModel> {
    match key_pos(m, id) {
        Some(k) => m.update(k, (id, outs)),
        None => m.push((id, outs)),
    }
}

/// All outputs of `t` with their positions.
pub open spec fn all_outputs(t: TxModel) -> Seq<(i32, OutputModel)> {
    Seq::new(t.vout.len(), |k: int| (k as i32, t.vout[k]))
}

/// Applies one transaction: spends its inputs unless it is a coinbase, then records all
/// its outputs under its id.
pub open spec fn apply_tx(m: Seq<RecordModel>, t: TxModel) -> Option<Seq<RecordModel>> {
    if t.vout.len() >= i32::MAX {
        None
    } else {
        let spent = if is_coinbase_model(t) { Some(m) } else { spend_all(m, t.vin) };
        match spent {
            None => None,
            Some(m2) => Some(set_record(m2, t.id, all_outputs(t))),
        }
    }
}

/// Applies a block's transactions in order.
pub open spec fn apply_txs(m: Seq<RecordModel>, txs: Seq<TxModel>) -> Option<Seq<RecordModel>>
    decreases txs.len(),
{
    if txs.len() == 0 {
        Some(m)
    } else {
        match apply_txs(m, txs.drop_last()) {
            None => None,
            Some(m2) => apply_tx(m2, txs.last()),
        }
    }
}

proof fn lemma_drop_vout(o: Seq<(i32, OutputModel)>, v: i32)
    requires
        positions_unique(o),
    ensures
        positions_unique(drop_vout(o, v)),
        forall|p: i32| #[trigger] has_position(drop_vout(o, v), p) ==> has_position(o, p),
    decreases o.len(),
{
    if o.len() > 0 {
        let d = o.drop_last();
        assert forall|x: int, y: int| 0 <= x < y < d.len() implies #[trigger] d[x].0 != #[trigger] d[y].0 by {
            assert(d[x] == o[x] && d[y] == o[y]);
        }
        lemma_drop_vout(d, v);
        let e = drop_vout(d, v);
        assert forall|p: i32| #[trigger] has_position(d, p) ==> has_position(o, p) by {
            if has_position(d, p) {
                let w = choose|w: int| 0 <= w < d.len() && d[w].0 == p;
                assert(o[w] == d[w]);
            }
        }
        if o.last().0 != v {
            if has_position(e, o.last().0) {
                let w = choose|w: int| 0 <= w < d.len() && #[trigger] d[w].0 == o.last().0;
                assert(o[w] == d[w]);
                assert(o[o.len() - 1].0 == o.last().0);
            }
            lemma_push_unique(e, o.last());
            assert forall|p: i32| #[trigger] has_position(drop_vout(o, v), p) implies has_position(o, p) by {
                let f = e.push(o.last());
                let w = choose|w: int| 0 <= w < f.len() && #[trigger] f[w].0 == p;
                if w < e.len() {
                    assert(f[w] == e[w]);
                    assert(has_position(e, p));
                } else {
                    assert(o[o.len() - 1].0 == p);
                }
            }
        }
    }
}

proof fn lemma_spend_one_wf(m: Seq<RecordModel>, txid: Seq<char>, vout: i32)
    requires
        index_wf(m),
        spend_one(m, txid, vout) is Some,
    ensures
        index_wf(spend_one(m, txid, vout).unwrap()),
{
    lemma_key_pos_facts(m, txid);
    let k = key_pos(m, txid).unwrap();
    lemma_drop_vout(m[k].1, vout);
    let rest = drop_vout(m[k].1, vout);
    let n = spend_one(m, txid, vout).unwrap();
    if rest.len() == 0 {
        assert forall|a: int, b: int| 0 <= a < b < n.len() implies #[trigger] n[a].0 != #[trigger] n[b].0 by {
            let ia = if a < k { a } else { a + 1 };
            let ib = if b < k { b } else { b + 1 };
            assert(n[a] == m[ia] && n[b] == m[ib]);
        }
        assert forall|a: int| 0 <= a < n.len() implies positions_unique(#[trigger] n[a].1) by {
            let ia = if a < k { a } else { a + 1 };
            assert(n[a] == m[ia]);
        }
    } else {
        assert forall|a: int, b: int| 0 <= a < b < n.len() implies #[trigger] n[a].0 != #[trigger] n[b].0 by {
            assert(n[a].0 == m[a].0 && n[b].0 == m[b].0);
        }
        assert forall|a: int| 0 <= a < n.len() implies positions_unique(#[trigger] n[a].1) by {
            if a != k {
                assert(n[a] == m[a]);
            }
        }
    }
}

proof fn lemma_spend_all_wf(m: Seq<RecordModel>, vin: Seq<InputModel>)
    requires
        index_wf(m),
        spend_all(m, vin) is Some,
    ensures
        index_wf(spend_all(m, vin).unwrap()),
    decreases vin.len(),
{
    if vin.len() > 0 {
        lemma_spend_all_wf(m, vin.drop_last());
        lemma_spend_one_wf(spend_all(m, vin.drop_last()).unwrap(), vin.last().txid, vin.last().vout);
    }
}

proof fn lemma_all_outputs_unique(t: TxModel)
    requires
        t.vout.len() < i32::MAX,
    ensures
        positions_unique(all_outputs(t)),
{
    let o = all_outputs(t);
    assert forall|x: int, y: int| 0 <= x < y < o.len() implies #[trigger] o[x].0 != #[trigger] o[y].0 by {
        assert(o[x].0 == x as i32 && o[y].0 == y as i32);
    }
}

proof fn lemma_set_record_wf(m: Seq<RecordModel>, id: Seq<char>, outs: Seq<(i32, OutputModel)>)
    requires
        index_wf(m),
        positions_unique(outs),
    ensures
        index_wf(set_record(m, id, outs)),
{
    lemma_key_pos_facts(m, id);
    let n = set_record(m, id, outs);
    match key_pos(m, id) {
        Some(k) => {
            assert forall|a: int, b: int| 0 <= a < b < n.len() implies #[trigger] n[a].0 != #[trigger] n[b].0 by {
                assert(n[a].0 == m[a].0 && n[b].0 == m[b].0);
            }
            assert forall|a: int| 0 <= a < n.len() implies positions_unique(#[trigger] n[a].1) by {
                if a != k {
                    assert(n[a] == m[a]);
                }
            }
        },
        None => {
            assert forall|a: int, b: int| 0 <= a < b < n.len() implies #[trigger] n[a].0 != #[trigger] n[b].0 by {
                if b == m.len() {
                    assert(n[a] == m[a]);
                } else {
                    assert(n[a] == m[a] && n[b] == m[b]);
                }
            }
            assert forall|a: int| 0 <= a < n.len() implies positions_unique(#[trigger] n[a].1) by {
                if a < m.len() {
                    assert(n[a] == m[a]);
                }
            }
        },
    }
}

/// Applying transactions to a well-formed index leaves it well formed.
pub proof fn lemma_apply_txs_wf(m: Seq<RecordModel>, txs: Seq<TxModel>)
    requires
        index_wf(m),
        apply_txs(m, txs) is Some,
    ensures
        index_wf(apply_txs(m, txs).unwrap()),
    decreases txs.len(),
{
    if txs.len() > 0 {
        lemma_apply_txs_wf(m, txs.drop_last());
        let m2 = apply_txs(m, txs.drop_last()).unwrap();
        let t = txs.last();
        if !is_coinbase_model(t) {
            lemma_spend_all_wf(m2, t.vin);
        }
        let m3 = if is_coinbase_model(t) { m2 } else { spend_all(m2, t.vin).unwrap() };
        lemma_all_outputs_unique(t);
        lemma_set_record_wf(m3, t.id, all_outputs(t));
    }
}

/// The transactions apply to the index: every input names an id that has a record.
pub open spec fn applies(m: Seq<RecordModel>, txs: Seq<TxModel>) -> bool {
    apply_txs(m, txs) is Some
}

/// A copy of a list of records.
pub fn copy_records(v: &Vec<(String, TXOutputs)>) -> (r: Vec<(String, TXOutputs)>)
    ensures
        records_view(r@) == records_view(v@),
{
    let mut r: Vec<(String, TXOutputs)> = Vec::new();
    let mut i: usize = 0;
    while i < v.len()
        invariant
            i <= v@.len(),
            records_view(r@) == records_view(v@.subrange(0, i as int)),
        decreases v@.len() - i,
    {
        let ghost prior = r@;
        r.push((v[i].0.clone(), v[i].1.duplicate()));
        assert(r@ == prior.push(r@.last()));
        assert(r@.last()@ == v@[i as int]@);
        assert(records_view(r@) =~= records_view(prior).push(v@[i as int]@));
        assert(records_view(r@) =~= records_view(v@.subrange(0, i + 1)));
        i = i + 1;
    }
    assert(v@.subrange(0, v@.len() as int) =~= v@);
    r
}

/// The outputs but those at position `vout`.
fn without_vout(outs: &TXOutputs, vout: i32) -> (r: TXOutputs)
    ensures
        r@ == drop_vout(outs@, vout),
{
    let mut r = TXOutputs { outputs: Vec::new() };
    let mut i: usize = 0;
    while i < outs.outputs.len()
        invariant
            i <= outs@.len(),
            r@ == drop_vout(outs@.subrange(0, i as int), vout),
        decreases outs@.len() - i,
    {
        let u = &outs.outputs[i];
        proof {
            let next = outs@.subrange(0, i + 1);
            assert(next.drop_last() =~= outs@.subrange(0, i as int));
            assert(next.last() == u@);
        }
        if u.vout != vout {
            let ghost prior = r.outputs@;
            r.outputs.push(UnspentOutput { vout: u.vout, output: u.output.duplicate() });
            assert(r.outputs@ == prior.push(r.outputs@.last()));
            assert(r@ =~= unspent_view(prior).push(u@));
        }
        i = i + 1;
    }
    assert(outs@.subrange(0, outs@.len() as int) =~= outs@);
    r
}

/// Spends output `vout` of `txid`, as `spend_one` says; false, with nothing changed, when
/// no record has that id.
fn spend_output(m: &mut Vec<(String, TXOutputs)>, txid: &String, vout: i32) -> (r: bool)
    ensures
        r == spend_one(records_view(old(m)@), txid@, vout) is Some,
        r ==> records_view(final(m)@) == spend_one(records_view(old(m)@), txid@, vout).unwrap(),
        !r ==> final(m)@ == old(m)@,
{
    let ghost before = records_view(m@);
    match find_record(m, txid) {
        None => false,
        Some(k) => {
            proof { lemma_key_pos_facts(before, txid@); }
            assert(before[k as int] == m@[k as int]@);
            let rest = without_vout(&m[k].1, vout);
            if rest.outputs.len() == 0 {
                m.remove(k);
                assert(records_view(m@) =~= before.remove(k as int));
            } else {
                let ghost entry = (txid@, rest@);
                m.set(k, (txid.clone(), rest));
                assert(records_view(m@) =~= before.update(k as int, entry));
            }
            true
        },
    }
}

/// All outputs of `tx` with their positions.
fn outputs_with_positions(tx: &Transaction) -> (r: TXOutputs)
    requires
        tx@.vout.len() < i32::MAX,
    ensures
        r@ == all_outputs(tx@),
{
    let mut r = TXOutputs { outputs: Vec::new() };
    let mut k: usize = 0;
    while k < tx.vout.len()
        invariant
            k <= tx@.vout.len(),
            tx@.vout.len() < i32::MAX,
            r@ == all_outputs(tx@).subrange(0, k as int),
        decreases tx@.vout.len() - k,
    {
        assert(tx@.vout[k as int] == tx.vout@[k as int]@);
        let ghost prior = r.outputs@;
        r.outputs.push(UnspentOutput { vout: k as i32, output: tx.vout[k].duplicate() });
        assert(r.outputs@ == prior.push(r.outputs@.last()));
        assert(unspent_view(r.outputs@) =~= unspent_view(prior).push((k as i32, tx@.vout[k as int])));
        assert(r@ =~= all_outputs(tx@).subrange(0, k + 1));
        k = k + 1;
    }
    assert(all_outputs(tx@).subrange(0, k as int) =~= all_outputs(tx@));
    r
}

/// Applies one transaction, as `apply_tx` says; false when it cannot be applied.
fn apply_transaction(m: &mut Vec<(String, TXOutputs)>, tx: &Transaction) -> (r: bool)
    ensures
        r == apply_tx(records_view(old(m)@), tx@) is Some,
        r ==> records_view(final(m)@) == apply_tx(records_view(old(m)@), tx@).unwrap(),
{
    if tx.vout.len() >= 0x7fff_ffffusize {
        return false;
    }
    let ghost start = records_view(m@);
    if !tx.is_coinbase() {
        let mut j: usize = 0;
        while j < tx.vin.len()
            invariant
                j <= tx@.vin.len(),
                start == records_view(old(m)@),
                !is_coinbase_model(tx@),
                tx@.vout.len() < i32::MAX,
                spend_all(start, tx@.vin.subrange(0, j as int)) == Some(records_view(m@)),
            decreases tx@.vin.len() - j,
        {
            assert(tx@.vin[j as int] == tx.vin@[j as int]@);
            let ghost next = tx@.vin.subrange(0, j + 1);
            assert(next.drop_last() =~= tx@.vin.subrange(0, j as int));
            assert(next.last() == tx@.vin[j as int]);
            if !spend_output(m, &tx.vin[j].txid, tx.vin[j].vout) {
                assert(spend_all(start, next) is None);
                proof { lemma_spend_all_fails(start, tx@.vin, j as int + 1); }
                assert(apply_tx(start, tx@) is None);
                return false;
            }
            j = j + 1;
        }
        assert(tx@.vin.subrange(0, j as int) =~= tx@.vin);
    }
    let outs = outputs_with_positions(tx);
    let ghost mid = records_view(m@);
    match find_record(m, &tx.id) {
        Some(k) => {
            proof { lemma_key_pos_facts(mid, tx@.id); }
            let ghost entry = (tx@.id, outs@);
            m.set(k, (tx.id.clone(), outs));
            assert(records_view(m@) =~= mid.update(k as int, entry));
        },
        None => {
            let ghost o = outs@;
            m.push((tx.id.clone(), outs));
            assert(records_view(m@) =~= mid.push((tx@.id, o)));
        },
    }
    true
}

/// Once spending a prefix of the inputs fails, spending them all fails.
proof fn lemma_spend_all_fails(m: Seq<RecordModel>, vin: Seq<InputModel>, n: int)
    requires
        0 < n <= vin.len(),
        spend_all(m, vin.subrange(0, n)) is None,
    ensures
        spend_all(m, vin) is None,
    decreases vin.len(),
{
    if n == vin.len() {
        assert(vin.subrange(0, n) =~= vin);
    } else {
        assert(vin.drop_last().subrange(0, n) =~= vin.subrange(0, n));
        lemma_spend_all_fails(m, vin.drop_last(), n);
    }
}

/// Once applying a prefix of the transactions fails, applying them all fails.
proof fn lemma_apply_txs_fails(m: Seq<RecordModel>, txs: Seq<TxModel>, n: int)
    requires
        0 < n <= txs.len(),
        apply_txs(m, txs.subrange(0, n)) is None,
    ensures
        apply_txs(m, txs) is None,
    decreases txs.len(),
{
    if n == txs.len() {
        assert(txs.subrange(0, n) =~= txs);
    } else {
        assert(txs.drop_last().subrange(0, n) =~= txs.subrange(0, n));
        lemma_apply_txs_fails(m, txs.drop_last(), n);
    }
}

/// Whether no two outputs of `outs` sit at the same position.
fn check_positions(outs: &TXOutputs) -> (r: bool)
    ensures
        r == positions_unique(outs@),
{
    let ghost o = outs@;
    let mut x: usize = 0;
    while x < outs.outputs.len()
        invariant
            x <= o.len(),
            o == outs@,
            forall|a: int, b: int| 0 <= a < b < x ==> #[trigger] o[a].0 != #[trigger] o[b].0,
        decreases o.len() - x,
    {
        assert(o[x as int] == outs.outputs@[x as int]@);
        let mut y: usize = 0;
        while y < x
            invariant
                y <= x < o.len(),
                o == outs@,
                forall|a: int| 0 <= a < y ==> #[trigger] o[a].0 != o[x as int].0,
            decreases x - y,
        {
            assert(o[y as int] == outs.outputs@[y as int]@);
            if outs.outputs[y].vout == outs.outputs[x].vout {
                assert(o[y as int].0 == o[x as int].0);
                return false;
            }
            y = y + 1;
        }
        assert forall|a: int, b: int| 0 <= a < b < x + 1 implies #[trigger] o[a].0 != #[trigger] o[b].0 by {
            if b == x {
                assert(o[a].0 != o[x as int].0);
            }
        }
        x = x + 1;
    }
    true
}

/// Whether `records` form a well-formed index.
fn check_index(records: &Vec<(String, TXOutputs)>) -> (r: bool)
    ensures
        r == index_wf(records_view(records@)),
{
    let ghost m = records_view(records@);
    let mut a: usize = 0;
    while a < records.len()
        invariant
            a <= m.len(),
            m == records_view(records@),
            forall|x: int, y: int| 0 <= x < y < a ==> #[trigger] m[x].0 != #[trigger] m[y].0,
            forall|x: int| 0 <= x < a ==> positions_unique(#[trigger] m[x].1),
        decreases m.len() - a,
    {
        assert(m[a as int] == records@[a as int]@);
        let mut b: usize = 0;
        while b < a
            invariant
                b <= a < m.len(),
                m == records_view(records@),
                forall|x: int| 0 <= x < b ==> #[trigger] m[x].0 != m[a as int].0,
            decreases a - b,
        {
            assert(m[b as int] == records@[b as int]@);
            if records[b].0 == records[a].0 {
                assert(m[b as int].0 == m[a as int].0);
                return false;
            }
            b = b + 1;
        }
        if !check_positions(&records[a].1) {
            assert(!positions_unique(m[a as int].1));
            return false;
        }
        assert forall|x: int, y: int| 0 <= x < y < a + 1 implies #[trigger] m[x].0 != #[trigger] m[y].0 by {
            if y == a {
                assert(m[x].0 != m[a as int].0);
            }
        }
        a = a + 1;
    }
    true
}

/// The records of the UTXO index: no two share an id, and no record holds a position twice.
pub struct UtxoIndex {
    records: Vec<(String, TXOutputs)>,
}

impl View for UtxoIndex {
    type V = Seq<RecordModel>;

    closed spec fn view(&self) -> Seq<RecordModel> {
        records_view(self.records@)
    }
}

impl UtxoIndex {
    #[verifier::type_invariant]
    pub closed spec fn inv(&self) -> bool {
        index_wf(records_view(self.records@))
    }

    /// The index is well formed.
    pub fn lemma_wf(&self)
        ensures
            index_wf(self@),
    {
        proof { use_type_invariant(self); }
    }

    /// The index with no records.
    pub fn empty() -> (r: UtxoIndex)
        ensures
            r@ == Seq::<RecordModel>::empty(),
    {
        let r = UtxoIndex { records: Vec::new() };
        assert(r@ =~= Seq::<RecordModel>::empty());
        r
    }

    /// The index holding `records`, as read back from durable storage; `StorageError` when
    /// two records share an id or a record holds a position twice.
    pub fn new(records: Vec<(String, TXOutputs)>) -> (r: Result<UtxoIndex, LedgerError>)
        ensures
            r is Ok <==> index_wf(records_view(records@)),
            match r {
                Ok(ix) => ix@ == records_view(records@),
                Err(e) => e is StorageError,
            },
    {
        if check_index(&records) {
            Ok(UtxoIndex { records })
        } else {
            Err(LedgerError::StorageError)
        }
    }

    /// The records, to write to durable storage.
    pub fn records(&self) -> (r: &Vec<(String, TXOutputs)>)
        ensures
            records_view(r@) == self@,
    {
        &self.records
    }

    /// The index after a block's transactions, as `apply_txs` says; `None` when an input
    /// names an id that has no record.
    pub fn apply(&self, txs: &Vec<Transaction>) -> (r: Option<UtxoIndex>)
        ensures
            r is Some <==> applies(self@, txs_view(txs@)),
            r matches Some(ix) ==> ix@ == apply_txs(self@, txs_view(txs@)).unwrap(),
    {
        let ghost start = self@;
        let ghost tm = txs_view(txs@);
        let mut m = copy_records(&self.records);
        let mut i: usize = 0;
        while i < txs.len()
            invariant
                i <= txs@.len(),
                start == self@,
                tm == txs_view(txs@),
                apply_txs(start, tm.subrange(0, i as int)) == Some(records_view(m@)),
            decreases txs@.len() - i,
        {
            let tx = &txs[i];
            let ghost next = tm.subrange(0, i + 1);
            assert(next.drop_last() =~= tm.subrange(0, i as int));
            assert(next.last() == tx@);
            if !apply_transaction(&mut m, tx) {
                assert(apply_txs(start, next) is None);
                proof { lemma_apply_txs_fails(start, tm, i as int + 1); }
                return None;
            }
            i = i + 1;
        }
        assert(tm.subrange(0, i as int) =~= tm);
        self.lemma_wf();
        proof { lemma_apply_txs_wf(start, tm); }
        Some(UtxoIndex { records: m })
    }
}

/// The chain and, kept beside it, the index of its unspent outputs.
pub struct UTXOSet {
    pub blockchain: Blockchain,
    pub index: UtxoIndex,
}

impl UTXOSet {
    /// Rebuilds the index from a walk over the chain.
    pub fn reindex(&mut self)
        ensures
            final(self).blockchain@ == old(self).blockchain@,
            final(self).index@ == utxo_of(scan_order(final(self).blockchain@)),
    {
        let records = self.blockchain.find_utxo();
        self.blockchain.lemma_valid();
        proof {
            lemma_scan_outputs_ok(self.blockchain@);
            lemma_utxo_wf(scan_order(self.blockchain@));
        }
        self.index = UtxoIndex { records };
    }

    /// Applies a block's transactions to the index in order: each non-coinbase input drops
    /// the output it spends (and its record once empty), then each transaction's outputs
    /// become the record of its id. `StorageError`, with the index unchanged, when an input
    /// names an id that has no record.
    pub fn update(&mut self, block: &Block) -> (r: Result<(), LedgerError>)
        ensures
            final(self).blockchain@ == old(self).blockchain@,
            applies(old(self).index@, block@.transactions) ==> r is Ok
                && final(self).index@ == apply_txs(old(self).index@, block@.transactions).unwrap(),
            !applies(old(self).index@, block@.transactions) ==> (r matches Err(e) && e is StorageError)
                && final(self).index@ == old(self).index@,
    {
        match self.index.apply(&block.transactions) {
            Some(ix) => {
                self.index = ix;
                Ok(())
            },
            None => Err(LedgerError::StorageError),
        }
    }

    /// Picks outputs locked to `address` until they cover `amount`: the total they hold
    /// and, in index order, the `(txid, position)` of each.
    pub fn find_spendable_outputs(&self, address: &[u8], amount: i32) -> (r: (i64, Vec<(String, i32)>))
        ensures
            0 <= r.0 < (if amount > 0 { amount as int } else { 0 }) + 0x8000_0000,
            refs_view(r.1@).no_duplicates(),
            r.0 == select(entries_of(self.index@), address@, amount as int).0,
            refs_view(r.1@) == select(entries_of(self.index@), address@, amount as int).1,
    {
        let ghost m = self.index@;
        self.index.lemma_wf();
        proof {
            lemma_entries_distinct(m);
            lemma_select_distinct(entries_of(m), address@, amount as int);
        }
        let mut acc: i64 = 0;
        let mut sel: Vec<(String, i32)> = Vec::new();
        let mut i: usize = 0;
        while i < self.index.records.len()
            invariant
                i <= self.index.records@.len(),
                m == self.index@,
                0 <= acc < (if amount > 0 { amount as int } else { 0 }) + 0x8000_0000,
                (acc as int, refs_view(sel@)) == select(entries_of(m.subrange(0, i as int)), address@, amount as int),
            decreases self.index.records@.len() - i,
        {
            let (txid, outs) = (&self.index.records[i].0, &self.index.records[i].1);
            let ghost before = entries_of(m.subrange(0, i as int));
            let ghost rec = m[i as int];
            assert(rec == self.index.records@[i as int]@);
            let mut k: usize = 0;
            while k < outs.outputs.len()
                invariant
                    k <= outs@.len(),
                    rec == (txid@, outs@),
                    0 <= acc < (if amount > 0 { amount as int } else { 0 }) + 0x8000_0000,
                    (acc as int, refs_view(sel@)) == select(before + record_entries(rec).subrange(0, k as int), address@, amount as int),
                decreases outs@.len() - k,
            {
                let u = &outs.outputs[k];
                proof {
                    let cur = before + record_entries(rec).subrange(0, k as int);
                    let next = before + record_entries(rec).subrange(0, k + 1);
                    assert(next.drop_last() =~= cur);
                    assert(outs@[k as int] == u@);
                    assert(next.last() == (txid@, u.vout, u.output@));
                }
                if u.output.is_locked_with_key(address) && u.output.value >= 0 && acc < amount as i64 {
                    acc = acc + u.output.value as i64;
                    let ghost prior = sel@;
                    sel.push((txid.clone(), u.vout));
                    assert(sel@ == prior.push(sel@.last()));
                    assert(refs_view(sel@) =~= refs_view(prior).push((txid@, u.vout)));
                }
                k = k + 1;
            }
            proof {
                assert(record_entries(rec).subrange(0, k as int) =~= record_entries(rec));
                let next = m.subrange(0, i + 1);
                assert(next.drop_last() =~= m.subrange(0, i as int));
            }
            i = i + 1;
        }
        assert(m.subrange(0, i as int) =~= m);
        (acc, sel)
    }

    /// The outputs locked to `pub_key_hash`, in index order, with their positions.
    pub fn find_utxos(&self, pub_key_hash: &[u8]) -> (r: TXOutputs)
        ensures
            r@ == locked_to(entries_of(self.index@), pub_key_hash@),
    {
        let ghost m = self.index@;
        let mut r = TXOutputs { outputs: Vec::new() };
        let mut i: usize = 0;
        while i < self.index.records.len()
            invariant
                i <= self.index.records@.len(),
                m == self.index@,
                r@ == locked_to(entries_of(m.subrange(0, i as int)), pub_key_hash@),
            decreases self.index.records@.len() - i,
        {
            let (txid, outs) = (&self.index.records[i].0, &self.index.records[i].1);
            let ghost before = entries_of(m.subrange(0, i as int));
            let ghost rec = m[i as int];
            assert(rec == self.index.records@[i as int]@);
            let mut k: usize = 0;
            while k < outs.outputs.len()
                invariant
                    k <= outs@.len(),
                    rec == (txid@, outs@),
                    r@ == locked_to(before + record_entries(rec).subrange(0, k as int), pub_key_hash@),
                decreases outs@.len() - k,
            {
                let u = &outs.outputs[k];
                proof {
                    let cur = before + record_entries(rec).subrange(0, k as int);
                    let next = before + record_entries(rec).subrange(0, k + 1);
                    assert(next.drop_last() =~= cur);
                    assert(outs@[k as int] == u@);
                    assert(next.last() == (txid@, u.vout, u.output@));
                }
                if u.output.can_be_unlocked_with(pub_key_hash) {
                    let ghost prior = r.outputs@;
                    r.outputs.push(UnspentOutput { vout: u.vout, output: u.output.duplicate() });
                    assert(r.outputs@ == prior.push(r.outputs@.last()));
                    assert(r@ =~= unspent_view(prior).push(u@));
                }
                k = k + 1;
            }
            proof {
                assert(record_entries(rec).subrange(0, k as int) =~= record_entries(rec));
                let next = m.subrange(0, i + 1);
                assert(next.drop_last() =~= m.subrange(0, i as int));
            }
            i = i + 1;
        }
        assert(m.subrange(0, i as int) =~= m);
        r
    }

    /// The number of records in the index.
    pub fn count_transactions(&self) -> (r: usize)
        ensures
            r == self.index@.len(),
    {
        self.index.records.len()
    }
}

impl Blockchain {
    /// The transactions with outputs locked to `address` that no input with a key hashing
    /// to `address` has spent, as a walk from the tip meets them, once per such output.
    pub fn find_unspent_transactions(&self, address: &[u8]) -> (r: Vec<Transaction>)
        ensures
            txs_view(r@) == unspent_txs_of(scan_order(self@), address@),
    {
        self.lemma_valid();
        let all = self.scan();
        let ghost s = scan_order(self@);
        proof { lemma_scan_outputs_ok(self@); }
        let mut found: Vec<Transaction> = Vec::new();
        let mut spent: Vec<(String, i32)> = Vec::new();
        let mut p: usize = 0;
        while p < all.len()
            invariant
                p <= all@.len(),
                s == txs_view(all@),
                forall|q: int| 0 <= q < s.len() ==> tx_outputs_ok(#[trigger] s[q]),
                txs_view(found@) == unspent_txs_of(s.subrange(0, p as int), address@),
                refs_view(spent@) == spent_refs_by(s.subrange(0, p as int), address@),
            decreases all@.len() - p,
        {
            let tx = &all[p];
            let ghost next = s.subrange(0, p + 1);
            proof {
                assert(s[p as int] == tx@);
                assert(tx_outputs_ok(s[p as int]));
                assert(next.drop_last() =~= s.subrange(0, p as int));
                assert(next.last() == tx@);
            }
            absorb_for_address(&mut found, &mut spent, tx, address);
            assert(txs_view(found@) == unspent_txs_of(next, address@));
            assert(refs_view(spent@) == spent_refs_by(next, address@));
            p = p + 1;
        }
        assert(s.subrange(0, s.len() as int) =~= s);
        found
    }

    /// The unspent outputs of the chain, as a walk from the tip finds them: records in the
    /// order their ids are first met, each with its outputs' positions.
    pub fn find_utxo(&self) -> (r: Vec<(String, TXOutputs)>)
        ensures
            records_view(r@) == utxo_of(scan_order(self@)),
    {
        self.lemma_valid();
        let all = self.scan();
        let ghost s = scan_order(self@);
        proof { lemma_scan_outputs_ok(self@); }
        let mut utxos: Vec<(String, TXOutputs)> = Vec::new();
        let mut spent: Vec<(String, i32)> = Vec::new();
        let mut p: usize = 0;
        while p < all.len()
            invariant
                p <= all@.len(),
                s == crate::transaction::txs_view(all@),
                forall|q: int| 0 <= q < s.len() ==> tx_outputs_ok(#[trigger] s[q]),
                records_view(utxos@) == utxo_of(s.subrange(0, p as int)),
                refs_view(spent@) == spent_refs(s.subrange(0, p as int)),
            decreases all@.len() - p,
        {
            let tx = &all[p];
            let ghost next = s.subrange(0, p + 1);
            proof {
                assert(s[p as int] == tx@);
                assert(tx_outputs_ok(s[p as int]));
                assert(next.drop_last() =~= s.subrange(0, p as int));
                assert(next.last() == tx@);
            }
            absorb_transaction(&mut utxos, &mut spent, tx);
            assert(records_view(utxos@) == utxo_of(next));
            assert(refs_view(spent@) == spent_refs(next));
            p = p + 1;
        }
        assert(s.subrange(0, s.len() as int) =~= s);
        utxos
    }
}

} // verus!
