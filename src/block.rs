//! Blocks: ordered transactions committed by a Merkle root, sealed by proof of work.
use vstd::prelude::*;
use crate::encoding::{bytes_field, i32_field, le_bytes, push_bytes_field, push_i32, push_le, push_raw, push_text_field, text_field};
use crate::error::LedgerError;
use crate::primitives::{hex_digit, hex_of, now_millis, sha256, sha256_of, to_hex};
use crate::transaction::{tx_hash, txs_view, Transaction, TxModel};

verus! {

/// The number of leading `'0'` hex digits that a block hash must have.
pub const TARGET_HEXT: usize = 4;

/// A block of transactions; `hash` seals every other field but `height`.
#[derive(Debug, Clone)]
pub struct Block {
    pub timestamp: u128,
    pub transactions: Vec<Transaction>,
    pub prev_block_hash: String,
    pub hash: String,
    pub height: i32,
    pub nonce: i32,
}

/// The value of a block.
pub struct BlockModel {
    pub timestamp: u128,
    pub transactions: Seq<TxModel>,
    pub prev_block_hash: Seq<char>,
    pub hash: Seq<char>,
    pub height: i32,
    pub nonce: i32,
}

impl View for Block {
    type V = BlockModel;

    open spec fn view(&self) -> BlockModel {
        BlockModel {
            timestamp: self.timestamp,
            transactions: txs_view(self.transactions@),
            prev_block_hash: self.prev_block_hash@,
            hash: self.hash@,
            height: self.height,
            nonce: self.nonce,
        }
    }
}

/// Node `i` of the complete binary Merkle tree over `leaves`, laid out as an array whose
/// last `leaves.len()` entries are the leaves and whose node `i` merges `2i+1` and `2i+2`.
pub open spec fn merkle_node(leaves: Seq<Seq<u8>>, i: int) -> Seq<u8>
    decreases 2 * leaves.len() - i,
{
    if 0 <= i < leaves.len() - 1 {
        sha256_of(merkle_node(leaves, 2 * i + 1) + merkle_node(leaves, 2 * i + 2))
    } else {
        leaves[i - (leaves.len() - 1)]
    }
}

/// The Merkle root of `leaves`; empty when there are none.
pub open spec fn merkle_root_of(leaves: Seq<Seq<u8>>) -> Seq<u8> {
    if leaves.len() == 0 { seq![] } else { merkle_node(leaves, 0) }
}

/// The leaves of a block's Merkle tree: the UTF-8 text of each transaction's hash.
pub open spec fn tx_leaves(txs: Seq<TxModel>) -> Seq<Seq<u8>> {
    txs.map_values(|t: TxModel| vstd::utf8::encode_utf8(tx_hash(t.vin, t.vout)))
}

/// The proof-of-work preimage: previous hash, Merkle root, timestamp, difficulty, nonce.
pub open spec fn header_bytes(prev: Seq<char>, root: Seq<u8>, timestamp: u128, nonce: i32) -> Seq<u8> {
    text_field(prev) + bytes_field(root) + le_bytes(timestamp as nat, 16) + le_bytes(TARGET_HEXT as nat, 8)
        + i32_field(nonce)
}

/// The hash that a block with these fields must carry.
pub open spec fn block_hash(prev: Seq<char>, txs: Seq<TxModel>, timestamp: u128, nonce: i32) -> Seq<char> {
    hex_of(sha256_of(header_bytes(prev, merkle_root_of(tx_leaves(txs)), timestamp, nonce)))
}

/// The hash recomputed from a block's fields.
pub open spec fn computed_hash(b: BlockModel) -> Seq<char> {
    block_hash(b.prev_block_hash, b.transactions, b.timestamp, b.nonce)
}

/// A hash that begins with the required number of `'0'` digits.
pub open spec fn meets_difficulty(h: Seq<char>) -> bool {
    h.len() >= TARGET_HEXT && forall|i: int| 0 <= i < TARGET_HEXT ==> #[trigger] h[i] == '0'
}

/// A block whose stored hash is its recomputed hash and meets the difficulty.
pub open spec fn is_sealed(b: BlockModel) -> bool {
    &&& b.hash == computed_hash(b)
    &&& meets_difficulty(b.hash)
}

/// The nonces in `[from, to)` all fail the difficulty for these fields.
pub open spec fn no_valid_nonce(prev: Seq<char>, txs: Seq<TxModel>, timestamp: u128, from: int, to: int) -> bool {
    forall|n: i32| from <= n < to ==> !#[trigger] meets_difficulty(block_hash(prev, txs, timestamp, n))
}

proof fn lemma_hex_index(b: Seq<u8>, j: int)
    requires
        0 <= j < b.len(),
    ensures
        hex_of(b).len() == 2 * b.len(),
        hex_of(b)[2 * j] == hex_digit(b[j] as int / 16),
        hex_of(b)[2 * j + 1] == hex_digit(b[j] as int % 16),
    decreases b.len(),
{
    crate::primitives::lemma_hex_len(b);
    crate::primitives::lemma_hex_len(b.drop_last());
    if j < b.len() - 1 {
        lemma_hex_index(b.drop_last(), j);
    }
}

/// Four leading `'0'` hex digits are two leading zero bytes.
proof fn lemma_difficulty_bytes(d: Seq<u8>)
    requires
        d.len() == 32,
    ensures
        meets_difficulty(hex_of(d)) <==> (d[0] == 0 && d[1] == 0),
{
    lemma_hex_index(d, 0);
    lemma_hex_index(d, 1);
    let h = hex_of(d);
    if d[0] == 0 && d[1] == 0 {
        assert forall|i: int| 0 <= i < TARGET_HEXT implies #[trigger] h[i] == '0' by {
            if i == 0 || i == 1 {
            } else {
            }
        }
    } else if meets_difficulty(h) {
        assert(h[0] == '0' && h[1] == '0' && h[2] == '0' && h[3] == '0');
        assert(d[0] as int / 16 == 0 && d[0] as int % 16 == 0);
        assert(d[1] as int / 16 == 0 && d[1] as int % 16 == 0);
    }
}

/// Merges two Merkle nodes: SHA-256 of their concatenation.
pub struct MergeTX;

impl merkle_cbt::merkle_tree::Merge for MergeTX {
    type Item = Vec<u8>;

    fn merge(left: &Vec<u8>, right: &Vec<u8>) -> Vec<u8> {
        let mut data = crate::tx::copy_bytes(left.as_slice());
        push_raw(&mut data, right.as_slice());
        sha256(data.as_slice())
    }
}

/// The models of a list of byte strings.
pub open spec fn leaves_view(s: Seq<Vec<u8>>) -> Seq<Seq<u8>> {
    s.map_values(|v: Vec<u8>| v@)
}

/// Relies on merkle_cbt::merkle_tree::CBMT::build_merkle_tree and MerkleTree::root with the
/// merge above: the array tree whose node `i` merges nodes `2i+1` and `2i+2`, and its node 0.
#[verifier::external_body]
fn build_merkle_root(leaves: &Vec<Vec<u8>>) -> (r: Vec<u8>)
    ensures
        r@ == merkle_root_of(leaves_view(leaves@)),
{
    merkle_cbt::merkle_tree::CBMT::<Vec<u8>, MergeTX>::build_merkle_tree(leaves).root()
}

/// Milliseconds since the Unix epoch; `ClockUnavailable` when the clock reads before it.
pub fn get_timestamp() -> (r: Result<u128, LedgerError>)
    ensures
        r matches Err(e) ==> e is ClockUnavailable,
{
    match now_millis() {
        Some(t) => Ok(t),
        None => Err(LedgerError::ClockUnavailable),
    }
}

impl Block {
    /// The genesis block: the coinbase alone, no predecessor, height 0.
    pub fn new_genesis_block(coinbase: Transaction) -> (r: Result<Block, LedgerError>)
        ensures
            match r {
                Ok(b) => b@.transactions == seq![coinbase@] && b@.prev_block_hash.len() == 0
                    && b.height == 0 && is_sealed(b@) && no_valid_nonce(
                    b@.prev_block_hash,
                    b@.transactions,
                    b.timestamp,
                    0,
                    b.nonce as int,
                ),
                Err(e) => e is ClockUnavailable || e is NonceExhausted,
            },
    {
        let ghost cb = coinbase@;
        let r = Block::new(vec![coinbase], String::new(), 0);
        proof {
            if r is Ok {
                assert(txs_view(seq![coinbase]) =~= seq![cb]);
            }
        }
        r
    }

    /// A mined block of `data` after `prev_block_hash` at `height`, stamped with the
    /// current time; its nonce is the least from 0 that meets the difficulty.
    pub fn new(data: Vec<Transaction>, prev_block_hash: String, height: i32) -> (r: Result<Block, LedgerError>)
        ensures
            match r {
                Ok(b) => b@.transactions == txs_view(data@) && b@.prev_block_hash == prev_block_hash@
                    && b.height == height && is_sealed(b@) && no_valid_nonce(
                    b@.prev_block_hash,
                    b@.transactions,
                    b.timestamp,
                    0,
                    b.nonce as int,
                ),
                Err(e) => e is ClockUnavailable || (e is NonceExhausted && exists|t: u128| #[trigger]
                    no_valid_nonce(prev_block_hash@, txs_view(data@), t, 0, i32::MAX + 1)),
            },
    {
        let timestamp = match get_timestamp() {
            Ok(t) => t,
            Err(e) => return Err(e),
        };
        let mut block = Block {
            timestamp,
            transactions: data,
            prev_block_hash,
            hash: String::new(),
            height,
            nonce: 0,
        };
        match block.run_proof_of_work() {
            Ok(()) => Ok(block),
            Err(e) => {
                assert(no_valid_nonce(prev_block_hash@, txs_view(data@), timestamp, 0, i32::MAX + 1));
                Err(e)
            },
        }
    }

    /// Whether the hash recomputed from the fields meets the difficulty and is the hash
    /// the block carries.
    pub fn validate(&self) -> (r: bool)
        ensures
            r == is_sealed(self@),
            r ==> meets_difficulty(computed_hash(self@)),
    {
        let digest = self.digest_at(&self.header_prefix(), self.nonce);
        proof { lemma_difficulty_bytes(digest@); }
        if digest[0] != 0 || digest[1] != 0 {
            return false;
        }
        let hash = to_hex(digest.as_slice());
        self.hash == hash
    }

    /// Mines: from the current nonce upwards, takes the first nonce whose hash meets the
    /// difficulty and stores that hash. Fails with `NonceExhausted`, leaving the block as
    /// it was, when no nonce up to the largest does.
    pub fn run_proof_of_work(&mut self) -> (r: Result<(), LedgerError>)
        ensures
            final(self).timestamp == old(self).timestamp,
            final(self)@.transactions == old(self)@.transactions,
            final(self)@.prev_block_hash == old(self)@.prev_block_hash,
            final(self).height == old(self).height,
            match r {
                Ok(()) => is_sealed(final(self)@) && old(self).nonce <= final(self).nonce
                    && no_valid_nonce(
                    old(self)@.prev_block_hash,
                    old(self)@.transactions,
                    old(self).timestamp,
                    old(self).nonce as int,
                    final(self).nonce as int,
                ),
                Err(e) => e is NonceExhausted && final(self)@ == old(self)@ && no_valid_nonce(
                    old(self)@.prev_block_hash,
                    old(self)@.transactions,
                    old(self).timestamp,
                    old(self).nonce as int,
                    i32::MAX + 1,
                ),
            },
    {
        let prefix = self.header_prefix();
        let ghost prev = self@.prev_block_hash;
        let ghost txs = self@.transactions;
        let start = self.nonce;
        let mut nonce = self.nonce;
        loop
            invariant
                start <= nonce,
                self@ == old(self)@,
                self.timestamp == old(self).timestamp,
                self.height == old(self).height,
                prev == self@.prev_block_hash,
                txs == self@.transactions,
                start == self.nonce,
                prefix@ == text_field(prev) + bytes_field(merkle_root_of(tx_leaves(txs))) + le_bytes(
                    self.timestamp as nat,
                    16,
                ) + le_bytes(TARGET_HEXT as nat, 8),
                no_valid_nonce(prev, txs, self.timestamp, start as int, nonce as int),
            decreases i32::MAX - nonce,
        {
            let digest = self.digest_at(&prefix, nonce);
            proof { lemma_difficulty_bytes(digest@); }
            if digest[0] == 0 && digest[1] == 0 {
                let hash = to_hex(digest.as_slice());
                self.nonce = nonce;
                self.hash = hash;
                return Ok(());
            }
            if nonce == i32::MAX {
                return Err(LedgerError::NonceExhausted);
            }
            nonce = nonce + 1;
        }
    }

    /// The preimage up to the nonce: previous hash, Merkle root, timestamp, difficulty.
    fn header_prefix(&self) -> (r: Vec<u8>)
        ensures
            r@ == text_field(self@.prev_block_hash) + bytes_field(merkle_root_of(tx_leaves(self@.transactions)))
                + le_bytes(self.timestamp as nat, 16) + le_bytes(TARGET_HEXT as nat, 8),
    {
        let root = self.hash_transactions();
        let mut out: Vec<u8> = Vec::new();
        push_text_field(&mut out, self.prev_block_hash.as_str());
        push_bytes_field(&mut out, root.as_slice());
        push_le(&mut out, self.timestamp, 16);
        push_le(&mut out, TARGET_HEXT as u128, 8);
        out
    }

    /// The SHA-256 of the preimage with `nonce`.
    fn digest_at(&self, prefix: &Vec<u8>, nonce: i32) -> (r: Vec<u8>)
        requires
            prefix@ == text_field(self@.prev_block_hash) + bytes_field(merkle_root_of(tx_leaves(self@.transactions)))
                + le_bytes(self.timestamp as nat, 16) + le_bytes(TARGET_HEXT as nat, 8),
        ensures
            r@ == sha256_of(header_bytes(self@.prev_block_hash, merkle_root_of(tx_leaves(self@.transactions)), self.timestamp, nonce)),
            hex_of(r@) == block_hash(self@.prev_block_hash, self@.transactions, self.timestamp, nonce),
            r@.len() == 32,
    {
        let mut data = crate::tx::copy_bytes(prefix.as_slice());
        push_i32(&mut data, nonce);
        sha256(data.as_slice())
    }

    /// The block hash recomputed from the fields.
    pub fn generate_hash(&self) -> (r: String)
        ensures
            r@ == computed_hash(self@),
            r@.len() == 64,
    {
        let digest = self.digest_at(&self.header_prefix(), self.nonce);
        proof { crate::primitives::lemma_hex_len(digest@); }
        to_hex(digest.as_slice())
    }

    /// The proof-of-work preimage of this block.
    pub fn prepare_hash_data(&self) -> (r: Vec<u8>)
        ensures
            r@ == header_bytes(self@.prev_block_hash, merkle_root_of(tx_leaves(self@.transactions)), self.timestamp, self.nonce),
    {
        let mut data = self.header_prefix();
        push_i32(&mut data, self.nonce);
        data
    }

    /// The Merkle root over the transactions' hashes.
    fn hash_transactions(&self) -> (r: Vec<u8>)
        ensures
            r@ == merkle_root_of(tx_leaves(self@.transactions)),
    {
        let mut leaves: Vec<Vec<u8>> = Vec::new();
        let mut i: usize = 0;
        while i < self.transactions.len()
            invariant
                i <= self.transactions@.len(),
                leaves@.len() == i,
                leaves_view(leaves@) == tx_leaves(self@.transactions).subrange(0, i as int),
            decreases self.transactions@.len() - i,
        {
            let h = self.transactions[i].computed_hash();
            let leaf = crate::tx::copy_bytes(h.as_str().as_bytes());
            let ghost before = leaves@;
            let ghost leaf_view = leaf@;
            leaves.push(leaf);
            proof {
                assert(self@.transactions[i as int] == self.transactions@[i as int]@);
                assert(tx_leaves(self@.transactions)[i as int] == leaf_view);
                assert(before.len() == i);
                assert(leaves@ == before.push(leaves@[i as int]));
                assert(leaves@[i as int]@ == leaf_view);
                assert(leaves_view(leaves@)[i as int] == leaf_view);
                assert(leaves@.drop_last() =~= before);
                assert(leaves_view(leaves@) =~= tx_leaves(self@.transactions).subrange(0, i + 1));
            }
            i = i + 1;
        }
        assert(tx_leaves(self@.transactions).subrange(0, i as int) =~= tx_leaves(self@.transactions));
        build_merkle_root(&leaves)
    }

    pub fn get_hash(&self) -> (r: String)
        ensures
            r@ == self.hash@,
    {
        self.hash.clone()
    }

    pub fn get_previous_hash(&self) -> (r: String)
        ensures
            r@ == self.prev_block_hash@,
    {
        self.prev_block_hash.clone()
    }

    pub fn get_height(&self) -> (r: i32)
        ensures
            r == self.height,
    {
        self.height
    }

    pub fn get_transactions(&self) -> (r: &Vec<Transaction>)
        ensures
            r == &self.transactions,
    {
        &self.transactions
    }
}

} // verus!
