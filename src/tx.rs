//! Transaction inputs and outputs.
use vstd::prelude::*;
use crate::address::{address_body_of, decode_address, is_plain_text};
use crate::error::LedgerError;
use crate::primitives::pub_key_hash_of;
use crate::wallet::hash_pub_key;

verus! {

/// An input: the output it spends (`txid`, `vout`), the signature, and the spender's key.
/// In a coinbase input `txid` is empty, `vout` is -1 and `pub_key` carries free data.
#[derive(Debug, Clone)]
pub struct TXInput {
    pub txid: String,
    pub vout: i32,
    pub signature: Vec<u8>,
    pub pub_key: Vec<u8>,
}

/// The value of an input.
pub struct InputModel {
    pub txid: Seq<char>,
    pub vout: i32,
    pub signature: Seq<u8>,
    pub pub_key: Seq<u8>,
}

impl View for TXInput {
    type V = InputModel;

    open spec fn view(&self) -> InputModel {
        InputModel {
            txid: self.txid@,
            vout: self.vout,
            signature: self.signature@,
            pub_key: self.pub_key@,
        }
    }
}

/// An output: a value locked to a public-key hash.
#[derive(Debug, Clone)]
pub struct TXOutput {
    pub value: i32,
    pub pub_key_hash: Vec<u8>,
}

/// The value of an output.
pub struct OutputModel {
    pub value: i32,
    pub pub_key_hash: Seq<u8>,
}

impl View for TXOutput {
    type V = OutputModel;

    open spec fn view(&self) -> OutputModel {
        OutputModel { value: self.value, pub_key_hash: self.pub_key_hash@ }
    }
}

/// An unspent output with its position among its transaction's outputs.
#[derive(Debug, Clone)]
pub struct UnspentOutput {
    pub vout: i32,
    pub output: TXOutput,
}

impl View for UnspentOutput {
    type V = (i32, OutputModel);

    open spec fn view(&self) -> (i32, OutputModel) {
        (self.vout, self.output@)
    }
}

/// The unspent outputs that the index keeps for one transaction, with their positions.
#[derive(Debug, Clone)]
pub struct TXOutputs {
    pub outputs: Vec<UnspentOutput>,
}

/// The models of a sequence of unspent outputs.
pub open spec fn unspent_view(s: Seq<UnspentOutput>) -> Seq<(i32, OutputModel)> {
    s.map_values(|u: UnspentOutput| u@)
}

impl View for TXOutputs {
    type V = Seq<(i32, OutputModel)>;

    open spec fn view(&self) -> Seq<(i32, OutputModel)> {
        unspent_view(self.outputs@)
    }
}

/// The models of a sequence of outputs.
pub open spec fn outputs_view(s: Seq<TXOutput>) -> Seq<OutputModel> {
    s.map_values(|o: TXOutput| o@)
}

/// The models of a sequence of inputs.
pub open spec fn inputs_view(s: Seq<TXInput>) -> Seq<InputModel> {
    s.map_values(|i: TXInput| i@)
}

impl TXOutputs {
    /// A copy with the same outputs.
    pub fn duplicate(&self) -> (r: TXOutputs)
        ensures
            r@ == self@,
    {
        let mut outputs: Vec<UnspentOutput> = Vec::new();
        let mut i: usize = 0;
        while i < self.outputs.len()
            invariant
                i <= self@.len(),
                unspent_view(outputs@) == self@.subrange(0, i as int),
            decreases self@.len() - i,
        {
            let u = &self.outputs[i];
            let ghost prior = outputs@;
            outputs.push(UnspentOutput { vout: u.vout, output: u.output.duplicate() });
            assert(self@[i as int] == u@);
            assert(outputs@ == prior.push(outputs@.last()));
            assert(unspent_view(outputs@) =~= unspent_view(prior).push(u@));
            i = i + 1;
        }
        assert(self@.subrange(0, self@.len() as int) =~= self@);
        TXOutputs { outputs }
    }
}

/// A copy of a byte string.
pub fn copy_bytes(b: &[u8]) -> (r: Vec<u8>)
    ensures
        r@ == b@,
{
    let mut r: Vec<u8> = Vec::new();
    let mut i: usize = 0;
    while i < b.len()
        invariant
            i <= b@.len(),
            r@ == b@.subrange(0, i as int),
        decreases b@.len() - i,
    {
        r.push(b[i]);
        i = i + 1;
    }
    r
}

/// Whether two byte strings are equal.
pub fn bytes_equal(a: &[u8], b: &[u8]) -> (r: bool)
    ensures
        r == (a@ == b@),
{
    if a.len() != b.len() {
        return false;
    }
    let mut i: usize = 0;
    while i < a.len()
        invariant
            a@.len() == b@.len(),
            i <= a@.len(),
            a@.subrange(0, i as int) == b@.subrange(0, i as int),
        decreases a@.len() - i,
    {
        if a[i] != b[i] {
            assert(a@[i as int] != b@[i as int]);
            return false;
        }
        assert(a@.subrange(0, i + 1) =~= a@.subrange(0, i as int).push(a@[i as int]));
        assert(b@.subrange(0, i + 1) =~= b@.subrange(0, i as int).push(b@[i as int]));
        i = i + 1;
    }
    assert(a@ =~= a@.subrange(0, a@.len() as int));
    assert(b@ =~= b@.subrange(0, b@.len() as int));
    true
}

/// A copy of a sequence of outputs.
pub fn copy_outputs(v: &Vec<TXOutput>) -> (r: Vec<TXOutput>)
    ensures
        outputs_view(r@) == outputs_view(v@),
{
    let mut r: Vec<TXOutput> = Vec::new();
    let mut i: usize = 0;
    while i < v.len()
        invariant
            i <= v@.len(),
            outputs_view(r@) == outputs_view(v@.subrange(0, i as int)),
        decreases v@.len() - i,
    {
        r.push(v[i].duplicate());
        assert(outputs_view(v@.subrange(0, i + 1)) =~= outputs_view(v@.subrange(0, i as int)).push(v@[i as int]@));
        i = i + 1;
    }
    assert(v@.subrange(0, v@.len() as int) =~= v@);
    r
}

/// A copy of a sequence of inputs.
pub fn copy_inputs(v: &Vec<TXInput>) -> (r: Vec<TXInput>)
    ensures
        inputs_view(r@) == inputs_view(v@),
{
    let mut r: Vec<TXInput> = Vec::new();
    let mut i: usize = 0;
    while i < v.len()
        invariant
            i <= v@.len(),
            inputs_view(r@) == inputs_view(v@.subrange(0, i as int)),
        decreases v@.len() - i,
    {
        r.push(v[i].duplicate());
        assert(inputs_view(v@.subrange(0, i + 1)) =~= inputs_view(v@.subrange(0, i as int)).push(v@[i as int]@));
        i = i + 1;
    }
    assert(v@.subrange(0, v@.len() as int) =~= v@);
    r
}

impl TXInput {
    /// A copy with the same fields.
    pub fn duplicate(&self) -> (r: TXInput)
        ensures
            r@ == self@,
    {
        TXInput {
            txid: self.txid.clone(),
            vout: self.vout,
            signature: copy_bytes(&self.signature),
            pub_key: copy_bytes(&self.pub_key),
        }
    }

    /// Whether the key in this input hashes to `unlocking_data`.
    pub fn can_unlock_output_with(&self, unlocking_data: &[u8]) -> (r: bool)
        ensures
            r == (pub_key_hash_of(self.pub_key@) == unlocking_data@),
    {
        let mut pub_key_hash = copy_bytes(&self.pub_key);
        hash_pub_key(&mut pub_key_hash);
        bytes_equal(&pub_key_hash, unlocking_data)
    }
}

impl TXOutput {
    /// A copy with the same fields.
    pub fn duplicate(&self) -> (r: TXOutput)
        ensures
            r@ == self@,
    {
        TXOutput { value: self.value, pub_key_hash: copy_bytes(&self.pub_key_hash) }
    }

    /// An output of `value` locked to the public-key hash that `addr` names.
    pub fn new(value: i32, addr: String) -> (r: Result<TXOutput, LedgerError>)
        ensures
            match r {
                Ok(o) => o.value == value && is_plain_text(addr@)
                    && address_body_of(addr@) == Some(o.pub_key_hash@),
                Err(e) => e is InvalidAddress
                    && (!is_plain_text(addr@) || address_body_of(addr@) is None),
            },
    {
        let mut txo = TXOutput { value, pub_key_hash: Vec::new() };
        match txo.lock(&addr) {
            Ok(()) => Ok(txo),
            Err(e) => Err(e),
        }
    }

    /// Locks this output to the public-key hash that `addr` names.
    fn lock(&mut self, addr: &str) -> (r: Result<(), LedgerError>)
        ensures
            final(self).value == old(self).value,
            match r {
                Ok(()) => is_plain_text(addr@)
                    && address_body_of(addr@) == Some(final(self).pub_key_hash@),
                Err(e) => e is InvalidAddress
                    && (!is_plain_text(addr@) || address_body_of(addr@) is None),
            },
    {
        match decode_address(addr) {
            Ok(body) => {
                self.pub_key_hash = body;
                Ok(())
            },
            Err(e) => Err(e),
        }
    }

    /// Whether this output is locked to `unlocking_data`.
    pub fn can_be_unlocked_with(&self, unlocking_data: &[u8]) -> (r: bool)
        ensures
            r == (self.pub_key_hash@ == unlocking_data@),
    {
        bytes_equal(&self.pub_key_hash, unlocking_data)
    }

    /// Whether this output is locked to `pub_key_hash`.
    pub fn is_locked_with_key(&self, pub_key_hash: &[u8]) -> (r: bool)
        ensures
            r == (self.pub_key_hash@ == pub_key_hash@),
    {
        bytes_equal(&self.pub_key_hash, pub_key_hash)
    }
}

} // verus!
