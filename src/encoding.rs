//! The canonical byte form of ledger records: the declared fields in declaration order,
//! integers little-endian at their width, each length as eight little-endian bytes.
use vstd::prelude::*;
use crate::transaction::{Transaction, TxModel};
use crate::tx::{inputs_view, outputs_view, InputModel, OutputModel, TXInput, TXOutput};

verus! {

/// The `width` low bytes of `n`, least significant first.
pub open spec fn le_bytes(n: nat, width: nat) -> Seq<u8>
    decreases width,
{
    if width == 0 {
        seq![]
    } else {
        seq![(n % 256) as u8] + le_bytes(n / 256, (width - 1) as nat)
    }
}

/// A length or a count.
pub open spec fn len_field(n: nat) -> Seq<u8> {
    le_bytes(n, 8)
}

/// A byte string: its length, then its bytes.
pub open spec fn bytes_field(b: Seq<u8>) -> Seq<u8> {
    len_field(b.len()) + b
}

/// A text: its UTF-8 form as a byte string.
pub open spec fn text_field(s: Seq<char>) -> Seq<u8> {
    bytes_field(vstd::utf8::encode_utf8(s))
}

/// A 32-bit signed integer, in two's complement.
pub open spec fn i32_field(v: i32) -> Seq<u8> {
    le_bytes(if v >= 0 { v as nat } else { (v + 0x1_0000_0000) as nat }, 4)
}

pub open spec fn input_bytes(i: InputModel) -> Seq<u8> {
    text_field(i.txid) + i32_field(i.vout) + bytes_field(i.signature) + bytes_field(i.pub_key)
}

pub open spec fn output_bytes(o: OutputModel) -> Seq<u8> {
    i32_field(o.value) + bytes_field(o.pub_key_hash)
}

pub open spec fn inputs_bytes(s: Seq<InputModel>) -> Seq<u8>
    decreases s.len(),
{
    if s.len() == 0 {
        seq![]
    } else {
        inputs_bytes(s.drop_last()) + input_bytes(s.last())
    }
}

pub open spec fn outputs_bytes(s: Seq<OutputModel>) -> Seq<u8>
    decreases s.len(),
{
    if s.len() == 0 {
        seq![]
    } else {
        outputs_bytes(s.drop_last()) + output_bytes(s.last())
    }
}

/// A transaction: id, the inputs as a counted list, the outputs as a counted list.
pub open spec fn transaction_bytes(t: TxModel) -> Seq<u8> {
    text_field(t.id) + len_field(t.vin.len()) + inputs_bytes(t.vin) + len_field(t.vout.len())
        + outputs_bytes(t.vout)
}

/// Appends the `width` low bytes of `n`, least significant first.
pub fn push_le(out: &mut Vec<u8>, n: u128, width: usize)
    ensures
        final(out)@ == old(out)@ + le_bytes(n as nat, width as nat),
{
    let mut m: u128 = n;
    let mut i: usize = 0;
    while i < width
        invariant
            i <= width,
            out@ + le_bytes(m as nat, (width - i) as nat) == old(out)@ + le_bytes(n as nat, width as nat),
        decreases width - i,
    {
        let ghost before = out@;
        out.push((m % 256) as u8);
        proof {
            assert(le_bytes(m as nat, (width - i) as nat) == seq![(m % 256) as u8] + le_bytes(
                (m / 256) as nat,
                (width - i - 1) as nat,
            ));
            assert(out@ + le_bytes((m / 256) as nat, (width - i - 1) as nat) =~= before + le_bytes(
                m as nat,
                (width - i) as nat,
            ));
        }
        m = m / 256;
        i = i + 1;
    }
    assert(le_bytes(m as nat, 0) =~= seq![]);
    assert(out@ =~= out@ + le_bytes(m as nat, 0));
}

/// Appends raw bytes.
pub fn push_raw(out: &mut Vec<u8>, b: &[u8])
    ensures
        final(out)@ == old(out)@ + b@,
{
    let mut i: usize = 0;
    while i < b.len()
        invariant
            i <= b@.len(),
            out@ == old(out)@ + b@.subrange(0, i as int),
        decreases b@.len() - i,
    {
        out.push(b[i]);
        assert(b@.subrange(0, i + 1) =~= b@.subrange(0, i as int).push(b@[i as int]));
        i = i + 1;
    }
    assert(b@.subrange(0, b@.len() as int) =~= b@);
}

pub fn push_len(out: &mut Vec<u8>, n: usize)
    ensures
        final(out)@ == old(out)@ + len_field(n as nat),
{
    push_le(out, n as u128, 8);
}

pub fn push_bytes_field(out: &mut Vec<u8>, b: &[u8])
    ensures
        final(out)@ == old(out)@ + bytes_field(b@),
{
    push_len(out, b.len());
    push_raw(out, b);
    assert(old(out)@ + len_field(b@.len()) + b@ =~= old(out)@ + bytes_field(b@));
}

pub fn push_text_field(out: &mut Vec<u8>, s: &str)
    ensures
        final(out)@ == old(out)@ + text_field(s@),
{
    let b = s.as_bytes();
    push_bytes_field(out, b);
}

pub fn push_i32(out: &mut Vec<u8>, v: i32)
    ensures
        final(out)@ == old(out)@ + i32_field(v),
{
    let n: u128 = if v >= 0 { v as u128 } else { (v as i64 + 0x1_0000_0000i64) as u128 };
    push_le(out, n, 4);
}

pub fn push_input(out: &mut Vec<u8>, i: &TXInput)
    ensures
        final(out)@ == old(out)@ + input_bytes(i@),
{
    push_text_field(out, i.txid.as_str());
    push_i32(out, i.vout);
    push_bytes_field(out, i.signature.as_slice());
    push_bytes_field(out, i.pub_key.as_slice());
    assert(out@ =~= old(out)@ + input_bytes(i@));
}

pub fn push_output(out: &mut Vec<u8>, o: &TXOutput)
    ensures
        final(out)@ == old(out)@ + output_bytes(o@),
{
    push_i32(out, o.value);
    push_bytes_field(out, o.pub_key_hash.as_slice());
    assert(out@ =~= old(out)@ + output_bytes(o@));
}

pub fn push_inputs(out: &mut Vec<u8>, v: &Vec<TXInput>)
    ensures
        final(out)@ == old(out)@ + len_field(v@.len()) + inputs_bytes(inputs_view(v@)),
{
    push_len(out, v.len());
    let ghost start = out@;
    let mut i: usize = 0;
    while i < v.len()
        invariant
            i <= v@.len(),
            out@ == start + inputs_bytes(inputs_view(v@.subrange(0, i as int))),
        decreases v@.len() - i,
    {
        push_input(out, &v[i]);
        proof {
            let next = inputs_view(v@.subrange(0, i + 1));
            assert(next.drop_last() =~= inputs_view(v@.subrange(0, i as int)));
            assert(next.last() == v@[i as int]@);
        }
        assert(out@ =~= start + inputs_bytes(inputs_view(v@.subrange(0, i + 1))));
        i = i + 1;
    }
    assert(v@.subrange(0, v@.len() as int) =~= v@);
    assert(out@ =~= old(out)@ + len_field(v@.len()) + inputs_bytes(inputs_view(v@)));
}

pub fn push_outputs(out: &mut Vec<u8>, v: &Vec<TXOutput>)
    ensures
        final(out)@ == old(out)@ + len_field(v@.len()) + outputs_bytes(outputs_view(v@)),
{
    push_len(out, v.len());
    let ghost start = out@;
    let mut i: usize = 0;
    while i < v.len()
        invariant
            i <= v@.len(),
            out@ == start + outputs_bytes(outputs_view(v@.subrange(0, i as int))),
        decreases v@.len() - i,
    {
        push_output(out, &v[i]);
        proof {
            let next = outputs_view(v@.subrange(0, i + 1));
            assert(next.drop_last() =~= outputs_view(v@.subrange(0, i as int)));
            assert(next.last() == v@[i as int]@);
        }
        assert(out@ =~= start + outputs_bytes(outputs_view(v@.subrange(0, i + 1))));
        i = i + 1;
    }
    assert(v@.subrange(0, v@.len() as int) =~= v@);
    assert(out@ =~= old(out)@ + len_field(v@.len()) + outputs_bytes(outputs_view(v@)));
}

/// The canonical bytes of a transaction.
pub fn encode_transaction(tx: &Transaction) -> (r: Vec<u8>)
    ensures
        r@ == transaction_bytes(tx@),
{
    let mut out: Vec<u8> = Vec::new();
    push_text_field(&mut out, tx.id.as_str());
    push_inputs(&mut out, &tx.vin);
    push_outputs(&mut out, &tx.vout);
    assert(out@ =~= transaction_bytes(tx@));
    out
}

} // verus!
