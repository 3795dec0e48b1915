//! Textual addresses: Base58 text for a 20-byte public-key hash, with the script-hash tag.
use vstd::prelude::*;
use crate::error::LedgerError;

verus! {

/// The Base58 text that bitcoincash_addr gives a body with the script-hash tag on main net.
pub uninterp spec fn address_text_of(body: Seq<u8>) -> Seq<char>;

/// What bitcoincash_addr decodes from an address text, if the text is valid: the body, and
/// whether the hash type is the script-hash type.
pub uninterp spec fn address_decoding_of(text: Seq<char>) -> Option<(Seq<u8>, bool)>;

/// The body that an address text decodes to, if the text is valid.
pub open spec fn address_body_of(text: Seq<char>) -> Option<Seq<u8>> {
    match address_decoding_of(text) {
        Some(d) => Some(d.0),
        None => None,
    }
}

/// Text the codec reads on its Base58 path alone: ASCII, without the `:` of a prefix.
pub open spec fn is_plain_text(s: Seq<char>) -> bool {
    &&& vstd::utf8::is_ascii_chars(s)
    &&& forall|i: int| 0 <= i < s.len() ==> #[trigger] s[i] != ':'
}

/// Relies on bitcoincash_addr::Address::encode with Scheme::Base58, HashType::Script and
/// Network::Main: Base58 text, which Address::decode turns back into the 20-byte body with
/// the script-hash type.
#[verifier::external_body]
fn encode_base58(body: &[u8]) -> (r: String)
    ensures
        r@ == address_text_of(body@),
        is_plain_text(r@),
        body@.len() == 20 ==> address_decoding_of(r@) == Some((body@, true)),
{
    let address = bitcoincash_addr::Address::new(
        body.to_vec(),
        bitcoincash_addr::Scheme::Base58,
        bitcoincash_addr::HashType::Script,
        bitcoincash_addr::Network::Main,
    );
    match address.encode() {
        Ok(text) => text,
        Err(_) => String::new(),
    }
}

/// Relies on bitcoincash_addr::Address::decode. On ASCII text without `:` the cashaddr
/// decoder fails at once and the Base58 decoder decides; it yields 20-byte bodies.
#[verifier::external_body]
fn decode_base58(text: &str) -> (r: Option<(Vec<u8>, bool)>)
    requires
        is_plain_text(text@),
    ensures
        match r {
            Some(d) => address_decoding_of(text@) == Some((d.0@, d.1)) && d.0@.len() == 20,
            None => address_decoding_of(text@) is None,
        },
{
    match bitcoincash_addr::Address::decode(text) {
        Ok(a) => match a.hash_type {
            bitcoincash_addr::HashType::Script => Some((a.body, true)),
            bitcoincash_addr::HashType::Key => Some((a.body, false)),
        },
        Err(_) => None,
    }
}

/// The address of a public-key hash.
pub fn encode_address(pub_key_hash: &[u8]) -> (r: String)
    ensures
        r@ == address_text_of(pub_key_hash@),
        is_plain_text(r@),
        pub_key_hash@.len() == 20 ==> address_decoding_of(r@) == Some((pub_key_hash@, true)),
{
    encode_base58(pub_key_hash)
}

/// The public-key hash that an address names; `InvalidAddress` when the text is not
/// plain Base58 text or does not decode.
pub fn decode_address(text: &str) -> (r: Result<Vec<u8>, LedgerError>)
    ensures
        match r {
            Ok(b) => is_plain_text(text@) && address_body_of(text@) == Some(b@) && b@.len() == 20,
            Err(e) => e is InvalidAddress && (!is_plain_text(text@) || address_body_of(text@) is None),
        },
{
    if !text.is_ascii() {
        return Err(LedgerError::InvalidAddress);
    }
    let bytes = text.as_bytes();
    proof {
        vstd::string::is_ascii_spec_bytes(text);
    }
    let mut i: usize = 0;
    while i < bytes.len()
        invariant
            vstd::utf8::is_ascii_chars(text@),
            bytes@ == Seq::new(text@.len(), |k: int| text@[k] as u8),
            i <= bytes@.len(),
            forall|k: int| 0 <= k < i ==> #[trigger] text@[k] != ':',
        decreases bytes@.len() - i,
    {
        if bytes[i] == 58u8 {
            assert(text@[i as int] == ':');
            return Err(LedgerError::InvalidAddress);
        }
        i = i + 1;
    }
    match decode_base58(text) {
        Some(d) => Ok(d.0),
        None => Err(LedgerError::InvalidAddress),
    }
}

} // verus!
