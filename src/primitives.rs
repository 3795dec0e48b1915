//! Hashing, signing and key generation, and the hex form of digests.
use vstd::prelude::*;
use crypto::digest::Digest;
use rand::RngCore;

verus! {

pub assume_specification[ String::push ](s: &mut String, ch: char)
    ensures
        final(s)@ == old(s)@.push(ch),
;

/// The SHA-256 digest of a byte string.
pub uninterp spec fn sha256_of(data: Seq<u8>) -> Seq<u8>;

/// The RIPEMD-160 digest of a byte string.
pub uninterp spec fn ripemd160_of(data: Seq<u8>) -> Seq<u8>;

/// The ed25519 public key derived from a 32-byte seed.
pub uninterp spec fn ed25519_public_of(seed: Seq<u8>) -> Seq<u8>;

/// The ed25519 signature of `message` under a 64-byte secret key.
pub uninterp spec fn ed25519_signature_of(message: Seq<u8>, secret: Seq<u8>) -> Seq<u8>;

/// Whether `signature` is a valid ed25519 signature of `message` under `public_key`.
pub uninterp spec fn ed25519_accepts(message: Seq<u8>, public_key: Seq<u8>, signature: Seq<u8>) -> bool;

/// Relies on crypto::sha2::Sha256 (input, then result): the 32-byte digest of `data`.
#[verifier::external_body]
pub(crate) fn sha256(data: &[u8]) -> (r: Vec<u8>)
    ensures
        r@ == sha256_of(data@),
        r@.len() == 32,
{
    let mut hasher = crypto::sha2::Sha256::new();
    hasher.input(data);
    let mut out = vec![0u8; 32];
    hasher.result(&mut out);
    out
}

/// Relies on crypto::ripemd160::Ripemd160 (input, then result): the 20-byte digest of `data`.
#[verifier::external_body]
pub(crate) fn ripemd160(data: &[u8]) -> (r: Vec<u8>)
    ensures
        r@ == ripemd160_of(data@),
        r@.len() == 20,
{
    let mut hasher = crypto::ripemd160::Ripemd160::new();
    hasher.input(data);
    let mut out = vec![0u8; 20];
    hasher.result(&mut out);
    out
}

/// Relies on crypto::ed25519::keypair: for a 32-byte seed, the secret key is the seed
/// followed by the 32-byte public key.
#[verifier::external_body]
pub(crate) fn ed25519_keypair(seed: &[u8]) -> (r: (Vec<u8>, Vec<u8>))
    requires
        seed@.len() == 32,
    ensures
        r.1@ == ed25519_public_of(seed@),
        r.1@.len() == 32,
        r.0@ == seed@ + r.1@,
{
    let (secret, public) = crypto::ed25519::keypair(seed);
    (secret.to_vec(), public.to_vec())
}

/// Relies on crypto::ed25519::signature, which reads the first 64 bytes of the secret key.
#[verifier::external_body]
pub(crate) fn ed25519_sign(message: &[u8], secret: &[u8]) -> (r: Vec<u8>)
    requires
        secret@.len() == 64,
    ensures
        r@ == ed25519_signature_of(message@, secret@),
        r@.len() == 64,
{
    crypto::ed25519::signature(message, secret).to_vec()
}

/// Relies on crypto::ed25519::verify, which reads 32 bytes of key and 64 of signature.
#[verifier::external_body]
pub(crate) fn ed25519_verify(message: &[u8], public_key: &[u8], signature: &[u8]) -> (r: bool)
    requires
        public_key@.len() == 32,
        signature@.len() == 64,
    ensures
        r == ed25519_accepts(message@, public_key@, signature@),
{
    crypto::ed25519::verify(message, public_key, signature)
}

/// Relies on rand::rngs::OsRng::try_fill_bytes: 32 bytes from the operating system, or
/// `None` when the operating system's source fails.
#[verifier::external_body]
pub(crate) fn random_seed() -> (r: Option<Vec<u8>>)
    ensures
        r matches Some(s) ==> s@.len() == 32,
{
    let mut seed = vec![0u8; 32];
    match rand::rngs::OsRng.try_fill_bytes(&mut seed) {
        Ok(()) => Some(seed),
        Err(_) => None,
    }
}

/// The public-key hash that locks outputs: RIPEMD-160 of the SHA-256 of the key.
pub open spec fn pub_key_hash_of(public_key: Seq<u8>) -> Seq<u8> {
    ripemd160_of(sha256_of(public_key))
}

/// The lower-case hex digit of a value below 16.
pub open spec fn hex_digit(n: int) -> char {
    if n == 0 { '0' } else if n == 1 { '1' } else if n == 2 { '2' } else if n == 3 { '3' }
    else if n == 4 { '4' } else if n == 5 { '5' } else if n == 6 { '6' } else if n == 7 { '7' }
    else if n == 8 { '8' } else if n == 9 { '9' } else if n == 10 { 'a' } else if n == 11 { 'b' }
    else if n == 12 { 'c' } else if n == 13 { 'd' } else if n == 14 { 'e' } else { 'f' }
}

/// The lower-case hex text of a byte string, two digits per byte, high digit first.
pub open spec fn hex_of(b: Seq<u8>) -> Seq<char>
    decreases b.len(),
{
    if b.len() == 0 {
        seq![]
    } else {
        hex_of(b.drop_last()) + seq![hex_digit(b.last() as int / 16), hex_digit(b.last() as int % 16)]
    }
}

pub proof fn lemma_hex_len(b: Seq<u8>)
    ensures
        hex_of(b).len() == 2 * b.len(),
    decreases b.len(),
{
    if b.len() > 0 {
        lemma_hex_len(b.drop_last());
    }
}

fn hex_digit_exec(n: u8) -> (c: char)
    requires
        n < 16,
    ensures
        c == hex_digit(n as int),
{
    if n == 0 { '0' } else if n == 1 { '1' } else if n == 2 { '2' } else if n == 3 { '3' }
    else if n == 4 { '4' } else if n == 5 { '5' } else if n == 6 { '6' } else if n == 7 { '7' }
    else if n == 8 { '8' } else if n == 9 { '9' } else if n == 10 { 'a' } else if n == 11 { 'b' }
    else if n == 12 { 'c' } else if n == 13 { 'd' } else if n == 14 { 'e' } else { 'f' }
}

/// Writes `b` as lower-case hex text.
pub fn to_hex(b: &[u8]) -> (r: String)
    ensures
        r@ == hex_of(b@),
{
    let mut r = String::new();
    let mut i: usize = 0;
    while i < b.len()
        invariant
            i <= b@.len(),
            r@ == hex_of(b@.subrange(0, i as int)),
        decreases b@.len() - i,
    {
        let byte = b[i];
        r.push(hex_digit_exec(byte / 16));
        r.push(hex_digit_exec(byte % 16));
        proof {
            let next = b@.subrange(0, i + 1);
            assert(next.drop_last() =~= b@.subrange(0, i as int));
            assert(next.last() == byte);
        }
        i = i + 1;
    }
    assert(b@.subrange(0, b@.len() as int) =~= b@);
    r
}

/// Relies on std::time::SystemTime::now: milliseconds since the Unix epoch, or `None`
/// when the clock reads earlier than the epoch.
#[verifier::external_body]
pub(crate) fn now_millis() -> (r: Option<u128>)
{
    std::time::SystemTime::now().duration_since(std::time::UNIX_EPOCH).ok().map(|d| d.as_millis())
}

/// Relies on std::time::SystemTime::now: seconds since the Unix epoch, or `None`
/// when the clock reads earlier than the epoch.
#[verifier::external_body]
pub(crate) fn now_seconds() -> (r: Option<u64>)
{
    std::time::SystemTime::now().duration_since(std::time::UNIX_EPOCH).ok().map(|d| d.as_secs())
}

} // verus!
