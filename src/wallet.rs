//! Wallets: ed25519 key pairs, their addresses, and the store that holds them.
use vstd::prelude::*;
use crate::address::{address_body_of, address_decoding_of, address_text_of, encode_address, is_plain_text};
use crate::primitives::{ed25519_keypair, ed25519_public_of, pub_key_hash_of, random_seed, ripemd160, sha256};
use crate::error::LedgerError;
use crate::tx::copy_bytes;
use vstd::string::StringExecFns;

verus! {

/// Replaces a public key by its public-key hash: RIPEMD-160 of its SHA-256.
pub fn hash_pub_key(pub_key: &mut Vec<u8>)
    ensures
        final(pub_key)@ == pub_key_hash_of(old(pub_key)@),
        final(pub_key)@.len() == 20,
{
    let digest = sha256(pub_key.as_slice());
    *pub_key = ripemd160(digest.as_slice());
}

/// The address of a wallet with this public key.
pub open spec fn wallet_address(public_key: Seq<u8>) -> Seq<char> {
    address_text_of(pub_key_hash_of(public_key))
}

/// An ed25519 key pair: a 64-byte secret key (seed, then public key) and a 32-byte public key.
#[derive(Debug, Clone, PartialEq)]
pub struct Wallet {
    pub secret_key: Vec<u8>,
    pub public_key: Vec<u8>,
}

/// The value of a wallet.
pub struct WalletModel {
    pub secret_key: Seq<u8>,
    pub public_key: Seq<u8>,
}

impl View for Wallet {
    type V = WalletModel;

    open spec fn view(&self) -> WalletModel {
        WalletModel { secret_key: self.secret_key@, public_key: self.public_key@ }
    }
}

/// The key pair that a 32-byte seed gives.
pub open spec fn is_keypair_of(w: WalletModel, seed: Seq<u8>) -> bool {
    &&& seed.len() == 32
    &&& w.public_key == ed25519_public_of(seed)
    &&& w.secret_key == seed + w.public_key
}

/// The address of a wallet depends on its public key alone.
pub proof fn lemma_address_of_public_key(w1: WalletModel, w2: WalletModel)
    requires
        w1.public_key == w2.public_key,
    ensures
        wallet_address(w1.public_key) == wallet_address(w2.public_key),
{
}

impl Wallet {
    /// A wallet from fresh random bytes; `None` when none can be had.
    fn new() -> (r: Option<Wallet>)
        ensures
            match r {
                Some(w) => exists|s: Seq<u8>| #[trigger] is_keypair_of(w@, s),
                None => true,
            },
    {
        match random_seed() {
            Some(seed) => {
                let w = Wallet::from_seed(&seed);
                let ghost s = seed@;
                assert(is_keypair_of(w@, s));
                assert(exists|x: Seq<u8>| #[trigger] is_keypair_of(w@, x));
                let r = Some(w);
                assert(r matches Some(v) && is_keypair_of(v@, s));
                r
            },
            None => None,
        }
    }

    /// The wallet whose key pair a 32-byte seed gives.
    pub fn from_seed(seed: &[u8]) -> (r: Wallet)
        requires
            seed@.len() == 32,
        ensures
            is_keypair_of(r@, seed@),
    {
        let (secret_key, public_key) = ed25519_keypair(seed);
        Wallet { secret_key, public_key }
    }

    /// The address: Base58 text of the public-key hash.
    pub fn get_address(&self) -> (r: String)
        ensures
            r@ == wallet_address(self.public_key@),
            is_plain_text(r@),
            address_decoding_of(r@) == Some((pub_key_hash_of(self.public_key@), true)),
            address_body_of(r@) == Some(pub_key_hash_of(self.public_key@)),
    {
        let mut pub_hash = copy_bytes(self.public_key.as_slice());
        hash_pub_key(&mut pub_hash);
        encode_address(pub_hash.as_slice())
    }

    /// A copy with the same keys.
    pub fn duplicate(&self) -> (r: Wallet)
        ensures
            r@ == self@,
    {
        Wallet { secret_key: copy_bytes(self.secret_key.as_slice()), public_key: copy_bytes(self.public_key.as_slice()) }
    }
}

/// The models of a list of stored wallets.
pub open spec fn entries_view(s: Seq<(String, Wallet)>) -> Seq<(Seq<char>, WalletModel)> {
    s.map_values(|e: (String, Wallet)| e@)
}

/// The mapping that a list of entries stores: later entries win.
pub open spec fn entries_map(s: Seq<(Seq<char>, WalletModel)>) -> Map<Seq<char>, WalletModel>
    decreases s.len(),
{
    if s.len() == 0 {
        Map::empty()
    } else {
        entries_map(s.drop_last()).insert(s.last().0, s.last().1)
    }
}

/// The addresses that a list of entries holds.
pub open spec fn entry_keys(s: Seq<(Seq<char>, WalletModel)>) -> Seq<Seq<char>> {
    s.map_values(|e: (Seq<char>, WalletModel)| e.0)
}

proof fn lemma_contains_push<A>(s: Seq<A>, x: A, a: A)
    ensures
        s.push(x).contains(a) <==> (s.contains(a) || a == x),
{
    let t = s.push(x);
    if s.contains(a) {
        let w = choose|w: int| 0 <= w < s.len() && s[w] == a;
        assert(t[w] == a);
    }
    if a == x {
        assert(t[s.len() as int] == a);
    }
    if t.contains(a) && a != x {
        let w = choose|w: int| 0 <= w < t.len() && t[w] == a;
        assert(w < s.len());
        assert(s[w] == a);
    }
}

/// The models of a list of strings.
pub open spec fn strings_view(s: Seq<String>) -> Seq<Seq<char>> {
    s.map_values(|a: String| a@)
}

/// An address is stored exactly when some entry holds it.
pub proof fn lemma_entries_dom(s: Seq<(Seq<char>, WalletModel)>)
    ensures
        forall|k: Seq<char>| #[trigger] entries_map(s).contains_key(k) <==> entry_keys(s).contains(k),
    decreases s.len(),
{
    if s.len() > 0 {
        lemma_entries_dom(s.drop_last());
        let ks = entry_keys(s);
        let kd = entry_keys(s.drop_last());
        assert(ks =~= kd.push(s.last().0));
        assert(entries_map(s) == entries_map(s.drop_last()).insert(s.last().0, s.last().1));
        assert forall|k: Seq<char>| #[trigger] entries_map(s).contains_key(k) <==> ks.contains(k) by {
            assert(entries_map(s.drop_last()).contains_key(k) <==> kd.contains(k));
            if kd.contains(k) {
                let i = choose|i: int| 0 <= i < kd.len() && kd[i] == k;
                assert(ks[i] == k);
            }
            if ks.contains(k) {
                let i = choose|i: int| 0 <= i < ks.len() && ks[i] == k;
                if i < kd.len() {
                    assert(kd[i] == k);
                } else {
                    assert(k == s.last().0);
                }
            }
            if k == s.last().0 {
                assert(ks[s.len() - 1] == k);
            }
        }
    }
}

/// The store of wallets, by address.
pub struct Wallets {
    wallets: Vec<(String, Wallet)>,
}

impl View for Wallets {
    type V = Map<Seq<char>, WalletModel>;

    closed spec fn view(&self) -> Map<Seq<char>, WalletModel> {
        entries_map(entries_view(self.wallets@))
    }
}

impl Wallets {
    /// The stored entries, in the order they were stored.
    pub closed spec fn spec_entries(&self) -> Seq<(Seq<char>, WalletModel)> {
        entries_view(self.wallets@)
    }

    /// The store holding `entries`, as read back from durable storage.
    pub fn new(entries: Vec<(String, Wallet)>) -> (r: Wallets)
        ensures
            r@ == entries_map(entries_view(entries@)),
            r.spec_entries() == entries_view(entries@),
    {
        Wallets { wallets: entries }
    }

    /// The entries to write to durable storage.
    pub fn save_all(&self) -> (r: Vec<(String, Wallet)>)
        ensures
            entries_map(entries_view(r@)) == self@,
            entries_view(r@) == self.spec_entries(),
    {
        let mut r: Vec<(String, Wallet)> = Vec::new();
        let mut i: usize = 0;
        while i < self.wallets.len()
            invariant
                i <= self.wallets@.len(),
                entries_view(r@) == entries_view(self.wallets@).subrange(0, i as int),
            decreases self.wallets@.len() - i,
        {
            let ghost prior = r@;
            r.push((self.wallets[i].0.clone(), self.wallets[i].1.duplicate()));
            assert(r@ == prior.push(r@.last()));
            assert(r@.last()@ == self.wallets@[i as int]@);
            assert(entries_view(r@) =~= entries_view(prior).push(self.wallets@[i as int]@));
            assert(entries_view(r@) =~= entries_view(self.wallets@).subrange(0, i + 1));
            i = i + 1;
        }
        assert(entries_view(self.wallets@).subrange(0, i as int) =~= entries_view(self.wallets@));
        r
    }

    /// Creates a wallet from fresh random bytes, stores it under its address and returns
    /// the address.
    pub fn create_wallet(&mut self) -> (r: Result<String, LedgerError>)
        ensures
            match r {
                Ok(a) => exists|w: WalletModel, seed: Seq<u8>| #![trigger is_keypair_of(w, seed)]
                    is_keypair_of(w, seed) && a@ == wallet_address(w.public_key) && final(self)@ == old(self)@.insert(a@, w),
                Err(e) => e is RandomnessUnavailable && final(self)@ == old(self)@,
            },
    {
        let wallet = match Wallet::new() {
            Some(w) => w,
            None => return Err(LedgerError::RandomnessUnavailable),
        };
        let address = wallet.get_address();
        let ghost w = wallet@;
        let ghost before = entries_view(self.wallets@);
        self.wallets.push((address.clone(), wallet));
        assert(entries_view(self.wallets@).drop_last() =~= before);
        Ok(address)
    }

    /// Every stored address, each once.
    pub fn get_all_addresses(&self) -> (r: Vec<String>)
        ensures
            forall|a: Seq<char>| #[trigger] self@.contains_key(a) <==> strings_view(r@).contains(a),
            strings_view(r@).no_duplicates(),
    {
        let ghost keys = entry_keys(entries_view(self.wallets@));
        let mut addresses: Vec<String> = Vec::new();
        let mut i: usize = 0;
        while i < self.wallets.len()
            invariant
                i <= self.wallets@.len(),
                keys == entry_keys(entries_view(self.wallets@)),
                strings_view(addresses@).no_duplicates(),
                forall|a: Seq<char>| #[trigger] strings_view(addresses@).contains(a) <==> keys.subrange(0, i as int).contains(a),
            decreases self.wallets@.len() - i,
        {
            let key = &self.wallets[i].0;
            assert(keys[i as int] == key@);
            let ghost sv = strings_view(addresses@);
            let mut seen = false;
            let mut k: usize = 0;
            while k < addresses.len()
                invariant
                    k <= addresses@.len(),
                    sv == strings_view(addresses@),
                    seen <==> exists|x: int| 0 <= x < k && #[trigger] sv[x] == key@,
                decreases addresses@.len() - k,
            {
                assert(sv[k as int] == addresses@[k as int]@);
                if addresses[k] == *key {
                    seen = true;
                }
                k = k + 1;
            }
            let ghost prefix = keys.subrange(0, i as int);
            let ghost next = keys.subrange(0, i + 1);
            assert(next =~= prefix.push(key@));
            if !seen {
                let ghost prior = addresses@;
                addresses.push(key.clone());
                assert(addresses@ == prior.push(addresses@.last()));
                assert(strings_view(addresses@) =~= sv.push(key@));
                assert(!sv.contains(key@)) by {
                    if sv.contains(key@) {
                        let x = choose|x: int| 0 <= x < sv.len() && sv[x] == key@;
                        assert(sv[x] == key@);
                    }
                }
                assert(sv == strings_view(prior));
                assert forall|a: Seq<char>| #[trigger] strings_view(addresses@).contains(a) <==> next.contains(a) by {
                    lemma_contains_push(sv, key@, a);
                    lemma_contains_push(prefix, key@, a);
                    assert(strings_view(prior).contains(a) <==> prefix.contains(a));
                }
                assert forall|x: int, y: int| 0 <= x < y < strings_view(addresses@).len() implies
                    strings_view(addresses@)[x] != strings_view(addresses@)[y] by {
                    if y == sv.len() {
                        assert(strings_view(addresses@)[x] == sv[x]);
                    } else {
                        assert(strings_view(addresses@)[x] == sv[x] && strings_view(addresses@)[y] == sv[y]);
                    }
                }
            } else {
                assert(sv.contains(key@)) by {
                    let x = choose|x: int| 0 <= x < k && #[trigger] sv[x] == key@;
                    assert(sv[x] == key@);
                }
                assert forall|a: Seq<char>| #[trigger] strings_view(addresses@).contains(a) <==> next.contains(a) by {
                    lemma_contains_push(prefix, key@, a);
                    assert(strings_view(addresses@).contains(a) <==> prefix.contains(a));
                }
            }
            i = i + 1;
        }
        assert(keys.subrange(0, i as int) =~= keys);
        proof { lemma_entries_dom(entries_view(self.wallets@)); }
        addresses
    }

    /// The wallet stored under `address`.
    pub fn get_wallet(&self, address: &str) -> (r: Option<&Wallet>)
        ensures
            match r {
                Some(w) => self@.contains_key(address@) && self@[address@] == w@,
                None => !self@.contains_key(address@),
            },
    {
        let ghost all = entries_view(self.wallets@);
        let key = String::from_str(address);
        let mut found: Option<usize> = None;
        let mut i: usize = 0;
        while i < self.wallets.len()
            invariant
                i <= self.wallets@.len(),
                all == entries_view(self.wallets@),
                key@ == address@,
                match found {
                    Some(k) => k < i && entries_map(all.subrange(0, i as int)).contains_key(address@)
                        && entries_map(all.subrange(0, i as int))[address@] == all[k as int].1,
                    None => !entries_map(all.subrange(0, i as int)).contains_key(address@),
                },
            decreases self.wallets@.len() - i,
        {
            proof {
                let next = all.subrange(0, i + 1);
                assert(next.drop_last() =~= all.subrange(0, i as int));
                assert(next.last() == self.wallets@[i as int]@);
            }
            if self.wallets[i].0 == key {
                found = Some(i);
            }
            i = i + 1;
        }
        assert(all.subrange(0, i as int) =~= all);
        match found {
            Some(k) => {
                assert(all[k as int] == self.wallets@[k as int]@);
                Some(&self.wallets[k].1)
            },
            None => None,
        }
    }
}

/// Writing the store out and reading it back gives the same mapping: `saved` is what
/// `save_all` hands out for `store`, and `reopened` is `Wallets::new(saved)`.
pub proof fn lemma_store_round_trip(store: Wallets, saved: Seq<(Seq<char>, WalletModel)>, reopened: Wallets)
    requires
        saved == store.spec_entries(),
        reopened.spec_entries() == saved,
    ensures
        reopened@ == store@,
{
}

} // verus!
