use blockchain::contracts::RateLimitContract;
use blockchain::error::LedgerError;
use blockchain::wallet::Wallets;

#[test]
fn store_round_trip() {
    let mut ws = Wallets::new(vec![]);
    let a = ws.create_wallet().unwrap();
    let b = ws.create_wallet().unwrap();
    assert_ne!(a, b);
    let reopened = Wallets::new(ws.save_all());
    let mut addrs = reopened.get_all_addresses();
    addrs.sort();
    let mut expected = vec![a.clone(), b.clone()];
    expected.sort();
    assert_eq!(addrs, expected);
    assert_eq!(reopened.get_wallet(&a).unwrap(), ws.get_wallet(&a).unwrap());
    assert_eq!(reopened.get_wallet(&b).unwrap(), ws.get_wallet(&b).unwrap());
    assert!(reopened.get_wallet("nobody").is_none());
}

#[test]
fn created_wallet_matches_its_address() {
    let mut ws = Wallets::new(vec![]);
    let a = ws.create_wallet().unwrap();
    let w = ws.get_wallet(&a).unwrap();
    assert_eq!(w.get_address(), a);
    assert_eq!(w.secret_key.len(), 64);
    assert_eq!(w.public_key.len(), 32);
}

#[test]
fn guard_admits_then_limits() {
    let mut g = RateLimitContract::new(300);
    assert!(g.execute_at("a", 1_000).is_ok());
    assert!(matches!(g.execute_at("a", 1_100), Err(LedgerError::RateLimited(200))));
    assert!(g.execute_at("b", 1_100).is_ok());
    assert!(g.execute_at("a", 1_300).is_ok());
    assert!(matches!(g.execute_at("a", 1_599), Err(LedgerError::RateLimited(1))));
}

#[test]
fn guard_with_clock_before_last() {
    let mut g = RateLimitContract::new(300);
    assert!(g.execute_at("a", 1_000).is_ok());
    assert!(matches!(g.execute_at("a", 900), Err(LedgerError::RateLimited(300))));
}

#[test]
fn guard_with_wall_clock() {
    let mut g = RateLimitContract::new(300);
    assert!(g.execute("a").is_ok());
    assert!(matches!(g.execute("a"), Err(LedgerError::RateLimited(_))));
}

#[test]
fn repeated_entries_list_each_address_once() {
    let mut ws = Wallets::new(vec![]);
    let a = ws.create_wallet().unwrap();
    let mut entries = ws.save_all();
    entries.push(entries[0].clone());
    let reopened = Wallets::new(entries);
    assert_eq!(reopened.get_all_addresses(), vec![a]);
}
