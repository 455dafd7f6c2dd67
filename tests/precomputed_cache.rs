use std::sync::Arc;

use futures::lock::Mutex;
use tox_precompute::PrecomputedCache;

fn keypair() -> ([u8; 32], [u8; 32]) {
    let (pk, sk) = tox_crypto::gen_keypair();
    (pk.0, sk.0)
}

fn expected(pk: &[u8; 32], sk: &[u8; 32]) -> [u8; 32] {
    tox_crypto::precompute(&tox_crypto::PublicKey(*pk), &tox_crypto::SecretKey(*sk)).0
}

#[test]
fn get_returns_precomputed_key() {
    let (_, sk) = keypair();
    let (pk, _) = keypair();
    let mut cache = PrecomputedCache::new(sk, 4);
    let key = cache.get(pk);
    assert_eq!(key, expected(&pk, &sk));
    assert_ne!(key, pk);
    assert_eq!(cache.get(pk), key);
    assert_eq!(cache.len(), 1);
}

#[test]
fn shared_key_is_symmetric() {
    let (pk_a, sk_a) = keypair();
    let (pk_b, sk_b) = keypair();
    let mut cache_a = PrecomputedCache::new(sk_a, 1);
    let mut cache_b = PrecomputedCache::new(sk_b, 1);
    assert_eq!(cache_a.get(pk_b), cache_b.get(pk_a));
}

#[test]
fn new_cache_is_empty() {
    let (_, sk) = keypair();
    let cache = PrecomputedCache::new(sk, 3);
    assert_eq!(cache.len(), 0);
}

#[test]
fn keys_within_capacity_all_stay() {
    let (_, sk) = keypair();
    let pks: Vec<[u8; 32]> = (0..3).map(|_| keypair().0).collect();
    let mut cache = PrecomputedCache::new(sk, 3);
    for round in 0..4 {
        for i in 0..3 {
            let pk = pks[(i + round) % 3];
            assert_eq!(cache.get(pk), expected(&pk, &sk));
        }
    }
    assert_eq!(cache.len(), 3);
    assert!(pks.iter().all(|pk| cache.contains(pk)));
}

#[test]
fn least_recently_used_is_evicted() {
    let (_, sk) = keypair();
    let a = keypair().0;
    let b = keypair().0;
    let c = keypair().0;
    let mut cache = PrecomputedCache::new(sk, 2);
    cache.get(a);
    cache.get(b);
    cache.get(a);
    cache.get(c);
    assert_eq!(cache.len(), 2);
    assert!(cache.contains(&a));
    assert!(!cache.contains(&b));
    assert!(cache.contains(&c));
    assert_eq!(cache.get(b), expected(&b, &sk));
    assert!(!cache.contains(&a));
}

#[test]
fn never_more_than_capacity() {
    let (_, sk) = keypair();
    let mut cache = PrecomputedCache::new(sk, 3);
    for n in 0..10 {
        cache.get(keypair().0);
        assert_eq!(cache.len(), std::cmp::min(n + 1, 3));
    }
}

#[test]
fn concurrent_gets_share_one_entry() {
    let (_, sk) = keypair();
    let (pk, _) = keypair();
    let cache = Arc::new(Mutex::new(PrecomputedCache::new(sk, 2)));
    let tasks = (0..8).map(|_| {
        let cache = cache.clone();
        async move { cache.lock().await.get(pk) }
    });
    let keys = futures::executor::block_on(futures::future::join_all(tasks));
    assert!(keys.iter().all(|k| *k == expected(&pk, &sk)));
    let cache = futures::executor::block_on(cache.lock());
    assert_eq!(cache.len(), 1);
    assert!(cache.contains(&pk));
}
