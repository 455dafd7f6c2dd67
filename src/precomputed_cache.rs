//! LRU cache of precomputed shared keys.
//!
//! Computing the shared key of a public key and our secret key is expensive,
//! so the results are kept in a bounded cache and reused.

use lru::LruCache;
use vstd::prelude::*;

verus! {

/// One cached association: a peer's public key and the shared key computed for it.
pub type Entry = ([u8; 32], [u8; 32]);

/// `lru::LruCache`, held as an opaque value; what it holds is `lru_entries`.
#[verifier::external_type_specification]
#[verifier::external_body]
#[verifier::reject_recursive_types(K)]
#[verifier::reject_recursive_types(V)]
#[verifier::reject_recursive_types(S)]
pub struct ExLruCache<K, V, S>(LruCache<K, V, S>);

/// `lru::DefaultHasher`, the hasher an `lru::LruCache` is made with.
#[verifier::external_type_specification]
#[verifier::external_body]
pub struct ExDefaultHasher(lru::DefaultHasher);

/// What an LRU cache holds, most recently used first.
pub uninterp spec fn lru_entries(c: LruCache<[u8; 32], [u8; 32]>) -> Seq<([u8; 32], [u8; 32])>;

/// The number of entries an LRU cache was made to hold.
pub uninterp spec fn lru_capacity(c: LruCache<[u8; 32], [u8; 32]>) -> nat;

/// The shared key of a public key and a secret key.
pub uninterp spec fn shared_key_of(pk: Seq<u8>, sk: Seq<u8>) -> Seq<u8>;

/// Whether some entry of `s` has key `k`.
pub open spec fn has_key(s: Seq<Entry>, k: [u8; 32]) -> bool {
    exists|i: int| 0 <= i < s.len() && s[i].0 == k
}

/// The position of the entry with key `k`.
pub open spec fn index_of(s: Seq<Entry>, k: [u8; 32]) -> int {
    choose|i: int| 0 <= i < s.len() && s[i].0 == k
}

/// The keys of `s`, in order.
pub open spec fn keys(s: Seq<Entry>) -> Seq<[u8; 32]> {
    s.map_values(|e: Entry| e.0)
}

/// Entries with distinct keys, no more of them than the capacity.
pub open spec fn entries_wf(s: Seq<Entry>, cap: nat) -> bool {
    &&& s.len() <= cap
    &&& keys(s).no_duplicates()
}

/// Every entry holds the shared key of its public key and `sk`.
pub open spec fn derived_from(s: Seq<Entry>, sk: [u8; 32]) -> bool {
    forall|i: int| 0 <= i < s.len() ==> #[trigger] s[i].1@ == shared_key_of(s[i].0@, sk@)
}

/// The entry at `i` moved to the front.
pub open spec fn promote(s: Seq<Entry>, i: int) -> Seq<Entry> {
    seq![s[i]] + s.remove(i)
}

/// The entries after a request for `k`: a hit promotes its entry to most
/// recently used; a miss puts `(k, v)` in front and, when the cache was full,
/// drops the least recently used entry.
pub open spec fn access(s: Seq<Entry>, cap: nat, k: [u8; 32], v: [u8; 32]) -> Seq<Entry> {
    if has_key(s, k) {
        promote(s, index_of(s, k))
    } else if s.len() == cap {
        seq![(k, v)] + s.drop_last()
    } else {
        seq![(k, v)] + s
    }
}

/// Relies on `lru::LruCache::new`: an empty cache of the given capacity.
#[verifier::external_body]
fn lru_new(cap: usize) -> (r: LruCache<[u8; 32], [u8; 32]>)
    requires
        cap > 0,
    ensures
        lru_entries(r) == Seq::<Entry>::empty(),
        lru_capacity(r) == cap,
{
    LruCache::new(std::num::NonZeroUsize::new(cap).unwrap())
}

/// Relies on `lru::LruCache::get`: on a hit the value comes back and its entry
/// moves to the front; on a miss nothing changes.
#[verifier::external_body]
fn lru_get(c: &mut LruCache<[u8; 32], [u8; 32]>, k: &[u8; 32]) -> (r: Option<[u8; 32]>)
    ensures
        lru_capacity(*final(c)) == lru_capacity(*old(c)),
        match r {
            Some(v) => exists|i: int|
                0 <= i < lru_entries(*old(c)).len() && lru_entries(*old(c))[i] == (*k, v)
                    && lru_entries(*final(c)) == promote(lru_entries(*old(c)), i),
            None => !has_key(lru_entries(*old(c)), *k) && lru_entries(*final(c)) == lru_entries(
                *old(c),
            ),
        },
{
    c.get(k).copied()
}

/// Relies on `lru::LruCache::put` for a key that is not in the cache: the new
/// entry goes to the front, and the last one is dropped when the cache is full.
#[verifier::external_body]
fn lru_put(c: &mut LruCache<[u8; 32], [u8; 32]>, k: [u8; 32], v: [u8; 32])
    requires
        !has_key(lru_entries(*old(c)), k),
    ensures
        lru_capacity(*final(c)) == lru_capacity(*old(c)),
        lru_entries(*final(c)) == (if lru_entries(*old(c)).len() == lru_capacity(*old(c)) {
            seq![(k, v)] + lru_entries(*old(c)).drop_last()
        } else {
            seq![(k, v)] + lru_entries(*old(c))
        }),
{
    c.put(k, v);
}

/// Relies on `lru::LruCache::len`: the number of entries.
#[verifier::external_body]
fn lru_len(c: &LruCache<[u8; 32], [u8; 32]>) -> (r: usize)
    ensures
        r == lru_entries(*c).len(),
{
    c.len()
}

/// Relies on `lru::LruCache::contains`: whether the key has an entry, without
/// touching the order of use.
#[verifier::external_body]
fn lru_contains(c: &LruCache<[u8; 32], [u8; 32]>, k: &[u8; 32]) -> (r: bool)
    ensures
        r == has_key(lru_entries(*c), *k),
{
    c.contains(k)
}

/// Relies on `tox_crypto::precompute`: the shared key depends on the two keys alone.
#[verifier::external_body]
fn precompute_key(pk: &[u8; 32], sk: &[u8; 32]) -> (r: [u8; 32])
    ensures
        r@ == shared_key_of(pk@, sk@),
{
    tox_crypto::precompute(&tox_crypto::PublicKey(*pk), &tox_crypto::SecretKey(*sk)).0
}

/// A bounded cache of the shared keys of one secret key with many public keys.
pub struct PrecomputedCache {
    sk: [u8; 32],
    precomputed_keys: LruCache<[u8; 32], [u8; 32]>,
    /// How many times a shared key has been computed.
    computed: Ghost<nat>,
}

impl PrecomputedCache {
    /// The secret key the shared keys are computed with.
    pub closed spec fn secret_key(&self) -> [u8; 32] {
        self.sk
    }

    /// The cached entries, most recently used first.
    pub closed spec fn entries(&self) -> Seq<Entry> {
        lru_entries(self.precomputed_keys)
    }

    /// The most entries the cache holds.
    pub closed spec fn capacity(&self) -> nat {
        lru_capacity(self.precomputed_keys)
    }

    /// How many shared keys have been computed since the cache was made.
    pub closed spec fn computed(&self) -> nat {
        self.computed@
    }

    /// A positive capacity, distinct keys no more than it, and each cached
    /// value the shared key of its public key.
    pub open spec fn wf(&self) -> bool {
        &&& self.capacity() > 0
        &&& entries_wf(self.entries(), self.capacity())
        &&& derived_from(self.entries(), self.secret_key())
    }

    /// Creates an empty cache for `sk` that holds at most `capacity` keys.
    pub fn new(sk: [u8; 32], capacity: usize) -> (r: PrecomputedCache)
        requires
            capacity > 0,
        ensures
            r.wf(),
            r.secret_key() == sk,
            r.capacity() == capacity,
            r.entries() == Seq::<Entry>::empty(),
            r.computed() == 0,
    {
        PrecomputedCache { sk, precomputed_keys: lru_new(capacity), computed: Ghost(0) }
    }

    /// The number of cached keys.
    pub fn len(&self) -> (r: usize)
        ensures
            r == self.entries().len(),
    {
        lru_len(&self.precomputed_keys)
    }

    /// Whether the shared key of `pk` is cached.
    pub fn contains(&self, pk: &[u8; 32]) -> (r: bool)
        ensures
            r == has_key(self.entries(), *pk),
    {
        lru_contains(&self.precomputed_keys, pk)
    }

    /// The shared key of `pk` and the cache's secret key, computed only when
    /// it is not cached.
    pub fn get(&mut self, pk: [u8; 32]) -> (r: [u8; 32])
        requires
            old(self).wf(),
        ensures
            final(self).wf(),
            r@ == shared_key_of(pk@, old(self).secret_key()@),
            final(self).secret_key() == old(self).secret_key(),
            final(self).capacity() == old(self).capacity(),
            final(self).entries() == access(old(self).entries(), old(self).capacity(), pk, r),
            final(self).computed() == old(self).computed() + (if has_key(old(self).entries(), pk) {
                0nat
            } else {
                1nat
            }),
    {
        let ghost s = self.entries();
        match lru_get(&mut self.precomputed_keys, &pk) {
            Some(k) => {
                proof {
                    let i = choose|i: int|
                        0 <= i < s.len() && s[i] == (pk, k) && self.entries() == promote(s, i);
                    lemma_index_of_unique(s, i);
                    lemma_promote_wf(s, self.capacity(), i, self.sk);
                    assert(s[i].1@ == shared_key_of(s[i].0@, self.sk@));
                }
                k
            },
            None => {
                let k = precompute_key(&pk, &self.sk);
                lru_put(&mut self.precomputed_keys, pk, k);
                proof {
                    self.computed = Ghost(self.computed@ + 1);
                    lemma_insert_wf(s, self.capacity(), pk, k, self.sk);
                }
                k
            },
        }
    }
}

/// With distinct keys, the only position of key `s[i].0` is `i`.
proof fn lemma_index_of_unique(s: Seq<Entry>, i: int)
    requires
        keys(s).no_duplicates(),
        0 <= i < s.len(),
    ensures
        has_key(s, s[i].0),
        index_of(s, s[i].0) == i,
{
    let j = index_of(s, s[i].0);
    assert(keys(s)[i] == s[i].0);
    assert(keys(s)[j] == s[j].0);
}

proof fn lemma_promote_wf(s: Seq<Entry>, cap: nat, i: int, sk: [u8; 32])
    requires
        entries_wf(s, cap),
        0 <= i < s.len(),
    ensures
        entries_wf(promote(s, i), cap),
        derived_from(s, sk) ==> derived_from(promote(s, i), sk),
        keys(promote(s, i)).to_set() == keys(s).to_set(),
{
    let p = promote(s, i);
    assert forall|a: int, b: int|
        0 <= a < b < p.len() implies keys(p)[a] != keys(p)[b] by {
        let ia = if a == 0 { i } else if a - 1 < i { a - 1 } else { a };
        let ib = if b - 1 < i { b - 1 } else { b };
        assert(p[a] == s[ia]);
        assert(p[b] == s[ib]);
        assert(keys(s)[ia] != keys(s)[ib]);
    }
    assert forall|a: int| 0 <= a < p.len() implies p[a] == s[
        if a == 0 { i } else if a - 1 < i { a - 1 } else { a }
    ] by {}
    assert forall|k: [u8; 32]| keys(p).to_set().contains(k) <==> keys(s).to_set().contains(k) by {
        if keys(p).contains(k) {
            let a = choose|a: int| 0 <= a < keys(p).len() && keys(p)[a] == k;
            let ia = if a == 0 { i } else if a - 1 < i { a - 1 } else { a };
            assert(keys(s)[ia] == k);
        }
        if keys(s).contains(k) {
            let a = choose|a: int| 0 <= a < keys(s).len() && keys(s)[a] == k;
            let pa = if a == i { 0 } else if a < i { a + 1 } else { a };
            assert(p[pa] == s[a]);
            assert(keys(p)[pa] == k);
        }
    }
    assert(keys(p).to_set() =~= keys(s).to_set());
}

proof fn lemma_insert_wf(s: Seq<Entry>, cap: nat, k: [u8; 32], v: [u8; 32], sk: [u8; 32])
    requires
        entries_wf(s, cap),
        cap > 0,
        !has_key(s, k),
    ensures
        entries_wf(access(s, cap, k, v), cap),
        derived_from(s, sk) && v@ == shared_key_of(k@, sk@) ==> derived_from(access(s, cap, k, v), sk),
{
    let t = if s.len() == cap { s.drop_last() } else { s };
    let p = seq![(k, v)] + t;
    assert(access(s, cap, k, v) == p);
    assert forall|a: int, b: int|
        0 <= a < b < p.len() implies keys(p)[a] != keys(p)[b] by {
        assert(p[b] == s[b - 1]);
        if a > 0 {
            assert(p[a] == s[a - 1]);
            assert(keys(s)[a - 1] != keys(s)[b - 1]);
        }
    }
    assert forall|a: int| 0 < a < p.len() implies p[a] == s[a - 1] by {}
}

/// Whether `k` is among the keys of `s`.
proof fn lemma_has_key_iff(s: Seq<Entry>, k: [u8; 32])
    ensures
        has_key(s, k) <==> keys(s).to_set().contains(k),
{
    if has_key(s, k) {
        let i = choose|i: int| 0 <= i < s.len() && s[i].0 == k;
        assert(keys(s)[i] == k);
    }
    if keys(s).contains(k) {
        let i = choose|i: int| 0 <= i < keys(s).len() && keys(s)[i] == k;
        assert(s[i].0 == k);
    }
}

/// The entries after the requests `calls` in turn, each a public key and the
/// shared key stored for it on a miss.
pub open spec fn run(s: Seq<Entry>, cap: nat, calls: Seq<Entry>) -> Seq<Entry>
    decreases calls.len(),
{
    if calls.len() == 0 {
        s
    } else {
        access(run(s, cap, calls.drop_last()), cap, calls.last().0, calls.last().1)
    }
}

/// How many of the requests `calls` miss the cache, each miss computing a shared key.
pub open spec fn misses(s: Seq<Entry>, cap: nat, calls: Seq<Entry>) -> nat
    decreases calls.len(),
{
    if calls.len() == 0 {
        0
    } else {
        misses(s, cap, calls.drop_last()) + if has_key(
            run(s, cap, calls.drop_last()),
            calls.last().0,
        ) {
            0nat
        } else {
            1nat
        }
    }
}

proof fn lemma_run_without_eviction(cap: nat, calls: Seq<Entry>)
    requires
        cap > 0,
        keys(calls).to_set().len() <= cap,
    ensures
        entries_wf(run(seq![], cap, calls), cap),
        keys(run(seq![], cap, calls)).to_set() == keys(calls).to_set(),
        run(seq![], cap, calls).len() == misses(seq![], cap, calls),
    decreases calls.len(),
{
    broadcast use vstd::seq_lib::seq_to_set_is_finite;

    let e = Seq::<Entry>::empty();
    if calls.len() == 0 {
        assert(keys(calls).to_set() =~= keys(e).to_set());
    } else {
        let pre = calls.drop_last();
        let (k, v) = calls.last();
        assert(keys(calls) =~= keys(pre).push(k));
        keys(pre).lemma_push_to_set_commute(k);
        vstd::set_lib::lemma_len_subset(keys(pre).to_set(), keys(calls).to_set());
        lemma_run_without_eviction(cap, pre);
        let r = run(e, cap, pre);
        lemma_has_key_iff(r, k);
        if has_key(r, k) {
            let i = index_of(r, k);
            lemma_promote_wf(r, cap, i, k);
            assert(keys(calls).to_set() =~= keys(pre).to_set());
        } else {
            keys(r).unique_seq_to_set();
            assert(r.len() < cap);
            lemma_insert_wf(r, cap, k, v, k);
            let t = seq![(k, v)] + r;
            assert(keys(t) =~= seq![k] + keys(r));
            assert(keys(t).to_set() =~= keys(r).to_set().insert(k)) by {
                assert forall|x: [u8; 32]| keys(t).contains(x) <==> (x == k || keys(r).contains(x)) by {
                    if keys(t).contains(x) {
                        let a = choose|a: int| 0 <= a < keys(t).len() && keys(t)[a] == x;
                        if a > 0 {
                            assert(keys(r)[a - 1] == x);
                        }
                    }
                    if keys(r).contains(x) {
                        let a = choose|a: int| 0 <= a < keys(r).len() && keys(r)[a] == x;
                        assert(keys(t)[a + 1] == x);
                    }
                    if x == k {
                        assert(keys(t)[0] == k);
                    }
                }
            }
        }
    }
}

/// As long as the requests name no more distinct public keys than the cache
/// holds, each key's shared key is computed exactly once, however often and
/// in whatever order the keys are asked for.
pub proof fn lemma_each_key_computed_once(cap: nat, calls: Seq<Entry>)
    requires
        cap > 0,
        keys(calls).to_set().len() <= cap,
    ensures
        misses(seq![], cap, calls) == keys(calls).to_set().len(),
{
    lemma_run_without_eviction(cap, calls);
    keys(run(seq![], cap, calls)).unique_seq_to_set();
}

/// A request keeps the cache within its capacity and its keys distinct, puts
/// the requested key first as most recently used, and when a miss finds the
/// cache full, drops exactly the least recently used entry, the last one.
pub proof fn lemma_access_bounded_lru(s: Seq<Entry>, cap: nat, k: [u8; 32], v: [u8; 32])
    requires
        cap > 0,
        entries_wf(s, cap),
    ensures
        entries_wf(access(s, cap, k, v), cap),
        access(s, cap, k, v)[0].0 == k,
        !has_key(s, k) && s.len() == cap ==> {
            &&& access(s, cap, k, v) == seq![(k, v)] + s.drop_last()
            &&& !has_key(access(s, cap, k, v), s.last().0)
        },
{
    if has_key(s, k) {
        let i = index_of(s, k);
        lemma_promote_wf(s, cap, i, k);
    } else {
        lemma_insert_wf(s, cap, k, v, k);
        if s.len() == cap {
            let t = access(s, cap, k, v);
            let last = s.last().0;
            assert forall|j: int| 0 <= j < t.len() implies t[j].0 != last by {
                if j > 0 {
                    assert(t[j] == s[j - 1]);
                    assert(keys(s)[j - 1] != keys(s)[s.len() - 1]);
                }
            }
        }
    }
}

/// Asking twice for the same key leaves exactly one entry for it, the first
/// one, and the second request computes nothing.
pub proof fn lemma_repeat_request_single_entry(
    s: Seq<Entry>,
    cap: nat,
    k: [u8; 32],
    v: [u8; 32],
    w: [u8; 32],
)
    requires
        cap > 0,
        entries_wf(s, cap),
    ensures
        ({
            let once = access(s, cap, k, v);
            let twice = access(once, cap, k, w);
            &&& has_key(once, k)
            &&& twice[0] == once[0]
            &&& entries_wf(twice, cap)
            &&& forall|i: int| 0 < i < twice.len() ==> twice[i].0 != k
        }),
{
    let once = access(s, cap, k, v);
    lemma_access_bounded_lru(s, cap, k, v);
    assert(once[0].0 == k);
    lemma_index_of_unique(once, 0);
    lemma_access_bounded_lru(once, cap, k, w);
    let twice = access(once, cap, k, w);
    assert(twice =~= once);
    assert forall|i: int| 0 < i < twice.len() implies twice[i].0 != k by {
        assert(keys(twice)[i] != keys(twice)[0]);
    }
}

/// The position of the latest request for `k` among `calls`, or -1 when no
/// request named it.
pub open spec fn last_request(calls: Seq<Entry>, k: [u8; 32]) -> int
    decreases calls.len(),
{
    if calls.len() == 0 {
        -1
    } else if calls.last().0 == k {
        calls.len() - 1
    } else {
        last_request(calls.drop_last(), k)
    }
}

/// Every entry of `s` was requested in `calls`, and the entries stand in
/// order of their latest request, most recent first.
pub open spec fn in_recency_order(s: Seq<Entry>, calls: Seq<Entry>) -> bool {
    &&& forall|i: int| 0 <= i < s.len() ==> last_request(calls, #[trigger] s[i].0) >= 0
    &&& forall|i: int, j: int|
        0 <= i < j < s.len() ==> last_request(calls, #[trigger] s[i].0) > last_request(
            calls,
            #[trigger] s[j].0,
        )
}

proof fn lemma_last_request_bound(calls: Seq<Entry>, k: [u8; 32])
    ensures
        -1 <= last_request(calls, k) < calls.len(),
    decreases calls.len(),
{
    if calls.len() > 0 {
        lemma_last_request_bound(calls.drop_last(), k);
    }
}

/// The cache keeps its entries in order of their latest request, so its last
/// entry is always the least recently requested key that it holds.
pub proof fn lemma_run_in_recency_order(cap: nat, calls: Seq<Entry>)
    requires
        cap > 0,
    ensures
        entries_wf(run(seq![], cap, calls), cap),
        in_recency_order(run(seq![], cap, calls), calls),
    decreases calls.len(),
{
    if calls.len() > 0 {
        let pre = calls.drop_last();
        let (k, v) = calls.last();
        let n = pre.len() as int;
        lemma_run_in_recency_order(cap, pre);
        let r = run(seq![], cap, pre);
        let t = run(seq![], cap, calls);
        assert forall|x: [u8; 32]| #[trigger] last_request(calls, x) == if x == k {
            n
        } else {
            last_request(pre, x)
        } by {}
        assert forall|x: [u8; 32]| #[trigger] last_request(pre, x) < n by {
            lemma_last_request_bound(pre, x);
        }
        if has_key(r, k) {
            let i = index_of(r, k);
            lemma_index_of_unique(r, i);
            lemma_promote_wf(r, cap, i, k);
            assert forall|a: int| 0 < a < t.len() implies t[a] == r[
                if a - 1 < i { a - 1 } else { a }
            ] && t[a].0 != k by {
                let ia = if a - 1 < i { a - 1 } else { a };
                assert(keys(r)[ia] != keys(r)[i]);
            }
        } else {
            lemma_insert_wf(r, cap, k, v, k);
            assert forall|a: int| 0 < a < t.len() implies t[a] == r[a - 1] && t[a].0 != k by {}
        }
    }
}

/// Under any requests, the cache holds at most its capacity; and when a
/// request misses a full cache, the entry dropped is that of the least
/// recently requested key it held.
pub proof fn lemma_evicts_least_recently_requested(
    cap: nat,
    calls: Seq<Entry>,
    k: [u8; 32],
    v: [u8; 32],
)
    requires
        cap > 0,
    ensures
        ({
            let s = run(seq![], cap, calls);
            let t = run(seq![], cap, calls.push((k, v)));
            &&& s.len() <= cap
            &&& t.len() <= cap
            &&& (!has_key(s, k) && s.len() == cap) ==> {
                &&& !has_key(t, s.last().0)
                &&& forall|i: int| 0 <= i < s.len() - 1 ==> has_key(t, #[trigger] s[i].0)
                &&& forall|i: int|
                    0 <= i < s.len() - 1 ==> last_request(calls, #[trigger] s[i].0) > last_request(
                        calls,
                        s.last().0,
                    )
            }
        }),
{
    let s = run(seq![], cap, calls);
    let t = run(seq![], cap, calls.push((k, v)));
    assert(calls.push((k, v)).drop_last() =~= calls);
    lemma_run_in_recency_order(cap, calls);
    lemma_access_bounded_lru(s, cap, k, v);
    if !has_key(s, k) && s.len() == cap {
        assert forall|i: int| 0 <= i < s.len() - 1 implies has_key(t, #[trigger] s[i].0) by {
            assert(t[i + 1] == s[i]);
        }
    }
}

} // verus!
