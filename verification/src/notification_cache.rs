//! The notification service's caches of users and of room bindings: two
//! least-recently-used caches of the `lru` crate, whose entries expire a
//! fixed time after they were stored, with hit and miss counts.
//!
//! A cache's contents are modelled as the sequence of its entries, the most
//! recently used first; times are milliseconds on a monotonic clock that
//! the caller reads.

use vstd::prelude::*;
use lru::LruCache;
use crate::auth::User;
use crate::notification_plan::NotifyBinding;

verus! {

#[verifier::external_type_specification]
#[verifier::external_body]
#[verifier::reject_recursive_types(K)]
#[verifier::reject_recursive_types(V)]
#[verifier::reject_recursive_types(S)]
pub struct ExLruCache<K, V, S>(LruCache<K, V, S>);

#[verifier::external_type_specification]
#[verifier::external_body]
pub struct ExDefaultHasher(lru::DefaultHasher);

// ---------------------------------------------------------------------
// The model of a least-recently-used cache.
// ---------------------------------------------------------------------

/// No two entries have the same key.
pub open spec fn keys_unique<K, V>(s: Seq<(K, V)>) -> bool {
    forall|i: int, j: int| 0 <= i < j < s.len() ==> s[i].0 != s[j].0
}

/// Some entry has key `k`.
pub open spec fn has_key<K, V>(s: Seq<(K, V)>, k: K) -> bool {
    exists|i: int| 0 <= i < s.len() && #[trigger] s[i].0 == k
}

/// The position of the entry with key `k`, if there is one.
pub open spec fn key_index<K, V>(s: Seq<(K, V)>, k: K) -> Option<int> {
    if has_key(s, k) {
        Some(choose|i: int| 0 <= i < s.len() && #[trigger] s[i].0 == k)
    } else {
        None
    }
}

/// The entries after storing `v` under `k` in a cache of capacity `cap`:
/// the entry goes first; an entry with the same key is replaced; when the
/// key is new and the cache is full, the least recently used entry (the
/// last) leaves.
pub open spec fn lru_put<K, V>(s: Seq<(K, V)>, cap: nat, k: K, v: V) -> Seq<(K, V)> {
    match key_index(s, k) {
        Some(i) => seq![(k, v)] + s.remove(i),
        None => if s.len() == cap {
            seq![(k, v)] + s.drop_last()
        } else {
            seq![(k, v)] + s
        },
    }
}

/// The entries after using the entry with key `k`: it moves first.
pub open spec fn lru_promote<K, V>(s: Seq<(K, V)>, k: K) -> Seq<(K, V)> {
    match key_index(s, k) {
        Some(i) => seq![s[i]] + s.remove(i),
        None => s,
    }
}

/// The entries after removing the entry with key `k`.
pub open spec fn lru_pop<K, V>(s: Seq<(K, V)>, k: K) -> Seq<(K, V)> {
    match key_index(s, k) {
        Some(i) => s.remove(i),
        None => s,
    }
}

/// The value stored under `k`, if any.
pub open spec fn lru_value<K, V>(s: Seq<(K, V)>, k: K) -> Option<V> {
    match key_index(s, k) {
        Some(i) => Some(s[i].1),
        None => None,
    }
}

/// In a sequence without repeated keys, the entry with key `k` is the one
/// found.
pub proof fn lemma_key_index_unique<K, V>(s: Seq<(K, V)>, j: int)
    requires
        keys_unique(s),
        0 <= j < s.len(),
    ensures
        key_index(s, s[j].0) == Some(j),
{
    assert(has_key(s, s[j].0));
}

/// Removing an entry keeps the keys distinct and removes only its key.
proof fn lemma_remove_unique<K, V>(s: Seq<(K, V)>, i: int)
    requires
        keys_unique(s),
        0 <= i < s.len(),
    ensures
        keys_unique(s.remove(i)),
        !has_key(s.remove(i), s[i].0),
        forall|k: K| k != s[i].0 ==> (has_key(s.remove(i), k) <==> has_key(s, k)),
{
    let r = s.remove(i);
    assert forall|a: int, b: int| 0 <= a < b < r.len() implies r[a].0 != r[b].0 by {
        let sa = if a < i { a } else { a + 1 };
        let sb = if b < i { b } else { b + 1 };
        assert(r[a] == s[sa]);
        assert(r[b] == s[sb]);
    }
    if has_key(r, s[i].0) {
        let w = choose|w: int| 0 <= w < r.len() && #[trigger] r[w].0 == s[i].0;
        let sw = if w < i { w } else { w + 1 };
        assert(r[w] == s[sw]);
    }
    assert forall|k: K| k != s[i].0 implies (has_key(r, k) <==> has_key(s, k)) by {
        if has_key(r, k) {
            let w = choose|w: int| 0 <= w < r.len() && #[trigger] r[w].0 == k;
            let sw = if w < i { w } else { w + 1 };
            assert(r[w] == s[sw]);
        }
        if has_key(s, k) {
            let w = choose|w: int| 0 <= w < s.len() && #[trigger] s[w].0 == k;
            assert(w != i);
            let rw = if w < i { w } else { w - 1 };
            assert(r[rw] == s[w]);
        }
    }
}

/// Putting an entry first whose key is not among the others keeps the
/// keys distinct.
proof fn lemma_push_front_unique<K, V>(e: (K, V), s: Seq<(K, V)>)
    requires
        keys_unique(s),
        !has_key(s, e.0),
    ensures
        keys_unique(seq![e] + s),
{
    let r = seq![e] + s;
    assert forall|a: int, b: int| 0 <= a < b < r.len() implies r[a].0 != r[b].0 by {
        assert(r[b] == s[b - 1]);
        if a == 0 {
            assert(s[b - 1].0 != e.0);
        } else {
            assert(r[a] == s[a - 1]);
        }
    }
}

/// Dropping the last entry keeps the keys distinct.
proof fn lemma_drop_last_unique<K, V>(s: Seq<(K, V)>, k: K)
    requires
        keys_unique(s),
        s.len() > 0,
        !has_key(s, k),
    ensures
        keys_unique(s.drop_last()),
        !has_key(s.drop_last(), k),
{
    let r = s.drop_last();
    assert forall|a: int, b: int| 0 <= a < b < r.len() implies r[a].0 != r[b].0 by {
        assert(r[a] == s[a]);
        assert(r[b] == s[b]);
    }
    if has_key(r, k) {
        let w = choose|w: int| 0 <= w < r.len() && #[trigger] r[w].0 == k;
        assert(r[w] == s[w]);
    }
}

/// Storing keeps the keys distinct and the cache within its capacity, and
/// the stored value is the one found under its key.
pub proof fn lemma_put_keeps_shape<K, V>(s: Seq<(K, V)>, cap: nat, k: K, v: V)
    requires
        keys_unique(s),
        s.len() <= cap,
        cap > 0,
    ensures
        keys_unique(lru_put(s, cap, k, v)),
        lru_put(s, cap, k, v).len() <= cap,
        key_index(lru_put(s, cap, k, v), k) == Some(0int),
        lru_value(lru_put(s, cap, k, v), k) == Some(v),
{
    let r = lru_put(s, cap, k, v);
    match key_index(s, k) {
        Some(i) => {
            lemma_key_index_unique(s, i);
            lemma_remove_unique(s, i);
            lemma_push_front_unique((k, v), s.remove(i));
        },
        None => {
            if s.len() == cap {
                lemma_drop_last_unique(s, k);
                lemma_push_front_unique((k, v), s.drop_last());
            } else {
                lemma_push_front_unique((k, v), s);
            }
        },
    }
    lemma_key_index_unique(r, 0);
}

/// Using an entry keeps the keys distinct and the entries the same, in
/// another order.
pub proof fn lemma_promote_keeps_shape<K, V>(s: Seq<(K, V)>, k: K)
    requires
        keys_unique(s),
    ensures
        keys_unique(lru_promote(s, k)),
        lru_promote(s, k).len() == s.len(),
        forall|x: K| #[trigger] lru_value(lru_promote(s, k), x) == lru_value(s, x),
{
    match key_index(s, k) {
        Some(i) => {
            lemma_key_index_unique(s, i);
            lemma_remove_unique(s, i);
            lemma_push_front_unique(s[i], s.remove(i));
            let r = lru_promote(s, k);
            assert forall|x: K| #[trigger] lru_value(r, x) == lru_value(s, x) by {
                if has_key(s, x) {
                    let w = choose|w: int| 0 <= w < s.len() && #[trigger] s[w].0 == x;
                    lemma_key_index_unique(s, w);
                    let rw = if w == i { 0 } else if w < i { w + 1 } else { w };
                    assert(r[rw] == s[w]);
                    lemma_key_index_unique(r, rw);
                } else {
                    if has_key(r, x) {
                        let w = choose|w: int| 0 <= w < r.len() && #[trigger] r[w].0 == x;
                        let sw = if w == 0 { i } else if w - 1 < i { w - 1 } else { w };
                        assert(r[w] == s[sw]);
                    }
                }
            }
        },
        None => {},
    }
}

/// Removing an entry keeps the keys distinct; its key is then absent.
pub proof fn lemma_pop_keeps_shape<K, V>(s: Seq<(K, V)>, k: K)
    requires
        keys_unique(s),
    ensures
        keys_unique(lru_pop(s, k)),
        lru_pop(s, k).len() <= s.len(),
        lru_value(lru_pop(s, k), k) is None,
{
    match key_index(s, k) {
        Some(i) => {
            lemma_key_index_unique(s, i);
            lemma_remove_unique(s, i);
        },
        None => {},
    }
}

// ---------------------------------------------------------------------
// The cache of users.
// ---------------------------------------------------------------------

/// A cached value and when it was stored.
#[derive(Debug)]
pub struct CachedItem<T> {
    pub data: T,
    pub created_at: u64,
}

impl<T> CachedItem<T> {
    /// `data`, stored at `now`.
    pub fn new(data: T, now: u64) -> (r: CachedItem<T>)
        ensures
            r.data == data,
            r.created_at == now,
    {
        CachedItem { data, created_at: now }
    }

    /// The item has expired at `now`: more than `ttl_secs` seconds have
    /// passed since it was stored.
    pub fn is_expired(&self, now: u64, ttl_secs: u64) -> (r: bool)
        ensures
            r == expired(self.created_at, now, ttl_secs),
    {
        is_expired(self.created_at, now, ttl_secs)
    }
}

/// A cached user.
pub type CachedUser = CachedItem<User>;

/// The entries of a user cache, most recently used first.
pub uninterp spec fn user_lru_entries(c: LruCache<u128, CachedUser>) -> Seq<(u128, CachedUser)>;

/// The capacity a user cache was made with.
pub uninterp spec fn user_lru_cap(c: LruCache<u128, CachedUser>) -> nat;

/// `LruCache::new`: an empty user cache holding at most `cap` entries.
#[verifier::external_body]
fn user_lru_new(cap: usize) -> (c: LruCache<u128, CachedUser>)
    requires
        cap > 0,
    ensures
        user_lru_entries(c) == Seq::<(u128, CachedUser)>::empty(),
        user_lru_cap(c) == cap,
{
    LruCache::new(std::num::NonZeroUsize::new(cap).unwrap())
}

/// `LruCache::peek`: the entry under `k`, leaving the order as it is.
#[verifier::external_body]
fn user_lru_peek(c: &LruCache<u128, CachedUser>, k: u128) -> (r: Option<&CachedUser>)
    ensures
        r == (match key_index(user_lru_entries(*c), k) {
            Some(i) => Some(&user_lru_entries(*c)[i].1),
            None => None::<&CachedUser>,
        }),
{
    c.peek(&k)
}

/// `LruCache::promote`: the entry under `k`, if any, becomes the most
/// recently used.
#[verifier::external_body]
fn user_lru_promote(c: &mut LruCache<u128, CachedUser>, k: u128)
    ensures
        user_lru_entries(*final(c)) == lru_promote(user_lru_entries(*old(c)), k),
        user_lru_cap(*final(c)) == user_lru_cap(*old(c)),
{
    c.promote(&k)
}

/// `LruCache::put`: stores `v` under `k` as the most recently used entry,
/// replacing the entry under `k` or, in a full cache, the least recently
/// used one.
#[verifier::external_body]
fn user_lru_put(c: &mut LruCache<u128, CachedUser>, k: u128, v: CachedUser)
    ensures
        user_lru_entries(*final(c)) == lru_put(user_lru_entries(*old(c)), user_lru_cap(*old(c)), k, v),
        user_lru_cap(*final(c)) == user_lru_cap(*old(c)),
{
    c.put(k, v);
}

/// `LruCache::pop`: removes the entry under `k`, if any.
#[verifier::external_body]
fn user_lru_pop(c: &mut LruCache<u128, CachedUser>, k: u128)
    ensures
        user_lru_entries(*final(c)) == lru_pop(user_lru_entries(*old(c)), k),
        user_lru_cap(*final(c)) == user_lru_cap(*old(c)),
{
    c.pop(&k);
}

/// `LruCache::len`: the number of entries.
#[verifier::external_body]
fn user_lru_len(c: &LruCache<u128, CachedUser>) -> (n: usize)
    ensures
        n == user_lru_entries(*c).len(),
{
    c.len()
}

/// `LruCache::clear`: removes every entry.
#[verifier::external_body]
fn user_lru_clear(c: &mut LruCache<u128, CachedUser>)
    ensures
        user_lru_entries(*final(c)) == Seq::<(u128, CachedUser)>::empty(),
        user_lru_cap(*final(c)) == user_lru_cap(*old(c)),
{
    c.clear()
}

// ---------------------------------------------------------------------
// The cache of room bindings.
// ---------------------------------------------------------------------

/// The cached bindings of a room.
pub type CachedBindings = CachedItem<Vec<NotifyBinding>>;

/// The entries of a binding cache, most recently used first.
pub uninterp spec fn binding_lru_entries(c: LruCache<i32, CachedBindings>) -> Seq<(i32, CachedBindings)>;

/// The capacity a binding cache was made with.
pub uninterp spec fn binding_lru_cap(c: LruCache<i32, CachedBindings>) -> nat;

/// `LruCache::new`: an empty binding cache holding at most `cap` entries.
#[verifier::external_body]
fn binding_lru_new(cap: usize) -> (c: LruCache<i32, CachedBindings>)
    requires
        cap > 0,
    ensures
        binding_lru_entries(c) == Seq::<(i32, CachedBindings)>::empty(),
        binding_lru_cap(c) == cap,
{
    LruCache::new(std::num::NonZeroUsize::new(cap).unwrap())
}

/// `LruCache::peek`: the entry under `k`, leaving the order as it is.
#[verifier::external_body]
fn binding_lru_peek(c: &LruCache<i32, CachedBindings>, k: i32) -> (r: Option<&CachedBindings>)
    ensures
        r == (match key_index(binding_lru_entries(*c), k) {
            Some(i) => Some(&binding_lru_entries(*c)[i].1),
            None => None::<&CachedBindings>,
        }),
{
    c.peek(&k)
}

/// `LruCache::promote`: the entry under `k`, if any, becomes the most
/// recently used.
#[verifier::external_body]
fn binding_lru_promote(c: &mut LruCache<i32, CachedBindings>, k: i32)
    ensures
        binding_lru_entries(*final(c)) == lru_promote(binding_lru_entries(*old(c)), k),
        binding_lru_cap(*final(c)) == binding_lru_cap(*old(c)),
{
    c.promote(&k)
}

/// `LruCache::put`: stores `v` under `k` as the most recently used entry,
/// replacing the entry under `k` or, in a full cache, the least recently
/// used one.
#[verifier::external_body]
fn binding_lru_put(c: &mut LruCache<i32, CachedBindings>, k: i32, v: CachedBindings)
    ensures
        binding_lru_entries(*final(c)) == lru_put(binding_lru_entries(*old(c)), binding_lru_cap(*old(c)), k, v),
        binding_lru_cap(*final(c)) == binding_lru_cap(*old(c)),
{
    c.put(k, v);
}

/// `LruCache::pop`: removes the entry under `k`, if any.
#[verifier::external_body]
fn binding_lru_pop(c: &mut LruCache<i32, CachedBindings>, k: i32)
    ensures
        binding_lru_entries(*final(c)) == lru_pop(binding_lru_entries(*old(c)), k),
        binding_lru_cap(*final(c)) == binding_lru_cap(*old(c)),
{
    c.pop(&k);
}

/// `LruCache::len`: the number of entries.
#[verifier::external_body]
fn binding_lru_len(c: &LruCache<i32, CachedBindings>) -> (n: usize)
    ensures
        n == binding_lru_entries(*c).len(),
{
    c.len()
}

/// `LruCache::clear`: removes every entry.
#[verifier::external_body]
fn binding_lru_clear(c: &mut LruCache<i32, CachedBindings>)
    ensures
        binding_lru_entries(*final(c)) == Seq::<(i32, CachedBindings)>::empty(),
        binding_lru_cap(*final(c)) == binding_lru_cap(*old(c)),
{
    c.clear()
}

// ---------------------------------------------------------------------
// Expiry and statistics.
// ---------------------------------------------------------------------

/// The time since `created_at`, or zero for a time in its future.
pub open spec fn elapsed_ms(created_at: u64, now: u64) -> nat {
    if now >= created_at {
        (now - created_at) as nat
    } else {
        0
    }
}

/// An entry stored at `created_at` has expired at `now` when more than
/// `ttl_secs` seconds have passed.
pub open spec fn expired(created_at: u64, now: u64, ttl_secs: u64) -> bool {
    elapsed_ms(created_at, now) > ttl_secs * 1000
}

fn is_expired(created_at: u64, now: u64, ttl_secs: u64) -> (r: bool)
    ensures
        r == expired(created_at, now, ttl_secs),
{
    let elapsed: u64 = if now >= created_at {
        now - created_at
    } else {
        0
    };
    (elapsed as u128) > (ttl_secs as u128) * 1000
}

/// The hits and misses of the two caches.
#[derive(Debug, Clone, Copy)]
pub struct CacheStats {
    pub user_hits: u64,
    pub user_misses: u64,
    pub binding_hits: u64,
    pub binding_misses: u64,
}

impl Default for CacheStats {
    /// All counts zero.
    fn default() -> (r: Self)
        ensures
            r == (CacheStats { user_hits: 0, user_misses: 0, binding_hits: 0, binding_misses: 0 }),
    {
        CacheStats { user_hits: 0, user_misses: 0, binding_hits: 0, binding_misses: 0 }
    }
}

/// The counts after a user lookup that hit (`hit`) or missed.
pub open spec fn user_lookup_counts(c: CacheStats, hit: bool) -> CacheStats {
    if hit {
        CacheStats { user_hits: (c.user_hits + 1) as u64, ..c }
    } else {
        CacheStats { user_misses: (c.user_misses + 1) as u64, ..c }
    }
}

/// What a lookup finds: the value under `k` when it has not expired.
pub open spec fn fresh_value<K, V>(s: Seq<(K, V)>, k: K, now: u64, ttl_secs: u64, created: spec_fn(V) -> u64) -> Option<V> {
    match key_index(s, k) {
        Some(i) => if !expired(created(s[i].1), now, ttl_secs) {
            Some(s[i].1)
        } else {
            None
        },
        None => None,
    }
}

/// The entries after a lookup: a fresh entry becomes the most recently
/// used, an expired one is removed.
pub open spec fn after_lookup<K, V>(s: Seq<(K, V)>, k: K, now: u64, ttl_secs: u64, created: spec_fn(V) -> u64) -> Seq<
    (K, V),
> {
    match key_index(s, k) {
        Some(i) => if !expired(created(s[i].1), now, ttl_secs) {
            lru_promote(s, k)
        } else {
            lru_pop(s, k)
        },
        None => s,
    }
}

/// The user entries after storing each of `us` in turn at `now`.
pub open spec fn put_users(s: Seq<(u128, CachedUser)>, cap: nat, us: Seq<User>, now: u64) -> Seq<(u128, CachedUser)>
    decreases us.len(),
{
    if us.len() == 0 {
        s
    } else {
        lru_put(put_users(s, cap, us.drop_last(), now), cap, us.last().id, CachedItem { data: us.last(), created_at: now })
    }
}

/// The binding entries after storing each group of `gs` in turn at `now`.
pub open spec fn put_binding_groups(
    s: Seq<(i32, CachedBindings)>,
    cap: nat,
    gs: Seq<(i32, Vec<NotifyBinding>)>,
    now: u64,
) -> Seq<(i32, CachedBindings)>
    decreases gs.len(),
{
    if gs.len() == 0 {
        s
    } else {
        lru_put(
            put_binding_groups(s, cap, gs.drop_last(), now),
            cap,
            gs.last().0,
            CachedItem { data: gs.last().1, created_at: now },
        )
    }
}

/// When a cached user was stored.
pub open spec fn user_created(c: CachedUser) -> u64 {
    c.created_at
}

/// When cached bindings were stored.
pub open spec fn bindings_created(c: CachedBindings) -> u64 {
    c.created_at
}

fn copy_opt_string(o: &Option<String>) -> (r: Option<String>)
    ensures
        r == *o,
{
    match o {
        Some(s) => Some(s.clone()),
        None => None,
    }
}

fn copy_user(u: &User) -> (r: User)
    ensures
        r == *u,
{
    User {
        id: u.id,
        qq_number: copy_opt_string(&u.qq_number),
        role: u.role.clone(),
        is_active: u.is_active,
        login_provider: u.login_provider.clone(),
        email: copy_opt_string(&u.email),
    }
}

fn copy_bindings(v: &Vec<NotifyBinding>) -> (r: Vec<NotifyBinding>)
    ensures
        r@ == v@,
{
    let mut r: Vec<NotifyBinding> = Vec::new();
    let mut i: usize = 0;
    while i < v.len()
        invariant
            i <= v@.len(),
            r@ == v@.take(i as int),
        decreases v@.len() - i,
    {
        r.push(v[i]);
        proof {
            assert(r@ =~= v@.take(i + 1));
        }
        i = i + 1;
    }
    proof {
        assert(v@.take(v@.len() as int) =~= v@);
    }
    r
}

// ---------------------------------------------------------------------
// The caches together.
// ---------------------------------------------------------------------

/// The notification service's caches.
pub struct NotificationCache {
    user_cache: LruCache<u128, CachedUser>,
    binding_cache: LruCache<i32, CachedBindings>,
    ttl_secs: u64,
    stats: CacheStats,
}

impl NotificationCache {
    /// The cached users, most recently used first.
    pub closed spec fn users(&self) -> Seq<(u128, CachedUser)> {
        user_lru_entries(self.user_cache)
    }

    /// The cached room bindings, most recently used first.
    pub closed spec fn bindings(&self) -> Seq<(i32, CachedBindings)> {
        binding_lru_entries(self.binding_cache)
    }

    /// The most users the cache holds.
    pub closed spec fn user_capacity(&self) -> nat {
        user_lru_cap(self.user_cache)
    }

    /// The most rooms the cache holds.
    pub closed spec fn binding_capacity(&self) -> nat {
        binding_lru_cap(self.binding_cache)
    }

    /// How long an entry stays fresh, in seconds.
    pub closed spec fn ttl(&self) -> u64 {
        self.ttl_secs
    }

    /// The hit and miss counts.
    pub closed spec fn counts(&self) -> CacheStats {
        self.stats
    }

    /// Each cache has distinct keys and stays within its capacity.
    pub open spec fn wf(&self) -> bool {
        &&& keys_unique(self.users())
        &&& keys_unique(self.bindings())
        &&& self.user_capacity() > 0
        &&& self.binding_capacity() > 0
        &&& self.users().len() <= self.user_capacity()
        &&& self.bindings().len() <= self.binding_capacity()
    }

    /// Empty caches of the given capacities (1000 users and 500 rooms when
    /// not given) whose entries stay fresh `ttl_secs` seconds (300 when not
    /// given).
    pub fn new(user_capacity: Option<usize>, binding_capacity: Option<usize>, ttl_secs: Option<u64>) -> (r:
        NotificationCache)
        requires
            user_capacity != Some(0usize),
            binding_capacity != Some(0usize),
        ensures
            r.wf(),
            r.users() == Seq::<(u128, CachedUser)>::empty(),
            r.bindings() == Seq::<(i32, CachedBindings)>::empty(),
            r.user_capacity() == (match user_capacity {
                Some(c) => c,
                None => 1000usize,
            }),
            r.binding_capacity() == (match binding_capacity {
                Some(c) => c,
                None => 500usize,
            }),
            r.ttl() == (match ttl_secs {
                Some(t) => t,
                None => 300u64,
            }),
            r.counts() == (CacheStats { user_hits: 0, user_misses: 0, binding_hits: 0, binding_misses: 0 }),
    {
        let user_cap = match user_capacity {
            Some(c) => c,
            None => 1000,
        };
        let binding_cap = match binding_capacity {
            Some(c) => c,
            None => 500,
        };
        let ttl = match ttl_secs {
            Some(t) => t,
            None => 300,
        };
        NotificationCache {
            user_cache: user_lru_new(user_cap),
            binding_cache: binding_lru_new(binding_cap),
            ttl_secs: ttl,
            stats: CacheStats::default(),
        }
    }

    /// The cached user `user_id` when it is fresh at `now`; the lookup
    /// counts as a hit or a miss, a fresh entry becomes the most recently
    /// used and an expired one is dropped.
    pub fn get_user(&mut self, user_id: u128, now: u64) -> (r: Option<User>)
        requires
            old(self).wf(),
            old(self).counts().user_hits < u64::MAX,
            old(self).counts().user_misses < u64::MAX,
        ensures
            final(self).wf(),
            r == (match fresh_value(old(self).users(), user_id, now, old(self).ttl(), |c: CachedUser| user_created(c)) {
                Some(c) => Some(c.data),
                None => None::<User>,
            }),
            final(self).users() == after_lookup(
                old(self).users(),
                user_id,
                now,
                old(self).ttl(),
                |c: CachedUser| user_created(c),
            ),
            final(self).counts() == user_lookup_counts(old(self).counts(), r is Some),
            final(self).bindings() == old(self).bindings(),
            final(self).user_capacity() == old(self).user_capacity(),
            final(self).binding_capacity() == old(self).binding_capacity(),
            final(self).ttl() == old(self).ttl(),
    {
        proof {
            lemma_promote_keeps_shape(self.users(), user_id);
            lemma_pop_keeps_shape(self.users(), user_id);
        }
        let found = match user_lru_peek(&self.user_cache, user_id) {
            Some(cached) => {
                if !cached.is_expired(now, self.ttl_secs) {
                    Some(copy_user(&cached.data))
                } else {
                    None
                }
            },
            None => None,
        };
        match found {
            Some(u) => {
                user_lru_promote(&mut self.user_cache, user_id);
                self.stats.user_hits = self.stats.user_hits + 1;
                Some(u)
            },
            None => {
                if user_lru_peek(&self.user_cache, user_id).is_some() {
                    user_lru_pop(&mut self.user_cache, user_id);
                }
                self.stats.user_misses = self.stats.user_misses + 1;
                None
            },
        }
    }

    /// Caches `user`, stored at `now`.
    pub fn set_user(&mut self, user: User, now: u64)
        requires
            old(self).wf(),
        ensures
            final(self).wf(),
            final(self).users() == lru_put(
                old(self).users(),
                old(self).user_capacity(),
                user.id,
                CachedItem { data: user, created_at: now },
            ),
            final(self).bindings() == old(self).bindings(),
            final(self).user_capacity() == old(self).user_capacity(),
            final(self).binding_capacity() == old(self).binding_capacity(),
            final(self).ttl() == old(self).ttl(),
            final(self).counts() == old(self).counts(),
    {
        let id = user.id;
        let item = CachedItem::new(user, now);
        proof {
            lemma_put_keeps_shape(self.users(), self.user_capacity(), id, item);
        }
        user_lru_put(&mut self.user_cache, id, item);
    }

    /// Caches each of `users` in turn, stored at `now`.
    pub fn set_users(&mut self, users: Vec<User>, now: u64)
        requires
            old(self).wf(),
        ensures
            final(self).wf(),
            final(self).users() == put_users(old(self).users(), old(self).user_capacity(), users@, now),
            final(self).bindings() == old(self).bindings(),
            final(self).user_capacity() == old(self).user_capacity(),
            final(self).binding_capacity() == old(self).binding_capacity(),
            final(self).ttl() == old(self).ttl(),
            final(self).counts() == old(self).counts(),
    {
        let ghost all = users@;
        let ghost start = self.users();
        let mut rest = users;
        let total = rest.len();
        let mut k: usize = 0;
        while rest.len() > 0
            invariant
                self.wf(),
                k + rest@.len() == all.len(),
                all.len() == total,
                rest@ == all.subrange(k as int, all.len() as int),
                self.users() == put_users(start, old(self).user_capacity(), all.take(k as int), now),
                self.bindings() == old(self).bindings(),
                self.user_capacity() == old(self).user_capacity(),
                self.binding_capacity() == old(self).binding_capacity(),
                self.ttl() == old(self).ttl(),
                self.counts() == old(self).counts(),
            decreases rest@.len(),
        {
            let u = rest.remove(0);
            proof {
                assert(u == all[k as int]);
                assert(all.take(k + 1).drop_last() =~= all.take(k as int));
                assert(rest@ =~= all.subrange(k + 1, all.len() as int));
            }
            self.set_user(u, now);
            k = k + 1;
        }
        proof {
            assert(all.take(all.len() as int) =~= all);
        }
    }

    /// The cached bindings of `roomid` when they are fresh at `now`; the
    /// lookup counts as a hit or a miss, a fresh entry becomes the most
    /// recently used and an expired one is dropped.
    pub fn get_bindings(&mut self, roomid: i32, now: u64) -> (r: Option<Vec<NotifyBinding>>)
        requires
            old(self).wf(),
            old(self).counts().binding_hits < u64::MAX,
            old(self).counts().binding_misses < u64::MAX,
        ensures
            final(self).wf(),
            match fresh_value(old(self).bindings(), roomid, now, old(self).ttl(), |c: CachedBindings| bindings_created(c)) {
                Some(c) => r matches Some(v) && v@ == c.data@,
                None => r is None,
            },
            final(self).bindings() == after_lookup(
                old(self).bindings(),
                roomid,
                now,
                old(self).ttl(),
                |c: CachedBindings| bindings_created(c),
            ),
            final(self).counts() == (if r is Some {
                CacheStats { binding_hits: (old(self).counts().binding_hits + 1) as u64, ..old(self).counts() }
            } else {
                CacheStats { binding_misses: (old(self).counts().binding_misses + 1) as u64, ..old(self).counts() }
            }),
            final(self).users() == old(self).users(),
            final(self).user_capacity() == old(self).user_capacity(),
            final(self).binding_capacity() == old(self).binding_capacity(),
            final(self).ttl() == old(self).ttl(),
    {
        proof {
            lemma_promote_keeps_shape(self.bindings(), roomid);
            lemma_pop_keeps_shape(self.bindings(), roomid);
        }
        let found = match binding_lru_peek(&self.binding_cache, roomid) {
            Some(cached) => {
                if !cached.is_expired(now, self.ttl_secs) {
                    Some(copy_bindings(&cached.data))
                } else {
                    None
                }
            },
            None => None,
        };
        match found {
            Some(v) => {
                binding_lru_promote(&mut self.binding_cache, roomid);
                self.stats.binding_hits = self.stats.binding_hits + 1;
                Some(v)
            },
            None => {
                if binding_lru_peek(&self.binding_cache, roomid).is_some() {
                    binding_lru_pop(&mut self.binding_cache, roomid);
                }
                self.stats.binding_misses = self.stats.binding_misses + 1;
                None
            },
        }
    }

    /// Caches the bindings of `roomid`, stored at `now`.
    pub fn set_bindings(&mut self, roomid: i32, bindings: Vec<NotifyBinding>, now: u64)
        requires
            old(self).wf(),
        ensures
            final(self).wf(),
            final(self).bindings() == lru_put(
                old(self).bindings(),
                old(self).binding_capacity(),
                roomid,
                CachedItem { data: bindings, created_at: now },
            ),
            final(self).users() == old(self).users(),
            final(self).user_capacity() == old(self).user_capacity(),
            final(self).binding_capacity() == old(self).binding_capacity(),
            final(self).ttl() == old(self).ttl(),
            final(self).counts() == old(self).counts(),
    {
        let item = CachedItem::new(bindings, now);
        proof {
            lemma_put_keeps_shape(self.bindings(), self.binding_capacity(), roomid, item);
        }
        binding_lru_put(&mut self.binding_cache, roomid, item);
    }

    /// Caches the bindings of each room of `groups` in turn, stored at
    /// `now`.
    pub fn set_bindings_batch(&mut self, groups: Vec<(i32, Vec<NotifyBinding>)>, now: u64)
        requires
            old(self).wf(),
        ensures
            final(self).wf(),
            final(self).bindings() == put_binding_groups(old(self).bindings(), old(self).binding_capacity(), groups@, now),
            final(self).users() == old(self).users(),
            final(self).user_capacity() == old(self).user_capacity(),
            final(self).binding_capacity() == old(self).binding_capacity(),
            final(self).ttl() == old(self).ttl(),
            final(self).counts() == old(self).counts(),
    {
        let ghost all = groups@;
        let ghost start = self.bindings();
        let mut rest = groups;
        let total = rest.len();
        let mut k: usize = 0;
        while rest.len() > 0
            invariant
                self.wf(),
                k + rest@.len() == all.len(),
                all.len() == total,
                rest@ == all.subrange(k as int, all.len() as int),
                self.bindings() == put_binding_groups(start, old(self).binding_capacity(), all.take(k as int), now),
                self.users() == old(self).users(),
                self.user_capacity() == old(self).user_capacity(),
                self.binding_capacity() == old(self).binding_capacity(),
                self.ttl() == old(self).ttl(),
                self.counts() == old(self).counts(),
            decreases rest@.len(),
        {
            let (roomid, bindings) = rest.remove(0);
            proof {
                assert((roomid, bindings) == all[k as int]);
                assert(all.take(k + 1).drop_last() =~= all.take(k as int));
                assert(rest@ =~= all.subrange(k + 1, all.len() as int));
            }
            self.set_bindings(roomid, bindings, now);
            k = k + 1;
        }
        proof {
            assert(all.take(all.len() as int) =~= all);
        }
    }

    /// Drops the cached user `user_id`.
    pub fn invalidate_user(&mut self, user_id: u128)
        requires
            old(self).wf(),
        ensures
            final(self).wf(),
            final(self).users() == lru_pop(old(self).users(), user_id),
            final(self).bindings() == old(self).bindings(),
            final(self).user_capacity() == old(self).user_capacity(),
            final(self).binding_capacity() == old(self).binding_capacity(),
            final(self).ttl() == old(self).ttl(),
            final(self).counts() == old(self).counts(),
    {
        proof {
            lemma_pop_keeps_shape(self.users(), user_id);
        }
        user_lru_pop(&mut self.user_cache, user_id);
    }

    /// Drops the cached bindings of `roomid`.
    pub fn invalidate_bindings(&mut self, roomid: i32)
        requires
            old(self).wf(),
        ensures
            final(self).wf(),
            final(self).bindings() == lru_pop(old(self).bindings(), roomid),
            final(self).users() == old(self).users(),
            final(self).user_capacity() == old(self).user_capacity(),
            final(self).binding_capacity() == old(self).binding_capacity(),
            final(self).ttl() == old(self).ttl(),
            final(self).counts() == old(self).counts(),
    {
        proof {
            lemma_pop_keeps_shape(self.bindings(), roomid);
        }
        binding_lru_pop(&mut self.binding_cache, roomid);
    }

    /// Empties both caches.
    pub fn clear_all(&mut self)
        requires
            old(self).wf(),
        ensures
            final(self).wf(),
            final(self).users() == Seq::<(u128, CachedUser)>::empty(),
            final(self).bindings() == Seq::<(i32, CachedBindings)>::empty(),
            final(self).user_capacity() == old(self).user_capacity(),
            final(self).binding_capacity() == old(self).binding_capacity(),
            final(self).ttl() == old(self).ttl(),
            final(self).counts() == old(self).counts(),
    {
        user_lru_clear(&mut self.user_cache);
        binding_lru_clear(&mut self.binding_cache);
    }

    /// The hit and miss counts.
    pub fn get_stats(&self) -> (r: CacheStats)
        ensures
            r == self.counts(),
    {
        self.stats
    }

    /// Sets every count back to zero.
    pub fn reset_stats(&mut self)
        requires
            old(self).wf(),
        ensures
            final(self).wf(),
            final(self).counts() == (CacheStats { user_hits: 0, user_misses: 0, binding_hits: 0, binding_misses: 0 }),
            final(self).users() == old(self).users(),
            final(self).bindings() == old(self).bindings(),
            final(self).user_capacity() == old(self).user_capacity(),
            final(self).binding_capacity() == old(self).binding_capacity(),
            final(self).ttl() == old(self).ttl(),
    {
        self.stats = CacheStats::default();
    }

    /// The number of cached users and of cached rooms.
    pub fn get_cache_sizes(&self) -> (r: (usize, usize))
        ensures
            r == (self.users().len() as usize, self.bindings().len() as usize),
    {
        (user_lru_len(&self.user_cache), binding_lru_len(&self.binding_cache))
    }
}


// ---------------------------------------------------------------------
// Laws of the caches.
// ---------------------------------------------------------------------

/// A stored entry is found fresh under its key until its time to live has
/// passed: a lookup after storing gives back what was stored.
pub proof fn law_lookup_after_store<K, V>(
    s: Seq<(K, V)>,
    cap: nat,
    k: K,
    v: V,
    now: u64,
    ttl_secs: u64,
    created: spec_fn(V) -> u64,
)
    requires
        keys_unique(s),
        s.len() <= cap,
        cap > 0,
        !expired(created(v), now, ttl_secs),
    ensures
        fresh_value(lru_put(s, cap, k, v), k, now, ttl_secs, created) == Some(v),
{
    lemma_put_keeps_shape(s, cap, k, v);
}

/// After an entry is removed, a lookup of its key misses.
pub proof fn law_lookup_after_invalidate<K, V>(
    s: Seq<(K, V)>,
    k: K,
    now: u64,
    ttl_secs: u64,
    created: spec_fn(V) -> u64,
)
    requires
        keys_unique(s),
    ensures
        fresh_value(lru_pop(s, k), k, now, ttl_secs, created) is None,
{
    lemma_pop_keeps_shape(s, k);
}

/// An entry found expired is dropped: a later lookup of its key misses.
pub proof fn law_expired_entry_dropped<K, V>(
    s: Seq<(K, V)>,
    k: K,
    now: u64,
    later: u64,
    ttl_secs: u64,
    created: spec_fn(V) -> u64,
)
    requires
        keys_unique(s),
        has_key(s, k),
        fresh_value(s, k, now, ttl_secs, created) is None,
    ensures
        fresh_value(after_lookup(s, k, now, ttl_secs, created), k, later, ttl_secs, created) is None,
{
    lemma_pop_keeps_shape(s, k);
}

/// Storing under a new key in a full cache evicts exactly the least
/// recently used entry: its key is gone, every other entry keeps its value.
pub proof fn law_full_cache_evicts_least_recent<K, V>(s: Seq<(K, V)>, cap: nat, k: K, v: V)
    requires
        keys_unique(s),
        s.len() == cap,
        cap > 0,
        !has_key(s, k),
    ensures
        lru_value(lru_put(s, cap, k, v), s.last().0) is None,
        forall|x: K|
            x != k && x != s.last().0 ==> #[trigger] lru_value(lru_put(s, cap, k, v), x) == lru_value(s, x),
        lru_put(s, cap, k, v).len() == cap,
{
    let r = lru_put(s, cap, k, v);
    let d = s.drop_last();
    lemma_drop_last_unique(s, k);
    lemma_push_front_unique((k, v), d);
    assert(r == seq![(k, v)] + d);
    if has_key(r, s.last().0) {
        let w = choose|w: int| 0 <= w < r.len() && #[trigger] r[w].0 == s.last().0;
        if w == 0 {
            assert(s[s.len() - 1].0 == k);
            assert(has_key(s, k));
        } else {
            assert(r[w] == s[w - 1]);
            assert(s[w - 1].0 == s[s.len() - 1].0);
        }
    }
    assert forall|x: K| x != k && x != s.last().0 implies #[trigger] lru_value(r, x) == lru_value(s, x) by {
        if has_key(s, x) {
            let w = choose|w: int| 0 <= w < s.len() && #[trigger] s[w].0 == x;
            assert(w != s.len() - 1);
            lemma_key_index_unique(s, w);
            assert(r[w + 1] == s[w]);
            lemma_key_index_unique(r, w + 1);
        } else if has_key(r, x) {
            let w = choose|w: int| 0 <= w < r.len() && #[trigger] r[w].0 == x;
            assert(w != 0);
            assert(r[w] == s[w - 1]);
        }
    }
}

/// Storing under a key never changes the values of the other keys that
/// stay.
pub proof fn law_store_keeps_other_values<K, V>(s: Seq<(K, V)>, cap: nat, k: K, v: V, x: K)
    requires
        keys_unique(s),
        s.len() <= cap,
        cap > 0,
        x != k,
        has_key(lru_put(s, cap, k, v), x),
    ensures
        lru_value(lru_put(s, cap, k, v), x) == lru_value(s, x),
{
    let r = lru_put(s, cap, k, v);
    lemma_put_keeps_shape(s, cap, k, v);
    let w = choose|w: int| 0 <= w < r.len() && #[trigger] r[w].0 == x;
    lemma_key_index_unique(r, w);
    assert(w != 0);
    match key_index(s, k) {
        Some(i) => {
            lemma_key_index_unique(s, i);
            let sw = if w - 1 < i { w - 1 } else { w };
            assert(r[w] == s.remove(i)[w - 1]);
            assert(s.remove(i)[w - 1] == s[sw]);
            lemma_key_index_unique(s, sw);
        },
        None => {
            assert(r[w] == s[w - 1]);
            lemma_key_index_unique(s, w - 1);
        },
    }
}

/// A user lookup hits while the user stored last is kept: when `u` was
/// stored at `created_at` in the entries `s0` and the later operations
/// `ops` neither stored under its id again nor removed it (by
/// invalidation, clearing or eviction), a lookup at `now`, at most the
/// time to live after `created_at`, finds `u` and counts one more hit;
/// the user stays cached.
pub proof fn law_user_lookup_hits_until_dropped(
    s0: Seq<(u128, CachedUser)>,
    cap: nat,
    u: User,
    created_at: u64,
    ops: Seq<CacheOp<u128, CachedUser>>,
    now: u64,
    ttl_secs: u64,
    counts: CacheStats,
)
    requires
        keys_unique(s0),
        s0.len() <= cap,
        cap > 0,
        forall|j: int| 0 <= j < ops.len() ==> !op_stores(#[trigger] ops[j], u.id),
        forall|j: int|
            0 <= j < ops.len() ==> !op_drops(
                apply_ops(lru_put(s0, cap, u.id, CachedItem { data: u, created_at }), cap, ops.take(j)),
                cap,
                #[trigger] ops[j],
                u.id,
            ),
        !expired(created_at, now, ttl_secs),
        counts.user_hits < u64::MAX,
    ensures
        ({
            let s = apply_ops(lru_put(s0, cap, u.id, CachedItem { data: u, created_at }), cap, ops);
            &&& fresh_value(s, u.id, now, ttl_secs, |c: CachedUser| user_created(c)) == Some(
                CachedItem { data: u, created_at },
            )
            &&& user_lookup_counts(
                counts,
                fresh_value(s, u.id, now, ttl_secs, |c: CachedUser| user_created(c)) is Some,
            ).user_hits == counts.user_hits + 1
            &&& user_lookup_counts(
                counts,
                fresh_value(s, u.id, now, ttl_secs, |c: CachedUser| user_created(c)) is Some,
            ).user_misses == counts.user_misses
            &&& lru_value(after_lookup(s, u.id, now, ttl_secs, |c: CachedUser| user_created(c)), u.id) == Some(
                CachedItem { data: u, created_at },
            )
        }),
{
    let item = CachedItem { data: u, created_at };
    let s1 = lru_put(s0, cap, u.id, item);
    lemma_put_keeps_shape(s0, cap, u.id, item);
    law_entry_kept_until_dropped(s1, cap, u.id, item, ops);
    let s = apply_ops(s1, cap, ops);
    lemma_promote_keeps_shape(s, u.id);
    assert(lru_value(lru_promote(s, u.id), u.id) == lru_value(s, u.id));
}

/// A user lookup that finds no fresh entry counts one more miss, and the
/// user is not cached afterwards: an expired entry is dropped.
pub proof fn law_user_lookup_miss_drops(
    s: Seq<(u128, CachedUser)>,
    id: u128,
    now: u64,
    ttl_secs: u64,
    counts: CacheStats,
)
    requires
        keys_unique(s),
        fresh_value(s, id, now, ttl_secs, |c: CachedUser| user_created(c)) is None,
        counts.user_misses < u64::MAX,
    ensures
        user_lookup_counts(counts, false).user_misses == counts.user_misses + 1,
        user_lookup_counts(counts, false).user_hits == counts.user_hits,
        lru_value(after_lookup(s, id, now, ttl_secs, |c: CachedUser| user_created(c)), id) is None,
{
    lemma_pop_keeps_shape(s, id);
}

/// An operation on a least-recently-used cache.
pub enum CacheOp<K, V> {
    /// Store a value under a key.
    Put(K, V),
    /// Remove the entry under a key.
    Pop(K),
    /// Use the entry under a key (a fresh lookup).
    Use(K),
    /// Remove every entry.
    Clear,
}

/// The entries after one operation.
pub open spec fn apply_op<K, V>(s: Seq<(K, V)>, cap: nat, op: CacheOp<K, V>) -> Seq<(K, V)> {
    match op {
        CacheOp::Put(k, v) => lru_put(s, cap, k, v),
        CacheOp::Pop(k) => lru_pop(s, k),
        CacheOp::Use(k) => lru_promote(s, k),
        CacheOp::Clear => Seq::empty(),
    }
}

/// The entries after the operations, in order.
pub open spec fn apply_ops<K, V>(s: Seq<(K, V)>, cap: nat, ops: Seq<CacheOp<K, V>>) -> Seq<(K, V)>
    decreases ops.len(),
{
    if ops.len() == 0 {
        s
    } else {
        apply_op(apply_ops(s, cap, ops.drop_last()), cap, ops.last())
    }
}

/// The operation removes the entry under `k` from `s`: a removal of `k`,
/// clearing, or storing a new key in a full cache whose least recently
/// used entry is `k`.
pub open spec fn op_drops<K, V>(s: Seq<(K, V)>, cap: nat, op: CacheOp<K, V>, k: K) -> bool {
    match op {
        CacheOp::Pop(x) => x == k,
        CacheOp::Clear => true,
        CacheOp::Put(x, _) => x != k && !has_key(s, x) && s.len() == cap && s.len() > 0 && s.last().0 == k,
        CacheOp::Use(_) => false,
    }
}

/// The operation stores a value under `k`.
pub open spec fn op_stores<K, V>(op: CacheOp<K, V>, k: K) -> bool {
    op matches CacheOp::Put(x, _) && x == k
}

proof fn lemma_op_keeps_entry<K, V>(s: Seq<(K, V)>, cap: nat, op: CacheOp<K, V>, k: K, v: V)
    requires
        keys_unique(s),
        s.len() <= cap,
        cap > 0,
        lru_value(s, k) == Some(v),
        !op_stores(op, k),
        !op_drops(s, cap, op, k),
    ensures
        keys_unique(apply_op(s, cap, op)),
        apply_op(s, cap, op).len() <= cap,
        lru_value(apply_op(s, cap, op), k) == Some(v),
{
    let j = key_index(s, k)->0;
    assert(has_key(s, k));
    lemma_key_index_unique(s, j);
    match op {
        CacheOp::Put(x, w) => {
            lemma_put_keeps_shape(s, cap, x, w);
            let r = lru_put(s, cap, x, w);
            match key_index(s, x) {
                Some(i) => {
                    lemma_key_index_unique(s, i);
                    assert(i != j);
                    let rj = if j < i { j + 1 } else { j };
                    assert(r[rj] == s[j]);
                    lemma_key_index_unique(r, rj);
                },
                None => {
                    if s.len() == cap {
                        assert(j != s.len() - 1);
                    }
                    assert(r[j + 1] == s[j]);
                    lemma_key_index_unique(r, j + 1);
                },
            }
        },
        CacheOp::Pop(x) => {
            lemma_pop_keeps_shape(s, x);
            let r = lru_pop(s, x);
            match key_index(s, x) {
                Some(i) => {
                    lemma_key_index_unique(s, i);
                    assert(i != j);
                    let rj = if j < i { j } else { j - 1 };
                    assert(r[rj] == s[j]);
                    lemma_key_index_unique(r, rj);
                },
                None => {},
            }
        },
        CacheOp::Use(x) => {
            lemma_promote_keeps_shape(s, x);
            assert(lru_value(lru_promote(s, x), k) == lru_value(s, k));
        },
        CacheOp::Clear => {},
    }
}

/// A stored value stays in the cache through any later operations that
/// neither store under its key again nor remove it (by removal, clearing
/// or eviction as the least recently used entry of a full cache); with the
/// expiry check of a lookup, a cached user is returned until it is
/// replaced, removed, evicted or expired.
pub proof fn law_entry_kept_until_dropped<K, V>(s: Seq<(K, V)>, cap: nat, k: K, v: V, ops: Seq<CacheOp<K, V>>)
    requires
        keys_unique(s),
        s.len() <= cap,
        cap > 0,
        lru_value(s, k) == Some(v),
        forall|j: int| 0 <= j < ops.len() ==> !op_stores(#[trigger] ops[j], k),
        forall|j: int| 0 <= j < ops.len() ==> !op_drops(apply_ops(s, cap, ops.take(j)), cap, #[trigger] ops[j], k),
    ensures
        keys_unique(apply_ops(s, cap, ops)),
        apply_ops(s, cap, ops).len() <= cap,
        lru_value(apply_ops(s, cap, ops), k) == Some(v),
    decreases ops.len(),
{
    if ops.len() > 0 {
        let pre = ops.drop_last();
        assert forall|j: int| 0 <= j < pre.len() implies !op_stores(#[trigger] pre[j], k) by {
            assert(pre[j] == ops[j]);
        }
        assert forall|j: int| 0 <= j < pre.len() implies !op_drops(apply_ops(s, cap, pre.take(j)), cap, #[trigger] pre[j], k) by {
            assert(pre[j] == ops[j]);
            assert(pre.take(j) =~= ops.take(j));
        }
        law_entry_kept_until_dropped(s, cap, k, v, pre);
        let last = ops.len() - 1;
        assert(ops.take(last) =~= pre);
        assert(!op_stores(ops[last], k));
        assert(!op_drops(apply_ops(s, cap, ops.take(last)), cap, ops[last], k));
        lemma_op_keeps_entry(apply_ops(s, cap, pre), cap, ops.last(), k, v);
    }
}

} // verus!
