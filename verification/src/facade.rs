//! The upstream facade's pure logic: fallback names for lookups that fail or
//! time out, the per-input result assignment of the two coalescing batchers,
//! and the cache and batch configurations.

use crate::text::fallback_name;
use vstd::prelude::*;

verus! {

/// What a name accessor hands its caller: the resolved name, or the
/// identifier fallback when the lookup failed or its deadline passed (the
/// lookup itself keeps running to fill the cache).
pub fn name_or_fallback(id: u64, outcome: Option<String>) -> (r: String)
    ensures
        match outcome {
            Some(name) => r@ == name@,
            None => r@ == crate::text::fallback_name_seq(id as int),
        },
{
    match outcome {
        Some(name) => name,
        None => fallback_name(id),
    }
}

/// The name a batch answer holds for a user: the last answer wins when the
/// platform repeats a user.
pub open spec fn name_of(rs: Seq<(u64, String)>, id: u64) -> Option<Seq<char>>
    decreases rs.len(),
{
    if rs.len() == 0 {
        None
    } else if rs.last().0 == id {
        Some(rs.last().1@)
    } else {
        name_of(rs.drop_last(), id)
    }
}

fn lookup_name(rs: &Vec<(u64, String)>, id: u64) -> (r: Option<&String>)
    ensures
        match r {
            Some(nm) => name_of(rs@, id) == Some(nm@),
            None => name_of(rs@, id) is None,
        },
{
    let n = rs.len();
    let mut j = n;
    proof {
        assert(rs@.subrange(0, n as int) =~= rs@);
    }
    while j > 0
        invariant
            j <= n,
            n == rs@.len(),
            name_of(rs@, id) == name_of(rs@.subrange(0, j as int), id),
        decreases j,
    {
        proof {
            assert(rs@.subrange(0, j as int).last() == rs@[j - 1]);
            assert(rs@.subrange(0, j as int).drop_last() =~= rs@.subrange(0, j - 1));
        }
        if rs[j - 1].0 == id {
            return Some(&rs[j - 1].1);
        }
        j = j - 1;
    }
    proof {
        assert(rs@.subrange(0, 0) =~= Seq::<(u64, String)>::empty());
    }
    None
}

/// How each requested user's display name is read out of one coalesced batch
/// answer: their answered name, or the identifier fallback when the whole
/// batch failed or the answer skipped them. The caller never sees a failure.
pub fn assign_usernames(users: &Vec<u64>, resolved: &Option<Vec<(u64, String)>>) -> (r: Vec<String>)
    ensures
        r@.len() == users@.len(),
        forall|i: int|
            0 <= i < users@.len() ==> (#[trigger] r@[i])@ == (match resolved {
                Some(rs) => match name_of(rs@, users@[i]) {
                    Some(nm) => nm,
                    None => crate::text::fallback_name_seq(users@[i] as int),
                },
                None => crate::text::fallback_name_seq(users@[i] as int),
            }),
{
    let n = users.len();
    let mut r: Vec<String> = Vec::new();
    for i in 0..n
        invariant
            n == users@.len(),
            r@.len() == i,
            forall|j: int|
                0 <= j < i ==> (#[trigger] r@[j])@ == (match resolved {
                    Some(rs) => match name_of(rs@, users@[j]) {
                        Some(nm) => nm,
                        None => crate::text::fallback_name_seq(users@[j] as int),
                    },
                    None => crate::text::fallback_name_seq(users@[j] as int),
                }),
    {
        let id = users[i];
        let name: String = match resolved {
            Some(rs) => match lookup_name(rs, id) {
                Some(nm) => nm.clone(),
                None => fallback_name(id),
            },
            None => fallback_name(id),
        };
        r.push(name);
    }
    r
}

/// The value a batch answer places at a position: answers carry the position
/// they were requested at; of two answers for one position the last wins.
pub open spec fn placed_at<T>(rs: Seq<(usize, T)>, i: int) -> Option<T>
    decreases rs.len(),
{
    if rs.len() == 0 {
        None
    } else if rs.last().0 == i {
        Some(rs.last().1)
    } else {
        placed_at(rs.drop_last(), i)
    }
}

/// Scatters one batch's answers to the positions they were requested at;
/// positions without an answer stay empty, answers beyond the batch are
/// ignored.
pub fn scatter_batch_results<T>(n: usize, results: Vec<(usize, T)>) -> (r: Vec<Option<T>>)
    ensures
        r@.len() == n,
        forall|i: int| 0 <= i < n ==> r@[i] == placed_at(results@, i),
{
    let ghost full = results@;
    let mut r: Vec<Option<T>> = Vec::new();
    for i in 0..n
        invariant
            r@.len() == i,
            forall|j: int| 0 <= j < i ==> r@[j] == placed_at(Seq::<(usize, T)>::empty(), j),
    {
        r.push(None);
    }
    let mut results = results;
    let m = results.len();
    proof {
        assert(full.subrange(0, m as int) =~= full);
        assert(full.subrange(0, 0) =~= Seq::<(usize, T)>::empty());
    }
    for k in 0..m
        invariant
            m == full.len(),
            results@ =~= full.subrange(k as int, m as int),
            r@.len() == n,
            forall|j: int| 0 <= j < n ==> r@[j] == placed_at(full.subrange(0, k as int), j),
    {
        let (idx, v) = results.remove(0);
        proof {
            assert(full.subrange(k as int, m as int)[0] == full[k as int]);
            assert(results@ =~= full.subrange(k + 1, m as int));
        }
        if idx < n {
            r.set(idx, Some(v));
        }
        proof {
            assert forall|j: int|
                0 <= j < n implies r@[j] == placed_at(full.subrange(0, k + 1), j) by {
                assert(full.subrange(0, k + 1).drop_last() =~= full.subrange(0, k as int));
                assert(full.subrange(0, k + 1).last() == full[k as int]);
            }
        }
    }
    proof {
        assert(full.subrange(0, m as int) =~= full);
    }
    r
}

/// A memoizing cache's shape: its entry bound and value lifetime.
pub struct CacheConfig {
    pub max_entries: u64,
    pub ttl_secs: Option<u64>,
}

/// The username cache: a hundred thousand entries, kept for a day.
pub fn username_cache_config() -> (r: CacheConfig)
    ensures
        r.max_entries == 100000 && r.ttl_secs == Some(86400u64),
{
    CacheConfig { max_entries: 100000, ttl_secs: Some(86400) }
}

/// The game-name cache: a hundred thousand entries, kept for a day.
pub fn game_name_cache_config() -> (r: CacheConfig)
    ensures
        r.max_entries == 100000 && r.ttl_secs == Some(86400u64),
{
    CacheConfig { max_entries: 100000, ttl_secs: Some(86400) }
}

/// The two thumbnail caches: a hundred thousand entries, kept until the
/// tracking cycle flushes them.
pub fn thumbnail_cache_config() -> (r: CacheConfig)
    ensures
        r.max_entries == 100000 && r.ttl_secs is None,
{
    CacheConfig { max_entries: 100000, ttl_secs: None }
}

/// A coalescing batcher's shape: how many inputs one batch takes and how
/// long the first input waits before the batch goes out anyway.
pub struct BatchConfig {
    pub max_batch: usize,
    pub window_ms: u64,
}

/// The username batcher: two hundred inputs or a tenth of a second.
pub fn username_batch_config() -> (r: BatchConfig)
    ensures
        r.max_batch == 200 && r.window_ms == 100,
{
    BatchConfig { max_batch: 200, window_ms: 100 }
}

/// The thumbnail batcher: one hundred inputs or a tenth of a second.
pub fn thumbnail_batch_config() -> (r: BatchConfig)
    ensures
        r.max_batch == 100 && r.window_ms == 100,
{
    BatchConfig { max_batch: 100, window_ms: 100 }
}

} // verus!
