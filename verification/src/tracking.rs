//! The tracking cycle: locating watched targets in public game servers.
//!
//! The cycle resolves each watched target's avatar thumbnail, scans the
//! public servers of each watched game, matches the thumbnails of the
//! players it finds against the targets', and maintains the shared
//! target-location table with a bounded tolerance for targets that go
//! unseen.

use crate::collections::IdMap;
use vstd::prelude::*;

verus! {

/// Last-known location of a watched target: the game and the public server
/// it was seen in.
#[derive(Clone, Copy, Debug, PartialEq, Eq, Structural)]
pub struct TargetState {
    pub game: u64,
    pub server: u128,
}

/// The mapping a concurrent target-location table holds.
pub uninterp spec fn target_state_entries(m: dashmap::DashMap<u64, TargetState, ahash::RandomState>) -> Map<u64, TargetState>;

/// The empty target-location mapping.
pub open spec fn no_target_states() -> Map<u64, TargetState> {
    Map::empty()
}

/// Relies on dashmap::DashMap::with_hasher (and ahash::RandomState::new):
/// a newly built map is empty.
#[verifier::external_body]
pub fn target_states_new() -> (m: dashmap::DashMap<u64, TargetState, ahash::RandomState>)
    ensures
        target_state_entries(m) == no_target_states(),
{
    dashmap::DashMap::with_hasher(ahash::RandomState::new())
}

/// Relies on dashmap::DashMap::insert: binds the key to the value.
#[verifier::external_body]
pub fn target_states_insert(
    m: &mut dashmap::DashMap<u64, TargetState, ahash::RandomState>,
    k: u64,
    v: TargetState,
)
    ensures
        target_state_entries(*final(m)) == target_state_entries(*old(m)).insert(k, v),
{
    m.insert(k, v);
}

/// Relies on dashmap::DashMap::get: the value bound to the key, if any.
#[verifier::external_body]
pub fn target_states_get(
    m: &dashmap::DashMap<u64, TargetState, ahash::RandomState>,
    k: u64,
) -> (r: Option<TargetState>)
    ensures
        match r {
            Some(v) => target_state_entries(*m).contains_key(k) && target_state_entries(*m)[k]
                == v,
            None => !target_state_entries(*m).contains_key(k),
        },
{
    m.get(&k).map(|e| *e)
}

/// Relies on dashmap::DashMap::remove: drops the binding for the key.
#[verifier::external_body]
pub(crate) fn target_states_remove(
    m: &mut dashmap::DashMap<u64, TargetState, ahash::RandomState>,
    k: u64,
)
    ensures
        target_state_entries(*final(m)) == target_state_entries(*old(m)).remove(k),
{
    m.remove(&k);
}

/// Relies on dashmap::DashMap::iter: every key, each once, in no promised
/// order.
#[verifier::external_body]
pub(crate) fn target_states_keys(
    m: &dashmap::DashMap<u64, TargetState, ahash::RandomState>,
) -> (r: Vec<u64>)
    ensures
        r@.no_duplicates(),
        r@.to_set() == target_state_entries(*m).dom(),
{
    m.iter().map(|e| *e.key()).collect()
}

} // verus!

use crate::collections::{lemma_prefix_contains_all, lemma_prefix_contains_step, prefix_contains,
    IdSet};
use crate::concurrent::{dash_set_contains, dash_set_ids, dash_set_insert};
use crate::constants::MISSING_TARGET_TOLERANCE;

verus! {

/// Some watched channel pairs this target with a game: the target appears in
/// the games-and-targets snapshot.
pub open spec fn target_listed(gt: Map<u64, IdSet>, t: u64) -> bool {
    exists|g: u64| #[trigger] gt.contains_key(g) && gt[g]@.contains(t)
}

/// A target appears under one of the first `k` games of the key order `ks`.
pub open spec fn listed_in_prefix(gt: Map<u64, IdSet>, ks: Seq<u64>, k: int, t: u64) -> bool {
    exists|ci: int|
        0 <= ci < k && 0 <= ci < ks.len() && gt.contains_key(#[trigger] ks[ci])
            && gt[ks[ci]]@.contains(t)
}

proof fn lemma_listed_prefix_step(gt: Map<u64, IdSet>, ks: Seq<u64>, k: int, t: u64)
    requires
        0 <= k < ks.len(),
    ensures
        listed_in_prefix(gt, ks, k + 1, t) <==> (listed_in_prefix(gt, ks, k, t) || (gt.contains_key(
            ks[k],
        ) && gt[ks[k]]@.contains(t))),
{
    if listed_in_prefix(gt, ks, k + 1, t) {
        let ci = choose|ci: int|
            0 <= ci < k + 1 && 0 <= ci < ks.len() && gt.contains_key(#[trigger] ks[ci])
                && gt[ks[ci]]@.contains(t);
        if ci < k {
            assert(listed_in_prefix(gt, ks, k, t));
        }
    }
    if listed_in_prefix(gt, ks, k, t) {
        let ci = choose|ci: int|
            0 <= ci < k && 0 <= ci < ks.len() && gt.contains_key(#[trigger] ks[ci])
                && gt[ks[ci]]@.contains(t);
        assert(0 <= ci < k + 1 && 0 <= ci < ks.len() && gt.contains_key(ks[ci])
            && gt[ks[ci]]@.contains(t));
    }
    if gt.contains_key(ks[k]) && gt[ks[k]]@.contains(t) {
        assert(0 <= k < k + 1 && 0 <= k < ks.len() && gt.contains_key(ks[k])
            && gt[ks[k]]@.contains(t));
    }
}

/// Collects every target the snapshot lists, across all games.
pub fn collect_all_targets(games_and_targets: &IdMap<IdSet>) -> (r: IdSet)
    requires
        games_and_targets.wf(),
        forall|g: u64|
            #[trigger] games_and_targets@.contains_key(g) ==> games_and_targets@[g].wf(),
    ensures
        r.wf(),
        forall|t: u64| #[trigger] r@.contains(t) == target_listed(games_and_targets@, t),
{
    proof {
        games_and_targets.lemma_view();
    }
    let ghost gt = games_and_targets@;
    let ghost ks = games_and_targets.key_seq();
    let n = games_and_targets.len();
    let mut acc = IdSet::new();
    for i in 0..n
        invariant
            games_and_targets.wf(),
            gt == games_and_targets@,
            ks == games_and_targets.key_seq(),
            n == ks.len(),
            forall|g: u64| #[trigger] gt.contains_key(g) ==> gt[g].wf(),
            acc.wf(),
            forall|t: u64| #[trigger] acc@.contains(t) == listed_in_prefix(gt, ks, i as int, t),
    {
        proof {
            games_and_targets.lemma_view();
        }
        let g = games_and_targets.key_at(i);
        let members = games_and_targets.val_at(i);
        proof {
            members.lemma_view();
        }
        let vs = members.to_vec();
        acc.insert_all(&vs);
        proof {
            assert forall|t: u64|
                #[trigger] acc@.contains(t) == listed_in_prefix(gt, ks, i + 1, t) by {
                lemma_listed_prefix_step(gt, ks, i as int, t);
                assert(gt.contains_key(g));
                if vs@.to_set().contains(t) {
                    assert(gt[g]@.contains(t));
                }
                if gt[g]@.contains(t) {
                    assert(vs@.to_set().contains(t));
                }
            }
        }
    }
    proof {
        games_and_targets.lemma_view();
        assert forall|t: u64|
            #[trigger] acc@.contains(t) == target_listed(gt, t) by {
            if acc@.contains(t) {
                let ci = choose|ci: int|
                    0 <= ci < n && 0 <= ci < ks.len() && gt.contains_key(#[trigger] ks[ci])
                        && gt[ks[ci]]@.contains(t);
                assert(gt.contains_key(ks[ci]) && gt[ks[ci]]@.contains(t));
            }
            if target_listed(gt, t) {
                let g = choose|g: u64| #[trigger] gt.contains_key(g) && gt[g]@.contains(t);
                assert(ks.to_set().contains(g));
                assert(ks.contains(g));
                let ci = choose|ci: int| 0 <= ci < ks.len() && (#[trigger] ks[ci]) == g;
                assert(0 <= ci < n && 0 <= ci < ks.len() && gt.contains_key(ks[ci])
                    && gt[ks[ci]]@.contains(t));
            }
        }
    }
    acc
}

/// The consecutive-miss count a target carries after one more cycle without
/// a sighting: one more than before, from one.
pub open spec fn next_missing_count(old_missing: Map<u64, u64>, t: u64) -> u64 {
    if old_missing.contains_key(t) {
        if old_missing[t] < u64::MAX {
            (old_missing[t] + 1) as u64
        } else {
            u64::MAX
        }
    } else {
        1u64
    }
}

/// End-of-cycle cleanup of the target-location table.
///
/// Targets that are no longer listed by any channel lose their entry; a
/// listed target that was not sighted this cycle has its consecutive-miss
/// count raised, and once that count passes `MISSING_TARGET_TOLERANCE` its
/// entry is evicted and its count cleared. Every surviving entry's target was
/// either sighted this cycle or has been missing for at most the tolerance.
pub fn target_states_cleanup(
    games_and_targets: &IdMap<IdSet>,
    found_targets: &dashmap::DashSet<u64, ahash::RandomState>,
    missing_targets: &mut IdMap<u64>,
    target_states: &mut dashmap::DashMap<u64, TargetState, ahash::RandomState>,
)
    requires
        games_and_targets.wf(),
        forall|g: u64|
            #[trigger] games_and_targets@.contains_key(g) ==> games_and_targets@[g].wf(),
        old(missing_targets).wf(),
    ensures
        final(missing_targets).wf(),
        ({
            let gt = games_and_targets@;
            let found = dash_set_ids(*found_targets);
            let oldm = old(missing_targets)@;
            let olds = target_state_entries(*old(target_states));
            let news = target_state_entries(*final(target_states));
            let newm = final(missing_targets)@;
            &&& forall|t: u64|
                #![trigger newm.contains_key(t)]
                newm.contains_key(t) == (target_listed(gt, t) && !found.contains(t) && !(
                olds.contains_key(t) && next_missing_count(oldm, t)
                    > MISSING_TARGET_TOLERANCE as u64))
            &&& forall|t: u64|
                #![trigger newm[t]]
                newm.contains_key(t) ==> newm[t] == next_missing_count(oldm, t)
            &&& forall|t: u64|
                #![trigger news.contains_key(t)]
                news.contains_key(t) == (olds.contains_key(t) && target_listed(gt, t) && (
                found.contains(t) || next_missing_count(oldm, t)
                    <= MISSING_TARGET_TOLERANCE as u64))
            &&& forall|t: u64| #![trigger news[t]] news.contains_key(t) ==> news[t] == olds[t]
            &&& forall|t: u64|
                #![trigger news.contains_key(t)]
                news.contains_key(t) ==> (found.contains(t) || (newm.contains_key(t) && newm[t]
                    <= MISSING_TARGET_TOLERANCE as u64))
        }),
{
    let ghost gt = games_and_targets@;
    let ghost found = dash_set_ids(*found_targets);
    let ghost oldm = old(missing_targets)@;
    let ghost olds = target_state_entries(*old(target_states));
    let all_targets = collect_all_targets(games_and_targets);
    proof {
        all_targets.lemma_view();
    }
    let ghost alls = all_targets.seq();

    // One pass rebuilds the miss counters: a counter survives (raised) only
    // for targets still listed and not sighted this cycle.
    let mut refreshed: IdMap<u64> = IdMap::new();
    let an = all_targets.len();
    for i in 0..an
        invariant
            all_targets.wf(),
            alls == all_targets.seq(),
            an == alls.len(),
            missing_targets.wf(),
            missing_targets@ == oldm,
            found == dash_set_ids(*found_targets),
            refreshed.wf(),
            forall|t: u64|
                #![trigger refreshed@.contains_key(t)]
                refreshed@.contains_key(t) == (prefix_contains(alls, i as int, t)
                    && !found.contains(t)),
            forall|t: u64|
                #![trigger refreshed@[t]]
                refreshed@.contains_key(t) ==> refreshed@[t] == next_missing_count(oldm, t),
    {
        let t = all_targets.get_at(i);
        if !dash_set_contains(found_targets, t) {
            let count: u64 = match missing_targets.get(t) {
                Some(c) => {
                    if *c < u64::MAX {
                        *c + 1
                    } else {
                        u64::MAX
                    }
                },
                None => 1,
            };
            refreshed.insert(t, count);
        }
        proof {
            assert forall|t2: u64|
                #![trigger refreshed@.contains_key(t2)]
                refreshed@.contains_key(t2) == (prefix_contains(alls, i + 1, t2)
                    && !found.contains(t2)) by {
                lemma_prefix_contains_step(alls, i as int, t2);
            }
        }
    }
    *missing_targets = refreshed;
    proof {
        assert forall|t: u64|
            #![trigger missing_targets@.contains_key(t)]
            missing_targets@.contains_key(t) == (target_listed(gt, t) && !found.contains(t)) by {
            lemma_prefix_contains_all(alls, t);
            if alls.contains(t) {
                assert(all_targets@.contains(t));
            }
            if target_listed(gt, t) {
                assert(all_targets@.contains(t));
                assert(alls.to_set().contains(t));
                assert(alls.contains(t));
            }
        }
    }
    let ghost m3 = missing_targets@;

    // Second pass walks the location table: entries for unlisted targets go;
    // entries whose miss count passed the tolerance go, their counter with
    // them.
    let keys = target_states_keys(target_states);
    let ghost kys = keys@;
    let kn = keys.len();
    for i in 0..kn
        invariant
            all_targets.wf(),
            kys == keys@,
            kn == kys.len(),
            kys.no_duplicates(),
            kys.to_set() == olds.dom(),
            forall|t: u64| #[trigger] all_targets@.contains(t) == target_listed(gt, t),
            missing_targets.wf(),
            forall|t: u64|
                #![trigger missing_targets@.contains_key(t)]
                missing_targets@.contains_key(t) == (m3.contains_key(t) && !(prefix_contains(
                    kys,
                    i as int,
                    t,
                ) && m3[t] > MISSING_TARGET_TOLERANCE as u64)),
            forall|t: u64|
                #![trigger missing_targets@[t]]
                missing_targets@.contains_key(t) ==> missing_targets@[t] == m3[t],
            forall|t: u64|
                #![trigger m3.contains_key(t)]
                m3.contains_key(t) == (target_listed(gt, t) && !found.contains(t)),
            forall|t: u64| #![trigger m3[t]] m3.contains_key(t) ==> m3[t] == next_missing_count(oldm, t),
            forall|t: u64|
                #![trigger target_state_entries(*target_states).contains_key(t)]
                target_state_entries(*target_states).contains_key(t) == (olds.contains_key(t) && (
                prefix_contains(kys, i as int, t) ==> (target_listed(gt, t) && (!m3.contains_key(t)
                    || m3[t] <= MISSING_TARGET_TOLERANCE as u64)))),
            forall|t: u64|
                #![trigger target_state_entries(*target_states)[t]]
                target_state_entries(*target_states).contains_key(t) ==> target_state_entries(
                    *target_states,
                )[t] == olds[t],
    {
        let k = keys[i];
        proof {
            assert(kys.to_set().contains(kys[i as int]));
            assert(olds.contains_key(k));
        }
        if !all_targets.contains(k) {
            target_states_remove(target_states, k);
        } else {
            let evict: bool = match missing_targets.get(k) {
                Some(c) => *c > (MISSING_TARGET_TOLERANCE as u64),
                None => false,
            };
            if evict {
                target_states_remove(target_states, k);
                missing_targets.remove(k);
            }
        }
        proof {
            assert forall|t2: u64|
                #![trigger missing_targets@.contains_key(t2)]
                missing_targets@.contains_key(t2) == (m3.contains_key(t2) && !(prefix_contains(
                    kys,
                    i + 1,
                    t2,
                ) && m3[t2] > MISSING_TARGET_TOLERANCE as u64)) by {
                lemma_prefix_contains_step(kys, i as int, t2);
            }
            assert forall|t2: u64|
                #![trigger target_state_entries(*target_states).contains_key(t2)]
                target_state_entries(*target_states).contains_key(t2) == (olds.contains_key(t2) && (
                prefix_contains(kys, i + 1, t2) ==> (target_listed(gt, t2) && (!m3.contains_key(t2)
                    || m3[t2] <= MISSING_TARGET_TOLERANCE as u64)))) by {
                lemma_prefix_contains_step(kys, i as int, t2);
            }
        }
    }
    proof {
        assert forall|t: u64|
            #![trigger target_state_entries(*target_states).contains_key(t)]
            target_state_entries(*target_states).contains_key(t) == (olds.contains_key(t)
                && target_listed(gt, t) && (found.contains(t) || next_missing_count(oldm, t)
                <= MISSING_TARGET_TOLERANCE as u64)) by {
            lemma_prefix_contains_all(kys, t);
            if olds.contains_key(t) {
                assert(kys.to_set().contains(t));
                assert(kys.contains(t));
            }
        }
        assert forall|t: u64|
            #![trigger missing_targets@.contains_key(t)]
            missing_targets@.contains_key(t) == (target_listed(gt, t) && !found.contains(t) && !(
            olds.contains_key(t) && next_missing_count(oldm, t)
                > MISSING_TARGET_TOLERANCE as u64)) by {
            lemma_prefix_contains_all(kys, t);
            if olds.contains_key(t) {
                assert(kys.to_set().contains(t));
                assert(kys.contains(t));
            }
            if m3.contains_key(t) && prefix_contains(kys, kn as int, t) {
                assert(kys.contains(t));
                assert(kys.to_set().contains(t));
                assert(olds.contains_key(t));
            }
        }
    }
}

} // verus!

verus! {

/// Looks a resolved player thumbnail up among one game's target thumbnails.
pub fn lookup_thumbnail(pairs: &Vec<(String, u64)>, thumbnail: &String) -> (r: Option<u64>)
    ensures
        match r {
            Some(t) => exists|i: int|
                0 <= i < pairs@.len() && (#[trigger] pairs@[i]).0@ == thumbnail@ && pairs@[i].1
                    == t,
            None => forall|i: int|
                0 <= i < pairs@.len() ==> (#[trigger] pairs@[i]).0@ != thumbnail@,
        },
{
    let n = pairs.len();
    for i in 0..n
        invariant
            n == pairs@.len(),
            forall|j: int| 0 <= j < i ==> (#[trigger] pairs@[j]).0@ != thumbnail@,
    {
        if pairs[i].0 == *thumbnail {
            return Some(pairs[i].1);
        }
    }
    None
}

/// The entry pairs a thumbnail with the target that resolved to it in the
/// input.
pub open spec fn entry_from_input(resolved: Seq<(u64, Option<String>)>, p: (String, u64)) -> bool {
    exists|j: int|
        0 <= j < resolved.len() && (#[trigger] resolved[j]).1 is Some && p.1 == resolved[j].0
            && p.0@ == resolved[j].1->0@
}

/// Some entry carries this thumbnail.
pub open spec fn thumbnail_indexed(rs: Seq<(String, u64)>, th: Seq<char>) -> bool {
    exists|i: int| 0 <= i < rs.len() && (#[trigger] rs[i]).0@ == th
}

/// Builds one game's thumbnail-to-target index from the resolved lookups:
/// failed lookups are skipped, and of two targets that resolved to the same
/// thumbnail the first is kept.
pub fn build_target_thumbnails(resolved: &Vec<(u64, Option<String>)>) -> (r: Vec<(String, u64)>)
    ensures
        forall|i: int, j: int|
            #![trigger r@[i], r@[j]]
            0 <= i < j < r@.len() ==> r@[i].0@ != r@[j].0@,
        forall|i: int| 0 <= i < r@.len() ==> entry_from_input(resolved@, #[trigger] r@[i]),
        forall|j: int|
            0 <= j < resolved@.len() && (#[trigger] resolved@[j]).1 is Some ==> thumbnail_indexed(
                r@,
                resolved@[j].1->0@,
            ),
{
    let n = resolved.len();
    let mut r: Vec<(String, u64)> = Vec::new();
    for j in 0..n
        invariant
            n == resolved@.len(),
            forall|p: int, q: int|
                #![trigger r@[p], r@[q]]
                0 <= p < q < r@.len() ==> r@[p].0@ != r@[q].0@,
            forall|i: int| 0 <= i < r@.len() ==> entry_from_input(resolved@, #[trigger] r@[i]),
            forall|jj: int|
                0 <= jj < j && (#[trigger] resolved@[jj]).1 is Some ==> thumbnail_indexed(
                    r@,
                    resolved@[jj].1->0@,
                ),
    {
        let target = resolved[j].0;
        let thumb: Option<&String> = resolved[j].1.as_ref();
        if let Some(th) = thumb {
            let existing = lookup_thumbnail(&r, th);
            if existing.is_none() {
                let ghost pre = r@;
                r.push((th.clone(), target));
                proof {
                    assert(r@.drop_last() =~= pre);
                    let last: int = pre.len() as int;
                    assert(r@[last].0@ == resolved@[j as int].1->0@);
                    assert(r@[last].1 == resolved@[j as int].0);
                    assert forall|p: int, q: int|
                        #![trigger r@[p], r@[q]]
                        0 <= p < q < r@.len() implies r@[p].0@ != r@[q].0@ by {
                        assert(r@[p] == pre[p]);
                        if q < last {
                            assert(r@[q] == pre[q]);
                        }
                    }
                    assert forall|i: int|
                        0 <= i < r@.len() implies entry_from_input(resolved@, #[trigger] r@[i]) by {
                        if i < last {
                            assert(r@[i] == pre[i]);
                            assert(entry_from_input(resolved@, pre[i]));
                        } else {
                            assert(resolved@[j as int].1 is Some && r@[i].1 == resolved@[j as int].0
                                && r@[i].0@ == resolved@[j as int].1->0@);
                        }
                    }
                    assert forall|jj: int|
                        0 <= jj < j + 1 && (#[trigger] resolved@[jj]).1 is Some
                        implies thumbnail_indexed(r@, resolved@[jj].1->0@) by {
                        if jj < j {
                            let i = choose|i: int|
                                0 <= i < pre.len() && (#[trigger] pre[i]).0@
                                    == resolved@[jj].1->0@;
                            assert(r@[i] == pre[i]);
                            assert(r@[i].0@ == resolved@[jj].1->0@);
                        } else {
                            assert(r@[last].0@ == resolved@[jj].1->0@);
                        }
                    }
                }
            } else {
                proof {
                    let i = choose|i: int|
                        0 <= i < r@.len() && (#[trigger] r@[i]).0@ == th@ && r@[i].1
                            == existing->0;
                    assert forall|jj: int|
                        0 <= jj < j + 1 && (#[trigger] resolved@[jj]).1 is Some
                        implies thumbnail_indexed(r@, resolved@[jj].1->0@) by {
                        if jj == j {
                            assert(r@[i].0@ == resolved@[jj].1->0@);
                        }
                    }
                }
            }
        } else {
            proof {
                assert forall|jj: int|
                    0 <= jj < j + 1 && (#[trigger] resolved@[jj]).1 is Some
                    implies thumbnail_indexed(r@, resolved@[jj].1->0@) by {}
            }
        }
    }
    r
}

/// One scanned player resolved to a thumbnail: when the thumbnail belongs to
/// a watched target of the game, records the target's location and marks it
/// found; anything else leaves both tables untouched.
pub fn record_sighting(
    target_states: &mut dashmap::DashMap<u64, TargetState, ahash::RandomState>,
    found_targets: &mut dashmap::DashSet<u64, ahash::RandomState>,
    pairs: &Vec<(String, u64)>,
    game: u64,
    server: u128,
    thumbnail: &String,
) -> (r: Option<u64>)
    ensures
        match r {
            Some(t) => {
                &&& exists|i: int|
                    0 <= i < pairs@.len() && (#[trigger] pairs@[i]).0@ == thumbnail@ && pairs@[i].1
                        == t
                &&& target_state_entries(*final(target_states)) == target_state_entries(
                    *old(target_states),
                ).insert(t, TargetState { game, server })
                &&& dash_set_ids(*final(found_targets)) == dash_set_ids(
                    *old(found_targets),
                ).insert(t)
            },
            None => {
                &&& forall|i: int|
                    0 <= i < pairs@.len() ==> (#[trigger] pairs@[i]).0@ != thumbnail@
                &&& target_state_entries(*final(target_states)) == target_state_entries(
                    *old(target_states),
                )
                &&& dash_set_ids(*final(found_targets)) == dash_set_ids(*old(found_targets))
            },
        },
{
    match lookup_thumbnail(pairs, thumbnail) {
        Some(target) => {
            target_states_insert(target_states, target, TargetState { game, server });
            dash_set_insert(found_targets, target);
            Some(target)
        },
        None => None,
    }
}

} // verus!
