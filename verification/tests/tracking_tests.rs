use tracker::tracking::{build_target_thumbnails, lookup_thumbnail, record_sighting,
    target_states_get, target_states_insert, target_states_new, TargetState};
use tracker::concurrent::{dash_set_contains, dash_set_new};
use tracker::collections::{IdMap, IdSet};

fn snapshot(pairs: &[(u64, &[u64])]) -> IdMap<IdSet> {
    let mut gt: IdMap<IdSet> = IdMap::new();
    for (game, targets) in pairs {
        let mut set = IdSet::new();
        for t in *targets {
            set.insert(*t);
        }
        gt.insert(*game, set);
    }
    gt
}

fn cleanup(
    gt: &IdMap<IdSet>,
    found: &dashmap::DashSet<u64, ahash::RandomState>,
    missing: &mut IdMap<u64>,
    states: &mut dashmap::DashMap<u64, TargetState, ahash::RandomState>,
) {
    tracker::tracking::target_states_cleanup(gt, found, missing, states);
}

#[test]
fn thumbnails_index_skips_failures_and_keeps_first() {
    let resolved: Vec<(u64, Option<String>)> = vec![
        (1, Some(String::from("urlA"))),
        (2, None),
        (3, Some(String::from("urlA"))),
        (4, Some(String::from("urlB"))),
    ];
    let index = build_target_thumbnails(&resolved);
    assert_eq!(index.len(), 2);
    assert_eq!(lookup_thumbnail(&index, &String::from("urlA")), Some(1));
    assert_eq!(lookup_thumbnail(&index, &String::from("urlB")), Some(4));
    assert_eq!(lookup_thumbnail(&index, &String::from("urlC")), None);
}

#[test]
fn sighting_records_location_and_marks_found() {
    let mut states = target_states_new();
    let mut found = dash_set_new();
    let index = vec![(String::from("url1"), 7u64)];
    let hit = record_sighting(&mut states, &mut found, &index, 100, 5, &String::from("url1"));
    assert_eq!(hit, Some(7));
    assert_eq!(
        target_states_get(&states, 7),
        Some(TargetState { game: 100, server: 5 })
    );
    assert!(dash_set_contains(&found, 7));
    let miss = record_sighting(&mut states, &mut found, &index, 100, 5, &String::from("url2"));
    assert_eq!(miss, None);
}

#[test]
fn unlisted_target_evicted_immediately() {
    let mut states = target_states_new();
    target_states_insert(&mut states, 7, TargetState { game: 100, server: 5 });
    let gt = snapshot(&[(100, &[8])]); // target 7 is no longer listed
    let found = dash_set_new();
    let mut missing: IdMap<u64> = IdMap::new();
    cleanup(&gt, &found, &mut missing, &mut states);
    assert_eq!(target_states_get(&states, 7), None);
}

#[test]
fn missing_target_tolerated_then_evicted() {
    // MISSING_TARGET_TOLERANCE = 3: the fourth consecutive miss evicts.
    let mut states = target_states_new();
    target_states_insert(&mut states, 7, TargetState { game: 100, server: 5 });
    let gt = snapshot(&[(100, &[7])]);
    let mut missing: IdMap<u64> = IdMap::new();
    for cycle in 1..=3u64 {
        let found = dash_set_new();
        cleanup(&gt, &found, &mut missing, &mut states);
        assert_eq!(
            target_states_get(&states, 7),
            Some(TargetState { game: 100, server: 5 }),
            "cycle {cycle} should keep the entry"
        );
        assert_eq!(missing.get(7).copied(), Some(cycle));
    }
    let found = dash_set_new();
    cleanup(&gt, &found, &mut missing, &mut states);
    assert_eq!(target_states_get(&states, 7), None);
    assert_eq!(missing.get(7).copied(), None);
}

#[test]
fn sighting_resets_the_miss_count() {
    let mut states = target_states_new();
    target_states_insert(&mut states, 7, TargetState { game: 100, server: 5 });
    let gt = snapshot(&[(100, &[7])]);
    let mut missing: IdMap<u64> = IdMap::new();
    let found = dash_set_new();
    cleanup(&gt, &found, &mut missing, &mut states);
    assert_eq!(missing.get(7).copied(), Some(1));
    // Found this cycle: the counter clears and the entry stays.
    let mut found = dash_set_new();
    let index = vec![(String::from("url1"), 7u64)];
    record_sighting(&mut states, &mut found, &index, 100, 6, &String::from("url1"));
    cleanup(&gt, &found, &mut missing, &mut states);
    assert_eq!(missing.get(7).copied(), None);
    assert_eq!(
        target_states_get(&states, 7),
        Some(TargetState { game: 100, server: 6 })
    );
}

#[test]
fn empty_snapshot_cleans_everything() {
    let mut states = target_states_new();
    target_states_insert(&mut states, 1, TargetState { game: 2, server: 3 });
    let gt: IdMap<IdSet> = IdMap::new();
    let found = dash_set_new();
    let mut missing: IdMap<u64> = IdMap::new();
    cleanup(&gt, &found, &mut missing, &mut states);
    assert_eq!(target_states_get(&states, 1), None);
    assert_eq!(missing.len(), 0);
}
