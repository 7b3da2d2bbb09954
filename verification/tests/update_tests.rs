use tracker::collections::{IdMap, IdSet};
use tracker::tracking::{target_states_insert, target_states_new, TargetState};
use tracker::update::{cleanup_channel_state, edit_failure_action, is_different_states,
    is_ping_states, should_delete_tracker, should_retry_delete, should_retry_edit,
    should_retry_send, should_send_message, update_channel_state, ChatError, EditOutcome};

fn set_of(ids: &[u64]) -> IdSet {
    let mut s = IdSet::new();
    for id in ids {
        s.insert(*id);
    }
    s
}

fn st(game: u64, server: u128) -> TargetState {
    TargetState { game, server }
}

#[test]
fn ping_and_difference_matrix() {
    assert!(!is_ping_states(None, None));
    assert!(!is_ping_states(Some(st(1, 2)), None));
    assert!(is_ping_states(None, Some(st(1, 2))));
    assert!(!is_ping_states(Some(st(1, 2)), Some(st(1, 2))));
    assert!(is_ping_states(Some(st(1, 2)), Some(st(1, 3))));

    assert!(!is_different_states(None, None));
    assert!(is_different_states(Some(st(1, 2)), None));
    assert!(is_different_states(None, Some(st(1, 2))));
    assert!(!is_different_states(Some(st(1, 2)), Some(st(1, 2))));
    assert!(is_different_states(Some(st(1, 2)), Some(st(1, 3))));
    // Only the server decides sameness.
    assert!(!is_different_states(Some(st(1, 2)), Some(st(9, 2))));
}

#[test]
fn retry_predicates_follow_the_error_codes() {
    assert!(!should_retry_send(&ChatError::Api(10003)));
    assert!(!should_retry_send(&ChatError::Api(50001)));
    assert!(should_retry_send(&ChatError::Api(10008)));
    assert!(should_retry_send(&ChatError::Other));

    assert!(!should_retry_delete(&ChatError::Api(10008)));
    assert!(should_retry_delete(&ChatError::Api(50005)));

    assert!(!should_retry_edit(&ChatError::Api(10003)));
    assert!(!should_retry_edit(&ChatError::Api(10008)));
    assert!(!should_retry_edit(&ChatError::Api(50005)));
    assert!(!should_retry_edit(&ChatError::Api(50001)));
    assert!(should_retry_edit(&ChatError::Api(429)));

    assert!(should_send_message(&ChatError::Api(10008)));
    assert!(should_send_message(&ChatError::Api(50005)));
    assert!(!should_send_message(&ChatError::Api(10003)));

    assert!(should_delete_tracker(false, false, &ChatError::Api(10003)));
    assert!(should_delete_tracker(false, false, &ChatError::Api(50001)));
    assert!(!should_delete_tracker(true, false, &ChatError::Api(50001)));
    assert!(!should_delete_tracker(false, true, &ChatError::Api(50001)));
    assert!(!should_delete_tracker(false, false, &ChatError::Other));
}

#[test]
fn edit_failure_prefers_deletion_over_resending() {
    assert_eq!(
        edit_failure_action(false, false, &ChatError::Api(10003)),
        EditOutcome::DeleteTracker
    );
    assert_eq!(
        edit_failure_action(true, false, &ChatError::Api(10008)),
        EditOutcome::SendNew
    );
    assert_eq!(
        edit_failure_action(true, false, &ChatError::Api(50001)),
        EditOutcome::GiveUp
    );
    assert_eq!(edit_failure_action(false, false, &ChatError::Other), EditOutcome::GiveUp);
}

#[test]
fn cleanup_drops_unwatched_targets() {
    let mut published: IdMap<TargetState> = IdMap::new();
    published.insert(1, st(10, 100));
    published.insert(2, st(10, 200));
    let targets = set_of(&[2, 3]);
    let mut flag = false;
    cleanup_channel_state(&mut published, &targets, &mut flag);
    assert!(flag);
    assert!(published.get(1).is_none());
    assert_eq!(published.get(2).copied(), Some(st(10, 200)));

    let mut flag2 = false;
    let targets2 = set_of(&[2]);
    cleanup_channel_state(&mut published, &targets2, &mut flag2);
    assert!(!flag2);
}

#[test]
fn fresh_channel_with_absent_target_stays_quiet() {
    let states = target_states_new();
    let games = set_of(&[10]);
    let targets = set_of(&[7]);
    let mut published: IdMap<TargetState> = IdMap::new();
    let (update_output, ping) =
        update_channel_state(&mut published, &games, &targets, &states, false);
    assert!(!update_output);
    assert!(!ping);
    assert_eq!(published.len(), 0);
}

#[test]
fn appearing_target_pings_then_settles_into_edits() {
    let mut states = target_states_new();
    target_states_insert(&mut states, 7, st(10, 500));
    let games = set_of(&[10]);
    let targets = set_of(&[7]);
    let mut published: IdMap<TargetState> = IdMap::new();
    let (update_output, ping) =
        update_channel_state(&mut published, &games, &targets, &states, false);
    assert!(update_output);
    assert!(ping);
    assert_eq!(published.get(7).copied(), Some(st(10, 500)));
    // Same sighting next cycle: nothing to update, no ping.
    let (update_output, ping) =
        update_channel_state(&mut published, &games, &targets, &states, false);
    assert!(!update_output);
    assert!(!ping);
}

#[test]
fn relocation_pings_again() {
    let mut states = target_states_new();
    target_states_insert(&mut states, 7, st(10, 500));
    let games = set_of(&[10]);
    let targets = set_of(&[7]);
    let mut published: IdMap<TargetState> = IdMap::new();
    update_channel_state(&mut published, &games, &targets, &states, false);
    target_states_insert(&mut states, 7, st(10, 600));
    let (update_output, ping) =
        update_channel_state(&mut published, &games, &targets, &states, false);
    assert!(update_output);
    assert!(ping);
    assert_eq!(published.get(7).copied(), Some(st(10, 600)));
}

#[test]
fn vanished_target_edits_without_ping() {
    let mut states = target_states_new();
    target_states_insert(&mut states, 7, st(10, 500));
    let games = set_of(&[10]);
    let targets = set_of(&[7]);
    let mut published: IdMap<TargetState> = IdMap::new();
    update_channel_state(&mut published, &games, &targets, &states, false);
    // The tracking cycle evicted the state.
    let states = target_states_new();
    let (update_output, ping) =
        update_channel_state(&mut published, &games, &targets, &states, false);
    assert!(update_output);
    assert!(!ping);
    assert_eq!(published.len(), 0);
}

#[test]
fn location_in_unwatched_game_is_treated_as_absent() {
    let mut states = target_states_new();
    target_states_insert(&mut states, 7, st(99, 500));
    let games = set_of(&[10]);
    let targets = set_of(&[7]);
    let mut published: IdMap<TargetState> = IdMap::new();
    let (update_output, ping) =
        update_channel_state(&mut published, &games, &targets, &states, false);
    assert!(!update_output);
    assert!(!ping);
    assert_eq!(published.len(), 0);
}
