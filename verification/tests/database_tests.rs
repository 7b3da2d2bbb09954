use tracker::constants::{CHANNEL_LIMIT, GAME_LIMIT};
use tracker::database::{ChannelDeleteError, ChannelGetError, ChannelInitializeError, GameDeleteError,
    GameInsertError, Database, TargetInsertError};

#[test]
fn initialize_and_get_round_trip() {
    let mut store = Database::new();
    assert!(store.initialize(10, 1).is_ok());
    let info = store.get_channel(10).unwrap();
    assert_eq!(info.id(), 10);
    assert_eq!(info.guild(), 1);
    assert_eq!(info.message(), None);
    assert_eq!(info.notified_role(), None);
    store.release_channel(10);
}

#[test]
fn initialize_twice_fails() {
    let mut store = Database::new();
    assert!(store.initialize(10, 1).is_ok());
    match store.initialize(10, 1) {
        Err(ChannelInitializeError::AlreadyInitialized) => {}
        _ => panic!("expected AlreadyInitialized"),
    }
}

#[test]
fn guild_channel_limit_enforced() {
    let mut store = Database::new();
    for c in 0..CHANNEL_LIMIT as u64 {
        assert!(store.initialize(c, 7).is_ok());
    }
    match store.initialize(99, 7) {
        Err(ChannelInitializeError::LimitExceeded(n)) => {
            assert_eq!(n, CHANNEL_LIMIT + 1);
            let msg = ChannelInitializeError::LimitExceeded(n).message();
            assert_eq!(
                msg,
                "Tracker channel limit exceeded (channels after initializing: 6/5)."
            );
        }
        _ => panic!("expected LimitExceeded"),
    }
    // Another guild is unaffected.
    assert!(store.initialize(99, 8).is_ok());
}

#[test]
fn get_missing_channel_fails_not_initialized() {
    let mut store = Database::new();
    match store.get_channel(42) {
        Err(ChannelGetError::NotInitialized) => {}
        _ => panic!("expected NotInitialized"),
    }
}

#[test]
fn add_games_and_read_back() {
    let mut store = Database::new();
    store.initialize(1, 1).unwrap();
    let inserted = store.add_games(1, &vec![5, 6, 7]).unwrap();
    assert_eq!(inserted, 3);
    let mut games = store.get_games(1);
    games.sort();
    assert_eq!(games, vec![5, 6, 7]);
    assert_eq!(store.game_count(1), 3);
}

#[test]
fn duplicate_game_not_inserted() {
    let mut store = Database::new();
    store.initialize(1, 1).unwrap();
    store.add_games(1, &vec![5]).unwrap();
    match store.add_games(1, &vec![5]) {
        Err(GameInsertError::GamesNotInserted) => {}
        _ => panic!("expected GamesNotInserted"),
    }
    assert_eq!(store.game_count(1), 1);
}

#[test]
fn partially_duplicate_batch_counts_new_rows_only() {
    let mut store = Database::new();
    store.initialize(1, 1).unwrap();
    store.add_games(1, &vec![5, 6]).unwrap();
    let inserted = store.add_games(1, &vec![6, 7, 7]).unwrap();
    assert_eq!(inserted, 1);
    assert_eq!(store.game_count(1), 3);
}

#[test]
fn game_limit_overflow_rejected_from_empty() {
    let mut store = Database::new();
    store.initialize(1, 1).unwrap();
    let batch: Vec<u64> = (1..=(GAME_LIMIT as u64 + 1)).collect();
    match store.add_games(1, &batch) {
        Err(GameInsertError::LimitExceeded(n)) => {
            assert_eq!(n, GAME_LIMIT + 1);
            let msg = GameInsertError::LimitExceeded(n).message();
            assert_eq!(msg, "Game limit exceeded (games after adding: 101/100).");
        }
        _ => panic!("expected LimitExceeded"),
    }
    assert_eq!(store.game_count(1), 0);
}

#[test]
fn empty_game_batch_rejected_without_change() {
    let mut store = Database::new();
    store.initialize(1, 1).unwrap();
    store.add_games(1, &vec![9]).unwrap();
    match store.add_games(1, &vec![]) {
        Err(GameInsertError::GameListEmpty) => {}
        _ => panic!("expected GameListEmpty"),
    }
    assert_eq!(store.game_count(1), 1);
}

#[test]
fn target_limit_uses_target_message() {
    let mut store = Database::new();
    store.initialize(1, 1).unwrap();
    let batch: Vec<u64> = (1..=101).collect();
    match store.add_targets(1, &batch) {
        Err(TargetInsertError::LimitExceeded(n)) => {
            assert_eq!(n, 101);
            let msg = TargetInsertError::LimitExceeded(n).message();
            assert_eq!(msg, "Target limit exceeded (targets after adding: 101/100).");
        }
        _ => panic!("expected LimitExceeded"),
    }
}

#[test]
fn add_then_remove_games_round_trip() {
    let mut store = Database::new();
    store.initialize(1, 1).unwrap();
    store.add_games(1, &vec![1, 2]).unwrap();
    let inserted = store.add_games(1, &vec![3, 4]).unwrap();
    assert_eq!(inserted, 2);
    let removed = store.remove_games(1, &vec![3, 4]).unwrap();
    assert_eq!(removed, 2);
    let mut games = store.get_games(1);
    games.sort();
    assert_eq!(games, vec![1, 2]);
}

#[test]
fn remove_missing_games_fails() {
    let mut store = Database::new();
    store.initialize(1, 1).unwrap();
    store.add_games(1, &vec![1]).unwrap();
    match store.remove_games(1, &vec![2, 3]) {
        Err(GameDeleteError::GamesNotDeleted) => {}
        _ => panic!("expected GamesNotDeleted"),
    }
}

#[test]
fn clear_games_reports_count() {
    let mut store = Database::new();
    store.initialize(1, 1).unwrap();
    store.add_games(1, &vec![1, 2, 3]).unwrap();
    assert_eq!(store.clear_games(1).unwrap(), 3);
    assert!(store.clear_games(1).is_err());
    assert_eq!(store.game_count(1), 0);
}

#[test]
fn set_message_and_role_round_trip() {
    let mut store = Database::new();
    store.initialize(1, 1).unwrap();
    store.set_message(1, 555);
    store.set_notified_role(1, Some(777));
    let info = store.get_channel(1).unwrap();
    assert_eq!(info.message(), Some(555));
    assert_eq!(info.notified_role(), Some(777));
    store.release_channel(1);
    store.set_notified_role(1, None);
    let info = store.get_channel(1).unwrap();
    assert_eq!(info.notified_role(), None);
    store.release_channel(1);
}

#[test]
fn delete_with_live_holder_is_pending() {
    let mut store = Database::new();
    store.initialize(1, 1).unwrap();
    let _a = store.get_channel(1).unwrap();
    let _b = store.get_channel(1).unwrap();
    // B consumes its snapshot on the delete attempt; A still holds one.
    match store.delete_channel(1) {
        Err(ChannelDeleteError::OperationPending) => {}
        _ => panic!("expected OperationPending"),
    }
    // The tables are untouched.
    assert!(store.get_channel(1).is_ok());
    store.release_channel(1);
}

#[test]
fn delete_retried_after_holder_leaves() {
    let mut store = Database::new();
    store.initialize(1, 1).unwrap();
    store.add_games(1, &vec![4]).unwrap();
    store.add_targets(1, &vec![9]).unwrap();
    let _a = store.get_channel(1).unwrap();
    let _b = store.get_channel(1).unwrap();
    assert!(store.delete_channel(1).is_err());
    // A completes.
    store.release_channel(1);
    // B retries: fetch a fresh snapshot, then delete.
    let _b2 = store.get_channel(1).unwrap();
    assert!(store.delete_channel(1).is_ok());
    match store.get_channel(1) {
        Err(ChannelGetError::NotInitialized) => {}
        _ => panic!("expected NotInitialized after delete"),
    }
    // No rows remain anywhere: the global counts are empty again.
    assert_eq!(store.get_game_count(), 0);
    assert_eq!(store.get_target_count(), 0);
    // The channel can be initialized again.
    assert!(store.initialize(1, 1).is_ok());
}

#[test]
fn aggregates_join_games_and_targets() {
    let mut store = Database::new();
    store.initialize(1, 1).unwrap();
    store.initialize(2, 1).unwrap();
    store.add_games(1, &vec![100, 200]).unwrap();
    store.add_targets(1, &vec![7]).unwrap();
    store.add_games(2, &vec![200]).unwrap();
    store.add_targets(2, &vec![8, 9]).unwrap();
    let gt = store.get_all_games_and_targets();
    let mut t100 = gt.get(100).unwrap().to_vec();
    t100.sort();
    assert_eq!(t100, vec![7]);
    let mut t200 = gt.get(200).unwrap().to_vec();
    t200.sort();
    assert_eq!(t200, vec![7, 8, 9]);
    assert_eq!(store.get_game_count(), 2);
    assert_eq!(store.get_target_count(), 3);
    let mut all = store.get_all_channels();
    all.sort();
    assert_eq!(all, vec![1, 2]);
    let mut guild = store.get_guild_channels(1);
    guild.sort();
    assert_eq!(guild, vec![1, 2]);
    assert!(store.get_guild_channels(2).is_empty());
}

#[test]
fn cold_start_counts_are_zero() {
    let store = Database::new();
    assert_eq!(store.get_game_count(), 0);
    assert_eq!(store.get_target_count(), 0);
    assert!(store.get_all_channels().is_empty());
}

#[test]
fn snapshot_consuming_delete() {
    let mut db = Database::new();
    db.initialize(1, 1).unwrap();
    let snapshot = db.get_channel(1).unwrap();
    assert!(snapshot.delete_channel(&mut db).is_ok());
    assert!(db.get_channel(1).is_err());
}
