use matchmaker::entry::{Entry, EntryId};
use matchmaker::flexible::FlexibleSettings;
use matchmaker::game::Game;
use matchmaker::matchmaker::{MatcherSettings, MatchmakerResult};
use matchmaker::queue::try_take_result;
use matchmaker::tracker::QueueTracker;

fn one_v_one() -> MatcherSettings {
    MatcherSettings::Flexible(
        FlexibleSettings { team_size: 1, min_entry_size: 1, max_entry_size: 1, number_of_teams: 2 },
    )
}

fn single(id: u128, player: u128) -> Entry {
    Entry::new(id, vec![player], None)
}

#[test]
fn test_create_and_list_queues() {
    let mut tracker = QueueTracker::new();
    tracker.create("ranked".to_string(), "flexible".to_string(), one_v_one()).unwrap();

    assert!(tracker.get_queue(&"ranked".to_string()).is_some());
    assert!(tracker.get_queue(&"casual".to_string()).is_none());
    assert_eq!(tracker.get_queues().len(), 1);

    // a colliding name is refused
    let again = tracker.create("ranked".to_string(), "flexible".to_string(), one_v_one());
    assert_eq!(again.unwrap_err(), "Queue already exists".to_string());

    // a mismatched type name is refused
    let wrong = tracker.create("other".to_string(), "elo".to_string(), one_v_one());
    assert!(wrong.is_err());
}

#[test]
fn test_join_then_match_delivers_same_game() {
    let name = "duel".to_string();
    let mut tracker = QueueTracker::new();
    tracker.create(name.clone(), "flexible".to_string(), one_v_one()).unwrap();

    let mut rx1 = tracker.join(&name, single(1, 101)).unwrap();
    let mut rx2 = tracker.join(&name, single(2, 102)).unwrap();

    // nothing is delivered before a tick commits a match
    assert!(try_take_result(&mut rx1).is_none());

    let teams = match tracker.tick_attempt(&name, 0).unwrap() {
        MatchmakerResult::Matched(teams) => teams,
        other => panic!("expected a match, got {:?}", other),
    };
    let game = Game::new("host9".to_string(), 4321, "g9".to_string());
    assert!(tracker.commit_match(&name, &teams, Ok(game)));

    let r1 = try_take_result(&mut rx1).unwrap().unwrap();
    let r2 = try_take_result(&mut rx2).unwrap().unwrap();
    assert_eq!(r1.game.server_port, 4321);
    assert_eq!(r2.game.server_port, 4321);
    assert_eq!(r1.game.id, "g9".to_string());
    assert_eq!(r1.teams.len(), 2);

    // the matched entries are gone from the queue
    assert!(tracker.all_queues_empty());
}

#[test]
fn test_locator_error_is_delivered() {
    let name = "duel2".to_string();
    let mut tracker = QueueTracker::new();
    tracker.create(name.clone(), "flexible".to_string(), one_v_one()).unwrap();

    let mut rx1 = tracker.join(&name, single(1, 101)).unwrap();
    let _rx2 = tracker.join(&name, single(2, 102)).unwrap();

    let teams = match tracker.tick_attempt(&name, 0).unwrap() {
        MatchmakerResult::Matched(teams) => teams,
        other => panic!("expected a match, got {:?}", other),
    };
    assert!(tracker.commit_match(&name, &teams, Err("no server".to_string())));

    let r1 = try_take_result(&mut rx1).unwrap();
    assert_eq!(r1.unwrap_err(), "no server".to_string());
    assert!(tracker.all_queues_empty());
}

#[test]
fn test_join_then_disconnect() {
    let name = "solo".to_string();
    let mut tracker = QueueTracker::new();
    tracker.create(name.clone(), "flexible".to_string(), one_v_one()).unwrap();

    let mut rx = tracker.join(&name, single(1, 101)).unwrap();

    // the client disconnects before the next tick
    assert!(tracker.leave(&name, &EntryId(1)));

    // the handle was dropped without a value
    assert!(try_take_result(&mut rx).is_none());

    // a subsequent tick sees no entries
    match tracker.tick_attempt(&name, 0).unwrap() {
        MatchmakerResult::Skip(_) => {},
        other => panic!("expected a skip, got {:?}", other),
    }
    assert!(tracker.all_queues_empty());
}

#[test]
fn test_duplicate_player_is_refused() {
    let name = "dup".to_string();
    let mut tracker = QueueTracker::new();
    tracker.create(name.clone(), "flexible".to_string(), one_v_one()).unwrap();

    tracker.join(&name, single(1, 101)).unwrap();
    let again = tracker.join(&name, single(2, 101));
    assert_eq!(again.unwrap_err(), "Player is already in this queue".to_string());
}

#[test]
fn test_graceful_drain() {
    let name = "drain".to_string();
    let mut tracker = QueueTracker::new();
    tracker.create(name.clone(), "flexible".to_string(), one_v_one()).unwrap();

    let _rx1 = tracker.join(&name, single(1, 101)).unwrap();
    let _rx2 = tracker.join(&name, single(2, 102)).unwrap();

    tracker.lock();

    // new joins are refused while draining
    let refused = tracker.join(&name, single(3, 103));
    assert_eq!(
        refused.unwrap_err(),
        "QueueTracker is locked, no new entries can be added".to_string()
    );

    // already-queued clients are still matched by ongoing ticks
    assert!(!tracker.all_queues_empty());
    let teams = match tracker.tick_attempt(&name, 0).unwrap() {
        MatchmakerResult::Matched(teams) => teams,
        other => panic!("expected a match, got {:?}", other),
    };
    let game = Game::new("h".to_string(), 1, "g".to_string());
    assert!(tracker.commit_match(&name, &teams, Ok(game)));

    // every queue reports empty, so the process may exit
    assert!(tracker.all_queues_empty());
}

#[test]
fn test_unknown_queue_is_refused() {
    let mut tracker = QueueTracker::new();
    let missing = tracker.join(&"nowhere".to_string(), single(1, 101));
    assert_eq!(missing.unwrap_err(), "Queue not found".to_string());
    assert!(tracker.tick_attempt(&"nowhere".to_string(), 0).is_none());
}

#[test]
fn test_persist_round_trip() {
    let mut tracker = QueueTracker::new();
    tracker.create("a".to_string(), "flexible".to_string(), one_v_one()).unwrap();
    tracker
        .create(
            "b".to_string(),
            "elo".to_string(),
            MatcherSettings::Elo(matchmaker::elo::EloSettings {
                scaling_factor: 2,
                team_size: 1,
                max_skill_diff: 10,
            }),
        )
        .unwrap();

    let items = tracker.to_persist();
    assert_eq!(items.len(), 2);
    assert_eq!(items[0].name, "a".to_string());
    assert_eq!(items[0].matcher, "flexible".to_string());
    assert_eq!(items[1].name, "b".to_string());
    assert_eq!(items[1].matcher, "elo".to_string());

    let reloaded = QueueTracker::from_persist(&items);
    assert_eq!(reloaded.get_queues().len(), 2);
    assert_eq!(reloaded.get_queues()[0].0, "a".to_string());
    assert_eq!(reloaded.get_queues()[1].0, "b".to_string());
    assert_eq!(reloaded.get_queues()[0].1.matchmaker().serialize(), items[0].settings);
    assert_eq!(reloaded.get_queues()[1].1.matchmaker().serialize(), items[1].settings);
    assert!(reloaded.all_queues_empty());
}
