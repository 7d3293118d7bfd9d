use matchmaker::entry::{Entry, EntryId};
use matchmaker::flexible::{FlexibleMatchMaker, FlexibleSettings};
use matchmaker::matchmaker::{deserialize, Matcher, MatcherSettings, MatchmakerResult};
use matchmaker::queue::{try_take_result, Queue};

fn one_v_one_matcher() -> Matcher {
    let settings = MatcherSettings::Flexible(
        FlexibleSettings { team_size: 1, min_entry_size: 1, max_entry_size: 1, number_of_teams: 2 },
    );
    deserialize(&"flexible".to_string(), settings).unwrap()
}

#[test]
fn test_queue_add_and_has_player() {
    let mut queue = Queue::new("q".to_string(), one_v_one_matcher());

    let _rx = queue.add_entry(Entry::new(1, vec![101], None)).unwrap();
    assert!(queue.has_player(&101));
    assert!(!queue.has_player(&102));
    assert_eq!(queue.entries().len(), 1);
}

#[test]
fn test_queue_tick_and_matchmaker_access() {
    let mut queue = Queue::new("q".to_string(), one_v_one_matcher());
    assert!(queue.tick().is_skip());

    let _rx1 = queue.add_entry(Entry::new(1, vec![101], None)).unwrap();
    let _rx2 = queue.add_entry(Entry::new(2, vec![102], None)).unwrap();
    assert!(queue.tick_at(0).is_matched());
    assert_eq!(queue.matchmaker().get_type_name(), "flexible".to_string());
}

#[test]
fn test_queue_leave_delivers_once() {
    let mut queue = Queue::new("q".to_string(), one_v_one_matcher());
    let mut rx = queue.add_entry(Entry::new(1, vec![101], None)).unwrap();

    queue.leave(&EntryId(1), Err("ejected".to_string()));
    let delivered = try_take_result(&mut rx).unwrap();
    assert_eq!(delivered.unwrap_err(), "ejected".to_string());
    assert_eq!(queue.entries().len(), 0);

    // leaving again is a harmless no-op
    queue.leave(&EntryId(1), Err("again".to_string()));
}

#[test]
fn test_queue_remove_entry_is_silent() {
    let mut queue = Queue::new("q".to_string(), one_v_one_matcher());
    let mut rx = queue.add_entry(Entry::new(1, vec![101], None)).unwrap();

    let removed = queue.remove_entry(&EntryId(1)).unwrap();
    assert_eq!(removed.id, EntryId(1));
    assert!(try_take_result(&mut rx).is_none());
    assert!(queue.remove_entry(&EntryId(1)).is_none());
}

#[test]
fn test_queue_remove_all_drains_with_reason() {
    let mut queue = Queue::new("q".to_string(), one_v_one_matcher());
    let mut rx1 = queue.add_entry(Entry::new(1, vec![101], None)).unwrap();
    let mut rx2 = queue.add_entry(Entry::new(2, vec![102], None)).unwrap();

    queue.remove_all(&"shutting down".to_string());
    assert_eq!(queue.entries().len(), 0);
    assert_eq!(try_take_result(&mut rx1).unwrap().unwrap_err(), "shutting down".to_string());
    assert_eq!(try_take_result(&mut rx2).unwrap().unwrap_err(), "shutting down".to_string());
}

#[test]
fn test_queue_commit_match_removes_everyone() {
    let mut queue = Queue::new("q".to_string(), one_v_one_matcher());
    let mut rx1 = queue.add_entry(Entry::new(1, vec![101], None)).unwrap();
    let mut rx2 = queue.add_entry(Entry::new(2, vec![102], None)).unwrap();

    let teams = match queue.tick_at(0) {
        MatchmakerResult::Matched(teams) => teams,
        other => panic!("expected a match, got {:?}", other),
    };
    let game = matchmaker::game::Game::new("h".to_string(), 7777, "g".to_string());
    queue.commit_match(&teams, Ok(game));

    assert_eq!(queue.entries().len(), 0);
    let r1 = try_take_result(&mut rx1).unwrap().unwrap();
    let r2 = try_take_result(&mut rx2).unwrap().unwrap();
    assert_eq!(r1.game.server_port, 7777);
    assert_eq!(r2.game.server_port, 7777);

    // every delivered team list names both entries
    let mut ids: Vec<EntryId> = r1.teams.iter().flatten().map(|e| e.id).collect();
    ids.sort_by_key(|e| e.0);
    assert_eq!(ids, vec![EntryId(1), EntryId(2)]);
}

#[test]
fn test_entry_constructors() {
    let timed = Entry::queued_at(9, vec![5, 6], Some(1200), 77);
    assert_eq!(timed.time_queued, 77);
    assert_eq!(timed.elo, Some(1200));
    assert_eq!(timed.players, vec![5, 6]);

    let fresh = Entry::new(9, vec![5], None);
    assert_eq!(fresh.id, EntryId(9));

    let flexible_entry = matchmaker::entry::FlexibleQueueEntry::new(4, vec![8]);
    assert_eq!(flexible_entry.id(), 4);
    assert_eq!(flexible_entry.players(), &vec![8]);

    let a = matchmaker::entry::QueueEntry::new(vec![1]);
    let b = a.clone();
    assert!(a == b);
}
