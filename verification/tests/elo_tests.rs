use matchmaker::elo::{EloMatchmaker, EloSettings};
use matchmaker::entry::{Entry, EntryId};
use matchmaker::matchmaker::MatchmakerResult;

fn rated(id: u128, player: u128, elo: i64) -> Entry {
    Entry::new(id, vec![player], Some(elo))
}

#[test]
fn test_elo_exact_tie() {
    let mut matchmaker = EloMatchmaker::new(0, 1, 0).unwrap();

    matchmaker.add_entry(rated(1, 101, 1000)).unwrap();
    matchmaker.add_entry(rated(2, 102, 1000)).unwrap();

    match matchmaker.matchmake() {
        MatchmakerResult::Matched(teams) => {
            assert_eq!(teams, vec![vec![EntryId(1)], vec![EntryId(2)]]);
        },
        other => panic!("expected a match, got {:?}", other),
    }
}

#[test]
fn test_elo_out_of_window() {
    let mut matchmaker = EloMatchmaker::new(0, 1, 0).unwrap();

    matchmaker.add_entry(rated(1, 101, 1000)).unwrap();
    matchmaker.add_entry(rated(2, 102, 1001)).unwrap();

    let result = matchmaker.matchmake();
    assert!(result.is_skip());
    assert_eq!(result.unwrap_skip(), "No teams found".to_string());

    // with a zero scaling factor the window never opens, so raising the cap
    // alone changes nothing: the window must grow with waiting time too
    let mut wider = EloMatchmaker::new(0, 1, 1).unwrap();
    wider.add_entry(rated(1, 101, 1000)).unwrap();
    wider.add_entry(rated(2, 102, 1001)).unwrap();
    assert!(wider.matchmake().is_skip());

    // a fresh matcher whose window has grown past the difference, under a
    // cap of one, pairs the same inputs
    let mut grown = EloMatchmaker::new(1, 1, 1).unwrap();
    grown.add_entry(Entry::queued_at(1, vec![101], Some(1000), 0)).unwrap();
    grown.add_entry(Entry::queued_at(2, vec![102], Some(1001), 0)).unwrap();
    assert!(grown.matchmake_at(5).is_matched());

    // the cap stays absolute however long the wait: a difference of two
    // never fits under a cap of one
    let mut capped = EloMatchmaker::new(1, 1, 1).unwrap();
    capped.add_entry(Entry::queued_at(1, vec![101], Some(1000), 0)).unwrap();
    capped.add_entry(Entry::queued_at(2, vec![102], Some(1002), 0)).unwrap();
    assert!(capped.matchmake_at(1000).is_skip());
}

#[test]
fn test_elo_prefers_closest() {
    let mut matchmaker = EloMatchmaker::new(10, 1, 100).unwrap();

    matchmaker.add_entry(Entry::queued_at(1, vec![101], Some(1000), 0)).unwrap();
    matchmaker.add_entry(Entry::queued_at(2, vec![102], Some(1050), 0)).unwrap();
    matchmaker.add_entry(Entry::queued_at(3, vec![103], Some(1010), 0)).unwrap();

    match matchmaker.matchmake_at(10) {
        MatchmakerResult::Matched(teams) => {
            assert_eq!(teams, vec![vec![EntryId(1)], vec![EntryId(3)]]);
        },
        other => panic!("expected a match, got {:?}", other),
    }
}

#[test]
fn test_elo_add_rejects_wrong_team_size() {
    let mut matchmaker = EloMatchmaker::new(0, 2, 0).unwrap();

    let result = matchmaker.add_entry(rated(1, 101, 1000));
    assert_eq!(result.unwrap_err(), "Entry has wrong team size".to_string());
}

#[test]
fn test_elo_add_rejects_missing_rating() {
    let mut matchmaker = EloMatchmaker::new(0, 1, 0).unwrap();

    let unrated_entry = Entry::new(1, vec![101], None);
    let result = matchmaker.add_entry(unrated_entry);
    assert_eq!(result.unwrap_err(), "Entry has no elo".to_string());
}

#[test]
fn test_elo_construct_failure() {
    assert!(EloMatchmaker::new(0, 0, 0).is_err());
    assert!(EloMatchmaker::new(0, 1, -1).is_err());
}

#[test]
fn test_elo_remove_entry() {
    let mut matchmaker = EloMatchmaker::new(0, 1, 0).unwrap();

    matchmaker.add_entry(rated(1, 101, 1000)).unwrap();
    matchmaker.add_entry(rated(2, 102, 1000)).unwrap();

    matchmaker.remove_entry(&EntryId(2)).unwrap();
    assert!(matchmaker.matchmake().is_skip());
}

#[test]
fn test_elo_serialize_round_trip() {
    let matchmaker = EloMatchmaker::new(3, 2, 50).unwrap();
    let settings = matchmaker.serialize();
    assert_eq!(settings, EloSettings { scaling_factor: 3, team_size: 2, max_skill_diff: 50 });

    let rebuilt = EloMatchmaker::deserialize(settings).unwrap();
    assert_eq!(rebuilt.serialize(), settings);
    assert_eq!(rebuilt.get_entries().len(), 0);
    assert!(rebuilt.matchmake().is_skip());
}
