use matchmaker::entry::{Entry, EntryId};
use matchmaker::flexible::{FlexibleMatchMaker, FlexibleSettings};
use matchmaker::matchmaker::MatchmakerResult;

fn single(id: u128, player: u128) -> Entry {
    Entry::new(id, vec![player], None)
}

#[test]
fn test_construct_success() {
    let matchmaker = FlexibleMatchMaker::new(5, 1, 5, 2);

    assert!(matchmaker.is_ok());
}

#[test]
fn test_construct_failure() {
    let matchmaker = FlexibleMatchMaker::new(-5, 1, 5, 2);

    assert!(matchmaker.is_err());
}

#[test]
fn flexible_test_construct_success() {
    let matchmaker = FlexibleMatchMaker::new(5, 1, 5, 2);

    assert!(matchmaker.is_ok());
}

#[test]
fn flexible_test_construct_failure() {
    let matchmaker = FlexibleMatchMaker::new(-5, 1, 5, 2);

    assert!(matchmaker.is_err());
}

#[test]
fn test_construct_bounds_swapped() {
    // minEntrySize above maxEntrySize fails at construction
    let matchmaker = FlexibleMatchMaker::new(5, 3, 2, 2);

    assert!(matchmaker.is_err());
}

#[test]
fn test_matchmake_success() {
    let mut matchmaker = FlexibleMatchMaker::new(1, 1, 1, 2).unwrap();

    matchmaker.add_entry(single(1, 101)).unwrap();
    matchmaker.add_entry(single(2, 102)).unwrap();

    let result = matchmaker.matchmake();

    assert!(result.is_matched());
}

#[test]
fn flexible_test_matchmake_success() {
    let mut matchmaker = FlexibleMatchMaker::new(1, 1, 1, 2).unwrap();

    matchmaker.add_entry(single(1, 101)).unwrap();
    matchmaker.add_entry(single(2, 102)).unwrap();

    let result = matchmaker.matchmake();

    assert!(result.is_matched());
}

#[test]
fn test_matchmake_not_enough_players() {
    let mut matchmaker = FlexibleMatchMaker::new(5, 1, 5, 2).unwrap();

    matchmaker.add_entry(single(1, 101)).unwrap();

    let result: MatchmakerResult = matchmaker.matchmake();

    assert!(result.is_skip());
    let error = result.unwrap_skip();

    assert_eq!(error, "Not enough players to form a match".to_string());
}

#[test]
fn flexible_test_matchmake_not_enough_players() {
    let mut matchmaker = FlexibleMatchMaker::new(5, 1, 5, 2).unwrap();

    matchmaker.add_entry(single(1, 101)).unwrap();

    let result: MatchmakerResult = matchmaker.matchmake();

    assert!(result.is_skip());
    let error = result.unwrap_skip();

    assert_eq!(error, "Not enough players to form a match".to_string());
}

#[test]
pub fn regression_test_1() {
    let mut matchmaker = FlexibleMatchMaker::new(2, 1, 1, 1).unwrap();

    matchmaker.add_entry(single(1, 101)).unwrap();
    matchmaker.add_entry(single(2, 102)).unwrap();

    let result = matchmaker.matchmake();

    println!("{:?}", result);
}

#[test]
fn test_partition_fallback() {
    // teamSize=2, one team: no size-2 party waits, so [1,1] is used
    let mut matchmaker = FlexibleMatchMaker::new(2, 1, 2, 1).unwrap();

    matchmaker.add_entry(single(1, 101)).unwrap();
    matchmaker.add_entry(single(2, 102)).unwrap();

    match matchmaker.matchmake() {
        MatchmakerResult::Matched(teams) => {
            assert_eq!(teams, vec![vec![EntryId(1), EntryId(2)]]);
        },
        other => panic!("expected a match, got {:?}", other),
    }
}

#[test]
fn test_skip_keeps_entries() {
    let mut matchmaker = FlexibleMatchMaker::new(5, 1, 5, 2).unwrap();
    matchmaker.add_entry(single(1, 101)).unwrap();

    assert!(matchmaker.matchmake().is_skip());
    assert_eq!(matchmaker.get_entries().len(), 1);
    assert!(matchmaker.get_entry(&EntryId(1)).is_some());
}

#[test]
fn test_add_rejects_out_of_bounds_party() {
    let mut matchmaker = FlexibleMatchMaker::new(3, 2, 3, 1).unwrap();

    let lone = Entry::new(1, vec![101], None);
    assert!(matchmaker.add_entry(lone).is_err());
    assert_eq!(matchmaker.get_entries().len(), 0);
}

#[test]
fn test_add_rejects_duplicate_id() {
    let mut matchmaker = FlexibleMatchMaker::new(2, 1, 2, 1).unwrap();

    matchmaker.add_entry(single(7, 101)).unwrap();
    assert!(matchmaker.add_entry(single(7, 102)).is_err());
    assert_eq!(matchmaker.get_entries().len(), 1);
}

#[test]
fn test_remove_entry_cleans_pool() {
    let mut matchmaker = FlexibleMatchMaker::new(1, 1, 1, 2).unwrap();

    matchmaker.add_entry(single(1, 101)).unwrap();
    matchmaker.add_entry(single(2, 102)).unwrap();

    let removed = matchmaker.remove_entry(&EntryId(1)).unwrap();
    assert_eq!(removed.id, EntryId(1));
    assert!(matchmaker.get_entry(&EntryId(1)).is_none());
    assert!(matchmaker.remove_entry(&EntryId(1)).is_err());

    // the one remaining single cannot fill two teams
    assert!(matchmaker.matchmake().is_skip());
}

#[test]
fn test_serialize_round_trip() {
    let matchmaker = FlexibleMatchMaker::new(4, 1, 2, 2).unwrap();
    let settings = matchmaker.serialize();
    assert_eq!(
        settings,
        FlexibleSettings { team_size: 4, min_entry_size: 1, max_entry_size: 2, number_of_teams: 2 }
    );

    let rebuilt = FlexibleMatchMaker::deserialize(settings).unwrap();
    assert_eq!(rebuilt.serialize(), settings);
    assert_eq!(rebuilt.get_entries().len(), 0);
    // on an empty pool both matchers skip
    assert!(rebuilt.matchmake().is_skip());
    assert!(FlexibleMatchMaker::new(4, 1, 2, 2).unwrap().matchmake().is_skip());
}

#[test]
fn test_build_teams_picks_first_assignment() {
    let teams = FlexibleMatchMaker::build_teams(&[1, 1, 2], 2, 2);
    // one size-2 party and two singles: [2] then [1, 1]
    assert_eq!(teams, Some(vec![vec![2], vec![1, 1]]));

    assert_eq!(FlexibleMatchMaker::build_teams(&[1], 2, 1), None);
    assert_eq!(FlexibleMatchMaker::build_teams(&[1, 1], -1, 1), None);
}
