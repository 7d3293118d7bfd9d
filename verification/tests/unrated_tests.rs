use matchmaker::entry::QueueEntry;
use matchmaker::unrated::{find, find_valid_addend, Unrated, UnratedMatchmaker};

#[test]
fn test_find_counters() {
    // ascending partitions of three: [1,1,1], [1,2], [3]
    assert_eq!(find(3), vec![vec![(1, 3)], vec![(1, 1), (2, 1)], vec![(3, 1)]]);
    assert_eq!(find(1), vec![vec![(1, 1)]]);
    assert_eq!(find(0), vec![vec![]]);
}

#[test]
fn test_unrated_matchmake_success() {
    let matchmaker = Unrated::new(1, 2);

    let e1 = QueueEntry::new(vec![101]);
    let e2 = QueueEntry::new(vec![102]);
    let id1 = *e1.get_id();
    let id2 = *e2.get_id();

    let teams = matchmaker.matchmake(&[e1, e2]).unwrap();
    // parties are drawn from the end of the singles list
    assert_eq!(teams, vec![vec![id2], vec![id1]]);
}

#[test]
fn test_unrated_matchmake_not_enough() {
    let matchmaker = Unrated::new(1, 2);

    let e1 = QueueEntry::new(vec![101]);
    let result = matchmaker.matchmake(&[e1]);
    assert_eq!(
        result.unwrap_err(),
        "Unable to build the required amount of teams (1).".to_string()
    );
}

#[test]
fn test_unrated_matchmaker_variant() {
    let matchmaker = UnratedMatchmaker::new(1, 1);
    assert_eq!(matchmaker.namespace(), "unrated");

    let e1 = QueueEntry::new(vec![101]);
    let id1 = *e1.get_id();
    let teams = matchmaker.matchmake(&[e1]).unwrap();
    assert_eq!(teams, vec![vec![id1]]);

    let empty: [QueueEntry; 0] = [];
    let result = matchmaker.matchmake(&empty);
    assert_eq!(result.unwrap_err(), "Unable to build the required amount of teams.".to_string());
}

#[test]
fn test_validate_entry() {
    let matchmaker = Unrated::new(2, 1);

    let small = QueueEntry::new(vec![101, 102]);
    assert!(matchmaker.validate_entry(&small).unwrap());

    let large = QueueEntry::new(vec![101, 102, 103]);
    assert!(matchmaker.validate_entry(&large).is_err());
}

#[test]
fn test_find_valid_addend_first_only() {
    let addends = find(2);
    // the first addend asks for two singles
    assert_eq!(addends[0], vec![(1, 2)]);

    let e1 = QueueEntry::new(vec![101]);
    let e2 = QueueEntry::new(vec![102]);
    let buckets = vec![(1u64, vec![e1, e2])];
    let picked = find_valid_addend(&addends, &buckets);
    assert_eq!(picked, Some(&addends[0]));

    let short = vec![(1u64, vec![QueueEntry::new(vec![103])])];
    assert_eq!(find_valid_addend(&addends, &short), None);

    let none: Vec<Vec<(u64, u64)>> = Vec::new();
    assert_eq!(find_valid_addend(&none, &buckets), None);
}
