use matchmaker::partitions::find_unique_addends;

#[test]
fn test_find_unique_addends() {
    let target = 5;

    //[[5], [2, 3], [1, 4], [1, 2, 2], [1, 1, 3], [1, 1, 1, 2], [1, 1, 1, 1, 1]]
    println!("{:?}", find_unique_addends(target));

    assert_eq!(
        find_unique_addends(target).unwrap(),
        vec![
            vec![5],
            vec![2, 3],
            vec![1, 4],
            vec![1, 2, 2],
            vec![1, 1, 3],
            vec![1, 1, 1, 2],
            vec![1, 1, 1, 1, 1]
        ]
    );
}

#[test]
fn flexible_test_find_unique_addends() {
    let target = 5;

    println!("{:?}", find_unique_addends(target));

    assert_eq!(
        find_unique_addends(target).unwrap(),
        vec![
            vec![5],
            vec![2, 3],
            vec![1, 4],
            vec![1, 2, 2],
            vec![1, 1, 3],
            vec![1, 1, 1, 2],
            vec![1, 1, 1, 1, 1]
        ]
    );
}

#[test]
fn test_negative_addends() {
    let target = -5;

    // Should return an error
    assert!(find_unique_addends(target).is_err());
}

#[test]
fn test_zero_addends() {
    let result = find_unique_addends(0);
    assert!(result.is_err());
    assert_eq!(result.unwrap_err(), "Target must be a positive integer");
}

#[test]
fn test_addends_of_one() {
    assert_eq!(find_unique_addends(1).unwrap(), vec![vec![1]]);
}

#[test]
fn test_addends_rows_sum_to_target() {
    let rows = find_unique_addends(7).unwrap();
    for row in &rows {
        let total: i32 = row.iter().sum();
        assert_eq!(total, 7);
        for w in row.windows(2) {
            assert!(w[0] <= w[1]);
        }
    }
}
