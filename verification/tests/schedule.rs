use merkle_spine::topology::reduction_count;

#[test]
fn schedule_test_reduction_count_k2() {
    let expected = vec![
        0, 1, 0, 2, 0, 1, 0, 3, 0, 1, 0, 2, 0, 1, 0, 4, 0, 1, 0, 2, 0, 1, 0, 3, 0, 1, 0, 2, 0, 1, 0,
        5,
    ];
    for (n, &exp) in expected.iter().enumerate() {
        assert_eq!(reduction_count(n as u64, 2), exp, "failed for k=2, n={}", n);
    }
}

#[test]
fn schedule_test_reduction_count_k3() {
    let expected = vec![
        0, 0, 1, 0, 0, 1, 0, 0, 2, 0, 0, 1, 0, 0, 1, 0, 0, 2, 0, 0, 1, 0, 0, 1, 0, 0, 3, 0, 0, 1, 0,
        0,
    ];
    for (n, &exp) in expected.iter().enumerate() {
        assert_eq!(reduction_count(n as u64, 3), exp, "failed for k=3, n={}", n);
    }
}

#[test]
fn schedule_test_reduction_count_k4() {
    let expected = vec![
        0, 0, 0, 1, 0, 0, 0, 1, 0, 0, 0, 1, 0, 0, 0, 2, 0, 0, 0, 1, 0, 0, 0, 1, 0, 0, 0, 1, 0, 0, 0,
        2,
    ];
    for (n, &exp) in expected.iter().enumerate() {
        assert_eq!(reduction_count(n as u64, 4), exp, "failed for k=4, n={}", n);
    }
}

#[test]
fn reduction_count_at_the_top_of_the_range() {
    // n + 1 = 2^64 is divisible by 2 exactly 64 times.
    assert_eq!(reduction_count(u64::MAX, 2), 64);
    assert_eq!(reduction_count(u64::MAX, 3), 0);
}
