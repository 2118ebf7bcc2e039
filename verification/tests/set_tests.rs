use ro_scalar_set::RoScalarSet;

/// Verifies that an empty set is empty.
fn empty_set_is_empty() {
    let values: Vec<i32> = Vec::new();
    let set = RoScalarSet::new(&values);
    assert_eq!(set.size(), 0);
}

/// Verifies that finding a value from a set with one value succeeds.
fn set_member_is_found(values: &[i32], values_in_set: &[i32], negative_test: &[i32]) {
    // This should be a simple test.
    assert_eq!(values.len(), 1);

    let set = RoScalarSet::new(values);
    assert_eq!(set.size(), 1);

    // Assert contents.
    assert_contents(&set, values_in_set, negative_test);
}

/// Verifies that finding values from a set with multiple buckets succeeds.
fn members_from_different_buckets_are_found(
    values: &Vec<i32>,
    buckets: usize,
    values_in_set: &[i32],
    negative_test: &[i32],
) {
    // This set should verify that more than one bucket is used.
    assert!(buckets > 1);

    // Create the set.
    let set = RoScalarSet::new(values);
    assert_eq!(set.size(), values.len());
    assert_eq!(set.bucket_count(), buckets);

    assert_contents(&set, values_in_set, negative_test);
}

/// Checks that attaching to an existing buffer succeeds.
fn attaching_to_buffer_succeeds(buffer: &[i32], values_in_set: &[i32], negative_test: &[i32]) {
    // Attach to a buffer.
    let set = RoScalarSet::attach(buffer).unwrap().0;

    // Assert.
    assert_contents(&set, values_in_set, negative_test);
}

/// Asserts the existence of values in a set.
fn assert_contents(set: &RoScalarSet<i32>, values_in_set: &[i32], negative_test: &[i32]) {
    // Ensure the members in the set are found.
    for v in values_in_set {
        assert!(set.contains(v));
    }

    // Negative test, i.e. test for values that should not be in the set.
    for nv in negative_test {
        assert!(!set.contains(nv));
    }
}

#[test]
fn empty_set_is_empty_i32() {
    // Run the test.
    empty_set_is_empty();
}

#[test]
fn set_member_is_found_i32() {
    // Prepare the test.
    let values: [i32; 1] = [5];
    let values_in_set = [5];
    let negative_test = [4, 6];

    // Run the test.
    set_member_is_found(&values, &values_in_set, &negative_test);
}

#[test]
fn members_from_different_buckets_are_found_i32() {
    // Prepare test set.
    let values: Vec<i32> = (0..25).collect();
    let negative_test = [26, 27];

    // Run the test.
    members_from_different_buckets_are_found(&values, 2, &values, &negative_test);
}

#[test]
fn attaching_to_buffer_succeeds_i32() {
    // Prepare test set.
    let buffer = [1, 1, 4, 5, 1];
    let values_in_set = [1];
    let adjacent_values = [0, 2];

    // Run the test.
    attaching_to_buffer_succeeds(&buffer, &values_in_set, &adjacent_values);
}

#[test]
fn bucket_count_follows_the_five_percent_rule() {
    let cases: [(usize, usize); 7] = [(0, 0), (1, 1), (19, 1), (20, 1), (21, 2), (25, 2), (40, 2)];
    for (n, expected_buckets) in cases {
        let values: Vec<i32> = (0..n as i32).collect();
        let set = RoScalarSet::new(&values);
        assert_eq!(set.size(), n);
        assert_eq!(set.bucket_count(), expected_buckets);
    }
}

#[test]
fn duplicates_are_counted_by_size() {
    let values = [7, 7, 7, 7];
    let set = RoScalarSet::new(&values);
    assert_eq!(set.size(), 4);
    assert!(set.contains(&7));
    assert!(!set.contains(&8));
}

#[test]
fn negative_values_are_found() {
    let values = [-5, 3, -900000, 0];
    let set = RoScalarSet::new(&values);
    assert_eq!(set.size(), 4);
    for v in &values {
        assert!(set.contains(v));
    }
    assert!(!set.contains(&5));
    assert!(!set.contains(&900000));
    assert!(!set.contains(&-3));
    assert!(!set.contains(&1));
}

#[test]
fn any_reports_a_shared_member() {
    let a = RoScalarSet::new(&[1, 1, 4, 5, 1]);
    let empty: [i32; 0] = [];

    let disjoint = RoScalarSet::new(&[0, 2]);
    assert!(!a.any(&disjoint));
    assert!(!disjoint.any(&a));

    let sharing = RoScalarSet::new(&[4, 9]);
    assert!(a.any(&sharing));
    assert!(sharing.any(&a));

    let none = RoScalarSet::new(&empty);
    assert!(!a.any(&none));
    assert!(!none.any(&a));
}

#[test]
fn attaching_to_a_short_buffer_is_an_error() {
    let empty: [i32; 0] = [];
    assert!(RoScalarSet::attach(&empty).is_err());
    assert!(RoScalarSet::attach(&[1]).is_err());
    assert!(RoScalarSet::attach(&[1, 1]).is_err());
    assert!(RoScalarSet::attach(&[1, 1, 4]).is_err());
}

#[test]
fn attaching_returns_the_unconsumed_remainder() {
    let buffer = [1, 1, 4, 5, 1, 42, 43];
    let (set, remainder) = RoScalarSet::attach(&buffer).unwrap();
    assert_eq!(set.size(), 1);
    assert_eq!(remainder, &[42, 43]);
}

#[test]
fn cloned_set_answers_as_the_original() {
    let values = [10, 20, 30];
    let set = RoScalarSet::new(&values);
    let copy = set.clone();
    assert_eq!(copy.size(), 3);
    assert_eq!(copy.bucket_count(), set.bucket_count());
    for v in &values {
        assert!(copy.contains(v));
    }
    assert!(!copy.contains(&11));
}
