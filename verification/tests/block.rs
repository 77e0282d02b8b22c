use remedian::RemedianBlock;

/// The median of the 2000 values of `load_test_data`.
const EXPECTED_MEDIAN: f32 = 500.5;

/// How far an estimate may lie from `EXPECTED_MEDIAN`.
const MEDIAN_ERROR_LIMIT: f32 = 3.0;

/// 2000 values: each whole number from 1 to 1000 twice, well mixed.
fn load_test_data() -> Vec<f32> {
    let mut data = Vec::with_capacity(2000);
    for i in 0..2000u32 {
        data.push((((i * 733) % 2000) / 2 + 1) as f32);
    }
    data
}

#[test]
fn test_data_has_the_expected_median() {
    let mut data = load_test_data();
    assert_eq!(data.len(), 2000);
    data.sort_by(|a, b| a.partial_cmp(b).unwrap());
    assert_eq!((data[999] + data[1000]) / 2.0, EXPECTED_MEDIAN);
}

#[test]
fn median_not_full() {
    let mut remedian = RemedianBlock::default();

    for v in load_test_data().into_iter() {
        remedian.add_sample_point(v);
    }

    assert!((remedian.median_or_default() - EXPECTED_MEDIAN).abs() < MEDIAN_ERROR_LIMIT);
}

#[test]
fn median_full() {
    let mut remedian = RemedianBlock::new(11, 3);

    for v in load_test_data().into_iter() {
        remedian.add_sample_point(v);
    }

    assert!((remedian.median_or_default() - EXPECTED_MEDIAN).abs() < MEDIAN_ERROR_LIMIT);
}

#[test]
fn locked_not_full() {
    let mut remedian = RemedianBlock::default();

    for v in load_test_data().into_iter() {
        remedian.add_sample_point(v);
    }

    assert!(!remedian.locked());
}

#[test]
fn locked_full() {
    let mut remedian = RemedianBlock::new(11, 3);

    for v in load_test_data().into_iter() {
        remedian.add_sample_point(v);
    }

    assert!(remedian.locked());
}

#[test]
fn count_not_full() {
    let mut remedian = RemedianBlock::default();

    for v in load_test_data().into_iter() {
        remedian.add_sample_point(v);
    }

    assert_eq!(remedian.count(), 2000);
}

#[test]
fn count_full() {
    let mut remedian = RemedianBlock::new(11, 3);

    for v in load_test_data().into_iter() {
        remedian.add_sample_point(v);
    }

    assert_eq!(remedian.count(), 1331);
}

#[test]
fn no_data() {
    let remedian = RemedianBlock::<f32>::default();
    assert_eq!(remedian.median(), None);
    assert_eq!(remedian.count(), 0);
    assert!(!remedian.locked())
}

#[test]
fn one_data() {
    let mut remedian = RemedianBlock::default();
    remedian.add_sample_point(10.);

    assert_eq!(remedian.median(), Some(10.));
    assert_eq!(remedian.count(), 1);
    assert!(!remedian.locked())
}

#[test]
fn exact_estimates_of_the_mixed_data() {
    let mut open = RemedianBlock::default();
    let mut full = RemedianBlock::new(11, 3);
    for v in load_test_data().into_iter() {
        open.add_sample_point(v);
        full.add_sample_point(v);
    }
    assert_eq!(open.median(), Some(501.0));
    assert_eq!(full.median(), Some(501.0));
}

#[test]
fn fifteen_values_in_a_block_of_base_5() {
    let data: [f32; 15] = [
        18.6, 83.1, 21.5, 21.4, 63.4, 64.1, 4.6, 92.7, 31.1, 94.8, 2.4, 44.5, 70.0, 17.1, 61.0,
    ];
    let mut remedian = RemedianBlock::new(5, 4);
    let mut fed: u64 = 0;
    for v in data {
        assert!(remedian.add_sample_point(v));
        fed += 1;
        assert_eq!(remedian.count(), fed);
        assert!(!remedian.locked());
    }
    assert_eq!(remedian.count(), 15);
    assert!((remedian.median_or_default() - 44.5).abs() < 0.001);
    assert_eq!(remedian.median(), Some(44.5));
}

#[test]
fn fifteen_values_in_the_default_block() {
    let data: [f32; 15] = [
        18.6, 83.1, 21.5, 21.4, 63.4, 64.1, 4.6, 92.7, 31.1, 94.8, 2.4, 44.5, 70.0, 17.1, 61.0,
    ];
    let mut remedian = RemedianBlock::default();
    for v in data {
        remedian.add_sample_point(v);
    }
    assert_eq!(remedian.count(), 15);
    assert_eq!(remedian.median(), Some(31.1));
}

#[test]
fn every_step_of_a_block_of_27() {
    // (accepted, count, locked, median) after each of 30 values
    let expected: [(bool, u64, bool, u32); 30] = [
        (true, 1, false, 0),
        (true, 2, false, 0),
        (true, 3, false, 5),
        (true, 4, false, 5),
        (true, 5, false, 5),
        (true, 6, false, 5),
        (true, 7, false, 5),
        (true, 8, false, 5),
        (true, 9, false, 8),
        (true, 10, false, 8),
        (true, 11, false, 8),
        (true, 12, false, 8),
        (true, 13, false, 8),
        (true, 14, false, 8),
        (true, 15, false, 8),
        (true, 16, false, 8),
        (true, 17, false, 8),
        (true, 18, false, 8),
        (true, 19, false, 8),
        (true, 20, false, 9),
        (true, 21, false, 14),
        (true, 22, false, 14),
        (true, 23, false, 14),
        (true, 24, false, 8),
        (true, 25, false, 8),
        (true, 26, false, 12),
        (true, 27, true, 14),
        (false, 27, true, 14),
        (false, 27, true, 14),
        (false, 27, true, 14),
    ];
    let mut remedian = RemedianBlock::new(3, 3);
    for i in 0..30u32 {
        let accepted = remedian.add_sample_point((i * 5) % 27);
        let (want_accepted, want_count, want_locked, want_median) = expected[i as usize];
        assert_eq!(accepted, want_accepted);
        assert_eq!(remedian.count(), want_count);
        assert_eq!(remedian.locked(), want_locked);
        assert_eq!(remedian.median(), Some(want_median));
    }
}

#[test]
fn a_carried_value_weighs_the_base() {
    // 1, 2, 3 fill level 0: their middle value 2 goes up and stands for three
    // samples. With 4 in level 0 the count is 4, and half of it is reached at 2.
    let mut remedian = RemedianBlock::new(3, 3);
    for v in [1u64, 2, 3, 4] {
        remedian.add_sample_point(v);
    }
    assert_eq!(remedian.count(), 4);
    assert_eq!(remedian.median(), Some(2));
}

#[test]
fn two_values_report_the_lesser() {
    let mut remedian = RemedianBlock::new(3, 2);
    remedian.add_sample_point(5u8);
    remedian.add_sample_point(1u8);
    assert_eq!(remedian.median(), Some(1));
}

#[test]
fn an_even_base_takes_the_upper_middle() {
    let mut remedian = RemedianBlock::new(4, 2);
    let data = [4, 3, 2, 1, 8, 7, 6, 5, 1, 1, 1, 1, 9, 9, 9, 9, 5];
    let mut reports = Vec::new();
    for v in data {
        let accepted = remedian.add_sample_point(v);
        reports.push((accepted, remedian.median()));
    }
    assert_eq!(reports[3], (true, Some(3)));
    assert_eq!(reports[14], (true, Some(3)));
    assert_eq!(reports[15], (true, Some(7)));
    assert_eq!(reports[16], (false, Some(7)));
    assert_eq!(remedian.count(), 16);
    assert!(remedian.locked());
}

#[test]
fn a_base_of_one_locks_at_the_first_value() {
    let mut remedian = RemedianBlock::new(1, 3);
    assert!(remedian.add_sample_point(42));
    assert!(remedian.locked());
    assert_eq!(remedian.count(), 1);
    assert_eq!(remedian.median(), Some(42));
    assert!(!remedian.add_sample_point(43));
    assert_eq!(remedian.count(), 1);
    assert_eq!(remedian.median(), Some(42));
}

#[test]
fn a_single_level_reports_its_sorted_middle() {
    let mut remedian = RemedianBlock::new(5, 1);
    let mut medians = Vec::new();
    for v in [50, 10, 40, 20, 30, 60] {
        remedian.add_sample_point(v);
        medians.push(remedian.median());
    }
    assert_eq!(
        medians,
        vec![Some(50), Some(10), Some(10), Some(20), Some(30), Some(30)]
    );
    assert!(remedian.locked());
    assert_eq!(remedian.count(), 5);
}

#[test]
fn values_that_only_clone() {
    let mut remedian = RemedianBlock::new(3, 2);
    let mut medians = Vec::new();
    for v in ["pear", "apple", "fig", "kiwi"] {
        remedian.add_sample_point(String::from(v));
        medians.push(remedian.median().unwrap());
    }
    assert_eq!(medians, vec!["pear", "apple", "fig", "fig"]);
    assert_eq!(remedian.median_or_default(), "fig");
}

#[derive(Debug, Clone, Copy, PartialEq, Eq, PartialOrd, Ord)]
enum Class {
    Low,
    Medium,
    High,
    VeryHigh,
}

impl Default for Class {
    fn default() -> Self {
        Class::Low
    }
}

#[test]
fn ranks_of_a_type_of_the_caller() {
    let data = [
        Class::Medium,
        Class::Low,
        Class::High,
        Class::Medium,
        Class::Low,
        Class::Medium,
        Class::VeryHigh,
        Class::Medium,
        Class::High,
        Class::Low,
        Class::Medium,
        Class::VeryHigh,
        Class::High,
        Class::High,
        Class::Low,
    ];
    let mut remedian = RemedianBlock::default();
    assert_eq!(remedian.median_or_default(), Class::Low);
    for v in data {
        remedian.add_sample_point(v);
    }
    assert_eq!(remedian.median_or_default(), Class::Medium);
}

#[test]
fn values_that_cannot_be_compared_rank_as_equal() {
    let mut remedian = RemedianBlock::new(3, 2);
    for v in [f64::NAN, 1.0, f64::NAN, 2.0, f64::NAN, f64::NAN, 3.0, f64::NAN, f64::NAN] {
        assert!(remedian.add_sample_point(v));
        assert!(remedian.median().is_some());
    }
    assert!(remedian.locked());
    assert_eq!(remedian.count(), 9);
    assert!(!remedian.add_sample_point(4.0));

    let mut all_nan = RemedianBlock::new(3, 2);
    for _ in 0..9 {
        all_nan.add_sample_point(f32::NAN);
    }
    assert!(all_nan.locked());
    assert!(all_nan.median().unwrap().is_nan());
}

#[test]
fn a_copy_goes_its_own_way() {
    let mut first = RemedianBlock::new(3, 2);
    first.add_sample_point(7);
    let mut second = first.clone();
    second.add_sample_point(1);
    assert_eq!(first.count(), 1);
    assert_eq!(first.median(), Some(7));
    assert_eq!(second.count(), 2);
    assert_eq!(second.median(), Some(1));
}

#[test]
fn the_warning_is_for_even_bases() {
    assert!(remedian::is_even_base(0));
    assert!(!remedian::is_even_base(1));
    assert!(remedian::is_even_base(10));
    assert!(!remedian::is_even_base(11));
    assert!(!remedian::is_even_base(usize::MAX));
}
