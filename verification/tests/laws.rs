use remedian::RemedianBlock;

#[test]
fn capacity_of_small_blocks() {
    let shapes: [(usize, usize, u64); 5] =
        [(3, 2, 9), (2, 4, 16), (5, 2, 25), (1, 4, 1), (7, 1, 7)];
    for (base, exponent, capacity) in shapes {
        let mut remedian = RemedianBlock::new(base, exponent);
        for fed in 1..capacity {
            assert!(!remedian.locked());
            assert!(remedian.add_sample_point(fed));
            assert_eq!(remedian.count(), fed);
        }
        assert!(!remedian.locked());
        assert!(remedian.add_sample_point(capacity));
        assert!(remedian.locked());
        assert_eq!(remedian.count(), capacity);
    }
}

#[test]
fn capacity_of_a_block_of_1331() {
    let mut remedian = RemedianBlock::new(11, 3);
    for v in 0..1330u32 {
        assert!(remedian.add_sample_point(v));
    }
    assert!(!remedian.locked());
    assert_eq!(remedian.count(), 1330);
    assert!(remedian.add_sample_point(1330));
    assert!(remedian.locked());
    assert_eq!(remedian.count(), 1331);
}

#[test]
fn a_locked_block_takes_nothing_in() {
    let mut remedian = RemedianBlock::new(3, 2);
    for v in [5, 1, 9, 2, 8, 3, 7, 4, 6] {
        assert!(remedian.add_sample_point(v));
    }
    assert!(remedian.locked());
    assert_eq!(remedian.count(), 9);
    assert_eq!(remedian.median(), Some(5));
    for v in [0, 100, 5, -3] {
        assert!(!remedian.add_sample_point(v));
        assert!(remedian.locked());
        assert_eq!(remedian.count(), 9);
        assert_eq!(remedian.median(), Some(5));
        assert_eq!(remedian.median_or_default(), 5);
    }
}

#[test]
fn a_fresh_block_reports_nothing() {
    let remedian = RemedianBlock::<i64>::new(5, 4);
    assert_eq!(remedian.count(), 0);
    assert!(!remedian.locked());
    assert_eq!(remedian.median(), None);
    assert_eq!(remedian.median_or_default(), 0);

    let words = RemedianBlock::<String>::default();
    assert_eq!(words.median(), None);
    assert_eq!(words.median_or_default(), "");
}

#[test]
fn one_value_is_its_own_median() {
    for (base, exponent) in [(2usize, 1usize), (3, 1), (11, 10), (4, 3)] {
        let mut remedian = RemedianBlock::new(base, exponent);
        assert!(remedian.add_sample_point(-17));
        assert_eq!(remedian.median(), Some(-17));
        assert_eq!(remedian.median_or_default(), -17);
        assert_eq!(remedian.count(), 1);
        assert!(!remedian.locked());
    }
}

#[test]
fn the_default_block_has_base_11_and_exponent_10() {
    // eleven values fill level 0 once: the sixth in order goes up, and then
    // outweighs whatever else is held
    let mut remedian = RemedianBlock::default();
    for v in [11, 10, 9, 8, 7, 6, 5, 4, 3, 2] {
        remedian.add_sample_point(v);
    }
    assert_eq!(remedian.median(), Some(6));
    remedian.add_sample_point(1);
    assert_eq!(remedian.median(), Some(6));
    remedian.add_sample_point(0);
    assert_eq!(remedian.median(), Some(6));
    assert_eq!(remedian.count(), 12);
    assert!(!remedian.locked());
}
