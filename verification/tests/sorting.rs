use remedian::order::precedes;
use remedian::sorting::sort_batch;
use remedian::weighted::{first_reaching, sort_weighted};

#[test]
fn precedes_is_strict() {
    assert!(precedes(&1, &2));
    assert!(!precedes(&2, &1));
    assert!(!precedes(&2, &2));
    assert!(precedes(&"a", &"b"));
}

#[test]
fn precedes_fails_where_values_cannot_be_compared() {
    assert!(!precedes(&f64::NAN, &1.0));
    assert!(!precedes(&1.0, &f64::NAN));
    assert!(!precedes(&f64::NAN, &f64::NAN));
    assert!(precedes(&1.0, &1.5));
}

#[test]
fn sort_batch_orders_values() {
    let mut batch = vec![5, 3, 9, 1, 3, 7, 0, 9];
    sort_batch(&mut batch);
    assert_eq!(batch, vec![0, 1, 3, 3, 5, 7, 9, 9]);

    let mut empty: Vec<u8> = Vec::new();
    sort_batch(&mut empty);
    assert!(empty.is_empty());

    let mut one = vec!["x"];
    sort_batch(&mut one);
    assert_eq!(one, vec!["x"]);
}

/// Ordered by `rank` alone; `tag` tells values of one rank apart.
#[derive(Debug, Clone, Copy, PartialEq)]
struct Tagged {
    rank: u8,
    tag: char,
}

impl PartialOrd for Tagged {
    fn partial_cmp(&self, other: &Self) -> Option<std::cmp::Ordering> {
        self.rank.partial_cmp(&other.rank)
    }
}

#[test]
fn sort_batch_keeps_the_order_of_values_that_rank_alike() {
    let mut batch = vec![
        Tagged { rank: 2, tag: 'a' },
        Tagged { rank: 1, tag: 'b' },
        Tagged { rank: 2, tag: 'c' },
        Tagged { rank: 1, tag: 'd' },
        Tagged { rank: 0, tag: 'e' },
        Tagged { rank: 2, tag: 'f' },
    ];
    sort_batch(&mut batch);
    let tags: String = batch.iter().map(|t| t.tag).collect();
    assert_eq!(tags, "ebdacf");
}

#[test]
fn sort_batch_agrees_with_the_stable_sort_of_slices() {
    let mut state: u32 = 12345;
    for len in 0..40usize {
        let mut batch = Vec::new();
        for _ in 0..len {
            state = state.wrapping_mul(1103515245).wrapping_add(12345);
            batch.push((state >> 16) % 10);
        }
        let mut expected = batch.clone();
        expected.sort_by(|a, b| a.partial_cmp(b).unwrap_or(std::cmp::Ordering::Equal));
        sort_batch(&mut batch);
        assert_eq!(batch, expected);
    }
}

#[test]
fn sort_weighted_orders_by_value_and_keeps_weights() {
    let values = [4.5, 1.5, 3.0, 1.5, 0.5];
    let mut entries: Vec<(&f64, u64)> = vec![
        (&values[0], 1),
        (&values[1], 3),
        (&values[2], 1),
        (&values[3], 9),
        (&values[4], 27),
    ];
    sort_weighted(&mut entries);
    let seen: Vec<(f64, u64)> = entries.iter().map(|e| (*e.0, e.1)).collect();
    assert_eq!(seen, vec![(0.5, 27), (1.5, 3), (1.5, 9), (3.0, 1), (4.5, 1)]);
}

#[test]
fn first_reaching_stops_at_the_first_sum_that_is_enough() {
    let values = [10, 20, 30, 40];
    let entries: Vec<(&i32, u64)> =
        vec![(&values[0], 1), (&values[1], 3), (&values[2], 9), (&values[3], 1)];
    assert_eq!(first_reaching(&entries, 0), Some(&10));
    assert_eq!(first_reaching(&entries, 1), Some(&10));
    assert_eq!(first_reaching(&entries, 2), Some(&20));
    assert_eq!(first_reaching(&entries, 4), Some(&20));
    assert_eq!(first_reaching(&entries, 5), Some(&30));
    assert_eq!(first_reaching(&entries, 13), Some(&30));
    assert_eq!(first_reaching(&entries, 14), Some(&40));
    assert_eq!(first_reaching(&entries, 15), None);
}

#[test]
fn first_reaching_finds_nothing_among_no_entries() {
    let entries: Vec<(&i32, u64)> = Vec::new();
    assert_eq!(first_reaching(&entries, 0), None);
    assert_eq!(first_reaching(&entries, 7), None);
}
