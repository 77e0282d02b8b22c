use remedian::RemedianBlock;
use std::cmp::Ordering;

/// The remedian written down plainly, with the sort of slices.
struct Plain {
    base: usize,
    exponent: usize,
    count: u64,
    scratch: Vec<Vec<i64>>,
    locked: bool,
}

impl Plain {
    fn new(base: usize, exponent: usize) -> Self {
        Plain { base, exponent, count: 0, scratch: vec![Vec::new(); exponent], locked: false }
    }

    fn add(&mut self, value: i64) -> bool {
        if self.locked {
            return false;
        }
        self.count += 1;
        self.scratch[0].push(value);
        for i in 0..self.exponent {
            if self.scratch[i].len() != self.base {
                break;
            }
            self.scratch[i].sort_by(|a, b| a.partial_cmp(b).unwrap_or(Ordering::Equal));
            if i == self.exponent - 1 {
                self.locked = true;
            } else {
                let middle = self.scratch[i][self.base / 2];
                self.scratch[i].clear();
                self.scratch[i + 1].push(middle);
            }
        }
        true
    }

    fn median(&self) -> Option<i64> {
        if self.locked {
            return Some(self.scratch[self.exponent - 1][self.base / 2]);
        }
        let mut weighted = Vec::new();
        for (i, batch) in self.scratch.iter().enumerate() {
            for value in batch {
                weighted.push((*value, (self.base as u64).pow(i as u32)));
            }
        }
        weighted.sort_by(|a, b| a.0.partial_cmp(&b.0).unwrap_or(Ordering::Equal));
        let mut running = 0;
        for (value, weight) in weighted {
            running += weight;
            if running >= self.count / 2 {
                return Some(value);
            }
        }
        None
    }
}

/// A stream of numbers that looks random and is the same on every run.
struct Stream(u64);

impl Stream {
    fn next(&mut self, below: u64) -> i64 {
        self.0 = self.0.wrapping_mul(6364136223846793005).wrapping_add(1442695040888963407);
        ((self.0 >> 33) % below) as i64
    }
}

#[test]
fn agrees_with_the_plain_remedian_step_by_step() {
    let shapes: [(usize, usize); 9] =
        [(1, 1), (1, 3), (2, 3), (3, 1), (3, 4), (4, 3), (5, 3), (11, 2), (11, 10)];
    let mut stream = Stream(2024);
    for (base, exponent) in shapes {
        for spread in [3u64, 50, 100_000] {
            let mut block = RemedianBlock::new(base, exponent);
            let mut plain = Plain::new(base, exponent);
            assert_eq!(block.median(), None);
            for _ in 0..400 {
                let value = stream.next(spread) - (spread as i64) / 2;
                assert_eq!(block.add_sample_point(value), plain.add(value));
                assert_eq!(block.count(), plain.count);
                assert_eq!(block.locked(), plain.locked);
                assert_eq!(block.median(), plain.median());
            }
        }
    }
}

#[test]
fn agrees_with_the_plain_remedian_on_sorted_streams() {
    for (base, exponent) in [(3usize, 5usize), (5, 4), (11, 3)] {
        let mut rising = RemedianBlock::new(base, exponent);
        let mut rising_plain = Plain::new(base, exponent);
        let mut falling = RemedianBlock::new(base, exponent);
        let mut falling_plain = Plain::new(base, exponent);
        for value in 0..1500i64 {
            assert_eq!(rising.add_sample_point(value), rising_plain.add(value));
            assert_eq!(falling.add_sample_point(-value), falling_plain.add(-value));
            assert_eq!(rising.median(), rising_plain.median());
            assert_eq!(falling.median(), falling_plain.median());
        }
        assert_eq!(rising.count(), rising_plain.count);
        assert_eq!(falling.locked(), falling_plain.locked);
    }
}
