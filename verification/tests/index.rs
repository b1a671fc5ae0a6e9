use wavelet_index::index::{Index, Match};
use wavelet_index::sample::Coefficient;
use wavelet_index::signature::{Channel, Signature};

const WEIGHTS: [[f32; 6]; 3] = [
    [5.04, 0.83, 1.01, 0.52, 0.47, 0.30],
    [19.21, 1.26, 0.44, 0.53, 0.28, 0.14],
    [34.37, 0.36, 0.45, 0.14, 0.18, 0.27],
];

/// What a test knows of a signature: the averages, and for each channel the
/// position and value of each coefficient.
#[derive(Clone)]
struct Plain {
    averages: [f32; 3],
    coefficients: [Vec<(u32, f32)>; 3],
}

impl Plain {
    /// In every channel, coefficients of the given value at
    /// `first..first + 40`.
    fn run(averages: [f32; 3], first: u32, value: f32) -> Plain {
        let list: Vec<(u32, f32)> = (first..first + 40).map(|p| (p, value)).collect();
        Plain { averages, coefficients: [list.clone(), list.clone(), list] }
    }

    fn signature(&self) -> Signature {
        let channel = |c: usize| Channel {
            average: self.averages[c].to_bits(),
            coefficients: self.coefficients[c]
                .iter()
                .map(|&(position, value)| Coefficient { bits: value.to_bits(), position })
                .collect(),
        };
        Signature::new(channel(0), channel(1), channel(2)).ok().unwrap()
    }

    /// The score of the image `stored` against the query `self`, in machine
    /// arithmetic.
    fn score(&self, stored: &Plain) -> f32 {
        let mut s = 0.0f32;
        for c in 0..3 {
            s += WEIGHTS[c][0] * (self.averages[c] - stored.averages[c]).abs();
        }
        for k in 0..40 {
            for c in 0..3 {
                let (position, value) = self.coefficients[c][k];
                if value.abs() > 0.001 {
                    let shared = stored.coefficients[c]
                        .iter()
                        .any(|&(p, v)| p == position && (v > 0.0) == (value > 0.0));
                    if shared {
                        let row = position as usize / 128;
                        let col = position as usize % 128;
                        s -= WEIGHTS[c][row.max(col).min(5)];
                    }
                }
            }
        }
        s
    }
}

fn index_of(stored: &[Plain]) -> Index {
    let mut index = Index::new();
    for (i, plain) in stored.iter().enumerate() {
        index.insert(&format!("image{}", i), &plain.signature());
    }
    index
}

fn ids(results: &[Match]) -> Vec<usize> {
    results.iter().map(|m| m.id).collect()
}

fn number(m: &Match) -> f32 {
    f32::from_bits(m.score)
}

/// Checks the results of a query against the scores in machine arithmetic.
fn check(stored: &[Plain], query: &Plain) -> Vec<Match> {
    let results = index_of(stored).rank(&query.signature());
    let mut order: Vec<usize> = (0..stored.len()).collect();
    order.sort_by(|&a, &b| query.score(&stored[a]).partial_cmp(&query.score(&stored[b])).unwrap());
    order.truncate(5);
    assert_eq!(ids(&results), order);
    for m in &results {
        assert_eq!(m.score, query.score(&stored[m.id]).to_bits());
        assert_eq!(m.path, format!("image{}", m.id));
    }
    results
}

#[test]
fn new_index_is_empty() {
    let index = Index::new();
    assert_eq!(index.len(), 0);
    assert_eq!(index.path(0), None);
    assert!(index.averages(0).is_none());
    for c in 0..3 {
        for p in [0usize, 1, 127, 128, 16383] {
            assert_eq!(index.listed(c, p, true), Some(&Vec::new()));
            assert_eq!(index.listed(c, p, false), Some(&Vec::new()));
        }
    }
    assert!(index.listed(3, 0, true).is_none());
    assert!(index.listed(0, 16384, false).is_none());
    assert!(index.rank(&Plain::run([0.0; 3], 1, 1.0).signature()).is_empty());
}

#[test]
fn insert_assigns_ids_in_order() {
    let mut index = Index::new();
    index.insert("a.jpg", &Plain::run([1.0, 2.0, 3.0], 1, 1.0).signature());
    index.insert("b.jpg", &Plain::run([4.0, 5.0, 6.0], 100, -1.0).signature());
    index.insert("a.jpg", &Plain::run([7.0, 8.0, 9.0], 1, 1.0).signature());
    assert_eq!(index.len(), 3);
    assert_eq!(index.path(0), Some("a.jpg"));
    assert_eq!(index.path(1), Some("b.jpg"));
    assert_eq!(index.path(2), Some("a.jpg"));
    assert_eq!(index.path(3), None);
    let bits = |x: [f32; 3]| x.iter().map(|v| v.to_bits()).collect::<Vec<u32>>();
    assert_eq!(index.averages(0), Some(&bits([1.0, 2.0, 3.0])));
    assert_eq!(index.averages(1), Some(&bits([4.0, 5.0, 6.0])));
    assert_eq!(index.averages(2), Some(&bits([7.0, 8.0, 9.0])));
    assert!(index.averages(3).is_none());
}

#[test]
fn insert_files_each_coefficient_under_its_sign() {
    let index = index_of(&[
        Plain::run([0.0; 3], 1, 1.0),
        Plain::run([0.0; 3], 21, -1.0),
        Plain::run([0.0; 3], 31, 2.0),
    ]);
    for c in 0..3 {
        assert_eq!(index.listed(c, 0, true), Some(&vec![]));
        assert_eq!(index.listed(c, 1, true), Some(&vec![0]));
        assert_eq!(index.listed(c, 1, false), Some(&vec![]));
        assert_eq!(index.listed(c, 25, true), Some(&vec![0]));
        assert_eq!(index.listed(c, 25, false), Some(&vec![1]));
        assert_eq!(index.listed(c, 35, true), Some(&vec![0, 2]));
        assert_eq!(index.listed(c, 35, false), Some(&vec![1]));
        assert_eq!(index.listed(c, 45, true), Some(&vec![2]));
        assert_eq!(index.listed(c, 45, false), Some(&vec![1]));
        assert_eq!(index.listed(c, 65, true), Some(&vec![2]));
        assert_eq!(index.listed(c, 65, false), Some(&vec![]));
        assert_eq!(index.listed(c, 71, true), Some(&vec![]));
    }
}

#[test]
fn insert_files_zero_and_negative_samples_as_not_positive() {
    let mut plain = Plain::run([0.0; 3], 1, 1.0);
    for c in 0..3 {
        plain.coefficients[c][0].1 = 0.0;
        plain.coefficients[c][1].1 = -0.0;
        plain.coefficients[c][2].1 = -7.0;
        plain.coefficients[c][3].1 = f32::NAN;
        plain.coefficients[c][4].1 = f32::INFINITY;
    }
    let index = index_of(&[plain]);
    for p in 1..=4 {
        assert_eq!(index.listed(0, p, false), Some(&vec![0]));
        assert_eq!(index.listed(0, p, true), Some(&vec![]));
    }
    for p in 5..=40 {
        assert_eq!(index.listed(0, p, true), Some(&vec![0]));
        assert_eq!(index.listed(0, p, false), Some(&vec![]));
    }
}

#[test]
fn a_new_image_is_listed_once_for_each_coefficient() {
    let index = index_of(&[
        Plain::run([0.0; 3], 1, 1.0),
        Plain::run([0.0; 3], 16344, -1.0),
        Plain::run([0.0; 3], 20, 1.0),
    ]);
    for id in 0..3usize {
        for c in 0..3 {
            let mut count = 0;
            for p in 0..16384 {
                let positive = index.listed(c, p, true).unwrap().contains(&id);
                let negative = index.listed(c, p, false).unwrap().contains(&id);
                assert!(!(positive && negative));
                count += positive as usize + negative as usize;
            }
            assert_eq!(count, 40);
        }
    }
}

#[test]
fn insert_leaves_earlier_images_as_they_were() {
    let mut index = Index::new();
    index.insert("a", &Plain::run([1.0, 2.0, 3.0], 1, 1.0).signature());
    let before: Vec<Vec<usize>> =
        (0..16384).map(|p| index.listed(1, p, true).unwrap().clone()).collect();
    let averages = index.averages(0).cloned();
    index.insert("b", &Plain::run([4.0, 5.0, 6.0], 30, 1.0).signature());
    for p in 0..16384 {
        let after: Vec<usize> =
            index.listed(1, p, true).unwrap().iter().copied().filter(|&id| id != 1).collect();
        assert_eq!(after, before[p]);
    }
    assert_eq!(index.path(0), Some("a"));
    assert_eq!(index.averages(0).cloned(), averages);
}

#[test]
fn score_is_the_weighted_distance_less_the_shared_weights() {
    let stored = Plain::run([100.0, 0.0, 0.0], 1, 10.0);
    let query = Plain::run([101.0, 0.0, 0.0], 1, 10.0);
    let results = check(&[stored], &query);
    assert_eq!(results.len(), 1);
    assert_eq!(results[0].path, "image0");
    // 5.04 for the averages; positions 1..=40 are in row 0, so the bin is
    // the column up to 5.
    let mut expected = 0.0f32 + 5.04 * 1.0;
    expected += 19.21 * 0.0;
    expected += 34.37 * 0.0;
    for p in 1..=40usize {
        for c in 0..3 {
            expected -= WEIGHTS[c][p.min(5)];
        }
    }
    assert_eq!(number(&results[0]), expected);
    assert!((number(&results[0]) - (5.04 - 32.03)).abs() < 0.001);
}

#[test]
fn baseline_weights_each_channel_by_its_first_bin() {
    let stored = [Plain::run([10.0, -20.0, 30.0], 1, 10.0)];
    // The query shares no position with the image.
    let score_of = |averages: [f32; 3]| number(&check(&stored, &Plain::run(averages, 5000, 10.0))[0]);
    assert_eq!(score_of([10.0, -20.0, 30.0]), 0.0);
    assert_eq!(score_of([11.0, -20.0, 30.0]), 5.04);
    assert_eq!(score_of([9.0, -20.0, 30.0]), 5.04);
    assert_eq!(score_of([10.0, -18.0, 30.0]), 19.21 * 2.0);
    assert_eq!(score_of([10.0, -20.0, 25.0]), 34.37 * 5.0);
    assert_eq!(score_of([0.0, 0.0, 0.0]), 5.04f32 * 10.0 + 19.21f32 * 20.0 + 34.37f32 * 30.0);
    assert_eq!(score_of([1.0e38, 0.0, 0.0]), f32::INFINITY);
}

#[test]
fn shared_coefficient_counts_only_with_the_same_sign() {
    let stored = [Plain::run([0.0; 3], 1, 10.0), Plain::run([0.0; 3], 1, -10.0)];
    let results = check(&stored, &Plain::run([0.0; 3], 1, -3.0));
    assert_eq!(ids(&results), vec![1, 0]);
    assert!(number(&results[0]) < -32.0);
    assert_eq!(number(&results[1]), 0.0);
}

#[test]
fn negligible_query_coefficients_are_skipped() {
    let stored = [Plain::run([0.0; 3], 1, 10.0)];
    assert_eq!(number(&check(&stored, &Plain::run([0.0; 3], 1, 0.001))[0]), 0.0);
    assert_eq!(number(&check(&stored, &Plain::run([0.0; 3], 1, 0.0))[0]), 0.0);
    assert_eq!(number(&check(&stored, &Plain::run([0.0; 3], 1, 0.0005))[0]), 0.0);
    assert!(number(&check(&stored, &Plain::run([0.0; 3], 1, 0.0010001))[0]) < -32.0);
    // What is stored with a negligible value still counts for a query that
    // is not negligible there.
    let faint = [Plain::run([0.0; 3], 1, 0.0001)];
    assert!(number(&check(&faint, &Plain::run([0.0; 3], 1, 5.0))[0]) < -32.0);
}

#[test]
fn bins_follow_row_and_column() {
    // Positions 128 * 3 + 0 .. 128 * 3 + 40: row 3, columns 0..40.
    let stored = [Plain::run([0.0; 3], 384, 10.0)];
    let results = check(&stored, &Plain::run([0.0; 3], 384, 10.0));
    let mut expected = 0.0f32;
    for col in 0..40usize {
        for c in 0..3 {
            expected -= WEIGHTS[c][col.max(3).min(5)];
        }
    }
    assert_eq!(number(&results[0]), expected);
}

#[test]
fn rank_returns_the_five_lowest_scores_in_order() {
    let averages = [70.0, 10.0, 40.0, 90.0, 20.0, 60.0, 30.0, 80.0];
    let stored: Vec<Plain> =
        averages.iter().map(|&a| Plain::run([a, 0.0, 0.0], 1000, 1.0)).collect();
    let results = check(&stored, &Plain::run([0.0; 3], 5000, 1.0));
    assert_eq!(ids(&results), vec![1, 4, 6, 2, 5]);
    let scores: Vec<f32> = results.iter().map(number).collect();
    assert_eq!(scores, vec![5.04 * 10.0, 5.04 * 20.0, 5.04 * 30.0, 5.04 * 40.0, 5.04 * 60.0]);
    let paths: Vec<&str> = results.iter().map(|m| m.path.as_str()).collect();
    assert_eq!(paths, vec!["image1", "image4", "image6", "image2", "image5"]);
}

#[test]
fn rank_returns_all_images_when_they_are_fewer_than_five() {
    let stored = [
        Plain::run([3.0, 0.0, 0.0], 1, 1.0),
        Plain::run([1.0, 0.0, 0.0], 1, 1.0),
        Plain::run([2.0, 0.0, 0.0], 1, 1.0),
    ];
    let results = check(&stored, &Plain::run([0.0; 3], 5000, 1.0));
    assert_eq!(ids(&results), vec![1, 2, 0]);
}

#[test]
fn rank_orders_negative_scores_before_positive_ones() {
    let stored = [
        Plain::run([50.0, 0.0, 0.0], 1, 1.0),
        Plain::run([0.0, 0.0, 0.0], 5000, 1.0),
        Plain::run([1.0, 0.0, 0.0], 1, 1.0),
        Plain::run([0.0, 0.0, 0.0], 1, 1.0),
    ];
    let results = check(&stored, &Plain::run([0.0; 3], 1, 1.0));
    assert_eq!(ids(&results), vec![3, 2, 1, 0]);
    assert!(number(&results[0]) < number(&results[1]));
    assert!(number(&results[1]) < 0.0);
    assert_eq!(number(&results[2]), 0.0);
    assert!(number(&results[3]) > 0.0);
}

#[test]
fn rank_does_not_change_the_index() {
    let index = index_of(&[Plain::run([3.0, 0.0, 0.0], 1, 1.0)]);
    let query = Plain::run([0.0; 3], 1, 1.0).signature();
    let first = index.rank(&query);
    let second = index.rank(&query);
    assert_eq!(ids(&first), ids(&second));
    assert_eq!(first[0].score, second[0].score);
    assert_eq!(index.len(), 1);
    assert_eq!(index.listed(0, 1, true), Some(&vec![0]));
}

#[test]
fn a_stored_image_queried_with_its_own_signature_comes_first() {
    let stored = [
        Plain::run([500.0, 500.0, 500.0], 3000, 1.0),
        Plain::run([100.0, 200.0, 300.0], 21, 4.0),
        Plain::run([100.0, 200.0, 300.0], 1, 4.0),
        Plain::run([-100.0, 0.0, 9.0], 1, -4.0),
    ];
    let results = check(&stored, &stored[2]);
    assert_eq!(results[0].id, 2);
    // Strictly below every score that shares nothing, which is never
    // negative.
    assert!(number(&results[0]) < 0.0);
    assert!(results.iter().skip(1).all(|m| number(m) > number(&results[0])));
    assert_eq!(results[1].id, 1);
}

#[test]
fn the_same_image_added_twice_ties() {
    let twin = Plain::run([100.0, 200.0, 300.0], 1, 4.0);
    let stored = [twin.clone(), Plain::run([0.0; 3], 77, 4.0), twin.clone()];
    let index = index_of(&stored);
    assert_eq!(index.averages(0), index.averages(2));
    for query in [
        twin,
        Plain::run([90.0, 0.0, 1000.0], 20, 4.0),
        Plain::run([0.0; 3], 9000, -1.0),
    ] {
        let results = check(&stored, &query);
        let first = results.iter().find(|m| m.id == 0).unwrap();
        let second = results.iter().find(|m| m.id == 2).unwrap();
        assert_eq!(first.score, second.score);
        let at = |id: usize| results.iter().position(|m| m.id == id).unwrap();
        assert!(at(0) < at(2));
    }
}

#[test]
fn an_image_that_shares_nothing_scores_its_baseline() {
    let stored: Vec<Plain> = (0..7)
        .map(|i| Plain::run([i as f32 * 10.0, i as f32, -(i as f32)], 1 + 40 * i, 1.0))
        .collect();
    let results = check(&stored, &Plain::run([35.0, 0.0, 0.0], 9000, 1.0));
    assert_eq!(results.len(), 5);
    for m in &results {
        let i = m.id as f32;
        let mut baseline = 0.0f32;
        baseline += 5.04 * (35.0 - i * 10.0).abs();
        baseline += 19.21 * i;
        baseline += 34.37 * i;
        assert_eq!(number(m), baseline);
        assert!(number(m) >= 0.0);
    }
}

#[test]
fn scores_agree_with_machine_arithmetic_on_mixed_signatures() {
    let mut state: u32 = 2024;
    let mut random = move || {
        state = state.wrapping_mul(1664525).wrapping_add(1013904223);
        state >> 8
    };
    let mut make = |spread: u32| {
        let mut plain = Plain::run([0.0; 3], 1, 1.0);
        for c in 0..3 {
            plain.averages[c] = (random() % 20000) as f32 / 7.0 - 1000.0;
            let first = 1 + random() % spread;
            for k in 0..40 {
                let value = (random() % 2000) as f32 / 100.0 - 10.0;
                plain.coefficients[c][k] = (first + 3 * k as u32, value * 0.01);
            }
        }
        plain
    };
    let stored: Vec<Plain> = (0..30).map(|_| make(60)).collect();
    for _ in 0..20 {
        let query = make(60);
        check(&stored, &query);
    }
}
