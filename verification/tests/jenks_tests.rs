use classify::{
    break_segments, get_jenks_breaks, get_jenks_breaks_seeded, get_jenks_classification,
    trial_count, ClassifyError, JenksSearch, MAX_TRIALS, MIN_TRIALS, REFERENCE_SEED,
};

fn gssd(sample: &Vec<i64>) -> f64 {
    let mut mean = 0.0;
    for value in sample {
        mean += *value as f64;
    }
    mean /= sample.len() as f64;
    let mut total = 0.0;
    for value in sample {
        total += (*value as f64 - mean) * (*value as f64 - mean);
    }
    total
}

fn gvf(breaks: &Vec<usize>, sample: &Vec<i64>) -> f64 {
    let mut tssd = 0.0;
    for (lower, upper) in break_segments(breaks, sample.len()) {
        let mut mean = 0.0;
        for j in lower..upper {
            mean += sample[j] as f64;
        }
        mean /= (upper - lower) as f64;
        for j in lower..upper {
            tssd += (sample[j] as f64 - mean) * (sample[j] as f64 - mean);
        }
    }
    1.0 - tssd / gssd(sample)
}

fn fit(breaks: &Vec<usize>, sample: &Vec<i64>) -> i64 {
    (gvf(breaks, sample) * 1.0e12) as i64
}

#[test]
fn segments_of_reference_breaks_give_reference_fit() {
    let data: Vec<i64> = vec![1, 2, 4, 5, 7, 8];
    let breaks: Vec<usize> = vec![1, 3, 4];
    assert_eq!(break_segments(&breaks, data.len()), vec![(0, 1), (1, 3), (3, 4), (4, 6)]);
    assert_eq!(gssd(&data), 37.5);
    assert_eq!(gvf(&breaks, &data), 0.9333333333333333);
}

#[test]
fn break_segments_without_breaks_is_the_whole_sample() {
    assert_eq!(break_segments(&vec![], 6), vec![(0, 6)]);
    assert_eq!(break_segments(&vec![], 0), vec![(0, 0)]);
    assert_eq!(break_segments(&vec![2], 5), vec![(0, 2), (2, 5)]);
}

#[test]
fn trial_count_is_clamped() {
    assert_eq!(trial_count(1), 10_000);
    assert_eq!(trial_count(4_400), 10_000);
    assert_eq!(trial_count(4_401), 9_997);
    assert_eq!(trial_count(10_000), 4_400);
    assert_eq!(trial_count(4_400_000), 10);
    assert_eq!(trial_count(4_400_001), 10);
    assert_eq!(trial_count(44_000_001), 10);
    assert_eq!(trial_count(usize::MAX), 10);
    assert_eq!(MIN_TRIALS, 10);
    assert_eq!(MAX_TRIALS, 10_000);
    assert_eq!(REFERENCE_SEED, 123_456_789);
}

#[test]
fn jenks_breaks_of_three_clear_groups() {
    let data: Vec<i64> = vec![1, 2, 4, 5, 7, 8];
    let breaks = get_jenks_breaks(&3, &data, fit);
    assert_eq!(breaks, vec![4, 7]);
    let data: Vec<i64> = vec![102, 1, 51, 2, 100, 50, 3, 101, 52, 2];
    let breaks = get_jenks_breaks(&3, &data, fit);
    assert_eq!(breaks, vec![50, 100]);
}

#[test]
fn jenks_breaks_are_the_same_on_every_call() {
    let data: Vec<i64> = vec![12, 7, 3, 9, 30, 31, 2, 2, 18, 44, 45, 46, 7, 21, 5];
    let first = get_jenks_breaks(&4, &data, fit);
    let second = get_jenks_breaks(&4, &data, fit);
    assert_eq!(first, second);
    let seeded = get_jenks_breaks_seeded(&4, &data, REFERENCE_SEED, fit);
    assert_eq!(first, seeded);
    let a = get_jenks_breaks_seeded(&4, &data, 99, |_, _| 0);
    let b = get_jenks_breaks_seeded(&4, &data, 99, |_, _| 0);
    assert_eq!(a, b);
}

#[test]
fn jenks_break_count_is_capped_by_distinct_values() {
    let data: Vec<i64> = vec![5, 1, 5, 9, 1, 9, 9];
    for num_bins in 0usize..8 {
        let breaks = get_jenks_breaks(&num_bins, &data, fit);
        let bins = if num_bins < 3 { num_bins } else { 3 };
        let expected = if bins >= 1 { bins - 1 } else { 0 };
        assert_eq!(breaks.len(), expected);
        for i in 0..breaks.len() {
            assert!(data.contains(&breaks[i]));
            if i > 0 {
                assert!(breaks[i - 1] < breaks[i]);
            }
        }
    }
    assert_eq!(get_jenks_breaks(&3, &data, fit), vec![5, 9]);
    assert_eq!(get_jenks_breaks(&7, &data, fit), vec![5, 9]);
}

#[test]
fn jenks_breaks_of_degenerate_inputs_are_empty() {
    let constant: Vec<i64> = vec![4, 4, 4, 4];
    assert!(get_jenks_breaks(&3, &constant, fit).is_empty());
    let empty: Vec<i64> = vec![];
    assert!(get_jenks_breaks(&3, &empty, fit).is_empty());
    let data: Vec<i64> = vec![1, 2, 3];
    assert!(get_jenks_breaks(&1, &data, fit).is_empty());
    assert!(get_jenks_breaks(&0, &data, fit).is_empty());
}

#[test]
fn jenks_classification_covers_the_data() {
    let data: Vec<i64> = vec![1, 2, 4, 5, 7, 8];
    let class = get_jenks_classification(&3, &data, fit).unwrap();
    let bins: Vec<(i64, i64, u64)> =
        class.bins.iter().map(|bin| (bin.bin_start, bin.bin_end, bin.count)).collect();
    assert_eq!(bins, vec![(1, 4, 2), (4, 7, 2), (7, 8, 2)]);
    let constant: Vec<i64> = vec![3, 3, 3];
    let class = get_jenks_classification(&4, &constant, fit).unwrap();
    let bins: Vec<(i64, i64, u64)> =
        class.bins.iter().map(|bin| (bin.bin_start, bin.bin_end, bin.count)).collect();
    assert_eq!(bins, vec![(3, 3, 3)]);
    let empty: Vec<i64> = vec![];
    let failed = get_jenks_classification(&3, &empty, fit);
    assert_eq!(failed.err(), Some(ClassifyError::EmptyDataset));
}

#[test]
fn search_sorts_the_data() {
    let data: Vec<i64> = vec![5, -1, 3, 3, 9, 0];
    let search = JenksSearch::new(2, &data, 1);
    assert_eq!(search.sorted_data(), &vec![-1, 0, 3, 3, 5, 9]);
    assert!(!search.is_finished());
    let nothing = JenksSearch::new(1, &data, 1);
    assert!(nothing.is_finished());
    assert!(nothing.break_values().is_empty());
}

#[test]
fn search_keeps_the_first_of_the_best() {
    let data: Vec<i64> = vec![10, 20, 30, 40, 50, 60, 70, 80];
    let mut search = JenksSearch::new(3, &data, 7);
    let mut handed: Vec<Vec<usize>> = vec![];
    let scores: Vec<i64> = vec![3, 9, 9, 1, 9, 2, 0, 9, 4, 8];
    let mut trials = 0;
    while let Some(candidate) = search.next_candidate() {
        assert_eq!(search.next_candidate(), Some(candidate.clone()));
        assert_eq!(candidate.len(), 2);
        assert!(1 <= candidate[0] && candidate[0] < candidate[1] && candidate[1] < 8);
        let score = scores[trials % scores.len()];
        let kept = search.record(score);
        assert_eq!(kept, trials == 0 || trials == 1);
        assert!(!search.record(100));
        handed.push(candidate);
        trials += 1;
    }
    assert_eq!(trials, trial_count(data.len()));
    assert!(search.is_finished());
    let expected: Vec<i64> = handed[1].iter().map(|at| data[*at]).collect();
    assert_eq!(search.break_values(), expected);
}

#[test]
fn search_never_cuts_between_equal_values() {
    let data: Vec<i64> = vec![1, 1, 1, 2, 2, 5, 5, 5, 5, 8, 9, 9];
    let mut search = JenksSearch::new(4, &data, 3);
    let sorted = search.sorted_data().clone();
    while let Some(candidate) = search.next_candidate() {
        assert_eq!(candidate.len(), 3);
        for at in &candidate {
            assert!(sorted[*at - 1] < sorted[*at]);
        }
        search.record(0);
    }
}
