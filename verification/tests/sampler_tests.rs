use classify::{insert_break, pick_rand_breaks, pick_rand_breaks_within, ClassifyError};
use rand::rngs::StdRng;
use rand::SeedableRng;

#[test]
fn test_pick_rand_breaks() {
    let num_bins = 3;
    let mut breaks: Vec<usize> = vec![0; num_bins - 1];
    let data: Vec<i64> = vec![1, 2, 4, 5, 7, 8, 10, 11];
    let num_vals = data.len();
    let mut rng = StdRng::seed_from_u64(123456789);

    let outcome = pick_rand_breaks(&mut breaks, &num_vals, &mut rng);

    assert_eq!(outcome, Ok(()));
    assert_eq!(breaks, vec![3, 7], "pick_rand_breaks not working!");
}

#[test]
fn pick_rand_breaks_gives_distinct_ascending_positions() {
    let mut rng = StdRng::seed_from_u64(42);
    for num_vals in 1usize..12 {
        for k in 0..num_vals {
            let mut breaks: Vec<usize> = vec![0; k];
            assert_eq!(pick_rand_breaks(&mut breaks, &num_vals, &mut rng), Ok(()));
            assert_eq!(breaks.len(), k);
            for i in 0..k {
                assert!(1 <= breaks[i] && breaks[i] < num_vals);
                if i > 0 {
                    assert!(breaks[i - 1] < breaks[i]);
                }
            }
        }
    }
}

#[test]
fn pick_rand_breaks_takes_every_position_when_it_must() {
    let mut rng = StdRng::seed_from_u64(5);
    let mut breaks: Vec<usize> = vec![0; 4];
    assert_eq!(pick_rand_breaks(&mut breaks, &5, &mut rng), Ok(()));
    assert_eq!(breaks, vec![1, 2, 3, 4]);
}

#[test]
fn pick_rand_breaks_rejects_too_many_breaks() {
    let mut rng = StdRng::seed_from_u64(123456789);
    let mut breaks: Vec<usize> = vec![7, 7, 7];
    assert_eq!(pick_rand_breaks(&mut breaks, &3, &mut rng), Err(ClassifyError::InvalidBinCount));
    assert_eq!(breaks, vec![7, 7, 7]);
    let mut none: Vec<usize> = vec![];
    assert_eq!(pick_rand_breaks(&mut none, &0, &mut rng), Err(ClassifyError::InvalidBinCount));
    assert_eq!(pick_rand_breaks(&mut none, &1, &mut rng), Ok(()));
    assert!(none.is_empty());
}

#[test]
fn pick_rand_breaks_is_the_same_for_the_same_seed() {
    let mut first = StdRng::seed_from_u64(2024);
    let mut second = StdRng::seed_from_u64(2024);
    for _ in 0..50 {
        let mut a: Vec<usize> = vec![0; 5];
        let mut b: Vec<usize> = vec![0; 5];
        pick_rand_breaks(&mut a, &40, &mut first).unwrap();
        pick_rand_breaks(&mut b, &40, &mut second).unwrap();
        assert_eq!(a, b);
    }
}

#[test]
fn a_spent_draw_budget_gives_the_first_positions() {
    let mut rng = StdRng::seed_from_u64(123456789);
    let mut breaks: Vec<usize> = vec![0; 3];
    assert_eq!(pick_rand_breaks_within(&mut breaks, &9, &mut rng, 0), Ok(()));
    assert_eq!(breaks, vec![1, 2, 3]);
    let mut breaks: Vec<usize> = vec![0; 3];
    assert_eq!(pick_rand_breaks_within(&mut breaks, &9, &mut rng, 2), Ok(()));
    assert_eq!(breaks, vec![1, 2, 3]);
    let mut breaks: Vec<usize> = vec![0; 2];
    let mut again = StdRng::seed_from_u64(123456789);
    assert_eq!(pick_rand_breaks_within(&mut breaks, &8, &mut again, 1000), Ok(()));
    assert_eq!(breaks, vec![3, 7]);
}

#[test]
fn insert_break_keeps_the_order() {
    let mut breaks: Vec<usize> = vec![];
    assert!(insert_break(&mut breaks, 5));
    assert!(insert_break(&mut breaks, 2));
    assert!(insert_break(&mut breaks, 9));
    assert!(!insert_break(&mut breaks, 5));
    assert!(insert_break(&mut breaks, 6));
    assert!(!insert_break(&mut breaks, 2));
    assert!(!insert_break(&mut breaks, 9));
    assert_eq!(breaks, vec![2, 5, 6, 9]);
}
