use wake_word_ml::augment::{fit_to_len, time_shift, time_shift_by};
use wake_word_ml::shuffle::{shuffle, shuffle_by_draws, SeededRng};

#[test]
fn shuffle_by_draws_applies_swaps_from_the_end() {
    let mut v = vec![0, 1, 2, 3];
    // step 0 swaps 3 and 0, step 1 swaps 2 and 0, step 2 swaps 1 and 0
    shuffle_by_draws(&mut v, &vec![0, 0, 0]);
    assert_eq!(v, vec![1, 2, 3, 0]);
}

#[test]
fn shuffle_by_draws_identity_draws_keep_order() {
    let mut v = vec!['a', 'b', 'c', 'd', 'e'];
    shuffle_by_draws(&mut v, &vec![4, 3, 2, 1]);
    assert_eq!(v, vec!['a', 'b', 'c', 'd', 'e']);
}

#[test]
fn shuffle_is_a_permutation_and_reproducible() {
    let start: Vec<usize> = (0..100).collect();
    let mut a = start.clone();
    let mut b = start.clone();
    shuffle(&mut a, &mut SeededRng::new(42));
    shuffle(&mut b, &mut SeededRng::new(42));
    assert_eq!(a, b);
    assert_ne!(a, start);
    let mut sorted = a.clone();
    sorted.sort();
    assert_eq!(sorted, start);
}

#[test]
fn shuffle_of_empty_and_single() {
    let mut rng = SeededRng::new(1);
    let mut e: Vec<u8> = vec![];
    shuffle(&mut e, &mut rng);
    assert!(e.is_empty());
    let mut one = vec![7u8];
    shuffle(&mut one, &mut rng);
    assert_eq!(one, vec![7]);
}

#[test]
fn time_shift_by_rotates() {
    let s: Vec<i32> = (0..10).collect();
    // n = 10: shift = draw - 1
    assert_eq!(time_shift_by(&s, 0), vec![9, 0, 1, 2, 3, 4, 5, 6, 7, 8]);
    assert_eq!(time_shift_by(&s, 1), s);
    assert_eq!(time_shift_by(&s, 2), vec![1, 2, 3, 4, 5, 6, 7, 8, 9, 0]);
    let short = vec![5, 6, 7];
    assert_eq!(time_shift_by(&short, 0), short);
    let empty: Vec<f32> = vec![];
    assert!(time_shift_by(&empty, 0).is_empty());
}

#[test]
fn time_shift_stays_within_ten_percent() {
    let s: Vec<f32> = (0..100).map(|i| i as f32).collect();
    let mut rng = SeededRng::new(7);
    for _ in 0..20 {
        let r = time_shift(&s, &mut rng);
        assert_eq!(r.len(), 100);
        let shift = (r[0] as i64 + 100) % 100;
        let shift = if shift > 50 { shift - 100 } else { shift };
        assert!(shift.abs() <= 10);
        for i in 0..100 {
            assert_eq!(r[i] as i64, (i as i64 + shift).rem_euclid(100));
        }
    }
}

#[test]
fn fit_to_len_cuts_and_pads() {
    assert_eq!(fit_to_len(&[1.0f32, 2.0, 3.0], 5, 0.0), vec![1.0, 2.0, 3.0, 0.0, 0.0]);
    assert_eq!(fit_to_len(&[1.0f32, 2.0, 3.0], 2, 0.0), vec![1.0, 2.0]);
    assert_eq!(fit_to_len(&[1, 2], 0, 9), Vec::<i32>::new());
}

#[test]
fn every_draw_sequence_gives_its_own_order() {
    // four items: 4 * 3 * 2 = 24 draw sequences, one for each of the 24 orders
    let mut seen = std::collections::HashSet::new();
    for a in 0..=3usize {
        for b in 0..=2usize {
            for c in 0..=1usize {
                let mut v = vec!['a', 'b', 'c', 'd'];
                shuffle_by_draws(&mut v, &vec![a, b, c]);
                let mut sorted = v.clone();
                sorted.sort();
                assert_eq!(sorted, vec!['a', 'b', 'c', 'd']);
                assert!(seen.insert(v));
            }
        }
    }
    assert_eq!(seen.len(), 24);
}

#[test]
fn seeded_generator_repeats_its_draws() {
    let mut a = SeededRng::new(42);
    let mut b = SeededRng::new(42);
    let xs: Vec<usize> = (0..50).map(|i| a.upto(i)).collect();
    let ys: Vec<usize> = (0..50).map(|i| b.upto(i)).collect();
    assert_eq!(xs, ys);
    assert!(xs.iter().enumerate().all(|(i, &x)| x <= i));
    assert_eq!(xs[0], 0);
    // draws are not all zero
    assert!(xs.iter().any(|&x| x > 0));
}
