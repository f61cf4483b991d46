use rand::rngs::StdRng;
use rand::SeedableRng;
use yut::sticks::{Sticks, THROW_OUTCOMES};

#[test]
fn all_sticks() {
    let vec = Sticks::distribution();
    for (p, s) in vec {
        println!("{} {}", usize::from(s), p as f64 / THROW_OUTCOMES as f64);
    }
}

#[test]
fn distribution_is_binomial() {
    let vec = Sticks::distribution();
    let got: Vec<(u64, usize)> = vec.iter().map(|(w, s)| (*w, usize::from(*s))).collect();
    assert_eq!(got, vec![(1, 5), (4, 1), (6, 2), (4, 3), (1, 4)]);
    let total: u64 = vec.iter().map(|(w, _)| *w).sum();
    assert_eq!(total, THROW_OUTCOMES);
    let p: f64 = vec.iter().map(|(w, _)| *w as f64 / THROW_OUTCOMES as f64).sum();
    assert!((p - 1.0).abs() < 1e-12);
}

#[test]
fn no_sticks_up_is_five() {
    assert_eq!(usize::from(Sticks::from_up_count(0)), 5);
    assert_eq!(usize::from(Sticks::from_up_count(3)), 3);
}

#[test]
fn throws_are_in_range_and_vary() {
    let mut rng = StdRng::seed_from_u64(11);
    let mut seen = [false; 6];
    for _ in 0..400 {
        let t = usize::from(Sticks::throw(&mut rng));
        assert!((1..=5).contains(&t));
        seen[t] = true;
    }
    assert!(seen[1..].iter().all(|x| *x));
}

#[test]
fn draws_count_odd_sticks() {
    assert_eq!(usize::from(Sticks::from_draws([2, 4, 6, 8])), 5);
    assert_eq!(usize::from(Sticks::from_draws([1, 4, 7, 8])), 2);
    assert_eq!(usize::from(Sticks::from_draws([3, 5, 7, 9])), 4);
    assert_eq!(usize::from(Sticks::from_draws([0, 0, u64::MAX, 0])), 1);
}
