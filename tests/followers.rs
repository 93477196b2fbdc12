use markov_chain::Followers;
use rand::rngs::StdRng;
use rand::{Rng, SeedableRng};

fn counter_a3_b1() -> Followers<&'static str> {
    let mut f = Followers::new();
    f.add(Some("A"));
    f.add(Some("B"));
    f.add(Some("A"));
    f.add(Some("A"));
    f
}

#[test]
fn add_counts_each_outcome() {
    let mut f = Followers::<&str>::new();
    assert_eq!(f.total(), 0);
    assert!(f.occurs().is_empty());
    assert_eq!(f.add(Some("x")).total(), 1);
    f.add(None);
    f.add(Some("x"));
    assert_eq!(f.total(), 3);
    assert_eq!(f.occurs(), &vec![(Some("x"), 2), (None, 1)]);
}

#[test]
fn draws_select_by_cumulative_count() {
    let f = counter_a3_b1();
    // Entries in order of first sight: A (3), B (1).
    assert_eq!(f.follower_at(0), &Some("A"));
    assert_eq!(f.follower_at(1), &Some("A"));
    assert_eq!(f.follower_at(2), &Some("A"));
    assert_eq!(f.follower_at(3), &Some("B"));
}

#[test]
fn each_outcome_owns_as_many_draws_as_its_count() {
    let f = counter_a3_b1();
    let mut a = 0;
    let mut b = 0;
    for r in 0..f.total() {
        match f.follower_at(r) {
            Some("A") => a += 1,
            Some("B") => b += 1,
            _ => panic!("unexpected outcome"),
        }
    }
    assert_eq!((a, b), (3, 1));
}

#[test]
fn seeded_sampling_converges_to_weights() {
    let f = counter_a3_b1();
    let mut rng = StdRng::seed_from_u64(7);
    let trials = 20000;
    let mut a = 0;
    for _ in 0..trials {
        let r: u64 = rng.gen_range(0, f.total());
        if f.follower_at(r) == &Some("A") {
            a += 1;
        }
    }
    let share = a as f64 / trials as f64;
    assert!(share > 0.73 && share < 0.77, "share of A: {}", share);
}

#[test]
fn random_follower_draws_every_outcome() {
    let f = counter_a3_b1();
    let mut a = 0;
    let mut b = 0;
    for _ in 0..4000 {
        match f.random_follower() {
            Some("A") => a += 1,
            Some("B") => b += 1,
            _ => panic!("unexpected outcome"),
        }
    }
    assert!(a > 0 && b > 0);
    let share = a as f64 / 4000.0;
    assert!(share > 0.70 && share < 0.80, "share of A: {}", share);
}

#[test]
fn end_is_drawn_like_any_outcome() {
    let mut f = Followers::<u64>::new();
    f.add(None);
    f.add(Some(5));
    assert_eq!(f.follower_at(0), &None);
    assert_eq!(f.follower_at(1), &Some(5));
}
