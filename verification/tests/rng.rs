use herd::rng::{rng_in, Rng, SEED};

#[test]
fn a_run_reproduces_from_its_seed() {
    let draw = |seed| {
        let mut rng = Rng::new(seed);
        (0..64).map(|_| rng.next_u64()).collect::<Vec<_>>()
    };
    assert_eq!(draw(SEED), draw(SEED), "the same seed must replay a run");
    assert_ne!(draw(SEED), draw(SEED + 2));
}

#[test]
fn an_even_seed_draws_the_same_run_as_the_odd_one_above_it() {
    let draw = |seed| {
        let mut rng = Rng::new(seed);
        (0..8).map(|_| rng.next_u64()).collect::<Vec<_>>()
    };
    assert_eq!(draw(2), draw(3));
}

#[test]
fn a_spread_stays_inside_its_bound() {
    let mut rng = Rng::new(SEED);
    for _ in 0..10_000 {
        let n = rng.spread(64);
        assert!((-64..=64).contains(&n), "{n} is outside the bound");
    }
}

#[test]
fn a_coordinate_comes_from_the_whole_range() {
    let mut rng = Rng::new(SEED);
    let mut seen = [0u32; 4];
    for _ in 0..1_000 {
        let v = rng_in(&mut rng, -1, 2);
        seen[(v + 1) as usize] += 1;
    }
    assert!(seen.iter().all(|n| *n > 150), "drew {seen:?}");
}

#[test]
fn a_range_of_one_value_gives_it_and_takes_a_draw() {
    let (mut a, mut b) = (Rng::new(1), Rng::new(1));
    assert_eq!(rng_in(&mut a, 5, 5), 5);
    b.next_u64();
    assert_eq!(a.next_u64(), b.next_u64());
}
