use herd::histogram::Histogram;

/// The rank of a quantile, rounded up and never zero.
fn rank(h: &Histogram, q: f64) -> u64 {
    ((h.count() as f64 * q).ceil() as u64).max(1)
}

fn quantile(h: &Histogram, q: f64) -> u64 {
    h.quantile_us(rank(h, q))
}

fn of(values: &[u64]) -> Histogram {
    let mut h = Histogram::new();
    for us in values {
        h.record(*us);
    }
    h
}

#[test]
fn a_histogram_reports_quantiles_in_order() {
    let mut h = Histogram::new();
    for us in 1..=1_000u64 {
        h.record(us);
    }
    // Log-spaced buckets, so a quantile names the bucket it landed in
    // rather than interpolating. What has to hold is the ordering and the
    // scale, not an exact value.
    let (p50, p90, p99) = (quantile(&h, 0.50), quantile(&h, 0.90), quantile(&h, 0.99));
    assert!(p50 <= p90 && p90 <= p99, "quantiles came out {p50}, {p90}, {p99}");
    assert!((256..=1_024).contains(&p50), "p50 came out at {p50}");
    assert!((512..=1_024).contains(&p99), "p99 came out at {p99}");
}

#[test]
fn one_value_lands_within_a_quarter_octave_of_itself() {
    let mut h = Histogram::new();
    h.record(1_000);
    let got = quantile(&h, 0.5);
    assert!(
        (840..=1_190).contains(&got),
        "a single 1000 us tick reported as {got}, further than a bucket away"
    );
}

#[test]
fn an_empty_histogram_has_no_quantile() {
    assert_eq!(quantile(&Histogram::new(), 0.5), 0);
}

#[test]
fn a_quantile_is_the_upper_edge_of_its_bucket() {
    // 500 is in the last quarter of 256..512, 990 in the last of 512..1024.
    let h = of(&(1..=1_000).collect::<Vec<u64>>());
    assert_eq!(quantile(&h, 0.50), 512);
    assert_eq!(quantile(&h, 0.90), 1_024);
    assert_eq!(quantile(&h, 0.70), 768);
    // The two lowest octaves are one bucket each.
    assert_eq!(of(&[0]).quantile_us(1), 2);
    assert_eq!(of(&[1]).quantile_us(1), 2);
    assert_eq!(of(&[2]).quantile_us(1), 4);
    assert_eq!(of(&[3]).quantile_us(1), 4);
    assert_eq!(of(&[4]).quantile_us(1), 5);
    assert_eq!(of(&[7]).quantile_us(1), 8);
    assert_eq!(of(&[8]).quantile_us(1), 10);
    assert_eq!(of(&[9]).quantile_us(1), 10);
    assert_eq!(of(&[10]).quantile_us(1), 12);
}

#[test]
fn a_quantile_bounds_as_many_as_its_rank() {
    let values = [3u64, 17, 17, 90, 1_000, 1_001, 65_000];
    let h = of(&values);
    for r in 1..=7u64 {
        let q = h.quantile_us(r);
        let below = values.iter().filter(|v| **v <= q).count() as u64;
        assert!(below >= r, "{below} are within {q}, which was rank {r}");
    }
}

#[test]
fn the_last_bucket_answers_with_the_longest() {
    let h = of(&[1 << 40, 1 << 50]);
    assert_eq!(h.quantile_us(1), 1 << 50);
    assert_eq!(h.quantile_us(2), 1 << 50);
    // The edge below it is seven eighths of four thousand million.
    assert_eq!(of(&[(7 << 29) - 1]).quantile_us(1), 7 << 29);
    assert_eq!(of(&[7 << 29]).quantile_us(1), 7 << 29);
    assert_eq!(of(&[u64::MAX]).quantile_us(1), u64::MAX);
}

#[test]
fn a_rank_is_never_below_one_and_past_the_end_is_the_longest() {
    let h = of(&[100, 200]);
    assert_eq!(h.quantile_us(0), h.quantile_us(1));
    assert_eq!(h.quantile_us(3), 200);
    assert_eq!(h.count(), 2);
}

#[test]
fn the_order_of_recording_does_not_matter() {
    let durations = [7u64, 1_000, 3, 0, 88, 1 << 40, 1_000, 12];
    let (mut a, mut b) = (Histogram::new(), Histogram::new());
    for us in durations {
        a.record(us);
    }
    for us in durations.iter().rev() {
        b.record(*us);
    }
    assert_eq!((a.count(), b.count()), (8, 8));
    for rank in 0..10 {
        assert_eq!(a.quantile_us(rank), b.quantile_us(rank));
    }
    assert_eq!(a.quantile_us(8), 1 << 40);
}

#[test]
fn a_longer_duration_is_in_no_lower_bucket() {
    let one = |us: u64| {
        let mut h = Histogram::new();
        h.record(us);
        h.quantile_us(1)
    };
    for us in 0..5_000 {
        assert!(one(us) <= one(us + 1), "{us}");
    }
}
