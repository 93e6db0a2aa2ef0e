use herd::launch::{SetupError, SimOptions, Wait};
use herd::pattern::Pattern;
use herd::region::Region;
use herd::world::world;

fn read(s: &str) -> Result<SimOptions, SetupError> {
    SimOptions::from_args(&s.split_whitespace().map(str::to_string).collect())
}

fn told(s: &str) -> SimOptions {
    match read(s) {
        Ok(o) => o,
        Err(e) => panic!("{s}: {e:?}"),
    }
}

#[test]
fn a_run_told_nothing_is_a_minute_of_a_plausible_world() {
    let o = told("");
    assert_eq!((o.ticks, o.wait, o.threads), (1_200, Wait::Sleep, None));
    assert_eq!((o.entities, o.viewers), (50_000, 8_192));
    assert_eq!((o.damage, o.crowd, o.lifespan), (100, 1_500, 2_400));
    assert_eq!(o.pattern, Pattern::Herd);
    assert_eq!(o.nats, "nats://127.0.0.1:4222");
    assert_eq!((o.region, o.heartbeat, o.edge_timeout), (7, 30, 5));
    assert_eq!((o.report_every(), o.limit()), (60, Some(1_200)));
}

#[test]
fn every_option_of_a_run_is_taken() {
    let o = told(
        "99 --hold --threads 3 --entities 10 --viewers 4 --damage 5 --crowd 6 --lifespan 8 \
         --nats n --region 9 --heartbeat 11 --edge-timeout 12 --pattern thrash",
    );
    assert_eq!((o.ticks, o.wait, o.threads), (99, Wait::Hold, Some(3)));
    assert_eq!((o.entities, o.viewers, o.damage, o.crowd, o.lifespan), (10, 4, 5, 6, 8));
    assert_eq!((o.nats.as_str(), o.region, o.heartbeat, o.edge_timeout), ("n", 9, 11, 12));
    assert_eq!(o.pattern, Pattern::Thrash);
    assert_eq!(o.report_every(), 4);
    assert_eq!(told("--free-run").wait, Wait::Free);
}

#[test]
fn a_number_that_cannot_be_read_leaves_what_was_there() {
    let o = told("--entities few --viewers -1 --lifespan 4294967296 --region");
    assert_eq!((o.entities, o.viewers, o.lifespan, o.region), (50_000, 8_192, 2_400, 7));
    // Threads are left to the machine instead.
    assert_eq!(told("--threads 3 --threads many").threads, None);
    assert_eq!(told("--nats").nats, "nats://127.0.0.1:4222");
}

#[test]
fn an_option_takes_the_word_after_it_whatever_it_is() {
    let o = told("--nats --hold 5");
    assert_eq!((o.nats.as_str(), o.wait, o.ticks), ("--hold", Wait::Sleep, 5));
    let o = told("--entities --viewers 12");
    assert_eq!((o.entities, o.viewers, o.ticks), (50_000, 8_192, 12));
}

#[test]
fn a_pattern_that_is_not_one_is_refused() {
    for s in ["--pattern", "--pattern waltz", "--pattern Herd"] {
        assert_eq!(read(s).err(), Some(SetupError::Pattern), "{s}");
    }
    for (name, p) in [
        ("herd", Pattern::Herd),
        ("flash", Pattern::Flash),
        ("flap", Pattern::Flap),
        ("thrash", Pattern::Thrash),
        ("teleport", Pattern::Teleport),
        ("cull", Pattern::Cull),
    ] {
        assert_eq!(told(&format!("--pattern {name}")).pattern, p);
        assert_eq!(Pattern::parse(name), Some(p));
    }
    assert_eq!(Pattern::parse(""), None);
}

#[test]
fn a_word_that_is_no_option_and_no_number_is_refused() {
    for s in ["--creds x", "-5", "4294967296", "now"] {
        assert_eq!(read(s).err(), Some(SetupError::Usage), "{s}");
    }
    // The first thing wrong is what is said.
    assert_eq!(read("now --pattern waltz").err(), Some(SetupError::Usage));
}

#[test]
fn zero_ticks_runs_on() {
    let o = told("0 --region 7");
    assert_eq!((o.ticks, o.limit(), o.report_every()), (0, None, 1));
    assert_eq!(told("19").report_every(), 1);
    assert_eq!(told("40").report_every(), 2);
}

#[test]
fn a_herd_is_raised_with_what_the_run_was_told() {
    let w = world(20).expect("a world");
    let herd = told("--entities 30 --lifespan 10").raise(&w).expect("fits");
    assert!(herd.waiting());
    assert_eq!(herd.slots(), 30);
    assert!((0..30).all(|i| (1..=200).contains(&herd.mind(i).dies_at)));
}

#[test]
fn a_run_whose_numbers_do_not_fit_raises_nothing() {
    let w = world(20).expect("a world");
    for s in ["--lifespan 0", "--lifespan 300000000", "--entities 4294967296"] {
        assert!(told(s).raise(&w).is_none(), "{s}");
    }
    assert!(told("--entities 0").raise(&w).is_some());
    assert!(told("--entities 1 --lifespan 214748364").raise(&w).is_some());
}

#[test]
fn no_divisor_runs_until_a_cell_is_over_its_threshold() {
    let w = world(20).expect("a world");
    let sparse = told("--entities 200 --damage 0");
    let mut herd = sparse.raise(&w).expect("runs");
    let mut region = Region::new(0);
    for tick in 0..200 {
        region.begin(tick);
        assert!(herd.ready(&region));
        assert!(herd.attempt(&mut region), "no crowd reaches the threshold");
    }
    // The same run as with a divisor, since nothing was divided.
    let mut other = told("--entities 200").raise(&w).expect("runs");
    let mut beside = Region::new(0);
    for tick in 0..200 {
        beside.begin(tick);
        other.step(&mut beside);
    }
    assert_eq!(herd.deaths(), other.deaths());
    assert!((0..200).all(|i| region.position(i) == beside.position(i)));
    // With a threshold of none, the first crowd that is counted is over it.
    let mut herd = told("--entities 200 --damage 0 --crowd 0").raise(&w).expect("runs");
    let mut region = Region::new(0);
    assert!(herd.attempt(&mut region), "the first tick only spawns");
    region.begin(1);
    assert!(herd.ready(&region));
    assert!(!herd.attempt(&mut region));
    assert_eq!((herd.deaths(), region.entity_count()), (0, 200));
}

#[test]
fn no_one_needs_no_lifespan() {
    let w = world(20).expect("a world");
    let mut herd = told("--entities 0 --lifespan 0").raise(&w).expect("runs");
    let mut region = Region::new(0);
    for tick in 0..5 {
        region.begin(tick);
        assert!(herd.ready(&region));
        herd.step(&mut region);
    }
    assert_eq!((herd.births(), region.id_space()), (0, 0));
}
