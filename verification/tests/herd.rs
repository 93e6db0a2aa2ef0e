use herd::motion::{gathering, HEALTH_MAX};
use herd::pattern::Pattern;
use herd::region::Region;
use herd::rng::SEED;
use herd::sim::{mix, occupancy, Herd, Occupancy};
use herd::units::Pos3;
use herd::world::{world, World};

fn at(hz: u32) -> World {
    world(hz).expect("a world")
}

/// Steps a herd from its first tick, as far as that.
fn run(herd: &mut Herd, ticks: u32) -> Region {
    let mut w = Region::new(0);
    for tick in 0..ticks {
        w.begin(tick);
        assert!(herd.ready(&w), "tick {tick} cannot be stepped");
        herd.step(&mut w);
    }
    w
}

/// Where everyone alive is, weighed by id so that no two can be exchanged.
fn weigh(w: &Region) -> (u64, u64) {
    let (mut x, mut y) = (0u64, 0u64);
    for i in 0..w.id_space() {
        if w.contains(i as u32) {
            x += w.x(i) as u64 * (i as u64 + 1);
            y += w.y(i) as u64 * (i as u64 + 1);
        }
    }
    (x, y)
}

/// One figure for each thing a run leaves behind.
fn figures(pattern: Pattern) -> (usize, usize, u64, u64, u64, u64, usize) {
    let mut herd = Herd::new(&at(20), 1_500, SEED, 3_000, pattern);
    let w = run(&mut herd, 700);
    let (x, y) = weigh(&w);
    assert_eq!(w.entity_count(), 1_500, "the spawner keeps up with the deaths");
    assert_eq!(herd.slots(), w.id_space());
    (
        herd.residents().len(),
        herd.slots(),
        herd.deaths(),
        herd.births(),
        x,
        y,
        occupancy(&herd).max,
    )
}

#[test]
fn the_world_alternates_between_gathering_and_dispersing() {
    // Every entity sees the same phase at the same tick, which is what
    // makes crowd sizes repeat from one cycle to the next.
    assert!(gathering(0, 10));
    assert!(gathering(9, 10));
    assert!(!gathering(10, 10));
    assert!(!gathering(19, 10));
    assert!(gathering(20, 10));
}

#[test]
fn a_run_of_a_plausible_world_comes_out_the_same() {
    let got = figures(Pattern::Herd);
    assert_eq!(got, (783, 1_867, 367, 367, 3_222_129_763_467, 2_785_035_923_291, 67));
}

#[test]
fn a_run_of_a_flash_crowd_comes_out_the_same() {
    let got = figures(Pattern::Flash);
    assert_eq!(got, (1_132, 1_841, 341, 341, 3_344_941_800_581, 3_370_727_546_777, 172));
}

#[test]
fn a_run_of_flapping_comes_out_the_same() {
    let got = figures(Pattern::Flap);
    assert_eq!(got, (1_168, 1_873, 373, 373, 3_242_529_165_407, 2_732_787_978_628, 78));
}

#[test]
fn a_run_of_thrashing_comes_out_the_same() {
    let got = figures(Pattern::Thrash);
    assert_eq!(got, (1_145, 1_841, 341, 341, 3_165_359_308_031, 2_729_157_350_506, 94));
}

#[test]
fn a_run_of_teleporting_comes_out_the_same() {
    let got = figures(Pattern::Teleport);
    assert_eq!(got, (1_158, 1_873, 373, 373, 3_083_411_959_623, 2_858_033_772_255, 75));
}

#[test]
fn a_run_of_culling_comes_out_the_same() {
    let got = figures(Pattern::Cull);
    assert_eq!(got, (1_310, 2_236, 736, 736, 4_038_764_473_129, 3_581_538_277_913, 90));
}

#[test]
fn a_slow_world_goes_through_its_phases() {
    let mut herd = Herd::new(&at(1), 400, 5, 900, Pattern::Herd);
    let w = run(&mut herd, 900);
    assert_eq!((herd.residents().len(), herd.slots()), (343, 844));
    assert_eq!((herd.deaths(), herd.births()), (444, 444));
    assert_eq!(weigh(&w), (523_479_917_952, 534_932_428_069));
    assert_eq!(occupancy(&herd), Occupancy { max: 26 });
}

#[test]
fn a_crush_thins_a_crowd_toward_its_threshold() {
    let mut herd = Herd::new(&at(2), 600, 7, 100_000, Pattern::Flash);
    herd.set_crowd_threshold(50);
    herd.set_damage_divisor(1);
    let w = run(&mut herd, 600);
    assert_eq!((herd.deaths(), herd.births()), (308, 308));
    assert_eq!(weigh(&w), (649_363_372_792, 570_194_185_896));
    assert_eq!(occupancy(&herd).max, 62);
}

#[test]
fn a_population_waits_and_then_lands_with_ids_from_zero() {
    let mut herd = Herd::new(&at(20), 3, SEED, 48_000, Pattern::Herd);
    assert!(herd.waiting());
    let w = run(&mut herd, 1);
    assert!(!herd.waiting());
    assert_eq!(w.id_space(), 3);
    assert_eq!(w.position(0), Pos3 { x: 2_728_663, y: 2_789_817, z: 81_665 });
    assert_eq!(w.position(1), Pos3 { x: 1_874_159, y: 2_884_501, z: 17_777 });
    assert_eq!(w.position(2), Pos3 { x: 912_510, y: 605_844, z: 682_059 });
    assert!((0..3).all(|id| w.contains(id)));
    assert_eq!(herd.residents(), &vec![2]);
}

#[test]
fn a_resident_starts_at_home_and_knows_where_it_goes() {
    // An idler: 0.2 m a second is 204 units, and a tick is a twentieth of it.
    let herd = Herd::new(&at(20), 3, SEED, 48_000, Pattern::Herd);
    let m = herd.mind(2);
    assert_eq!(m.speed, 10);
    assert_eq!(m.horizon, 12_000);
    assert_eq!(m.home, Some(5));
    assert_eq!((m.dest.x, m.dest.y), (915_483, 511_451));
    assert_eq!((m.vel_x, m.vel_y), (0, -9));
    assert_eq!(m.dwell, 1_175);
    assert_eq!(m.dies_at, 1_628);
    assert_eq!(m.health, HEALTH_MAX);
    // The other two never move, so they belong nowhere.
    assert_eq!((herd.mind(0).speed, herd.mind(0).home), (0, None));
    assert_eq!((herd.mind(1).speed, herd.mind(1).home), (0, None));
}

#[test]
fn what_an_edge_spawned_is_left_where_it_was_put() {
    let mut herd = Herd::new(&at(20), 50, SEED, 100_000, Pattern::Herd);
    let mut w = run(&mut herd, 1);
    let spot = Pos3 { x: 77, y: -9_000, z: 5 };
    w.begin(1);
    let id = w.spawn(spot);
    assert_eq!(id, 50);
    for tick in 1..200 {
        w.begin(tick);
        assert!(herd.ready(&w));
        herd.step(&mut w);
        assert_eq!(w.position(50), spot);
    }
    let m = herd.mind(50);
    assert!(!m.mine && m.home.is_none() && m.speed == 0);
    assert_eq!(m.dies_at, u32::MAX);
}

#[test]
fn homes_and_speeds_never_change() {
    let mut herd = Herd::new(&at(1), 200, 11, 500, Pattern::Herd);
    let before: Vec<_> = (0..200).map(|i| herd.mind(i)).collect();
    run(&mut herd, 400);
    for (i, was) in before.iter().enumerate() {
        let now = herd.mind(i);
        assert_eq!((now.home, now.speed, now.dies_at), (was.home, was.speed, was.dies_at));
    }
}

#[test]
fn the_dead_are_named_once_and_stay_dead() {
    let mut herd = Herd::new(&at(20), 300, 3, 60, Pattern::Herd);
    let mut w = Region::new(0);
    let mut gone: Vec<u32> = Vec::new();
    for tick in 0..120 {
        w.begin(tick);
        herd.step(&mut w);
        let dead = w.despawned().clone();
        assert!(dead.windows(2).all(|p| p[0] < p[1]), "in order of id");
        for id in dead {
            assert!(!gone.contains(&id), "{id} died twice");
            gone.push(id);
        }
        assert!(gone.iter().all(|id| !w.contains(*id)));
    }
    assert_eq!(gone.len() as u64, herd.deaths());
    assert!(gone.len() > 300, "a lifespan of three seconds goes by twice");
}

#[test]
fn a_die_off_refills_a_few_at_a_time() {
    // A lifespan of one tick: everyone is due on the first tick after landing.
    let mut herd = Herd::new(&at(20), 1_000, 9, 1, Pattern::Herd);
    let mut w = run(&mut herd, 1);
    w.begin(1);
    herd.step(&mut w);
    assert_eq!(herd.deaths(), 1_000);
    assert_eq!(herd.births(), 64);
    assert_eq!(w.entity_count(), 64);
    assert_eq!(w.id_space(), 1_064);
}

#[test]
fn flapping_crosses_a_cell_boundary_every_tick() {
    let world = at(20);
    let mut herd = Herd::new(&world, 400, SEED, 1_000_000, Pattern::Flap);
    let mut w = run(&mut herd, 1);
    let cells = |w: &Region| -> Vec<i32> {
        (0..400).map(|i| w.x(i) / world.cell_size).collect()
    };
    let last = world.cells_per_axis as i32 - 1;
    let mut was = cells(&w);
    let mut crossings = 0;
    for tick in 1..6 {
        w.begin(tick);
        herd.step(&mut w);
        let now = cells(&w);
        for i in 0..400 {
            if herd.mind(i).speed > 0 && was[i].min(now[i]) < last {
                assert_eq!((was[i] - now[i]).abs(), 1, "{i} stayed in its cell");
                crossings += 1;
            }
        }
        was = now;
    }
    assert!(crossings > 1_000);
}

#[test]
fn a_herd_refuses_to_step_over_what_it_cannot_move() {
    let mut herd = Herd::new(&at(20), 10, SEED, 1_000, Pattern::Herd);
    let mut w = Region::new(0);
    w.spawn(Pos3 { x: 0, y: 0, z: 0 });
    assert!(!herd.ready(&w), "the population lands in an empty region");
    let mut w = run(&mut herd, 1);
    let mover = (0..10).find(|i| herd.mind(*i).speed > 0).expect("something moves");
    w.move_to(mover, i32::MAX, 0);
    assert!(!herd.ready(&w));
    w.despawn(mover as u32);
    assert!(herd.ready(&w), "the dead are not moved");
    assert!(!herd.ready(&Region::new(1)), "the slots have gone");
}

#[test]
fn clients_are_attached_to_residents() {
    let herd = Herd::new(&at(20), 500, SEED, 1_000, Pattern::Herd);
    let all = herd.residents().clone();
    assert!(all.len() > 100);
    assert_eq!(herd.avatars(7), all[..7].to_vec());
    assert_eq!(herd.avatars(100_000), all);
    assert!(herd.avatars(0).is_empty());
    assert!(all.iter().all(|id| herd.mind(*id as usize).home.is_some()));
}

#[test]
fn the_mix_fills_a_hundred() {
    assert_eq!(
        mix(),
        vec![(35, 0, 0), (25, 0, 200), (25, 1, 500), (10, 6, 0), (5, 30, 0)]
    );
    assert_eq!(mix().iter().map(|c| c.0).sum::<u32>(), 100);
}

#[test]
fn a_region_gives_ids_in_order_and_forgets_only_the_dead() {
    let mut w = Region::new(4);
    assert_eq!((w.tick(), w.id_space(), w.entity_count()), (4, 0, 0));
    assert_eq!(w.spawn(Pos3 { x: 1, y: 2, z: 3 }), 0);
    assert_eq!(w.spawn(Pos3 { x: 4, y: 5, z: 6 }), 1);
    w.move_to(1, -7, 8);
    assert_eq!(w.position(1), Pos3 { x: -7, y: 8, z: 6 });
    w.despawn(0);
    w.despawn(0);
    assert_eq!(w.despawned(), &vec![0]);
    assert_eq!((w.id_space(), w.entity_count()), (2, 1));
    assert!(!w.contains(0) && w.contains(1) && !w.contains(2));
    w.begin(5);
    assert_eq!(w.tick(), 5);
    assert!(w.despawned().is_empty());
}

/// How far apart destinations are, on the wider axis.
fn spread_of(dests: &[(i32, i32)]) -> i32 {
    let (mut x, mut y) = ((i32::MAX, i32::MIN), (i32::MAX, i32::MIN));
    for d in dests {
        x = (x.0.min(d.0), x.1.max(d.0));
        y = (y.0.min(d.1), y.1.max(d.1));
    }
    (x.1 - x.0).max(y.1 - y.0)
}

#[test]
fn a_change_of_phase_reaches_everyone_in_one_tick() {
    let mut herd = Herd::new(&at(1), 300, 9, 100_000, Pattern::Herd);
    let mut w = Region::new(0);
    for tick in 0..=180 {
        w.begin(tick);
        herd.step(&mut w);
        let moving = (0..herd.slots()).filter(|&i| herd.mind(i).speed > 0);
        let gathering = moving.clone().filter(|&i| herd.mind(i).phase_at).count();
        assert!(moving.clone().count() > 100);
        let expected = if tick < 180 { moving.count() } else { 0 };
        assert_eq!(gathering, expected, "at tick {tick}");
    }
}

#[test]
fn residents_of_one_place_gather_there_and_spread_around_it() {
    for (ticks, reach) in [(100u32, 64), (300, 256)] {
        let mut herd = Herd::new(&at(1), 600, 11, 100_000, Pattern::Herd);
        run(&mut herd, ticks);
        for home in 0..8u8 {
            let dests: Vec<(i32, i32)> = (0..herd.slots())
                .map(|i| herd.mind(i))
                .filter(|m| m.home == Some(home))
                .map(|m| (m.dest.x, m.dest.y))
                .collect();
            assert!(dests.len() > 10);
            let wide = spread_of(&dests);
            assert!(wide <= 2 * reach * 1024, "{wide} around place {home}");
            assert!(wide > reach * 1024 / 2, "{wide} around place {home}");
        }
    }
}

#[test]
fn a_flash_crowd_is_sent_to_one_place() {
    let mut herd = Herd::new(&at(20), 600, 11, 100_000, Pattern::Flash);
    run(&mut herd, 50);
    let dests: Vec<(i32, i32)> = (0..herd.slots())
        .map(|i| herd.mind(i))
        .filter(|m| m.speed > 0)
        .map(|m| (m.dest.x, m.dest.y))
        .collect();
    assert!(dests.len() > 300);
    assert!(spread_of(&dests) <= 128 * 1024);
}

#[test]
fn only_what_moves_has_a_home() {
    for pattern in [Pattern::Herd, Pattern::Flap, Pattern::Cull] {
        let mut herd = Herd::new(&at(20), 800, 3, 400, pattern);
        run(&mut herd, 300);
        assert!(herd.births() > 0);
        for i in 0..herd.slots() {
            let m = herd.mind(i);
            assert!(m.home.is_none() || m.speed > 0, "{i} is pinned to a place");
        }
    }
}

#[test]
fn a_run_comes_of_its_seed() {
    let weighed = |seed: u64| {
        let mut herd = Herd::new(&at(20), 300, seed, 3_000, Pattern::Herd);
        weigh(&run(&mut herd, 100))
    };
    assert_eq!(weighed(40), weighed(40));
    assert_eq!(weighed(40), weighed(41), "an even seed has the run of the odd one above");
    assert_ne!(weighed(40), weighed(42));
}

#[test]
fn a_crush_beyond_what_health_can_hold_still_hurts() {
    // Forty thousand over the threshold, at a point of health each, is more than
    // the worst health is below the best.
    let mut herd = Herd::new(&at(1), 1, SEED, 100_000, Pattern::Herd);
    herd.set_crowd_threshold(10);
    herd.set_damage_divisor(1);
    let mut w = run(&mut herd, 1);
    w.begin(1);
    for _ in 0..40_000 {
        w.spawn(Pos3 { x: 2_000_000, y: 2_000_000, z: 0 });
    }
    herd.step(&mut w);
    assert!(herd.deaths() >= 40_000);
    assert!(!w.contains(1) && !w.contains(40_000));
}

#[test]
fn adopting_leaves_what_was_there() {
    let mut herd = Herd::new(&at(20), 5, SEED, 100_000, Pattern::Herd);
    let mut w = run(&mut herd, 1);
    w.begin(1);
    for _ in 0..3 {
        w.spawn(Pos3 { x: 9, y: 9, z: 9 });
    }
    herd.step(&mut w);
    assert_eq!(herd.slots(), 8);
    for i in 5..8 {
        let m = herd.mind(i);
        assert!(!m.mine && m.home.is_none());
        assert_eq!((m.speed, m.health, m.dies_at), (0, HEALTH_MAX, u32::MAX));
    }
    assert!((0..5).all(|i| herd.mind(i).mine));
}

#[test]
fn the_list_of_residents_is_exact() {
    for pattern in [Pattern::Herd, Pattern::Flash] {
        let mut herd = Herd::new(&at(20), 300, 3, 200, pattern);
        run(&mut herd, 300);
        assert!(herd.births() > 100);
        let with_homes: Vec<u32> =
            (0..herd.slots()).filter(|i| herd.mind(*i).home.is_some()).map(|i| i as u32).collect();
        assert_eq!(herd.residents(), &with_homes);
    }
}

#[test]
fn two_flaps_come_back() {
    let mut herd = Herd::new(&at(20), 200, SEED, 1_000_000, Pattern::Flap);
    let mut w = run(&mut herd, 1);
    for round in 0..3u32 {
        let before: Vec<_> = (0..200).map(|i| (w.position(i), herd.mind(i).phase_at)).collect();
        w.begin(2 * round + 1);
        herd.step(&mut w);
        for i in (0..200).filter(|i| herd.mind(*i).speed > 0) {
            let step = if before[i].1 { 2_048 } else { -2_048 };
            assert_eq!((w.x(i) - before[i].0.x, w.y(i)), (step, before[i].0.y));
        }
        w.begin(2 * round + 2);
        herd.step(&mut w);
        let after: Vec<_> = (0..200).map(|i| (w.position(i), herd.mind(i).phase_at)).collect();
        assert_eq!(before, after);
    }
}

#[test]
fn a_lifespan_of_most_of_the_clock_can_be_lived() {
    let mut herd = Herd::new(&at(20), 20, SEED, u32::MAX, Pattern::Herd);
    let w = run(&mut herd, 50);
    assert_eq!((w.entity_count(), herd.deaths()), (20, 0));
}
