use herd::crowd::Crowd;
use herd::edge::Game;
use herd::ids::{ClientId, EntityHandle, EntityId, RegionId};
use herd::ledger::{Ledger, Stats, Totals};
use herd::link::{Fake, FakeError, Line, Said};
use herd::reports::Reports;
use herd::session::{lane, period_ms, Session, Summary};

const HOME: RegionId = RegionId { raw: 7 };
const AWAY: RegionId = RegionId { raw: 8 };

fn session(link: &mut Line<Fake>, n: usize, away: Option<RegionId>) -> Session {
    match Crowd::new(link, HOME, away, 64, 20, n, 0) {
        Ok(crowd) => Session::new(crowd),
        Err(e) => panic!("{e:?}"),
    }
}

#[test]
fn a_pass_settles_walks_and_says_nothing_more() {
    let mut link = Line::new(Fake::new());
    let mut s = session(&mut link, 3, None);
    let mut reports = Reports::default();
    reports.saw_removed(EntityHandle { raw: 1 });
    reports.saw_packet(5);
    assert!(s.ready(2));
    assert_eq!(s.pass(&mut link, &mut reports, false, 2, 0), Ok(None));
    assert_eq!(s.crowd().len(), 2);
    let moved = vec![EntityHandle { raw: 2 }, EntityHandle { raw: 3 }];
    assert_eq!(link.other_end().said().last(), Some(&Said::Moved(moved)));
    assert_eq!(link.other_end().said().len(), 4);
    assert_eq!(reports.take_traffic(), (1, 5), "the traffic is left for the summary");
}

#[test]
fn once_a_second_a_pass_churns_migrates_and_sums_up() {
    let mut link = Line::new(Fake::new());
    let mut s = session(&mut link, 4, Some(AWAY));
    let mut reports = Reports::default();
    for n in 1..=4 {
        reports.saw_spawned(EntityHandle { raw: n }, HOME, EntityId { raw: n });
    }
    reports.saw_packet(7);
    reports.saw_packet(2);
    assert_eq!(s.pass(&mut link, &mut reports, false, 1, 1), Ok(None));
    let summary = s.pass(&mut link, &mut reports, true, 1, 1);
    // One of the four was replaced, and one of the three left with an id moved on.
    assert_eq!(
        summary,
        Ok(Some(Summary {
            holding: 4,
            with_ids: 2,
            sent: 8,
            packets: 2,
            records: 9,
            given_back: 1,
        }))
    );
    assert_eq!((s.crowd().migrated(), s.crowd().away()), (1, 1));
    let next = s.pass(&mut link, &mut reports, true, 1, 0);
    assert_eq!(
        next,
        Ok(Some(Summary {
            holding: 4,
            with_ids: 2,
            sent: 4,
            packets: 0,
            records: 0,
            given_back: 2,
        }))
    );
}

#[test]
fn a_refused_call_ends_the_session() {
    let mut link = Line::new(Fake::new());
    let mut s = session(&mut link, 2, None);
    link.link.forget(EntityHandle { raw: 2 });
    let mut reports = Reports::default();
    assert_eq!(s.pass(&mut link, &mut reports, true, 1, 0), Err(FakeError::Unknown));
}

#[test]
fn reports_are_read_once() {
    let mut r = Reports::default();
    assert!(!r.gone());
    r.saw_spawned(EntityHandle { raw: 1 }, HOME, EntityId { raw: 2 });
    r.saw_removed(EntityHandle { raw: 3 });
    r.saw_disconnected();
    assert!(r.gone());
    assert_eq!(r.take_spawned(), vec![(EntityHandle { raw: 1 }, HOME, EntityId { raw: 2 })]);
    assert_eq!(r.take_removed(), vec![EntityHandle { raw: 3 }]);
    assert!(r.take_spawned().is_empty() && r.take_removed().is_empty());
    r.saw_packet(u64::MAX);
    r.saw_packet(3);
    assert_eq!(r.take_traffic(), (2, 2), "the counts go round");
    assert_eq!(r.take_traffic(), (0, 0));
}

#[test]
fn what_was_heard_elsewhere_is_taken_over() {
    let handle = |raw| EntityHandle { raw };
    let mut here = Reports::default();
    let mut there = Reports::default();
    here.saw_removed(handle(1));
    here.saw_packet(2);
    there.saw_removed(handle(2));
    there.saw_packet(3);
    there.saw_spawned(handle(3), HOME, EntityId { raw: 4 });
    there.saw_disconnected();
    here.absorb(&mut there);
    assert_eq!(here.take_removed(), vec![handle(1), handle(2)]);
    assert_eq!(here.take_spawned(), vec![(handle(3), HOME, EntityId { raw: 4 })]);
    assert_eq!(here.take_traffic(), (2, 5));
    assert!(here.gone() && there.gone());
    assert!(there.take_removed().is_empty() && there.take_spawned().is_empty());
    assert_eq!(there.take_traffic(), (0, 0));
}

#[test]
fn clients_of_one_process_have_lanes_of_their_own() {
    assert_eq!(lane(0, 0), 64);
    assert_eq!(lane(0, 1), 7 * 60 + 64);
    assert_eq!(lane(63, 1), 6 * 60 + 64);
    let mut lanes: Vec<i32> = (0..64).map(|n| lane(4_321, n)).collect();
    lanes.sort();
    lanes.dedup();
    assert_eq!(lanes.len(), 64);
    assert_eq!((lanes[0], lanes[63]), (64, 3_844));
}

#[test]
fn a_client_sends_at_its_rate() {
    assert_eq!(period_ms(20), 50);
    assert_eq!(period_ms(0), 1_000);
    assert_eq!(period_ms(3), 333);
    assert_eq!(period_ms(2_000), 0);
}

#[test]
fn an_edge_knows_who_is_connected() {
    let c = |raw| ClientId { raw };
    let mut game = Game::new();
    game.connected(c(1));
    game.connected(c(2));
    game.connected(c(3));
    game.disconnected(c(2));
    assert_eq!(game.clients, vec![c(1), c(3)]);
    game.disconnected(c(9));
    assert_eq!(game.clients, vec![c(1), c(3)]);
}

#[test]
fn ticks_are_held_against_their_budget() {
    let served = Stats { viewers: 1, candidates: 2, records: 3, bytes: 4, subs_changed: 5 };
    let period = 50_000_000;
    let mut l = Ledger::new();
    for took in [25_000_000, 25_000_001, 37_500_000, 37_500_001, 50_000_000, 50_000_001] {
        assert!(l.has_room(&served));
        l.note(took, 0, period, &served);
    }
    assert_eq!((l.over_half, l.over_three_quarters, l.over_budget), (5, 3, 1));
    assert_eq!(l.window_worst, 50_000_001);
    assert_eq!((l.work.count(), l.late.count()), (6, 0));
    l.note(1_999, 2_500, period, &served);
    assert_eq!((l.work.quantile_us(1), l.late.quantile_us(1)), (2, 4));
    assert_eq!(
        l.totals,
        Totals { viewers: 7, candidates: 14, records: 21, bytes: 28, subs_changed: 35 }
    );
    l.report(9);
    l.report(4);
    assert_eq!((l.peak_cell, l.window_worst), (9, 0));
    let huge = Stats { bytes: u64::MAX, ..served };
    assert!(!l.has_room(&huge));
}
