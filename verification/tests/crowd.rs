use herd::crowd::{Crowd, RANGE_M};
use herd::ids::{EntityHandle, EntityId, EntityKind, RegionId};
use herd::link::{Fake, FakeError, Line, Link, Said};
use herd::reports::Reports;
use herd::units::Pos3;

/// Shorthand, since every assertion in here names one.
fn h(raw: u32) -> EntityHandle {
    EntityHandle { raw }
}

const HOME: RegionId = RegionId { raw: 7 };
const AWAY: RegionId = RegionId { raw: 8 };

fn line() -> Line<Fake> {
    Line::new(Fake::new())
}

fn crowd(link: &mut Line<Fake>, n: usize, away: Option<RegionId>) -> Crowd {
    match Crowd::new(link, HOME, away, 100, 20, n, 0) {
        Ok(crowd) => crowd,
        Err(e) => panic!("asks for its population: {e:?}"),
    }
}

/// Everything the edge says about an entity, as a `Reports` would carry it.
fn confirm(crowd: &mut Crowd, handles: &[(EntityHandle, RegionId)]) {
    let mut reports = Reports::default();
    for (n, (handle, region)) in handles.iter().enumerate() {
        reports.saw_spawned(*handle, *region, EntityId { raw: n as u32 });
    }
    crowd.settle(&mut reports);
}

#[test]
fn asking_for_a_population_asks_once_each_and_holds_them_all() {
    let mut link = line();
    let crowd = crowd(&mut link, 4, None);
    assert_eq!(crowd.len(), 4);
    assert_eq!(crowd.confirmed(), 0, "no region has answered yet");
    assert_eq!(link.other_end().said().len(), 4);
    assert!(link.other_end().said().iter().all(|s| matches!(s, Said::Spawn(r, _) if *r == HOME)));
}

#[test]
fn an_entity_is_moved_before_any_region_has_named_it() {
    // A handle names an entity from the moment it is asked for. That is the
    // whole point of having one, and it hides a round trip.
    let mut link = line();
    let mut crowd = crowd(&mut link, 3, None);
    assert_eq!(crowd.confirmed(), 0);
    assert_eq!(crowd.walk(&mut link).expect("moves"), 3);
    let said = link.other_end().said();
    assert!(matches!(said.last(), Some(Said::Moved(m)) if m.len() == 3));
}

#[test]
fn walking_turns_around_at_the_edge_of_its_range() {
    let mut link = line();
    let mut crowd = crowd(&mut link, 1, None);
    // Far enough that it must have reversed at least once.
    for _ in 0..(RANGE_M as usize * 40) {
        crowd.walk(&mut link).expect("moves");
    }
    let x = crowd.held()[0].at.x >> 10;
    assert!((x - 100).abs() <= RANGE_M + 1, "walked to {x}, outside {RANGE_M} m of its lane");
}

#[test]
fn an_entity_the_edge_reports_gone_stops_being_held() {
    let mut link = line();
    let mut crowd = crowd(&mut link, 3, None);
    let mut reports = Reports::default();
    reports.saw_removed(h(2));
    crowd.settle(&mut reports);
    assert_eq!(crowd.len(), 2, "a despawn nobody asked for still removes it");
}

#[test]
fn churn_gives_some_back_and_asks_for_that_many_more() {
    let mut link = line();
    let mut crowd = crowd(&mut link, 4, None);
    assert_eq!(crowd.churn(&mut link, 2).expect("churns"), 2);
    assert_eq!(crowd.len(), 4, "as many as before, two of them new");
    let said = link.other_end().said();
    assert_eq!(said.iter().filter(|s| matches!(s, Said::Despawn(_))).count(), 2);
    assert_eq!(said.iter().filter(|s| matches!(s, Said::Spawn(..))).count(), 6);
}

#[test]
fn a_churned_entity_is_dropped_at_once_rather_than_when_the_edge_confirms() {
    // An edge forgets a handle the moment it is given back, so anything this
    // crowd did with it afterwards would name an entity that is not there.
    // Leaving them in was what made migration kill the client.
    let mut link = line();
    let mut crowd = crowd(&mut link, 4, None);
    let given_back = match link.other_end().said()[0] {
        Said::Spawn(_, handle) => handle,
        _ => unreachable!(),
    };
    crowd.churn(&mut link, 4).expect("churns");
    assert!(
        !crowd.held().iter().any(|h| h.handle == given_back),
        "an entity given back is still being held"
    );
}

#[test]
fn churn_and_migration_together_do_not_name_a_forgotten_entity() {
    // The pair that broke: churn gave entities back, migration then picked
    // one of them, and the error stopped the client.
    let mut link = line();
    let mut crowd = crowd(&mut link, 8, Some(AWAY));
    let handles: Vec<(EntityHandle, RegionId)> = (1..=8).map(|n| (h(n), HOME)).collect();
    confirm(&mut crowd, &handles);
    for _ in 0..8 {
        crowd.churn(&mut link, 3).expect("churns");
        crowd.migrate(&mut link, 3).expect("migrates without naming a ghost");
    }
}

#[test]
fn migration_walks_them_to_the_other_region_and_back() {
    let mut link = line();
    let mut crowd = crowd(&mut link, 2, Some(AWAY));
    confirm(&mut crowd, &[(h(1), HOME), (h(2), HOME)]);

    crowd.migrate(&mut link, 2).expect("migrates");
    assert_eq!(crowd.migrated(), 2);
    assert_eq!(crowd.away(), 2, "both are in the other region now");
    let went: Vec<RegionId> = link
        .other_end()
        .said()
        .iter()
        .filter_map(|s| match s {
            Said::Migrate { to, .. } => Some(*to),
            _ => None,
        })
        .collect();
    assert_eq!(went, vec![AWAY, AWAY]);

    // The handles changed, so the crowd has to be holding the new ones.
    let now: Vec<(EntityHandle, RegionId)> =
        crowd.held().iter().map(|h| (h.handle, AWAY)).collect();
    confirm(&mut crowd, &now);
    crowd.migrate(&mut link, 2).expect("migrates back");
    assert_eq!(crowd.away(), 0, "and home again");
}

#[test]
fn migration_skips_an_entity_no_region_has_answered_for() {
    // One still in flight has no id to give back, so there is nothing to
    // migrate yet.
    let mut link = line();
    let mut crowd = crowd(&mut link, 4, Some(AWAY));
    confirm(&mut crowd, &[(h(1), HOME), (h(2), HOME)]);
    crowd.migrate(&mut link, 4).expect("migrates");
    assert_eq!(crowd.migrated(), 2, "only the two with ids");
}

#[test]
fn a_crowd_told_of_nowhere_else_never_migrates() {
    let mut link = line();
    let mut crowd = crowd(&mut link, 4, None);
    confirm(&mut crowd, &[(h(1), HOME), (h(2), HOME), (h(3), HOME), (h(4), HOME)]);
    crowd.migrate(&mut link, 4).expect("does nothing");
    assert_eq!(crowd.migrated(), 0);
    assert_eq!(crowd.away(), 0);
}

#[test]
fn a_population_starts_in_a_column_a_meter_apart() {
    let mut link = line();
    let crowd = match Crowd::new(&mut link, HOME, None, 100, 20, 2, 1) {
        Ok(crowd) => crowd,
        Err(_) => unreachable!(),
    };
    let at: Vec<Pos3> = crowd.held().iter().map(|h| h.at).collect();
    let meters = |m: i32| m * 1024;
    assert_eq!(
        at,
        vec![
            Pos3 { x: meters(100), y: meters(64), z: 0 },
            Pos3 { x: meters(100), y: meters(65), z: 0 },
            Pos3 { x: meters(100), y: meters(66), z: 0 },
        ]
    );
    assert!(crowd.held().iter().all(|h| h.heading == 1 && h.region == HOME));
}

#[test]
fn a_walker_covers_two_meters_a_second() {
    let mut link = line();
    let mut crowd = crowd(&mut link, 1, None);
    crowd.walk(&mut link).expect("moves");
    // A twentieth of 2048 units, rounded down.
    assert_eq!(crowd.held()[0].at.x, 102_400 + 102);
    // It walks east to the last whole meter of its range, turns, and walks west.
    let mut turned = 0;
    let mut was = crowd.held()[0].heading;
    let (mut low, mut high) = (i32::MAX, i32::MIN);
    for _ in 0..3_000 {
        crowd.walk(&mut link).expect("moves");
        let one = crowd.held()[0];
        if one.heading != was {
            turned += 1;
            was = one.heading;
        }
        low = low.min(one.at.x >> 10);
        high = high.max(one.at.x >> 10);
    }
    assert_eq!((low, high), (68, 132));
    assert_eq!(turned, 5);
}

#[test]
fn a_crowd_of_none_says_nothing() {
    let mut link = line();
    let mut crowd = crowd(&mut link, 0, Some(AWAY));
    assert_eq!(crowd.walk(&mut link), Ok(0));
    assert_eq!(crowd.churn(&mut link, 1), Ok(0));
    assert_eq!(crowd.migrate(&mut link, 1), Ok(()));
    assert!(link.other_end().said().is_empty());
}

#[test]
fn churning_more_than_there_are_does_nothing() {
    let mut link = line();
    let mut crowd = crowd(&mut link, 3, None);
    assert_eq!(crowd.churn(&mut link, 4), Ok(0));
    assert_eq!(crowd.churn(&mut link, 0), Ok(0));
    assert_eq!(link.other_end().said().len(), 3);
}

#[test]
fn a_churn_gives_back_the_last_first() {
    let mut link = line();
    let mut crowd = crowd(&mut link, 4, None);
    crowd.churn(&mut link, 2).expect("churns");
    assert_eq!(link.other_end().said()[4], Said::Despawn(h(4)));
    assert_eq!(link.other_end().said()[5], Said::Despawn(h(3)));
    let held: Vec<EntityHandle> = crowd.held().iter().map(|h| h.handle).collect();
    assert_eq!(held, vec![h(1), h(2), h(5), h(6)]);
    assert_eq!(crowd.held()[2].at.y, (64 + 4) * 1024, "the places go on");
}

#[test]
fn a_refused_return_leaves_the_crowd_as_it_was() {
    let mut link = line();
    let mut crowd = crowd(&mut link, 4, None);
    link.link.forget(h(3));
    assert_eq!(crowd.churn(&mut link, 2), Err(FakeError::Unknown));
    assert_eq!(crowd.len(), 4);
}

#[test]
fn a_refused_move_stops_the_migration() {
    let mut link = line();
    let mut crowd = crowd(&mut link, 3, Some(AWAY));
    confirm(&mut crowd, &[(h(1), HOME), (h(2), HOME), (h(3), HOME)]);
    link.link.forget(h(3));
    // The sweep starts after the first: the second, the third, the first.
    assert_eq!(crowd.migrate(&mut link, 3), Err(FakeError::Unknown));
    assert_eq!(crowd.migrated(), 1);
    let held: Vec<EntityHandle> = crowd.held().iter().map(|h| h.handle).collect();
    assert_eq!(held, vec![h(1), h(4), h(3)]);
}

#[test]
fn a_sweep_reaches_everyone_a_few_at_a_time() {
    let mut link = line();
    let mut crowd = crowd(&mut link, 5, Some(AWAY));
    let all: Vec<_> = (1..=5).map(|n| (h(n), HOME)).collect();
    confirm(&mut crowd, &all);
    for _ in 0..3 {
        crowd.migrate(&mut link, 2).expect("migrates");
    }
    // Six looks at five: the sixth finds one that has no new id yet.
    assert_eq!(crowd.migrated(), 5);
    assert_eq!(crowd.away(), 5);
}

#[test]
fn a_report_of_a_stranger_changes_nothing() {
    let mut link = line();
    let mut crowd = crowd(&mut link, 2, None);
    confirm(&mut crowd, &[(h(9), AWAY)]);
    assert_eq!((crowd.confirmed(), crowd.away()), (0, 0));
    confirm(&mut crowd, &[(h(2), AWAY)]);
    assert_eq!((crowd.confirmed(), crowd.away()), (1, 1));
    assert_eq!(crowd.held()[1].entity, Some((AWAY, EntityId { raw: 0 })));
}

#[test]
fn a_link_without_a_connection_remembers_what_it_was_told() {
    let mut link = Fake::new();
    let p = Pos3 { x: 1, y: 2, z: 3 };
    assert_eq!(link.spawn(HOME, p, EntityKind::Observer), Ok(h(1)));
    assert_eq!(link.migrate(h(1), AWAY, p), Ok(h(2)));
    assert_eq!(link.move_entities(&[(h(2), p), (h(1), p)]), Ok(()));
    assert_eq!(link.despawn(h(2)), Ok(()));
    assert_eq!(link.despawn(h(2)), Err(FakeError::Unknown));
    assert_eq!(link.migrate(h(2), HOME, p), Err(FakeError::Unknown));
    assert_eq!(
        link.said(),
        &vec![
            Said::Spawn(HOME, h(1)),
            Said::Migrate { handle: h(1), to: AWAY, became: h(2) },
            Said::Moved(vec![h(2), h(1)]),
            Said::Despawn(h(2)),
        ]
    );
}

/// Two observers, by the handles 1 and 2, and two unattended, by 3 and 4.
fn mixed(link: &mut Line<Fake>) -> Crowd {
    match Crowd::new(link, HOME, Some(AWAY), 100, 20, 2, 2) {
        Ok(crowd) => crowd,
        Err(e) => panic!("asks for its population: {e:?}"),
    }
}

fn kinds(crowd: &Crowd) -> Vec<(u32, EntityKind)> {
    crowd.held().iter().map(|h| (h.handle.raw, h.kind)).collect()
}

#[test]
fn a_churn_hands_back_observers_and_leaves_the_unattended() {
    let (observer, unattended) = (EntityKind::Observer, EntityKind::Unattended);
    let mut link = line();
    let mut crowd = mixed(&mut link);
    assert_eq!(crowd.churn(&mut link, 1), Ok(1));
    assert_eq!(link.other_end().said()[4], Said::Despawn(h(2)));
    assert_eq!(link.other_end().said()[5], Said::Spawn(HOME, h(5)));
    assert_eq!(
        kinds(&crowd),
        vec![(1, observer), (3, unattended), (4, unattended), (5, observer)]
    );
    // The newest observer goes first, and the unattended are passed over.
    assert_eq!(crowd.churn(&mut link, 2), Ok(2));
    assert_eq!(link.other_end().said()[6], Said::Despawn(h(5)));
    assert_eq!(link.other_end().said()[7], Said::Despawn(h(1)));
    assert_eq!(
        kinds(&crowd),
        vec![(3, unattended), (4, unattended), (6, observer), (7, observer)]
    );
}

#[test]
fn churning_more_than_the_observers_does_nothing() {
    let mut link = line();
    let mut crowd = mixed(&mut link);
    assert_eq!(crowd.churn(&mut link, 3), Ok(0));
    assert_eq!(link.other_end().said().len(), 4);
}

#[test]
fn an_entity_keeps_its_kind_in_the_other_region() {
    let mut link = line();
    let mut crowd = mixed(&mut link);
    confirm(&mut crowd, &[(h(1), HOME), (h(3), HOME)]);
    crowd.migrate(&mut link, 4).expect("migrates");
    assert_eq!(crowd.migrated(), 2);
    let gone: Vec<(RegionId, EntityKind)> =
        crowd.held().iter().map(|h| (h.region, h.kind)).collect();
    assert_eq!(
        gone,
        vec![
            (AWAY, EntityKind::Observer),
            (HOME, EntityKind::Observer),
            (AWAY, EntityKind::Unattended),
            (HOME, EntityKind::Unattended),
        ]
    );
}

#[test]
fn settling_names_who_is_left_and_drops_who_is_gone() {
    let mut link = line();
    let mut crowd = crowd(&mut link, 4, Some(AWAY));
    let mut reports = Reports::default();
    reports.saw_spawned(h(2), AWAY, EntityId { raw: 20 });
    reports.saw_spawned(h(3), HOME, EntityId { raw: 30 });
    reports.saw_spawned(h(9), HOME, EntityId { raw: 90 });
    reports.saw_removed(h(3));
    reports.saw_removed(h(8));
    crowd.settle(&mut reports);
    let held: Vec<_> = crowd.held().iter().map(|h| (h.handle, h.region, h.entity)).collect();
    let settled = vec![
        (h(1), HOME, None),
        (h(2), AWAY, Some((AWAY, EntityId { raw: 20 }))),
        (h(4), HOME, None),
    ];
    assert_eq!(held, settled);
    crowd.settle(&mut reports);
    let held: Vec<_> = crowd.held().iter().map(|h| (h.handle, h.region, h.entity)).collect();
    assert_eq!(held, settled, "the reports have been read");
}

#[test]
fn sending_too_often_to_cover_a_unit_stands_still() {
    let mut link = line();
    for hz in [2_049, u32::MAX] {
        let mut crowd = match Crowd::new(&mut link, HOME, None, 100, hz, 1, 0) {
            Ok(crowd) => crowd,
            Err(_) => unreachable!(),
        };
        crowd.walk(&mut link).expect("moves");
        assert_eq!(crowd.held()[0].at.x, 102_400);
        assert_eq!(crowd.held()[0].heading, 1);
    }
}

#[test]
fn single_migrations_take_everyone_once() {
    let mut link = line();
    let mut crowd = crowd(&mut link, 5, Some(AWAY));
    let all: Vec<_> = (1..=5).map(|n| (h(n), HOME)).collect();
    confirm(&mut crowd, &all);
    for _ in 0..5 {
        crowd.migrate(&mut link, 1).expect("migrates");
    }
    let named: Vec<u32> = link
        .other_end()
        .said()
        .iter()
        .filter_map(|s| match s {
            Said::Migrate { handle, .. } => Some(handle.raw),
            _ => None,
        })
        .collect();
    assert_eq!(named, vec![2, 3, 4, 5, 1]);
    assert_eq!((crowd.migrated(), crowd.away(), crowd.confirmed()), (5, 5, 0));
}
