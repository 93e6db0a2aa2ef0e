use herd::common::{
    gather, limits, names_in, servers, BadServer, ClientLimits, DEFAULT_EDGE, DEFAULT_NATS,
    PAYLOAD_BYTES,
};
use herd::world::{cell_index, world, WorldError};

#[test]
fn the_world_is_valid_at_every_rate_a_peer_would_pick() {
    for hz in [10u32, 20, 50, 100] {
        let cfg = world(hz).expect("a world");
        assert_eq!(cfg.tick_hz, hz);
        assert_eq!(cfg.region_size / 1024, 4096);
        assert_eq!(cfg.horizontal_view_radius / 1024, 256);
    }
}

#[test]
fn all_three_peers_agree_on_the_world() {
    // A digest mismatch is how a region tells an edge they would decode
    // each other's packets into nonsense, so this is the check that the
    // three binaries cannot drift apart by building their own config.
    let hash = |hz| world(hz).expect("a world").protocol_hash;
    assert_eq!(hash(20), hash(20));
    // Tick rate is carried beside the digest rather than inside it: it
    // changes how often a packet is built, not how one decodes.
    assert_eq!(hash(20), hash(50));
}

#[test]
fn every_client_declares_a_payload_that_fits_the_link() {
    // The number itself is pinned by the datagram it has to fit.
    assert!(PAYLOAD_BYTES < umwelt::ClientLimits::default().payload_bytes);
    assert_eq!(limits().payload_bytes, PAYLOAD_BYTES);
}

#[test]
fn every_client_is_served_each_tick() {
    assert_eq!(limits(), ClientLimits { payload_bytes: 1_100, send_period: 1 });
    assert_eq!(limits().send_period, umwelt::ClientLimits::default().send_period);
}

#[test]
fn a_world_is_what_umwelt_builds() {
    let w = world(20).expect("a world");
    let c = umwelt::WorldConfig::builder()
        .region_size_m(4096)
        .vertical_extent_m(1024)
        .horizontal_view_radius_m(256)
        .max_horizontal_speed_m_per_sec(40)
        .tick_hz(20)
        .build()
        .expect("valid");
    assert_eq!(w.region_size, 4_194_304);
    assert_eq!(w.vertical_extent, 1_048_576);
    assert_eq!(w.cell_size, 131_072);
    assert_eq!((w.cells_per_axis, w.cells_per_region), (32, 1_024));
    assert!(w.lossless);
    assert_eq!(w.protocol_hash, c.protocol_hash());
    assert_eq!(w.cell_size, c.cell_size().raw());
}

#[test]
fn a_rate_that_does_not_divide_a_second_is_refused() {
    for hz in [0u32, 3, 7, 60, 1_001, u32::MAX] {
        assert_eq!(world(hz), Err(WorldError::TickRateIndivisible { tick_hz: hz }));
    }
    assert!(world(1).is_ok() && world(1_000).is_ok());
}

#[test]
fn a_position_falls_in_the_cell_umwelt_puts_it_in() {
    let w = world(20).expect("a world");
    let c = umwelt::WorldConfig::builder()
        .region_size_m(4096)
        .vertical_extent_m(1024)
        .horizontal_view_radius_m(256)
        .max_horizontal_speed_m_per_sec(40)
        .tick_hz(20)
        .build()
        .expect("valid");
    for (x, y) in [(0, 0), (131_071, 131_072), (4_194_303, 5), (2_000_000, 3_999_999)] {
        let at = c.cell_of(umwelt::Pos2::new(
            umwelt::Fixed::from_raw(x),
            umwelt::Fixed::from_raw(y),
        ));
        assert_eq!(cell_index(&w, x, y), at.y as usize * 32 + at.x as usize);
    }
    // Outside counts to the nearest.
    assert_eq!(cell_index(&w, -5, -131_073), 0);
    assert_eq!(cell_index(&w, i32::MAX, i32::MAX), 1_023);
}

#[test]
fn a_server_list_is_split_at_commas_and_trimmed() {
    assert_eq!(names_in("a"), vec!["a"]);
    assert_eq!(names_in(""), vec![""]);
    assert_eq!(names_in(" a , b\t,\u{2003}c d\u{3000}"), vec!["a", "b", "c d"]);
    assert_eq!(names_in("a,,b,"), vec!["a", "", "b", ""]);
}

#[test]
fn a_server_gets_its_scheme() {
    assert_eq!(servers("127.0.0.1:4222"), Ok(vec![DEFAULT_NATS.to_string()]));
    assert_eq!(
        servers("nats://one:1, tls://two:2"),
        Ok(vec!["nats://one:1".to_string(), "tls://two:2".to_string()])
    );
}

#[test]
fn the_first_server_that_cannot_be_read_is_named() {
    let bad = |s: &str| Err(BadServer { name: s.to_string() });
    assert_eq!(servers("nats://one:1,http://two:2,ftp://three"), bad("http://two:2"));
    let names = vec!["a".to_string(), "b".to_string(), "c".to_string()];
    let answers = vec![Some("x".to_string()), None, None];
    assert_eq!(gather(&names, answers), bad("b"));
    let answers = vec![Some("x".to_string()), Some("y".to_string()), Some("z".to_string())];
    assert_eq!(gather(&names, answers), Ok(vec!["x".into(), "y".into(), "z".into()]));
}

#[test]
fn an_edge_is_found_where_it_listens() {
    assert_eq!(DEFAULT_EDGE, "127.0.0.1:7777");
}
