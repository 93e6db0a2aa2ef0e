use herd::args::{arg, arg_or, text_arg_or, Unreadable};
use herd::ids::RegionId;
use herd::text::parse_number;
use herd::{edge, session};

fn line(s: &str) -> Vec<String> {
    s.split_whitespace().map(str::to_string).collect()
}

fn unreadable(name: &str, raw: &str) -> Unreadable {
    Unreadable { name: name.to_string(), raw: raw.to_string() }
}

#[test]
fn an_option_is_found_anywhere() {
    let args = line("12 --nats here --churn 3 --nats there");
    assert_eq!(arg(&args, "nats"), Some("here".to_string()));
    assert_eq!(arg(&args, "churn"), Some("3".to_string()));
    assert_eq!(arg(&args, "12"), None);
    assert_eq!(arg(&args, "to"), None);
}

#[test]
fn an_option_at_the_end_has_no_value() {
    assert_eq!(arg(&line("--to"), "to"), None);
    assert_eq!(arg(&line("--to --to"), "to"), Some("--to".to_string()));
}

#[test]
fn a_value_is_read_or_a_fallback_stands() {
    let args = line("--observers 256 --churn x --edge 0.0.0.0:1");
    assert_eq!(arg_or(&args, "observers", 512usize), Ok(256));
    assert_eq!(arg_or(&args, "clients", 1usize), Ok(1));
    assert_eq!(arg_or(&args, "churn", 0usize), Err(unreadable("churn", "x")));
    assert_eq!(arg_or(&args, "edge", "no".to_string()), Ok("0.0.0.0:1".to_string()));
    assert_eq!(text_arg_or(&args, "edge", "no"), "0.0.0.0:1");
    assert_eq!(text_arg_or(&args, "nats", "no"), "no");
}

#[test]
fn numbers_are_read_as_the_machine_reads_them() {
    let texts = [
        "0", "7", "007", "+7", "+", "", "-0", "-7", "++7", "7 ", " 7", "7_0", "0x7", "٣",
        "255", "256", "4294967295", "4294967296", "18446744073709551615",
        "18446744073709551616", "99999999999999999999999999",
    ];
    for s in texts {
        assert_eq!(parse_number(s, u64::MAX), s.parse::<u64>().ok(), "{s:?}");
        assert_eq!(parse_number(s, 255), s.parse::<u8>().ok().map(u64::from), "{s:?}");
        let args = vec!["--n".to_string(), s.to_string()];
        assert_eq!(arg_or(&args, "n", 1u32).ok(), s.parse::<u32>().ok(), "{s:?}");
        assert_eq!(arg_or(&args, "n", 1u64).ok(), s.parse::<u64>().ok(), "{s:?}");
    }
}

#[test]
fn a_game_is_told_what_to_do() {
    let args = line(
        "--edge e:1 --clients 4 --observers 128 --unattended 6 --churn 8 --region 9 --to 10 \
         --migrate 32 --send-hz 50",
    );
    let o = match session::Options::from_args(&args) {
        Ok(o) => o,
        Err(e) => panic!("{e:?}"),
    };
    assert_eq!(o.addr, "e:1");
    assert_eq!((o.clients, o.observers, o.unattended, o.churn), (4, 128, 6, 8));
    assert_eq!((o.region, o.to), (RegionId { raw: 9 }, Some(RegionId { raw: 10 })));
    assert_eq!((o.migrate, o.send_hz), (32, 50));
}

#[test]
fn a_game_told_nothing_watches_region_seven() {
    let o = match session::Options::from_args(&Vec::new()) {
        Ok(o) => o,
        Err(e) => panic!("{e:?}"),
    };
    assert_eq!(o.addr, "127.0.0.1:7777");
    assert_eq!((o.clients, o.observers, o.unattended, o.churn), (1, 512, 0, 0));
    assert_eq!((o.region, o.to), (RegionId { raw: 7 }, None));
    assert_eq!((o.migrate, o.send_hz), (0, 20));
}

#[test]
fn a_game_stops_at_the_first_option_it_cannot_read() {
    for name in ["clients", "observers", "unattended", "churn", "region", "to", "migrate", "send-hz"] {
        let args = vec![format!("--{name}"), "many".to_string()];
        let e = session::Options::from_args(&args).err();
        assert_eq!(e, Some(unreadable(name, "many")));
    }
    let args = line("--send-hz x --clients y");
    assert_eq!(session::Options::from_args(&args).err(), Some(unreadable("clients", "y")));
}

#[test]
fn an_edge_is_told_where_to_listen() {
    let o = match edge::Options::from_args(&line("--edge 0.0.0.0:7777 --heartbeat 0")) {
        Ok(o) => o,
        Err(e) => panic!("{e:?}"),
    };
    assert_eq!((o.nats.as_str(), o.listen.as_str(), o.heartbeat), ("nats://127.0.0.1:4222", "0.0.0.0:7777", 0));
    let e = edge::Options::from_args(&line("--heartbeat soon")).err();
    assert_eq!(e, Some(unreadable("heartbeat", "soon")));
    let o = edge::Options::from_args(&line("--nats a")).ok().map(|o| (o.nats, o.heartbeat));
    assert_eq!(o, Some(("a".to_string(), 30)));
}
