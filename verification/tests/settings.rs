use p2p_screenshare::settings::{share_args, view_args, Settings, MAX_RECENT};

#[test]
fn default_settings() {
    let s = Settings::default();
    assert_eq!(s.bind, "0.0.0.0:9000");
    assert_eq!(s.connect, "127.0.0.1:9000");
    assert_eq!((s.fps, s.quality, s.skip_unchanged), (60, 70, true));
    assert!(s.recent_connects.is_empty());
}

#[test]
fn recent_address_comes_first_without_white_space() {
    let mut s = Settings::default();
    s.push_recent("a:1");
    s.push_recent(" \t b:2\u{3000}\n");
    assert_eq!(s.recent_connects, vec!["b:2", "a:1"]);
}

#[test]
fn recent_address_moves_to_the_front() {
    let mut s = Settings::default();
    for c in ["a:1", "b:2", "c:3", "a:1"] {
        s.push_recent(c);
    }
    assert_eq!(s.recent_connects, vec!["a:1", "c:3", "b:2"]);
    s.push_recent("a:1");
    assert_eq!(s.recent_connects, vec!["a:1", "c:3", "b:2"]);
}

#[test]
fn recent_addresses_are_bounded() {
    let mut s = Settings::default();
    for i in 0..12 {
        s.push_recent(&format!("host:{i}"));
    }
    assert_eq!(s.recent_connects.len(), MAX_RECENT);
    assert_eq!(s.recent_connects[0], "host:11");
    assert_eq!(s.recent_connects[7], "host:4");
}

#[test]
fn blank_address_changes_nothing() {
    let mut s = Settings::default();
    s.push_recent("a:1");
    s.push_recent("");
    s.push_recent("  \n");
    assert_eq!(s.recent_connects, vec!["a:1"]);
}

#[test]
fn all_copies_of_an_address_go() {
    let mut s = Settings::default();
    s.recent_connects = vec!["x".to_string(), "y".to_string(), "x".to_string()];
    s.push_recent("x");
    assert_eq!(s.recent_connects, vec!["x", "y"]);
}

#[test]
fn command_lines() {
    assert_eq!(
        share_args("0.0.0.0:9000", 60, 70, true),
        vec![
            "share", "--bind", "0.0.0.0:9000", "--fps", "60", "--quality", "70",
            "--skip-unchanged", "true",
        ]
    );
    assert_eq!(share_args("h:1", 1, 100, false)[8], "false");
    assert_eq!(view_args("10.0.0.2:9000"), vec!["view", "--connect", "10.0.0.2:9000"]);
}
