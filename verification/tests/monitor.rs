use p2p_screenshare::monitor::{
    line_kind, log_line, LineKind, Log, MonitorStats, StatsBoard, FRESH_NANOS, LOG_MAX_LINES,
    STATS_HISTORY,
};

#[test]
fn log_keeps_the_newest_lines() {
    let mut log = Log::new();
    for i in 0..LOG_MAX_LINES + 3 {
        log.push(format!("line {i}"));
    }
    assert_eq!(log.lines.len(), LOG_MAX_LINES);
    assert_eq!(log.lines[0], "line 3");
    assert_eq!(log.lines[LOG_MAX_LINES - 1], format!("line {}", LOG_MAX_LINES + 2));
    log.clear();
    assert!(log.lines.is_empty());
}

#[test]
fn error_lines_are_marked() {
    assert_eq!(log_line("boom".to_string(), true), "[err] boom");
    assert_eq!(log_line("fine".to_string(), false), "fine");
}

#[test]
fn kinds_of_lines() {
    assert_eq!(line_kind("[err] boom"), LineKind::Error);
    assert_eq!(line_kind("[gui] launching Share"), LineKind::Launcher);
    assert_eq!(line_kind("[share] peer connected"), LineKind::Session);
    assert_eq!(line_kind("[view ]  m0:"), LineKind::Session);
    assert_eq!(line_kind("[view] local monitors: 2"), LineKind::Session);
    assert_eq!(line_kind("[share"), LineKind::Other);
    assert_eq!(line_kind(" [err]"), LineKind::Other);
    assert_eq!(line_kind(""), LineKind::Other);
}

#[test]
fn rates_of_a_monitor() {
    let mut m = MonitorStats::new(5);
    assert_eq!((m.fps, m.kbps, m.last_update), (0, 0, 5));
    assert_eq!(m.fps, 0.0f32.to_bits());
    m.record(59.9f32.to_bits(), 1.5f32.to_bits(), 9);
    assert_eq!(f32::from_bits(m.fps), 59.9);
    assert_eq!(f32::from_bits(m.kbps), 1.5);
    assert_eq!(m.last_update, 9);
    for i in 0..STATS_HISTORY as u32 {
        m.record(i, i + 1, 10);
    }
    assert_eq!(m.history_fps.len(), STATS_HISTORY);
    assert_eq!(m.history_fps[0], 0);
    assert_eq!(m.history_kbps[STATS_HISTORY - 1], STATS_HISTORY as u32);
}

#[test]
fn rates_grow_stale_after_three_seconds() {
    let m = MonitorStats::new(1_000);
    assert!(m.is_fresh(0));
    assert!(m.is_fresh(1_000 + FRESH_NANOS - 1));
    assert!(!m.is_fresh(1_000 + FRESH_NANOS));
}

#[test]
fn board_lists_monitors_in_order() {
    let mut b = StatsBoard::new();
    assert!(b.ids().is_empty());
    b.record(7, 1, 2, 10);
    b.record(255, 3, 4, 11);
    b.record(0, 5, 6, 12);
    b.record(7, 8, 9, 13);
    assert_eq!(b.ids(), vec![0, 7, 255]);
    let m = &b.monitors[&7];
    assert_eq!((m.fps, m.kbps, m.last_update), (8, 9, 13));
    assert_eq!(m.history_fps, vec![1, 8]);
    assert_eq!(b.monitors[&255].history_kbps, vec![4]);
    b.clear();
    assert!(b.ids().is_empty());
}
