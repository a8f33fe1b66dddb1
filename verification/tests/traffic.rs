use p2p_screenshare::traffic::{report_line, Activity, StatText, Traffic, REPORT_NANOS};

fn stat(id: usize, fps: &str, kbps: &str) -> StatText {
    StatText { id, fps: fps.to_string(), kbps: kbps.to_string() }
}

#[test]
fn counters_start_at_zero() {
    let t = Traffic::new(3);
    assert_eq!(t.frames, vec![0, 0, 0]);
    assert_eq!(t.bytes, vec![0, 0, 0]);
}

#[test]
fn frames_are_counted_by_monitor() {
    let mut t = Traffic::new(2);
    t.record(1, 100);
    t.record(1, 13);
    t.record(0, 0);
    assert_eq!(t.frames, vec![1, 2]);
    assert_eq!(t.bytes, vec![0, 113]);
}

#[test]
fn counters_have_room_up_to_their_limits() {
    let mut t = Traffic::new(1);
    assert!(t.has_room(0, u64::MAX));
    assert!(!t.has_room(1, 0));
    t.record(0, u64::MAX - 5);
    assert!(t.has_room(0, 5));
    assert!(!t.has_room(0, 6));
    t.frames[0] = u32::MAX;
    assert!(!t.has_room(0, 0));
}

#[test]
fn no_report_before_a_second_has_passed() {
    let mut t = Traffic::new(1);
    t.record(0, 7);
    assert_eq!(t.take_report(REPORT_NANOS - 1), None);
    assert_eq!(t.frames, vec![1]);
    assert_eq!(t.bytes, vec![7]);
}

#[test]
fn report_names_the_active_and_resets() {
    let mut t = Traffic::new(4);
    t.record(3, 30);
    t.record(1, 10);
    t.record(3, 31);
    assert_eq!(
        t.take_report(REPORT_NANOS),
        Some(vec![
            Activity { id: 1, frames: 1, bytes: 10 },
            Activity { id: 3, frames: 2, bytes: 61 },
        ])
    );
    assert_eq!(t.frames, vec![0; 4]);
    assert_eq!(t.bytes, vec![0; 4]);
    assert_eq!(t.take_report(2 * REPORT_NANOS), Some(vec![]));
}

#[test]
fn report_line_aligns_the_rates() {
    let line = report_line("[share]", &vec![stat(0, "59.9", "1234.5"), stat(12, "7.0", "0.4")]);
    assert_eq!(
        line,
        Some("[share]  m0:59.9fps 1234.5KB/s  m12: 7.0fps    0.4KB/s".to_string())
    );
    assert_eq!(
        line,
        Some(format!(
            "[share]  m0:{:>4.1}fps {:>6.1}KB/s  m12:{:>4.1}fps {:>6.1}KB/s",
            59.9f64, 1234.5f64, 7.0f64, 0.4f64
        ))
    );
}

#[test]
fn no_line_without_activity() {
    assert_eq!(report_line("[view ]", &vec![]), None);
}
