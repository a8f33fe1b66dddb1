use p2p_screenshare::statline::{parse_stats, updates_from};
use p2p_screenshare::traffic::{report_line, StatText};

fn parsed(line: &str) -> Vec<(u8, String, String)> {
    parse_stats(line).into_iter().map(|u| (u.id, u.fps, u.kbps)).collect()
}

fn wanted(list: &[(u8, &str, &str)]) -> Vec<(u8, String, String)> {
    list.iter().map(|(id, a, b)| (*id, a.to_string(), b.to_string())).collect()
}

#[test]
fn reports_are_read_back() {
    let stats = [(0usize, "59.9", "1234.5"), (1, "7.0", "0.4"), (200, "120.0", "99999.9")];
    for tag in ["[share]", "[view ]"] {
        let texts: Vec<StatText> = stats
            .iter()
            .map(|(id, a, b)| StatText { id: *id, fps: a.to_string(), kbps: b.to_string() })
            .collect();
        let line = report_line(tag, &texts).unwrap();
        assert_eq!(
            parsed(&line),
            wanted(&[(0, "59.9", "1234.5"), (1, "7.0", "0.4"), (200, "120.0", "99999.9")])
        );
    }
}

#[test]
fn other_lines_report_nothing() {
    assert_eq!(parsed("[share] peer connected: 10.0.0.2:51234"), wanted(&[]));
    assert_eq!(parsed("m1: fps KB/s"), wanted(&[]));
    assert_eq!(parsed(""), wanted(&[]));
}

#[test]
fn numbers_that_are_no_bytes_count_as_zero() {
    assert_eq!(
        parsed("m300:1fps 2KB/s m7:3.fps  .4KB/s"),
        wanted(&[(0, "1", "2"), (7, "3.", ".4")])
    );
}

#[test]
fn updates_of_matches() {
    let groups = vec![
        ("255".to_string(), "1.5".to_string(), "2.5".to_string()),
        ("256".to_string(), "".to_string(), "x".to_string()),
    ];
    let updates: Vec<(u8, String, String)> =
        updates_from(groups).into_iter().map(|u| (u.id, u.fps, u.kbps)).collect();
    assert_eq!(updates, wanted(&[(255, "1.5", "2.5"), (0, "", "x")]));
}
