use p2p_screenshare::launcher::{clock_text, Launcher, Mode, Page, StartPlan};
use p2p_screenshare::monitor::{Log, StatsBoard};
use p2p_screenshare::settings::Settings;

fn lines(log: &Log) -> Vec<&str> {
    log.lines.iter().map(|l| l.as_str()).collect()
}

#[test]
fn wizard_pages() {
    let mut l = Launcher::new(Settings::default());
    assert_eq!(l.page, Page::Home);
    l.configure(Mode::Share);
    assert_eq!(l.page, Page::Configure(Mode::Share));
    l.go_home();
    assert_eq!(l.page, Page::Home);
    l.open_recent("10.0.0.9:9000".to_string());
    assert_eq!(l.page, Page::Configure(Mode::View));
    assert_eq!(l.settings.connect, "10.0.0.9:9000");
    l.use_recent("10.0.0.8:9000".to_string());
    assert_eq!(l.page, Page::Configure(Mode::View));
    assert_eq!(l.settings.connect, "10.0.0.8:9000");
}

#[test]
fn share_is_launched_with_its_settings() {
    let mut l = Launcher::new(Settings::default());
    let (mut log, mut stats) = (Log::new(), StatsBoard::new());
    log.push("old".to_string());
    stats.record(1, 2, 3, 4);
    l.configure(Mode::Share);
    match l.begin(Mode::Share, true, "/bin/p2p-screenshare", &mut log, &mut stats) {
        StartPlan::Launch { args, save } => {
            assert_eq!(args[..3], ["share", "--bind", "0.0.0.0:9000"]);
            assert_eq!(args.len(), 9);
            assert!(!save);
        }
        _ => panic!("nothing stands in the way"),
    }
    assert_eq!(lines(&log), vec!["[gui] launching Share"]);
    assert!(stats.ids().is_empty());
    assert!(l.settings.recent_connects.is_empty());
    assert_eq!(l.page, Page::Configure(Mode::Share));
    l.spawned(Mode::Share, 77);
    assert_eq!(l.page, Page::Running(Mode::Share));
    assert!(l.running);
    assert_eq!(l.started_at, Some(77));
}

#[test]
fn view_is_launched_and_remembered() {
    let mut l = Launcher::new(Settings::default());
    let (mut log, mut stats) = (Log::new(), StatsBoard::new());
    l.settings.connect = " 10.0.0.9:9000 ".to_string();
    match l.begin(Mode::View, true, "x", &mut log, &mut stats) {
        StartPlan::Launch { args, save } => {
            assert_eq!(args, vec!["view", "--connect", " 10.0.0.9:9000 "]);
            assert!(save);
        }
        _ => panic!("nothing stands in the way"),
    }
    assert_eq!(l.settings.recent_connects, vec!["10.0.0.9:9000"]);
    assert_eq!(lines(&log), vec!["[gui] launching View"]);
}

#[test]
fn second_session_is_not_started() {
    let mut l = Launcher::new(Settings::default());
    let (mut log, mut stats) = (Log::new(), StatsBoard::new());
    l.spawned(Mode::View, 1);
    assert!(matches!(
        l.begin(Mode::Share, true, "x", &mut log, &mut stats),
        StartPlan::Busy
    ));
    assert!(lines(&log).is_empty());
    assert_eq!(l.page, Page::Running(Mode::View));
}

#[test]
fn missing_program_is_logged() {
    let mut l = Launcher::new(Settings::default());
    let (mut log, mut stats) = (Log::new(), StatsBoard::new());
    stats.record(3, 0, 0, 0);
    assert!(matches!(
        l.begin(Mode::Share, false, "/opt/p2p-screenshare", &mut log, &mut stats),
        StartPlan::Missing
    ));
    assert_eq!(lines(&log), vec!["[gui] CLI binary not found at /opt/p2p-screenshare"]);
    assert_eq!(stats.ids(), vec![3]);
    l.spawn_failed("permission denied", &mut log);
    assert_eq!(log.lines[1], "[gui] spawn failed: permission denied");
}

#[test]
fn session_is_stopped_once() {
    let mut l = Launcher::new(Settings::default());
    let mut log = Log::new();
    l.spawned(Mode::Share, 5);
    assert!(l.stopped(&mut log));
    assert!(!l.running);
    assert_eq!(l.started_at, None);
    assert!(!l.stopped(&mut log));
    assert_eq!(lines(&log), vec!["[gui] stopped"]);
    assert_eq!(l.page, Page::Running(Mode::Share));
}

#[test]
fn session_that_ends_by_itself() {
    let mut l = Launcher::new(Settings::default());
    let mut log = Log::new();
    l.spawned(Mode::Share, 5);
    l.exited("exit status: 1", &mut log);
    assert!(!l.running);
    assert_eq!(l.started_at, Some(5));
    l.spawned(Mode::Share, 6);
    l.wait_failed("no such process", &mut log);
    assert!(!l.running);
    assert_eq!(
        lines(&log),
        vec!["[gui] child exited: exit status: 1", "[gui] wait error: no such process"]
    );
}

#[test]
fn status_bar_texts() {
    let l = Launcher::new(Settings::default());
    assert_eq!(l.summary(Mode::Share), "Share · 0.0.0.0:9000");
    assert_eq!(l.summary(Mode::View), "View · 127.0.0.1:9000");
    assert_eq!(clock_text(0), "00:00");
    assert_eq!(clock_text(65), "01:05");
    assert_eq!(clock_text(6_000), "100:00");
    assert_eq!(clock_text(719), "11:59");
}
