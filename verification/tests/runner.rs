use p2p_screenshare::runner::{
    displays_json, is_running, may_start, on_poll, share_cfg_args, ChildState, Notice, ShareCfg,
    StartError, WatchStep,
};

fn cfg(displays: Vec<usize>) -> ShareCfg {
    ShareCfg { port: 9001, fps: 30, quality: 55, skip_unchanged: false, displays }
}

#[test]
fn share_of_all_displays() {
    assert_eq!(
        share_cfg_args(&cfg(vec![])),
        vec![
            "share", "--bind", "0.0.0.0:9001", "--fps", "30", "--quality", "55",
            "--skip-unchanged", "false",
        ]
    );
}

#[test]
fn share_of_some_displays() {
    let args = share_cfg_args(&cfg(vec![2, 0, 10]));
    assert_eq!(args.len(), 11);
    assert_eq!(args[9..], ["--displays", "2,0,10"]);
}

#[test]
fn one_session_at_a_time() {
    assert_eq!(may_start(false, true), Ok(()));
    assert_eq!(may_start(true, true), Err(StartError::AlreadyRunning));
    assert_eq!(may_start(true, false), Err(StartError::AlreadyRunning));
    assert_eq!(may_start(false, false), Err(StartError::CliNotFound));
    assert_eq!(StartError::AlreadyRunning.message(), "a session is already running");
    assert_eq!(StartError::CliNotFound.message(), "p2p-screenshare binary not found");
}

#[test]
fn watching_goes_on_while_the_process_runs() {
    assert!(matches!(on_poll(ChildState::Absent), WatchStep::Return));
    assert!(matches!(on_poll(ChildState::Running), WatchStep::PollAgain));
}

#[test]
fn exit_is_announced_before_it_is_logged() {
    let state = ChildState::Exited { code: Some(3), status: "exit status: 3".to_string() };
    match on_poll(state) {
        WatchStep::Ended { first, second } => {
            assert!(matches!(first, Notice::ChildExited { code: Some(3) }));
            match second {
                Notice::Log { line } => {
                    assert_eq!(line, "[gui] child exited with status exit status: 3")
                }
                _ => panic!("a log line comes second"),
            }
        }
        _ => panic!("the process has ended"),
    }
}

#[test]
fn lost_process_is_logged_before_it_is_announced() {
    match on_poll(ChildState::Unknown { reason: "no child".to_string() }) {
        WatchStep::Ended { first, second } => {
            match first {
                Notice::Log { line } => assert_eq!(line, "[gui] wait error: no child"),
                _ => panic!("a log line comes first"),
            }
            assert!(matches!(second, Notice::ChildExited { code: None }));
        }
        _ => panic!("the process is lost"),
    }
}

#[test]
fn what_counts_as_running() {
    assert!(!is_running(&ChildState::Absent));
    assert!(is_running(&ChildState::Running));
    assert!(!is_running(&ChildState::Exited { code: None, status: String::new() }));
    assert!(is_running(&ChildState::Unknown { reason: String::new() }));
}

#[test]
fn list_of_displays_is_the_last_line() {
    assert_eq!(displays_json("warning: slow\n[{\"id\":0}]\n"), "[{\"id\":0}]");
    assert_eq!(displays_json("a\r\nb\r\n"), "b");
    assert_eq!(displays_json("  [1]  "), "[1]");
    assert_eq!(displays_json("one"), "one");
    assert_eq!(displays_json(""), "[]");
    assert_eq!(displays_json(" \n\t\n"), "[]");
}
