use p2p_screenshare::protocol::{read_frame, write_frame, FrameHeader};
use p2p_screenshare::slot::Latest;
use p2p_screenshare::view::{
    on_event, place_windows, stream_of, ViewAction, ViewError, ViewEvent,
};

#[test]
fn each_remote_monitor_gets_a_local_one() {
    assert_eq!(place_windows(3, 3), Ok(vec![0, 1, 2]));
    assert_eq!(place_windows(2, 5), Ok(vec![0, 1]));
}

#[test]
fn local_monitors_take_turns() {
    assert_eq!(place_windows(5, 2), Ok(vec![0, 1, 0, 1, 0]));
    assert_eq!(place_windows(3, 1), Ok(vec![0, 0, 0]));
}

#[test]
fn nothing_to_place_is_an_error() {
    assert_eq!(place_windows(0, 2), Err(ViewError::NoRemoteMonitors));
    assert_eq!(place_windows(0, 0), Err(ViewError::NoRemoteMonitors));
    assert_eq!(place_windows(1, 0), Err(ViewError::NoLocalMonitors));
    assert_eq!(ViewError::NoRemoteMonitors.message(), "sharer has no monitors");
    assert_eq!(ViewError::NoLocalMonitors.message(), "no local monitors");
}

#[test]
fn streams_are_told_apart_by_number() {
    assert_eq!(stream_of(0, 3), 0);
    assert_eq!(stream_of(2, 3), 2);
    assert_eq!(stream_of(3, 3), 0);
    assert_eq!(stream_of(255, 7), 3);
}

#[test]
fn each_stream_keeps_its_newest_frame() {
    let mut wire = Vec::new();
    for (id, byte) in [(0u8, 10u8), (1, 20), (0, 11), (0, 12), (1, 21)] {
        let h = FrameHeader { monitor_id: id, width: 1, height: 1, data_len: 1 };
        write_frame(&mut wire, &h, &[byte]);
    }
    let mut slots: Vec<Latest<Vec<u8>>> = (0..3).map(|_| Latest::new()).collect();
    let mut r: &[u8] = &wire;
    while let Ok((h, data)) = read_frame(&mut r) {
        slots[stream_of(h.monitor_id, 3)].put(data);
    }
    assert_eq!(slots[0].take(), Some(vec![12]));
    assert_eq!(slots[1].take(), Some(vec![21]));
    assert_eq!(slots[2].take(), None);
}

#[test]
fn viewer_exits_on_request_escape_or_a_lost_connection() {
    assert_eq!(on_event(ViewEvent::CloseRequested, 2), ViewAction::Exit);
    assert_eq!(on_event(ViewEvent::NetDown, 2), ViewAction::Exit);
    let key = |escape, pressed| on_event(ViewEvent::Key { escape, pressed }, 2);
    assert_eq!(key(true, true), ViewAction::Exit);
    assert_eq!(key(true, false), ViewAction::Nothing);
    assert_eq!(key(false, true), ViewAction::Nothing);
}

#[test]
fn viewer_follows_its_windows() {
    let resized =
        |window, width, height| on_event(ViewEvent::Resized { window, width, height }, 2);
    assert_eq!(
        resized(Some(1), 800, 600),
        ViewAction::Resize { window: 1, width: 800, height: 600 }
    );
    assert_eq!(resized(Some(1), 0, 600), ViewAction::Nothing);
    assert_eq!(resized(Some(1), 800, 0), ViewAction::Nothing);
    assert_eq!(resized(None, 800, 600), ViewAction::Nothing);
    let redraw = |window| on_event(ViewEvent::RedrawRequested { window }, 2);
    assert_eq!(redraw(Some(0)), ViewAction::Present(0));
    assert_eq!(redraw(None), ViewAction::Nothing);
}

#[test]
fn viewer_draws_new_pictures_and_reports() {
    assert_eq!(on_event(ViewEvent::Frame(1), 2), ViewAction::RequestRedraw(1));
    assert_eq!(on_event(ViewEvent::Frame(2), 2), ViewAction::Nothing);
    assert_eq!(on_event(ViewEvent::StatsTick, 2), ViewAction::Report);
    assert_eq!(on_event(ViewEvent::Other, 2), ViewAction::Nothing);
}
