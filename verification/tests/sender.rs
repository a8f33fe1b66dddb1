use p2p_screenshare::capture::PendingFrame;
use p2p_screenshare::protocol::{read_frame, read_handshake, write_handshake, FrameHeader};
use p2p_screenshare::sender::{
    capture_plan, clamp_fps, clamp_quality, listening_line, send_frame, ShareError,
};
use p2p_screenshare::slot::Latest;
use p2p_screenshare::traffic::Traffic;
use p2p_screenshare::view::stream_of;

fn frame(width: u32, height: u32, jpeg: &[u8]) -> PendingFrame {
    PendingFrame { width, height, jpeg: jpeg.to_vec() }
}

fn send_slots(waiting: &[Option<PendingFrame>], out: &mut Vec<u8>, traffic: &mut Traffic) {
    for (i, slot) in waiting.iter().enumerate() {
        if let Some(f) = slot {
            assert!(traffic.has_room(i, f.jpeg.len() as u64 + 13));
            send_frame(i as u8, f, out, traffic);
        }
    }
}

#[test]
fn limits_of_a_share() {
    assert_eq!((clamp_fps(0), clamp_fps(1), clamp_fps(60)), (1, 1, 60));
    assert_eq!((clamp_fps(120), clamp_fps(121), clamp_fps(u32::MAX)), (120, 120, 120));
    assert_eq!((clamp_quality(0), clamp_quality(70)), (1, 70));
    assert_eq!((clamp_quality(100), clamp_quality(101), clamp_quality(255)), (100, 100, 100));
}

#[test]
fn every_display_is_captured_without_a_filter() {
    assert_eq!(capture_plan(3, vec![]), Ok(vec![0, 1, 2]));
    assert_eq!(capture_plan(255, vec![]).map(|p| p.len()), Ok(255));
}

#[test]
fn filter_is_taken_as_it_is() {
    assert_eq!(capture_plan(3, vec![2, 0]), Ok(vec![2, 0]));
    assert_eq!(capture_plan(2, vec![1, 1]), Ok(vec![1, 1]));
}

#[test]
fn displays_that_cannot_be_captured() {
    assert_eq!(capture_plan(0, vec![]), Err(ShareError::NoDisplays));
    assert_eq!(capture_plan(0, vec![5]), Err(ShareError::NoDisplays));
    assert_eq!(
        capture_plan(2, vec![1, 7, 9]),
        Err(ShareError::OutOfRange { idx: 7, total: 2 })
    );
    assert_eq!(capture_plan(256, vec![]), Err(ShareError::TooManyDisplays));
    assert_eq!(capture_plan(1, vec![0; 256]), Err(ShareError::TooManyDisplays));
}

#[test]
fn share_errors_in_words() {
    assert_eq!(ShareError::NoDisplays.message(), "no displays detected");
    assert_eq!(
        ShareError::OutOfRange { idx: 7, total: 2 }.message(),
        "display index 7 out of range (only 2 detected)"
    );
    assert_eq!(ShareError::TooManyDisplays.message(), "too many displays");
}

#[test]
fn announcement_of_a_share() {
    let plan = vec![0usize, 2, 10];
    assert_eq!(
        listening_line("0.0.0.0:9000", &plan, 60, 70, true),
        "[share] listening on 0.0.0.0:9000 | 3 monitor(s) (indices [0, 2, 10]) | fps=60 quality=70 skip_unchanged=true"
    );
    assert!(listening_line("x", &plan, 1, 1, false).contains(&format!("(indices {plan:?})")));
}

#[test]
fn frame_is_sent_and_counted() {
    let mut out = vec![1u8];
    let mut traffic = Traffic::new(2);
    send_frame(1, &frame(640, 480, &[9, 8, 7]), &mut out, &mut traffic);
    assert_eq!(traffic.frames, vec![0, 1]);
    assert_eq!(traffic.bytes, vec![0, 16]);
    let mut r: &[u8] = &out[1..];
    let (h, data) = read_frame(&mut r).unwrap();
    assert_eq!(h, FrameHeader { monitor_id: 1, width: 640, height: 480, data_len: 3 });
    assert_eq!(data, vec![9, 8, 7]);
    assert!(r.is_empty());
}

#[test]
fn round_reaches_the_viewer() {
    let waiting = vec![Some(frame(2, 1, &[5])), None, Some(frame(4, 3, &[6, 7]))];
    let mut out = Vec::new();
    let mut traffic = Traffic::new(3);
    send_slots(&waiting, &mut out, &mut traffic);
    assert_eq!(traffic.frames, vec![1, 0, 1]);
    assert_eq!(traffic.bytes, vec![14, 0, 15]);
    let mut r: &[u8] = &out;
    let (h, data) = read_frame(&mut r).unwrap();
    assert_eq!((h.monitor_id, h.width, h.height, data), (0, 2, 1, vec![5]));
    let (h, data) = read_frame(&mut r).unwrap();
    assert_eq!((h.monitor_id, h.width, h.height, data), (2, 4, 3, vec![6, 7]));
    assert!(r.is_empty());
}

#[test]
fn frame_must_fit_the_counters() {
    assert!(!Traffic::new(1).has_room(1, 23));
    let mut traffic = Traffic::new(2);
    assert!(traffic.has_room(1, 23));
    traffic.bytes[1] = u64::MAX - 22;
    assert!(!traffic.has_room(1, 23));
    traffic.bytes[1] = u64::MAX - 23;
    assert!(traffic.has_room(1, 23));
    traffic.frames[1] = u32::MAX;
    assert!(!traffic.has_room(1, 23));
}

#[test]
fn newest_frame_of_each_stream_arrives() {
    let mut wire = Vec::new();
    let mut traffic = Traffic::new(3);
    write_handshake(&mut wire, 3);
    for waiting in [
        vec![Some(frame(1, 1, &[1])), Some(frame(1, 1, &[2])), None],
        vec![None, Some(frame(1, 1, &[3])), None],
        vec![Some(frame(1, 1, &[4])), None, None],
        vec![None, None, None],
    ] {
        send_slots(&waiting, &mut wire, &mut traffic);
    }
    let mut r: &[u8] = &wire;
    let n = read_handshake(&mut r).unwrap() as usize;
    let mut slots: Vec<Latest<Vec<u8>>> = (0..n).map(|_| Latest::new()).collect();
    while let Ok((h, data)) = read_frame(&mut r) {
        slots[stream_of(h.monitor_id, n)].put(data);
    }
    assert_eq!(slots[0].take(), Some(vec![4]));
    assert_eq!(slots[1].take(), Some(vec![3]));
    assert_eq!(slots[2].take(), None);
}

#[test]
fn counters_hold_what_goes_over_the_wire() {
    let waiting = vec![Some(frame(2, 1, &[5; 40])), None, Some(frame(4, 3, &[6; 9]))];
    let mut out = Vec::new();
    let mut traffic = Traffic::new(3);
    send_slots(&waiting, &mut out, &mut traffic);
    assert_eq!(out.len() as u64, traffic.bytes.iter().sum::<u64>());
    assert_eq!(out.len(), 75);
}
