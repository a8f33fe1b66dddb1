use p2p_screenshare::capture::{
    on_would_block, rest_of_interval, Capture, DisplayTooLarge, PendingFrame, Wait,
};

fn capture(width: u32, height: u32, skip_unchanged: bool) -> Capture {
    match Capture::new(0, width, height, 80, skip_unchanged) {
        Ok(c) => c,
        Err(_) => panic!("the display fits"),
    }
}

fn sent(c: &mut Capture) -> Option<PendingFrame> {
    match c.encode_if_changed() {
        Ok(f) => f,
        Err(_) => panic!("the sides are not zero"),
    }
}

#[test]
fn capture_starts_with_a_black_frame() {
    let c = capture(3, 2, true);
    assert_eq!(c.packed, vec![0u8; 24]);
    assert_eq!((c.width, c.height, c.quality, c.skip_unchanged), (3, 2, 80, true));
    assert_eq!(c.last_hash, None);
}

#[test]
fn display_with_a_side_too_long_is_refused() {
    assert_eq!(Capture::new(4, 65536, 1, 80, true).err(), Some(DisplayTooLarge { id: 4 }));
    assert_eq!(Capture::new(5, 1, 65536, 80, true).err(), Some(DisplayTooLarge { id: 5 }));
    assert!(Capture::new(6, 65535, 1, 80, true).is_ok());
    assert_eq!(
        DisplayTooLarge { id: 12 }.message(),
        "display 12 too large for JPEG (max 65535 per side)"
    );
}

#[test]
fn padding_of_rows_is_dropped() {
    let mut c = capture(1, 3, true);
    let raw: Vec<u8> = vec![
        1, 2, 3, 4, 91, 92, //
        5, 6, 7, 8, 93, 94, //
        9, 10, 11, 12, 95, 96,
    ];
    assert!(c.accepts(&raw));
    c.take_frame(&raw);
    assert_eq!(c.packed, vec![1, 2, 3, 4, 5, 6, 7, 8, 9, 10, 11, 12]);
}

#[test]
fn frame_without_padding_is_taken_as_it_is() {
    let mut c = capture(2, 2, true);
    let raw: Vec<u8> = (0u8..17).collect();
    assert!(c.accepts(&raw));
    c.take_frame(&raw);
    assert_eq!(c.packed, (0u8..16).collect::<Vec<u8>>());
}

#[test]
fn frames_that_are_too_short_are_not_accepted() {
    let c = capture(2, 2, true);
    assert!(!c.accepts(&[0u8; 11]));
    assert!(c.accepts(&[0u8; 16]));
    assert!(!capture(2, 0, true).accepts(&[0u8; 16]));
}

#[test]
fn hash_and_file_come_from_the_encoders() {
    let mut c = capture(8, 8, true);
    let raw: Vec<u8> = (0..256u32).map(|i| (i * 7 % 256) as u8).collect();
    c.take_frame(&raw);
    let f = sent(&mut c).unwrap();
    assert_eq!(c.last_hash, Some(xxhash_rust::xxh3::xxh3_64(&raw)));
    assert_eq!((f.width, f.height), (8, 8));
    let mut direct: Vec<u8> = Vec::new();
    jpeg_encoder::Encoder::new(&mut direct, 80)
        .encode(&raw, 8, 8, jpeg_encoder::ColorType::Bgra)
        .unwrap();
    assert_eq!(f.jpeg, direct);
    assert_eq!(&f.jpeg[..2], &[0xff, 0xd8]);
    assert_ne!(f.jpeg, raw);
}

#[test]
fn unchanged_screen_is_skipped() {
    let mut c = capture(4, 4, true);
    let a = vec![10u8; 64];
    let b = vec![200u8; 64];
    c.take_frame(&a);
    assert!(sent(&mut c).is_some());
    c.take_frame(&a);
    assert!(sent(&mut c).is_none());
    c.take_frame(&b);
    assert!(sent(&mut c).is_some());
    c.take_frame(&a);
    assert!(sent(&mut c).is_some());
}

#[test]
fn every_screen_is_sent_when_skipping_is_off() {
    let mut c = capture(4, 4, false);
    for _ in 0..3 {
        c.take_frame(&[10u8; 64]);
        assert!(sent(&mut c).is_some());
        assert_eq!(c.last_hash, None);
    }
}

#[test]
fn note_of_a_hash() {
    let mut c = capture(1, 1, true);
    assert!(!c.note_hash(5));
    assert!(c.note_hash(5));
    assert!(!c.note_hash(6));
    assert!(!c.note_hash(5));
    assert_eq!(c.last_hash, Some(5));
}

#[test]
fn display_without_pixels_cannot_be_encoded() {
    let mut c = capture(0, 4, true);
    assert!(c.encode_if_changed().is_err());
    assert!(matches!(c.encode_if_changed(), Ok(None)));
    let mut c = capture(4, 0, false);
    assert!(c.encode_if_changed().is_err());
}

#[test]
fn pending_frame_has_the_sides_of_the_display() {
    let f = capture(3, 2, true).pending(vec![1, 2, 3]);
    assert_eq!((f.width, f.height, f.jpeg), (3, 2, vec![1, 2, 3]));
}

#[test]
fn waiting_ends_with_the_interval() {
    assert_eq!(on_would_block(0, 16_666_666), Wait::Retry);
    assert_eq!(on_would_block(16_666_665, 16_666_666), Wait::Retry);
    assert_eq!(on_would_block(16_666_666, 16_666_666), Wait::GiveUp);
}

#[test]
fn rest_fills_the_interval() {
    assert_eq!(rest_of_interval(6_000_000, 16_666_666), Some(10_666_666));
    assert_eq!(rest_of_interval(16_666_666, 16_666_666), None);
    assert_eq!(rest_of_interval(20_000_000, 16_666_666), None);
}
