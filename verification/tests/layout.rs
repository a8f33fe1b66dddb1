use p2p_screenshare::layout::beyond_decoder;
use p2p_screenshare::picture::{decode_picture, DecodeError};

fn frame(marker: u8, width: u16, factors: &[u8]) -> Vec<u8> {
    let n = factors.len() as u8;
    let mut out = vec![0xff, marker, 0, 8 + 3 * n, 8, 0, 8];
    out.extend_from_slice(&width.to_be_bytes());
    out.push(n);
    for (i, f) in factors.iter().enumerate() {
        out.extend_from_slice(&[i as u8 + 1, *f, 0]);
    }
    out
}

fn scan(components: u8) -> Vec<u8> {
    let mut out = vec![0xff, 0xda, 0, 6 + 2 * components, components];
    for i in 0..components {
        out.extend_from_slice(&[i + 1, 0]);
    }
    out.extend_from_slice(&[0, 0, 0]);
    out
}

fn adobe(transform: u8) -> Vec<u8> {
    let mut out = vec![0xff, 0xee, 0, 14];
    out.extend_from_slice(b"Adobe");
    out.extend_from_slice(&[0, 0, 0, 0, 0, 0, transform]);
    out
}

fn segment(marker: u8, payload: &[u8]) -> Vec<u8> {
    let mut out = vec![0xff, marker, 0, 2 + payload.len() as u8];
    out.extend_from_slice(payload);
    out
}

fn file(parts: &[Vec<u8>]) -> Vec<u8> {
    let mut out = vec![0xff, 0xd8];
    for p in parts {
        out.extend_from_slice(p);
    }
    out.extend_from_slice(&[0xff, 0xd9]);
    out
}

#[test]
fn progressive_file_that_is_cramped() {
    assert!(beyond_decoder(&file(&[frame(0xc2, 8, &[0x11, 0x22, 0x11]), scan(3)])));
    assert!(!beyond_decoder(&file(&[frame(0xc2, 8, &[0x22, 0x11, 0x11]), scan(3)])));
    assert!(!beyond_decoder(&file(&[frame(0xc2, 8, &[0x11, 0x21, 0x11]), scan(3)])));
    assert!(!beyond_decoder(&file(&[frame(0xc2, 16, &[0x11, 0x22, 0x11]), scan(3)])));
}

#[test]
fn sequential_file_in_several_scans() {
    let odd = [0x11, 0x22, 0x11];
    assert!(beyond_decoder(&file(&[frame(0xc0, 16, &odd), scan(1)])));
    assert!(beyond_decoder(&file(&[frame(0xc1, 8, &odd), scan(2)])));
    assert!(!beyond_decoder(&file(&[frame(0xc0, 16, &odd), scan(3)])));
    assert!(!beyond_decoder(&file(&[frame(0xc0, 16, &[0x22, 0x11, 0x11]), scan(1)])));
    assert!(!beyond_decoder(&file(&[frame(0xc0, 8, &[0x11, 0x21, 0x11]), scan(1)])));
    assert!(beyond_decoder(&file(&[frame(0xc0, 16, &[0x11, 0x21, 0x11]), scan(1)])));
    assert!(!beyond_decoder(&file(&[frame(0xc0, 16, &[0x11, 0x21, 0x11]), scan(3)])));
}

#[test]
fn progressive_file_that_lacks_a_colour() {
    assert!(beyond_decoder(&file(&[frame(0xc2, 8, &[0x11, 0x11]), adobe(2), scan(1)])));
    assert!(!beyond_decoder(&file(&[frame(0xc2, 8, &[0x11, 0x11]), adobe(0), scan(1)])));
    assert!(!beyond_decoder(&file(&[frame(0xc0, 8, &[0x11, 0x11]), adobe(2), scan(1)])));
    assert!(!beyond_decoder(&file(&[frame(0xc2, 8, &[0x11, 0x11, 0x11]), adobe(2), scan(3)])));
}

#[test]
fn frame_of_one_component_takes_the_colours_back() {
    let one = frame(0xc2, 8, &[0x11]);
    assert!(beyond_decoder(&file(&[one.clone(), adobe(2), scan(1)])));
    assert!(!beyond_decoder(&file(&[adobe(2), one, scan(1)])));
    let two = frame(0xc2, 8, &[0x11, 0x11]);
    assert!(beyond_decoder(&file(&[adobe(2), two.clone(), scan(1)])));
    assert!(!beyond_decoder(&file(&[adobe(2), two, adobe(0), scan(1)])));
}

#[test]
fn first_scan_decides() {
    let odd = frame(0xc0, 16, &[0x11, 0x22, 0x11]);
    assert!(!beyond_decoder(&file(&[odd.clone(), scan(3), scan(1)])));
    assert!(beyond_decoder(&file(&[odd, scan(1), scan(3)])));
    let two = frame(0xc2, 8, &[0x11, 0x11]);
    assert!(!beyond_decoder(&file(&[two, scan(1), adobe(2)])));
}

#[test]
fn segments_are_passed_by_their_length() {
    let odd = frame(0xc2, 8, &[0x11, 0x22, 0x11]);
    let plain = frame(0xc2, 8, &[0x22, 0x11, 0x11]);
    for marker in [0xfeu8, 0xe1, 0xe2, 0xef] {
        let note = segment(marker, &odd);
        assert!(!beyond_decoder(&file(&[note.clone(), plain.clone(), scan(3)])));
        assert!(beyond_decoder(&file(&[note, odd.clone(), scan(3)])));
        assert!(beyond_decoder(&file(&[segment(marker, &plain), odd.clone(), scan(3)])));
    }
    let mut filled = vec![0xffu8];
    filled.extend_from_slice(&odd);
    assert!(beyond_decoder(&file(&[filled, scan(3)])));
    assert!(!beyond_decoder(&file(&[odd.clone()])));
    assert!(!beyond_decoder(&file(&[scan(3), odd])));
}

#[test]
fn bytes_like_headers_in_other_segments_do_not_matter() {
    let mut plain: Vec<u8> = Vec::new();
    let pixels: Vec<u8> = (0..40 * 24 * 4).map(|i| (i * 7 % 251) as u8).collect();
    jpeg_encoder::Encoder::new(&mut plain, 80)
        .encode(&pixels, 40, 24, jpeg_encoder::ColorType::Bgra)
        .unwrap();
    let wanted = decode_picture(&plain, &mut Vec::new()).unwrap();

    let looks = [
        0xff, 0xc2, 0x00, 0x11, 0x08, 0x00, 0x08, 0x00, 0x08, 0x03, 0x01, 0x11, 0x00, 0x02, 0x22,
        0x00, 0x03, 0x11, 0x00,
    ];
    assert_eq!(segment(0xfe, &looks)[..4], [0xff, 0xfe, 0x00, 0x15]);
    for marker in [0xfeu8, 0xe3, 0xef] {
        for payload in [looks.to_vec(), scan(1), adobe(2)] {
            let mut noted = plain[..2].to_vec();
            noted.extend_from_slice(&segment(marker, &payload));
            noted.extend_from_slice(&plain[2..]);
            let got = decode_picture(&noted, &mut Vec::new()).unwrap();
            assert_eq!((got.w, got.h), (40, 24));
            assert_eq!(got.pixels, wanted.pixels);
        }
    }
    let mut longer = plain.clone();
    longer.extend_from_slice(&looks);
    longer.extend_from_slice(&scan(1));
    let got = decode_picture(&longer, &mut Vec::new()).unwrap();
    assert_eq!(got.pixels, wanted.pixels);
}

#[test]
fn every_such_file_is_refused_before_it_is_decoded() {
    for f in [
        file(&[frame(0xc2, 8, &[0x11, 0x22, 0x11]), scan(3)]),
        file(&[frame(0xc0, 16, &[0x11, 0x22, 0x11]), scan(1)]),
        file(&[frame(0xc2, 8, &[0x11, 0x11]), adobe(2), scan(1)]),
    ] {
        let mut buf = Vec::new();
        assert!(matches!(decode_picture(&f, &mut buf), Err(DecodeError::Unsupported)));
    }
    let mut buf = Vec::new();
    let plain = file(&[frame(0xc0, 16, &[0x11, 0x22, 0x11]), scan(3)]);
    assert!(matches!(decode_picture(&plain, &mut buf), Err(DecodeError::Pixels(_))));
}

#[test]
fn bytes_that_are_no_frame_header_do_not_count() {
    assert!(!beyond_decoder(&[]));
    assert!(!beyond_decoder(&[0xff, 0xc2]));
    let mut f = file(&[frame(0xc2, 8, &[0x11, 0x22, 0x11]), scan(3)]);
    f[6] = 12;
    assert!(!beyond_decoder(&f));
    assert!(!beyond_decoder(&file(&[frame(0xc2, 8, &[0x11, 0x32, 0x11]), scan(3)])));
    assert!(!beyond_decoder(&file(&[frame(0xc3, 8, &[0x11, 0x22, 0x11]), scan(3)])));
}

#[test]
fn files_of_the_encoder_are_within_the_limits() {
    for quality in [1u8, 70, 89, 90, 100] {
        let mut f: Vec<u8> = Vec::new();
        jpeg_encoder::Encoder::new(&mut f, quality)
            .encode(&[120u8; 40 * 24 * 4], 40, 24, jpeg_encoder::ColorType::Bgra)
            .unwrap();
        assert!(!beyond_decoder(&f));
    }
}
