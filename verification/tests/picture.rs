use p2p_screenshare::picture::{
    decode_picture, picture_from_bgra, pixels_from_bgra, DecodeError, Picture,
};

fn file_of(bgra: &[u8], width: u16, height: u16) -> Vec<u8> {
    let mut out: Vec<u8> = Vec::new();
    jpeg_encoder::Encoder::new(&mut out, 95)
        .encode(bgra, width, height, jpeg_encoder::ColorType::Bgra)
        .unwrap();
    out
}

fn near(a: u32, b: u32) -> bool {
    (0..4).all(|k| ((a >> (8 * k)) & 255).abs_diff((b >> (8 * k)) & 255) <= 12)
}

#[test]
fn window_pixels_are_alpha_red_green_blue() {
    assert_eq!(pixels_from_bgra(&[0x11, 0x22, 0x33, 0x44], 1), vec![0x4433_2211]);
    assert_eq!(
        pixels_from_bgra(&[1, 0, 0, 255, 0, 1, 0, 255, 9], 2),
        vec![0xff00_0001, 0xff00_0100]
    );
    assert_eq!(pixels_from_bgra(&[], 0), Vec::<u32>::new());
}

#[test]
fn picture_of_bytes_has_their_sides() {
    let p = picture_from_bgra(&[0u8, 0, 255, 255, 7, 7], 1, 1);
    assert_eq!((p.w, p.h, p.pixels), (1, 1, vec![0xffff_0000]));
}

#[test]
fn nothing_to_show_at_first() {
    let p = Picture::none();
    assert_eq!((p.w, p.h, p.pixels.len()), (0, 0, 0));
}

#[test]
fn file_is_decoded_to_its_sides_and_colours() {
    let mut bgra: Vec<u8> = Vec::new();
    for _ in 0..16 * 8 {
        bgra.extend_from_slice(&[200, 100, 50, 255]);
    }
    let file = file_of(&bgra, 16, 8);
    let mut buf: Vec<u8> = Vec::new();
    let p = decode_picture(&file, &mut buf).unwrap();
    assert_eq!((p.w, p.h), (16, 8));
    assert_eq!(p.pixels.len(), 128);
    assert_eq!(buf.len(), 512);
    assert!(p.pixels.iter().all(|px| near(*px, 0xff32_64c8)));
    assert_eq!(p.pixels, pixels_from_bgra(&buf, 128));
}

#[test]
fn scratch_space_is_kept_between_pictures() {
    let big = file_of(&[90u8; 16 * 16 * 4], 16, 16);
    let small = file_of(&[30u8; 8 * 8 * 4], 8, 8);
    let mut buf: Vec<u8> = Vec::new();
    assert!(decode_picture(&big, &mut buf).is_ok());
    assert_eq!(buf.len(), 1024);
    let p = decode_picture(&small, &mut buf).unwrap();
    assert_eq!((p.w, p.h, p.pixels.len()), (8, 8, 64));
    assert_eq!(buf.len(), 1024);
}

#[test]
fn file_without_headers_is_refused() {
    let mut buf: Vec<u8> = vec![1, 2, 3];
    assert!(matches!(
        decode_picture(b"this is no picture", &mut buf),
        Err(DecodeError::Headers(_))
    ));
    assert!(matches!(decode_picture(&[], &mut buf), Err(DecodeError::Headers(_))));
    assert_eq!(buf, vec![1, 2, 3]);
}

#[test]
fn file_with_headers_only_is_refused_or_shown_whole() {
    let mut bgra: Vec<u8> = Vec::new();
    for i in 0..64u32 * 64 {
        bgra.extend_from_slice(&[(i * 37 % 256) as u8, (i * 91 % 256) as u8, i as u8, 255]);
    }
    let file = file_of(&bgra, 64, 64);
    let mut buf: Vec<u8> = Vec::new();
    match decode_picture(&file[..file.len() / 2], &mut buf) {
        Ok(p) => assert_eq!((p.w, p.h, p.pixels.len()), (64, 64, 4096)),
        Err(DecodeError::Pixels(_)) => assert_eq!(buf.len(), 64 * 64 * 4),
        Err(_) => panic!("the headers are all there"),
    }
}

fn noisy(side: u32) -> Vec<u8> {
    let mut bgra: Vec<u8> = Vec::new();
    for i in 0..side * side {
        bgra.extend_from_slice(&[(i * 37 % 256) as u8, (i * 91 % 256) as u8, i as u8, 255]);
    }
    bgra
}

#[test]
fn pixels_are_those_of_the_decoder() {
    for quality in [50u8, 95] {
        let mut file: Vec<u8> = Vec::new();
        jpeg_encoder::Encoder::new(&mut file, quality)
            .encode(&noisy(33), 33, 33, jpeg_encoder::ColorType::Bgra)
            .unwrap();
        let opts = zune_core::options::DecoderOptions::default()
            .jpeg_set_out_colorspace(zune_core::colorspace::ColorSpace::BGRA);
        let mut dec =
            zune_jpeg::JpegDecoder::new_with_options(std::io::Cursor::new(&file[..]), opts);
        let direct = dec.decode().unwrap();
        let mut fresh: Vec<u8> = Vec::new();
        let mut used: Vec<u8> = vec![77; 10_000];
        let a = decode_picture(&file, &mut fresh).unwrap();
        let b = decode_picture(&file, &mut used).unwrap();
        assert_eq!(a.pixels, pixels_from_bgra(&direct, 33 * 33));
        assert_eq!(a.pixels, b.pixels);
        assert_eq!(&used[33 * 33 * 4..], &[77; 10_000 - 33 * 33 * 4][..]);
        assert!(a.pixels.iter().any(|px| *px != a.pixels[0]));
    }
}

#[test]
fn progressive_file_is_decoded() {
    let mut file: Vec<u8> = Vec::new();
    let mut encoder = jpeg_encoder::Encoder::new(&mut file, 80);
    encoder.set_progressive(true);
    encoder.encode(&noisy(24), 24, 24, jpeg_encoder::ColorType::Bgra).unwrap();
    let mut buf: Vec<u8> = Vec::new();
    let p = decode_picture(&file, &mut buf).unwrap();
    assert_eq!((p.w, p.h, p.pixels.len()), (24, 24, 576));
}

#[test]
fn file_beyond_the_decoder_is_refused() {
    let file: Vec<u8> = vec![
        0xff, 0xd8, // start
        0xff, 0xc2, 0, 17, 8, 0, 8, 0, 8, 3, 1, 0x11, 0, 2, 0x22, 0, 3, 0x11, 0, // frame
        0xff, 0xda, 0, 12, 3, 1, 0, 2, 0, 3, 0, 0, 0, 0, // scan
        0xff, 0xd9,
    ];
    let mut buf: Vec<u8> = vec![1, 2, 3];
    assert!(matches!(decode_picture(&file, &mut buf), Err(DecodeError::Unsupported)));
    assert_eq!(buf, vec![1, 2, 3]);
}
