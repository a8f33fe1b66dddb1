use p2p_screenshare::protocol::{
    check_magic, check_version, parse_frame_header, read_frame, read_handshake, write_frame,
    write_handshake, FrameHeader, ProtocolError, FRAME_HEADER_LEN, MAGIC, MAX_FRAME_BYTES, VERSION,
};

fn header(monitor_id: u8, width: u32, height: u32, data_len: u32) -> FrameHeader {
    FrameHeader { monitor_id, width, height, data_len }
}

#[test]
fn handshake_is_p2ps_version_and_count() {
    let mut w = vec![7u8];
    write_handshake(&mut w, 3);
    assert_eq!(w, vec![7, b'P', b'2', b'P', b'S', 1, 3]);
    assert_eq!(MAGIC.to_le_bytes(), *b"P2PS");
    assert_eq!(VERSION, 1);
}

#[test]
fn handshake_round_trip_leaves_the_rest() {
    for n in [0u8, 1, 2, 255] {
        let mut w = Vec::new();
        write_handshake(&mut w, n);
        w.extend_from_slice(&[9, 8, 7]);
        let mut r: &[u8] = &w;
        assert_eq!(read_handshake(&mut r), Ok(n));
        assert_eq!(r, &[9, 8, 7]);
    }
}

#[test]
fn handshake_of_another_stream_is_refused() {
    let mut r: &[u8] = b"HTTP/1.1";
    assert_eq!(read_handshake(&mut r), Err(ProtocolError::NotAStream));
    assert_eq!(r, b"/1.1");
    let mut short: &[u8] = b"HTTP";
    assert_eq!(read_handshake(&mut short), Err(ProtocolError::NotAStream));
}

#[test]
fn handshake_of_another_version_is_refused() {
    let mut r: &[u8] = &[b'P', b'2', b'P', b'S', 2, 3, 4];
    assert_eq!(read_handshake(&mut r), Err(ProtocolError::UnsupportedVersion(2)));
    assert_eq!(r, &[4]);
}

#[test]
fn handshake_cut_short_is_an_end_of_file() {
    let whole = [b'P', b'2', b'P', b'S', 1, 3];
    for k in 0..whole.len() {
        let mut r: &[u8] = &whole[..k];
        assert_eq!(read_handshake(&mut r), Err(ProtocolError::UnexpectedEof));
        assert!(r.is_empty());
    }
}

#[test]
fn handshake_steps_judge_each_part() {
    assert_eq!(check_magic(*b"P2PS"), Ok(()));
    assert_eq!(check_magic(*b"SP2P"), Err(ProtocolError::NotAStream));
    assert_eq!(check_version([1, 200]), Ok(200));
    assert_eq!(check_version([0, 200]), Err(ProtocolError::UnsupportedVersion(0)));
}

#[test]
fn frame_layout_is_little_endian() {
    let mut w = Vec::new();
    write_frame(&mut w, &header(2, 0x0102_0304, 0x0a0b_0c0d, 0), &[0xff, 0xd8, 0xff]);
    assert_eq!(
        w,
        vec![2, 4, 3, 2, 1, 0x0d, 0x0c, 0x0b, 0x0a, 3, 0, 0, 0, 0xff, 0xd8, 0xff]
    );
    assert_eq!(FRAME_HEADER_LEN, 13);
}

#[test]
fn frame_length_field_follows_the_payload() {
    let mut w = Vec::new();
    write_frame(&mut w, &header(0, 1, 1, 77), &[1, 2]);
    let mut r: &[u8] = &w;
    let (h, data) = read_frame(&mut r).unwrap();
    assert_eq!(h, header(0, 1, 1, 2));
    assert_eq!(data, vec![1, 2]);
}

#[test]
fn frames_of_several_monitors_come_back_in_order() {
    let sent = [
        (header(1, 1920, 1080, 3), vec![1u8, 2, 3]),
        (header(0, 2560, 1440, 0), vec![]),
        (header(1, 1920, 1080, 1), vec![9]),
    ];
    let mut w = Vec::new();
    write_handshake(&mut w, 2);
    for (h, data) in &sent {
        write_frame(&mut w, h, data);
    }
    let mut r: &[u8] = &w;
    assert_eq!(read_handshake(&mut r), Ok(2));
    for (h, data) in &sent {
        let (got, bytes) = read_frame(&mut r).unwrap();
        assert_eq!(got, *h);
        assert_eq!(&bytes, data);
    }
    assert!(r.is_empty());
    assert_eq!(read_frame(&mut r).err(), Some(ProtocolError::UnexpectedEof));
}

#[test]
fn frame_over_the_cap_is_refused_by_its_header() {
    assert_eq!(MAX_FRAME_BYTES, 32 * 1024 * 1024);
    let mut hdr = [0u8; 13];
    hdr[9..13].copy_from_slice(&(MAX_FRAME_BYTES + 1).to_le_bytes());
    assert_eq!(
        parse_frame_header(hdr),
        Err(ProtocolError::FrameTooLarge(MAX_FRAME_BYTES + 1))
    );
    let mut r: &[u8] = &hdr;
    assert_eq!(
        read_frame(&mut r).err(),
        Some(ProtocolError::FrameTooLarge(MAX_FRAME_BYTES + 1))
    );
    hdr[9..13].copy_from_slice(&MAX_FRAME_BYTES.to_le_bytes());
    assert_eq!(parse_frame_header(hdr), Ok(header(0, 0, 0, MAX_FRAME_BYTES)));
}

#[test]
fn frame_cut_short_is_an_end_of_file() {
    let mut w = Vec::new();
    write_frame(&mut w, &header(4, 10, 20, 0), &[5, 6, 7]);
    for k in 0..w.len() {
        let mut r: &[u8] = &w[..k];
        assert_eq!(read_frame(&mut r).err(), Some(ProtocolError::UnexpectedEof));
        assert!(r.is_empty());
    }
}

#[test]
fn what_is_read_as_a_frame_is_what_a_writer_writes() {
    let bytes: Vec<u8> = vec![200, 1, 0, 0, 128, 255, 255, 255, 255, 2, 0, 0, 0, 11, 22, 33];
    let mut r: &[u8] = &bytes;
    let (h, data) = read_frame(&mut r).unwrap();
    let mut w = Vec::new();
    write_frame(&mut w, &h, &data);
    w.extend_from_slice(r);
    assert_eq!(w, bytes);
}

#[test]
fn protocol_errors_in_words() {
    assert_eq!(ProtocolError::UnexpectedEof.message(), "failed to fill whole buffer");
    assert_eq!(ProtocolError::NotAStream.message(), "not a p2p-screenshare stream");
    assert_eq!(ProtocolError::UnsupportedVersion(9).message(), "unsupported protocol version 9");
    assert_eq!(ProtocolError::FrameTooLarge(33554433).message(), "frame too large: 33554433");
}
