//! The wire format spoken between a sharer and a viewer.
//!
//! One connection carries a handshake, once, and after it any number of frames:
//!
//! ```text
//! handshake:  magic u32 LE ("P2PS")  version u8  monitors u8
//! frame:      monitor_id u8  width u32 LE  height u32 LE  data_len u32 LE  data [u8; data_len]
//! ```
//!
//! Everything here works on bytes in memory. A caller that reads from a socket uses
//! [`check_magic`], [`check_version`] and [`parse_frame_header`] between its own reads;
//! [`read_handshake`] and [`read_frame`] are the same steps over a byte slice.

use vstd::prelude::*;

use crate::text::push_decimal;

verus! {

/// "P2PS", the first byte being the least significant one.
pub const MAGIC: u32 = 0x5350_3250;

pub const VERSION: u8 = 1;

/// The longest payload a reader accepts, in bytes.
pub const MAX_FRAME_BYTES: u32 = 33_554_432;

/// The length of the part of a frame that comes before its payload.
pub const FRAME_HEADER_LEN: usize = 13;

/// What precedes the payload of a frame.
#[derive(Clone, Copy, Debug, PartialEq, Eq, Structural)]
pub struct FrameHeader {
    pub monitor_id: u8,
    pub width: u32,
    pub height: u32,
    pub data_len: u32,
}

/// Why a handshake or a frame could not be read.
#[derive(Clone, Copy, Debug, PartialEq, Eq, Structural)]
pub enum ProtocolError {
    /// The bytes end before the item does.
    UnexpectedEof,
    /// The first four bytes are not [`MAGIC`].
    NotAStream,
    /// The peer speaks another version of the protocol.
    UnsupportedVersion(u8),
    /// The payload is announced as longer than [`MAX_FRAME_BYTES`].
    FrameTooLarge(u32),
}

impl ProtocolError {
    /// The text shown for an error.
    pub open spec fn text(self) -> Seq<char> {
        match self {
            ProtocolError::UnexpectedEof => "failed to fill whole buffer"@,
            ProtocolError::NotAStream => "not a p2p-screenshare stream"@,
            ProtocolError::UnsupportedVersion(v) => "unsupported protocol version "@
                + crate::text::decimal(v as nat),
            ProtocolError::FrameTooLarge(n) => "frame too large: "@ + crate::text::decimal(
                n as nat,
            ),
        }
    }

    pub fn message(&self) -> (res: String)
        ensures
            res@ == self.text(),
    {
        match self {
            ProtocolError::UnexpectedEof => String::from_str("failed to fill whole buffer"),
            ProtocolError::NotAStream => String::from_str("not a p2p-screenshare stream"),
            ProtocolError::UnsupportedVersion(v) => {
                let mut out = String::from_str("unsupported protocol version ");
                push_decimal(&mut out, *v as u64);
                out
            },
            ProtocolError::FrameTooLarge(n) => {
                let mut out = String::from_str("frame too large: ");
                push_decimal(&mut out, *n as u64);
                out
            },
        }
    }
}

// ---------- little-endian integers ----------

/// The four bytes of `x`, least significant first.
pub open spec fn le32(x: u32) -> Seq<u8> {
    seq![
        (x % 256) as u8,
        (x / 256 % 256) as u8,
        (x / 65536 % 256) as u8,
        (x / 16777216) as u8,
    ]
}

/// The integer that the four bytes of `s` from `at` on stand for.
pub open spec fn le32_at(s: Seq<u8>, at: int) -> int {
    s[at] + 256 * s[at + 1] + 65536 * s[at + 2] + 16777216 * s[at + 3]
}

proof fn lemma_le32_inverse(x: u32, s: Seq<u8>, at: int)
    requires
        0 <= at,
        at + 4 <= s.len(),
        s.subrange(at, at + 4) == le32(x),
    ensures
        le32_at(s, at) == x,
{
    let b = s.subrange(at, at + 4);
    assert(b[0] == s[at] && b[1] == s[at + 1] && b[2] == s[at + 2] && b[3] == s[at + 3]);
}

proof fn lemma_le32_of_value(s: Seq<u8>, at: int)
    requires
        0 <= at,
        at + 4 <= s.len(),
    ensures
        0 <= le32_at(s, at) <= u32::MAX,
        le32(le32_at(s, at) as u32) == s.subrange(at, at + 4),
{
    let (b0, b1, b2, b3) = (s[at], s[at + 1], s[at + 2], s[at + 3]);
    lemma_le32_digits(b0, b1, b2, b3);
    assert(le32(le32_at(s, at) as u32) =~= s.subrange(at, at + 4));
}

proof fn lemma_le32_digits(b0: u8, b1: u8, b2: u8, b3: u8)
    ensures
        ({
            let x = b0 + 256 * b1 + 65536 * b2 + 16777216 * b3;
            &&& 0 <= x <= u32::MAX
            &&& x % 256 == b0
            &&& x / 256 % 256 == b1
            &&& x / 65536 % 256 == b2
            &&& x / 16777216 == b3
        }),
{
    let x = b0 + 256 * b1 + 65536 * b2 + 16777216 * b3;
    assert(x / 256 == b1 + 256 * b2 + 65536 * b3);
    assert(x / 65536 == b2 + 256 * b3);
    assert(x / 16777216 == b3);
}

fn push_le32(w: &mut Vec<u8>, x: u32)
    ensures
        final(w)@ == old(w)@ + le32(x),
{
    w.push((x % 256) as u8);
    w.push((x / 256 % 256) as u8);
    w.push((x / 65536 % 256) as u8);
    w.push((x / 16777216) as u8);
    assert(w@ =~= old(w)@ + le32(x));
}

fn join_le32(b0: u8, b1: u8, b2: u8, b3: u8) -> (x: u32)
    ensures
        x == b0 + 256 * b1 + 65536 * b2 + 16777216 * b3,
{
    b0 as u32 + 256 * (b1 as u32) + 65536 * (b2 as u32) + 16777216 * (b3 as u32)
}

// ---------- handshake ----------

/// The bytes of a handshake that announces `num_monitors` streams.
pub open spec fn handshake_bytes(num_monitors: u8) -> Seq<u8> {
    le32(MAGIC) + seq![VERSION, num_monitors]
}

/// What a reader makes of bytes that should start with a handshake.
pub open spec fn handshake_of(s: Seq<u8>) -> Result<u8, ProtocolError> {
    if s.len() < 4 {
        Err(ProtocolError::UnexpectedEof)
    } else if le32_at(s, 0) != MAGIC {
        Err(ProtocolError::NotAStream)
    } else if s.len() < 6 {
        Err(ProtocolError::UnexpectedEof)
    } else if s[4] != VERSION {
        Err(ProtocolError::UnsupportedVersion(s[4]))
    } else {
        Ok(s[5])
    }
}

/// What is left of the bytes after reading a handshake from them: the magic number alone has
/// been taken when it is wrong, everything when the bytes end too early.
pub open spec fn after_handshake(s: Seq<u8>) -> Seq<u8> {
    match handshake_of(s) {
        Err(ProtocolError::UnexpectedEof) => Seq::empty(),
        Err(ProtocolError::NotAStream) => s.skip(4),
        _ => s.skip(6),
    }
}

/// Appends a handshake for `num_monitors` streams to `w`.
pub fn write_handshake(w: &mut Vec<u8>, num_monitors: u8)
    ensures
        final(w)@ == old(w)@ + handshake_bytes(num_monitors),
{
    push_le32(w, MAGIC);
    w.push(VERSION);
    w.push(num_monitors);
    assert(w@ =~= old(w)@ + handshake_bytes(num_monitors));
}

/// Judges the first four bytes of a handshake.
pub fn check_magic(m: [u8; 4]) -> (res: Result<(), ProtocolError>)
    ensures
        res == (if le32_at(m@, 0) == MAGIC {
            Ok::<(), ProtocolError>(())
        } else {
            Err(ProtocolError::NotAStream)
        }),
        res is Ok <==> m@ == seq!['P' as u8, '2' as u8, 'P' as u8, 'S' as u8],
{
    proof {
        law_magic_letters(m@);
    }
    if join_le32(m[0], m[1], m[2], m[3]) == MAGIC {
        Ok(())
    } else {
        Err(ProtocolError::NotAStream)
    }
}

/// Judges the last two bytes of a handshake: the version, then the number of monitors.
pub fn check_version(vb: [u8; 2]) -> (res: Result<u8, ProtocolError>)
    ensures
        res == (if vb@[0] == VERSION {
            Ok::<u8, ProtocolError>(vb@[1])
        } else {
            Err(ProtocolError::UnsupportedVersion(vb@[0]))
        }),
{
    if vb[0] == VERSION {
        Ok(vb[1])
    } else {
        Err(ProtocolError::UnsupportedVersion(vb[0]))
    }
}

/// Leaves nothing to read in `r`.
fn exhaust(r: &mut &[u8])
    ensures
        final(r)@ == Seq::<u8>::empty(),
{
    let s: &[u8] = *r;
    *r = vstd::slice::slice_subrange(s, s.len(), s.len());
    assert(r@ =~= Seq::<u8>::empty());
}

/// Moves `r` past its first `n` bytes.
fn advance(r: &mut &[u8], n: usize)
    requires
        n <= old(r)@.len(),
    ensures
        final(r)@ == old(r)@.skip(n as int),
{
    let s: &[u8] = *r;
    *r = vstd::slice::slice_subrange(s, n, s.len());
}

/// Reads a handshake off the front of `r` and returns the number of monitors it announces.
pub fn read_handshake(r: &mut &[u8]) -> (res: Result<u8, ProtocolError>)
    ensures
        res == handshake_of(old(r)@),
        final(r)@ == after_handshake(old(r)@),
{
    let s: &[u8] = *r;
    if s.len() < 4 {
        exhaust(r);
        return Err(ProtocolError::UnexpectedEof);
    }
    if let Err(e) = check_magic([s[0], s[1], s[2], s[3]]) {
        advance(r, 4);
        return Err(e);
    }
    if s.len() < 6 {
        exhaust(r);
        return Err(ProtocolError::UnexpectedEof);
    }
    advance(r, 6);
    check_version([s[4], s[5]])
}

// ---------- frames ----------

/// The length field of a frame that carries `len` bytes: the length's low 32 bits.
pub open spec fn length_field(len: nat) -> u32 {
    (len % 0x1_0000_0000) as u32
}

/// The bytes of a frame. The length field follows the payload, whatever `h.data_len` says.
pub open spec fn frame_bytes(h: FrameHeader, data: Seq<u8>) -> Seq<u8> {
    seq![h.monitor_id] + le32(h.width) + le32(h.height) + le32(length_field(data.len())) + data
}

/// The header that thirteen bytes stand for.
pub open spec fn header_fields(s: Seq<u8>) -> FrameHeader {
    FrameHeader {
        monitor_id: s[0],
        width: le32_at(s, 1) as u32,
        height: le32_at(s, 5) as u32,
        data_len: le32_at(s, 9) as u32,
    }
}

/// What a reader makes of bytes that should start with a frame.
pub open spec fn frame_of(s: Seq<u8>) -> Result<(FrameHeader, Seq<u8>), ProtocolError> {
    let h = header_fields(s);
    if s.len() < 13 {
        Err(ProtocolError::UnexpectedEof)
    } else if h.data_len > MAX_FRAME_BYTES {
        Err(ProtocolError::FrameTooLarge(h.data_len))
    } else if s.len() < 13 + h.data_len {
        Err(ProtocolError::UnexpectedEof)
    } else {
        Ok((h, s.subrange(13, 13 + h.data_len)))
    }
}

/// What is left of the bytes after reading a frame from them.
pub open spec fn after_frame(s: Seq<u8>) -> Seq<u8> {
    match frame_of(s) {
        Err(ProtocolError::UnexpectedEof) => Seq::empty(),
        Err(_) => s.skip(13),
        Ok((h, _)) => s.skip(13 + h.data_len),
    }
}

/// Appends to `w` the frame that carries `data` under the header `h`.
pub fn write_frame(w: &mut Vec<u8>, h: &FrameHeader, data: &[u8])
    ensures
        final(w)@ == old(w)@ + frame_bytes(*h, data@),
{
    let len: u64 = data.len() as u64;
    let field: u32 = len as u32;
    assert(len as u32 == len % 0x1_0000_0000u64) by (bit_vector);
    w.push(h.monitor_id);
    push_le32(w, h.width);
    push_le32(w, h.height);
    push_le32(w, field);
    w.extend_from_slice(data);
    assert(w@ =~= old(w)@ + frame_bytes(*h, data@));
}

/// Judges the thirteen bytes that precede a payload: the payload may be read only if its
/// announced length is at most [`MAX_FRAME_BYTES`].
pub fn parse_frame_header(hdr: [u8; 13]) -> (res: Result<FrameHeader, ProtocolError>)
    ensures
        res == (if header_fields(hdr@).data_len <= MAX_FRAME_BYTES {
            Ok::<FrameHeader, ProtocolError>(header_fields(hdr@))
        } else {
            Err(ProtocolError::FrameTooLarge(header_fields(hdr@).data_len))
        }),
        res matches Ok(h) ==> {
            &&& h.monitor_id == hdr@[0]
            &&& h.width == hdr@[1] + 256 * hdr@[2] + 65536 * hdr@[3] + 16777216 * hdr@[4]
            &&& h.height == hdr@[5] + 256 * hdr@[6] + 65536 * hdr@[7] + 16777216 * hdr@[8]
            &&& h.data_len == hdr@[9] + 256 * hdr@[10] + 65536 * hdr@[11] + 16777216 * hdr@[12]
            &&& h.data_len <= 33_554_432
        },
        res is Err <==> hdr@[9] + 256 * hdr@[10] + 65536 * hdr@[11] + 16777216 * hdr@[12]
            > 33_554_432,
{
    let h = FrameHeader {
        monitor_id: hdr[0],
        width: join_le32(hdr[1], hdr[2], hdr[3], hdr[4]),
        height: join_le32(hdr[5], hdr[6], hdr[7], hdr[8]),
        data_len: join_le32(hdr[9], hdr[10], hdr[11], hdr[12]),
    };
    if h.data_len <= MAX_FRAME_BYTES {
        Ok(h)
    } else {
        Err(ProtocolError::FrameTooLarge(h.data_len))
    }
}

/// Reads a frame off the front of `r`: its header and its payload.
pub fn read_frame(r: &mut &[u8]) -> (res: Result<(FrameHeader, Vec<u8>), ProtocolError>)
    ensures
        match res {
            Ok((h, data)) => frame_of(old(r)@) == Ok::<(FrameHeader, Seq<u8>), ProtocolError>(
                (h, data@),
            ),
            Err(e) => frame_of(old(r)@) == Err::<(FrameHeader, Seq<u8>), ProtocolError>(e),
        },
        final(r)@ == after_frame(old(r)@),
{
    let s: &[u8] = *r;
    if s.len() < 13 {
        exhaust(r);
        return Err(ProtocolError::UnexpectedEof);
    }
    let hdr: [u8; 13] = [
        s[0], s[1], s[2], s[3], s[4], s[5], s[6], s[7], s[8], s[9], s[10], s[11], s[12],
    ];
    assert(header_fields(hdr@) == header_fields(s@));
    match parse_frame_header(hdr) {
        Err(e) => {
            advance(r, 13);
            Err(e)
        },
        Ok(h) => {
            let len: usize = h.data_len as usize;
            if s.len() - 13 < len {
                exhaust(r);
                return Err(ProtocolError::UnexpectedEof);
            }
            let data = vstd::slice::slice_to_vec(vstd::slice::slice_subrange(s, 13, 13 + len));
            advance(r, 13 + len);
            Ok((h, data))
        },
    }
}

// ---------- laws ----------

/// The header under which a reader hands out a payload written under `h`: the length field is
/// that of the payload.
pub open spec fn received_header(h: FrameHeader, data: Seq<u8>) -> FrameHeader {
    FrameHeader { data_len: length_field(data.len()), ..h }
}

/// On the wire, a handshake is the letters "P2PS", the version and the number of monitors.
pub proof fn law_handshake_layout(num_monitors: u8)
    ensures
        handshake_bytes(num_monitors) == seq![
            'P' as u8,
            '2' as u8,
            'P' as u8,
            'S' as u8,
            1u8,
            num_monitors,
        ],
{
    assert(handshake_bytes(num_monitors) =~= seq![
        'P' as u8,
        '2' as u8,
        'P' as u8,
        'S' as u8,
        1u8,
        num_monitors,
    ]);
}

/// Four bytes are the magic number exactly if they are the letters "P2PS".
pub proof fn law_magic_letters(s: Seq<u8>)
    requires
        s.len() == 4,
    ensures
        le32_at(s, 0) == MAGIC <==> s == seq!['P' as u8, '2' as u8, 'P' as u8, 'S' as u8],
{
    let letters = seq!['P' as u8, '2' as u8, 'P' as u8, 'S' as u8];
    lemma_le32_of_value(s, 0);
    lemma_le32_of_value(letters, 0);
    assert(le32_at(letters, 0) == MAGIC);
    if le32_at(s, 0) == MAGIC {
        assert(s =~= s.subrange(0, 4));
        assert(letters =~= letters.subrange(0, 4));
    }
}

/// What a reader makes of any bytes that should start with a handshake, letter by letter.
pub proof fn law_handshake_reading(s: Seq<u8>)
    ensures
        ({
            let letters = seq!['P' as u8, '2' as u8, 'P' as u8, 'S' as u8];
            &&& handshake_of(s) == Err::<u8, ProtocolError>(ProtocolError::UnexpectedEof) <==> (
            s.len() < 4 || (s.len() < 6 && s.take(4) == letters))
            &&& handshake_of(s) == Err::<u8, ProtocolError>(ProtocolError::NotAStream) <==> (s.len()
                >= 4 && s.take(4) != letters)
            &&& s.len() >= 6 && s.take(4) == letters && s[4] == 1 ==> handshake_of(s) == Ok::<
                u8,
                ProtocolError,
            >(s[5])
            &&& s.len() >= 6 && s.take(4) == letters && s[4] != 1 ==> handshake_of(s) == Err::<
                u8,
                ProtocolError,
            >(ProtocolError::UnsupportedVersion(s[4]))
        }),
        s.len() < 4 ==> after_handshake(s).len() == 0,
        s.len() >= 4 && handshake_of(s) == Err::<u8, ProtocolError>(ProtocolError::NotAStream)
            ==> after_handshake(s) == s.skip(4),
        s.len() < 6 && handshake_of(s) == Err::<u8, ProtocolError>(ProtocolError::UnexpectedEof)
            ==> after_handshake(s).len() == 0,
        handshake_of(s) is Err && handshake_of(s)->Err_0 is UnsupportedVersion ==> after_handshake(s)
            == s.skip(6),
{
    if s.len() >= 4 {
        law_magic_letters(s.take(4));
        assert(le32_at(s.take(4), 0) == le32_at(s, 0));
    }
}

/// What is written as a handshake is read back, and nothing behind it is touched.
pub proof fn law_handshake_round_trip(num_monitors: u8, tail: Seq<u8>)
    ensures
        handshake_of(handshake_bytes(num_monitors) + tail) == Ok::<u8, ProtocolError>(
            num_monitors,
        ),
        after_handshake(handshake_bytes(num_monitors) + tail) == tail,
{
    let s = handshake_bytes(num_monitors) + tail;
    assert(s.subrange(0, 4) =~= le32(MAGIC));
    lemma_le32_inverse(MAGIC, s, 0);
    assert(after_handshake(s) =~= tail);
}

/// Only the bytes that a writer produces are read as a handshake.
pub proof fn law_handshake_unique(s: Seq<u8>)
    requires
        handshake_of(s) is Ok,
    ensures
        s.take(6) == handshake_bytes(handshake_of(s)->Ok_0),
        after_handshake(s) == s.skip(6),
{
    lemma_le32_of_value(s, 0);
    let n = handshake_of(s)->Ok_0;
    let b = s.subrange(0, 4);
    assert(s.take(6) =~= handshake_bytes(n)) by {
        assert(b[0] == s[0] && b[1] == s[1] && b[2] == s[2] && b[3] == s[3]);
    }
}

/// On the wire, a frame is the stream's number, the width, the height and the length of its
/// payload, each of the three as four bytes with the least significant first, and the payload.
pub proof fn law_frame_layout(h: FrameHeader, data: Seq<u8>)
    ensures
        ({
            let f = frame_bytes(h, data);
            &&& f.len() == 13 + data.len()
            &&& f[0] == h.monitor_id
            &&& f[1] + 256 * f[2] + 65536 * f[3] + 16777216 * f[4] == h.width
            &&& f[5] + 256 * f[6] + 65536 * f[7] + 16777216 * f[8] == h.height
            &&& f[9] + 256 * f[10] + 65536 * f[11] + 16777216 * f[12] == data.len() as int
                % 0x1_0000_0000
            &&& f.skip(13) == data
        }),
{
    let f = frame_bytes(h, data);
    let (w, t, l) = (le32(h.width), le32(h.height), le32(length_field(data.len())));
    law_le32(h.width);
    law_le32(h.height);
    law_le32(length_field(data.len()));
    assert(f[1] == w[0] && f[2] == w[1] && f[3] == w[2] && f[4] == w[3]);
    assert(f[5] == t[0] && f[6] == t[1] && f[7] == t[2] && f[8] == t[3]);
    assert(f[9] == l[0] && f[10] == l[1] && f[11] == l[2] && f[12] == l[3]);
    assert(f.skip(13) =~= data);
}

/// What a reader makes of any bytes that should start with a frame, byte by byte.
pub proof fn law_frame_reading(s: Seq<u8>)
    ensures
        ({
            let len = s[9] + 256 * s[10] + 65536 * s[11] + 16777216 * s[12];
            match frame_of(s) {
                Ok((h, data)) => {
                    &&& s.len() >= 13 + len
                    &&& len <= 33_554_432
                    &&& h.monitor_id == s[0]
                    &&& h.width == s[1] + 256 * s[2] + 65536 * s[3] + 16777216 * s[4]
                    &&& h.height == s[5] + 256 * s[6] + 65536 * s[7] + 16777216 * s[8]
                    &&& h.data_len == len
                    &&& data == s.subrange(13, 13 + len)
                    &&& after_frame(s) == s.skip(13 + len)
                },
                Err(e) => {
                    ||| e == ProtocolError::UnexpectedEof && (s.len() < 13 || (len <= 33_554_432
                        && s.len() < 13 + len)) && after_frame(s).len() == 0
                    ||| e == ProtocolError::FrameTooLarge(len as u32) && s.len() >= 13 && len
                        > 33_554_432 && after_frame(s) == s.skip(13)
                },
            }
        }),
{
}

/// Four bytes hold any number, the least significant byte first.
pub proof fn law_le32(x: u32)
    ensures
        le32(x).len() == 4,
        le32(x)[0] + 256 * le32(x)[1] + 65536 * le32(x)[2] + 16777216 * le32(x)[3] == x,
{
}

/// What is said of a version or a length that is refused ends with the number.
pub proof fn law_error_numbers(v: u8, n: u32)
    ensures
        ProtocolError::UnsupportedVersion(v).text() == "unsupported protocol version "@
            + crate::text::decimal(v as nat),
        ProtocolError::FrameTooLarge(n).text() == "frame too large: "@ + crate::text::decimal(
            n as nat,
        ),
{
}

/// The header of a written frame, as a reader sees it.
proof fn lemma_written_header(h: FrameHeader, data: Seq<u8>, s: Seq<u8>)
    requires
        s.len() >= 13,
        s.take(13) == frame_bytes(h, data).take(13),
    ensures
        header_fields(s) == received_header(h, data),
{
    let f = frame_bytes(h, data);
    assert forall|i: int| 0 <= i < 13 implies s[i] == f[i] by {
        assert(s.take(13)[i] == f.take(13)[i]);
    }
    assert(s.subrange(1, 5) =~= le32(h.width));
    assert(s.subrange(5, 9) =~= le32(h.height));
    assert(s.subrange(9, 13) =~= le32(length_field(data.len())));
    lemma_le32_inverse(h.width, s, 1);
    lemma_le32_inverse(h.height, s, 5);
    lemma_le32_inverse(length_field(data.len()), s, 9);
}

/// A frame whose payload is within the cap is read back as it was written, and nothing behind
/// it is touched.
pub proof fn law_frame_round_trip(h: FrameHeader, data: Seq<u8>, tail: Seq<u8>)
    requires
        data.len() <= MAX_FRAME_BYTES,
    ensures
        frame_of(frame_bytes(h, data) + tail) == Ok::<(FrameHeader, Seq<u8>), ProtocolError>(
            (received_header(h, data), data),
        ),
        received_header(h, data).data_len == data.len(),
        after_frame(frame_bytes(h, data) + tail) == tail,
{
    let s = frame_bytes(h, data) + tail;
    assert(s.take(13) =~= frame_bytes(h, data).take(13));
    lemma_written_header(h, data, s);
    assert(s.subrange(13, 13 + data.len() as int) =~= data);
    assert(after_frame(s) =~= tail);
}

/// A frame whose payload is beyond the cap is refused by its header alone, whether or not the
/// payload follows.
pub proof fn law_frame_cap(h: FrameHeader, data: Seq<u8>, s: Seq<u8>)
    requires
        MAX_FRAME_BYTES < data.len() <= u32::MAX,
        s.len() >= 13,
        s.take(13) == frame_bytes(h, data).take(13),
    ensures
        frame_of(s) == Err::<(FrameHeader, Seq<u8>), ProtocolError>(
            ProtocolError::FrameTooLarge(data.len() as u32),
        ),
{
    lemma_written_header(h, data, s);
}

/// A frame cut short anywhere is reported as such; no part of it is taken for a frame.
pub proof fn law_frame_truncated(h: FrameHeader, data: Seq<u8>, k: int)
    requires
        data.len() <= MAX_FRAME_BYTES,
        0 <= k < frame_bytes(h, data).len(),
    ensures
        frame_of(frame_bytes(h, data).take(k)) == Err::<(FrameHeader, Seq<u8>), ProtocolError>(
            ProtocolError::UnexpectedEof,
        ),
{
    let s = frame_bytes(h, data).take(k);
    if k >= 13 {
        assert(s.take(13) =~= frame_bytes(h, data).take(13));
        lemma_written_header(h, data, s);
    }
}

/// Only the bytes that a writer produces are read as a frame.
pub proof fn law_frame_unique(s: Seq<u8>)
    requires
        frame_of(s) is Ok,
    ensures
        s == frame_bytes(frame_of(s)->Ok_0.0, frame_of(s)->Ok_0.1) + after_frame(s),
{
    let (h, data) = frame_of(s)->Ok_0;
    lemma_le32_of_value(s, 1);
    lemma_le32_of_value(s, 5);
    lemma_le32_of_value(s, 9);
    let w = s.subrange(1, 5);
    let t = s.subrange(5, 9);
    let l = s.subrange(9, 13);
    assert(forall|i: int| 0 <= i < 4 ==> w[i] == s[1 + i] && t[i] == s[5 + i] && l[i] == s[9 + i]);
    assert(s =~= frame_bytes(h, data) + after_frame(s));
}

/// The bytes of a run of frames, one behind the other.
pub open spec fn frames_bytes(frames: Seq<(FrameHeader, Seq<u8>)>) -> Seq<u8>
    decreases frames.len(),
{
    if frames.len() == 0 {
        Seq::empty()
    } else {
        frame_bytes(frames[0].0, frames[0].1) + frames_bytes(frames.drop_first())
    }
}

/// One frame more at the end of a run.
pub proof fn lemma_frames_push(frames: Seq<(FrameHeader, Seq<u8>)>, h: FrameHeader, data: Seq<u8>)
    ensures
        frames_bytes(frames.push((h, data))) == frames_bytes(frames) + frame_bytes(h, data),
    decreases frames.len(),
{
    let all = frames.push((h, data));
    if frames.len() == 0 {
        assert(all.drop_first() =~= Seq::empty());
        assert(frames_bytes(all.drop_first()) == Seq::<u8>::empty());
        assert(frames_bytes(all) =~= frames_bytes(frames) + frame_bytes(h, data));
    } else {
        assert(all.drop_first() =~= frames.drop_first().push((h, data)));
        lemma_frames_push(frames.drop_first(), h, data);
        assert(frames_bytes(all) =~= frames_bytes(frames) + frame_bytes(h, data));
    }
}

/// The first `k` frames that a reader takes off `s`, and what is left then; `None` if one of
/// them cannot be read.
pub open spec fn frames_of(s: Seq<u8>, k: nat) -> Option<
    (Seq<(FrameHeader, Seq<u8>)>, Seq<u8>),
>
    decreases k,
{
    if k == 0 {
        Some((Seq::empty(), s))
    } else {
        match frame_of(s) {
            Err(_) => None,
            Ok(f) => match frames_of(after_frame(s), (k - 1) as nat) {
                None => None,
                Some((rest, left)) => Some((seq![f] + rest, left)),
            },
        }
    }
}

/// A run of frames, of any mixture of monitors, is read back in order and without loss.
pub proof fn law_frames_round_trip(frames: Seq<(FrameHeader, Seq<u8>)>, tail: Seq<u8>)
    requires
        forall|i: int| 0 <= i < frames.len() ==> (#[trigger] frames[i]).1.len() <= MAX_FRAME_BYTES,
    ensures
        frames_of(frames_bytes(frames) + tail, frames.len()) == Some(
            (
                frames.map_values(
                    |f: (FrameHeader, Seq<u8>)| (received_header(f.0, f.1), f.1),
                ),
                tail,
            ),
        ),
    decreases frames.len(),
{
    let seen = |f: (FrameHeader, Seq<u8>)| (received_header(f.0, f.1), f.1);
    if frames.len() == 0 {
        assert(frames_bytes(frames) + tail =~= tail);
        assert(frames.map_values(seen) =~= Seq::empty());
    } else {
        let rest = frames.drop_first();
        assert(forall|i: int| 0 <= i < rest.len() ==> rest[i] == frames[i + 1]);
        law_frames_round_trip(rest, tail);
        assert(frames_bytes(frames) + tail =~= frame_bytes(frames[0].0, frames[0].1) + (
        frames_bytes(rest) + tail));
        law_frame_round_trip(frames[0].0, frames[0].1, frames_bytes(rest) + tail);
        assert(frames.map_values(seen) =~= seq![seen(frames[0])] + rest.map_values(seen));
    }
}

/// A whole session: the viewer learns the number of monitors and then gets every frame, in the
/// order in which the sharer wrote them.
pub proof fn law_session_round_trip(num_monitors: u8, frames: Seq<(FrameHeader, Seq<u8>)>)
    requires
        forall|i: int| 0 <= i < frames.len() ==> (#[trigger] frames[i]).1.len() <= MAX_FRAME_BYTES,
    ensures
        handshake_of(handshake_bytes(num_monitors) + frames_bytes(frames)) == Ok::<
            u8,
            ProtocolError,
        >(num_monitors),
        frames_of(
            after_handshake(handshake_bytes(num_monitors) + frames_bytes(frames)),
            frames.len(),
        ) == Some(
            (
                frames.map_values(
                    |f: (FrameHeader, Seq<u8>)| (received_header(f.0, f.1), f.1),
                ),
                Seq::<u8>::empty(),
            ),
        ),
{
    law_handshake_round_trip(num_monitors, frames_bytes(frames));
    law_frames_round_trip(frames, Seq::empty());
    assert(frames_bytes(frames) + Seq::<u8>::empty() =~= frames_bytes(frames));
}

} // verus!
