//! From a received JPEG file to the pixels of a window.

use vstd::prelude::*;

use crate::layout::beyond_decoder;

verus! {

// ---------- outside functions ----------

/// `zune_jpeg::errors::DecodeErrors`, carried through as it is.
#[verifier::external_type_specification]
#[verifier::external_body]
pub struct ExDecodeErrors(zune_jpeg::errors::DecodeErrors);

/// The sides that the headers of a JPEG file announce, if the headers can be read.
pub uninterp spec fn jpeg_sides(jpeg: Seq<u8>) -> Option<(usize, usize)>;

/// The number of bytes that an image of the given sides takes at four bytes a pixel, if the
/// address space holds as many.
pub open spec fn bgra_size(w: usize, h: usize) -> Option<usize> {
    if w * h * 4 <= usize::MAX {
        Some((w * h * 4) as usize)
    } else {
        None
    }
}

/// `JpegDecoder::decode_headers`, `dimensions` and `output_buffer_size` of zune-jpeg, for BGRA
/// output: whether the headers can be read, and the sides they announce, depend on the file
/// alone; both sides are 16-bit numbers. Once the headers are read both questions have an
/// answer, the second one unless the size overflows.
#[verifier::external_body]
fn read_headers(jpeg: &[u8]) -> (res: Result<
    (Option<(usize, usize)>, Option<usize>),
    zune_jpeg::errors::DecodeErrors,
>)
    ensures
        res is Ok == jpeg_sides(jpeg@) is Some,
        res is Ok ==> res->Ok_0.0 == jpeg_sides(jpeg@),
        res is Ok ==> res->Ok_0.0->Some_0.0 <= 65535 && res->Ok_0.0->Some_0.1 <= 65535,
        res is Ok ==> res->Ok_0.1 == bgra_size(res->Ok_0.0->Some_0.0, res->Ok_0.0->Some_0.1),
{
    let opts = zune_core::options::DecoderOptions::default()
        .jpeg_set_out_colorspace(zune_core::colorspace::ColorSpace::BGRA);
    let mut dec = zune_jpeg::JpegDecoder::new_with_options(std::io::Cursor::new(jpeg), opts);
    dec.decode_headers()?;
    Ok((dec.dimensions(), dec.output_buffer_size()))
}

/// Whether the image data of a JPEG file can be decoded into `room` bytes.
pub uninterp spec fn jpeg_decodes(jpeg: Seq<u8>, room: nat) -> bool;

/// The bytes that decoding a JPEG file leaves in a room that held `before`, four bytes a pixel:
/// blue, green, red and alpha. A damaged file may leave part of the room as it was.
pub uninterp spec fn jpeg_bgra(jpeg: Seq<u8>, before: Seq<u8>) -> Seq<u8>;

/// `JpegDecoder::decode_into` of zune-jpeg, for BGRA output, on the first `room` bytes of `out`:
/// it succeeds or fails by the file and the room alone, and never in less room than the image
/// takes. What it leaves in the room depends on the file and on what the room held before; it
/// leaves the bytes behind the room as they are. The files on which the decoder may index beyond
/// its working space are left out, by their headers; whether it would in fact do so depends, for
/// a picture in several sequential scans, on the image data too. The decoder is taken as it is
/// built for a release, without overflow checks: sums and products of the coefficients of a
/// damaged file wrap around.
#[verifier::external_body]
fn decode_bgra(jpeg: &[u8], out: &mut Vec<u8>, room: usize) -> (res: Result<
    (),
    zune_jpeg::errors::DecodeErrors,
>)
    requires
        room <= old(out)@.len(),
        jpeg_sides(jpeg@) is Some,
        bgra_size(jpeg_sides(jpeg@)->Some_0.0, jpeg_sides(jpeg@)->Some_0.1) is Some,
        !crate::layout::is_beyond_decoder(jpeg@),
    ensures
        res is Ok == jpeg_decodes(jpeg@, room as nat),
        res is Ok ==> jpeg_sides(jpeg@)->Some_0.0 * jpeg_sides(jpeg@)->Some_0.1 * 4 <= room,
        final(out)@.len() == old(out)@.len(),
        final(out)@.skip(room as int) == old(out)@.skip(room as int),
        res is Ok ==> final(out)@.take(room as int) == jpeg_bgra(
            jpeg@,
            old(out)@.take(room as int),
        ),
{
    let opts = zune_core::options::DecoderOptions::default()
        .jpeg_set_out_colorspace(zune_core::colorspace::ColorSpace::BGRA);
    let mut dec = zune_jpeg::JpegDecoder::new_with_options(std::io::Cursor::new(jpeg), opts);
    dec.decode_into(&mut out[..room])
}

// ---------- pixels ----------

/// The window pixel made of the bytes blue, green, red and alpha: 0xAARRGGBB.
pub open spec fn xrgb(b: u8, g: u8, r: u8, a: u8) -> u32 {
    (b + 256 * g + 65536 * r + 16777216 * a) as u32
}

/// The first `n` pixels of `bytes`, four bytes a pixel.
pub open spec fn xrgb_pixels(bytes: Seq<u8>, n: nat) -> Seq<u32> {
    Seq::new(
        n,
        |i: int| xrgb(bytes[4 * i], bytes[4 * i + 1], bytes[4 * i + 2], bytes[4 * i + 3]),
    )
}

/// Turns the first `n` pixels of `bytes` into window pixels.
pub fn pixels_from_bgra(bytes: &[u8], n: usize) -> (res: Vec<u32>)
    requires
        4 * n <= bytes@.len(),
    ensures
        res@ == xrgb_pixels(bytes@, n as nat),
        res@.len() == n,
        forall|i: int|
            0 <= i < n ==> (#[trigger] res@[i]) % 256 == bytes@[4 * i] && res@[i] / 256 % 256
                == bytes@[4 * i + 1] && res@[i] / 65536 % 256 == bytes@[4 * i + 2] && res@[i]
                / 16777216 == bytes@[4 * i + 3],
{
    let mut px: Vec<u32> = Vec::new();
    let total: usize = bytes.len();
    let mut i: usize = 0;
    while i < n
        invariant
            i <= n,
            4 * n <= total,
            total == bytes@.len(),
            px@ == xrgb_pixels(bytes@, i as nat),
        decreases n - i,
    {
        let at: usize = 4 * i;
        let p: u32 = bytes[at] as u32 + 256 * (bytes[at + 1] as u32) + 65536 * (
        bytes[at + 2] as u32) + 16777216 * (bytes[at + 3] as u32);
        px.push(p);
        i = i + 1;
        assert(px@ =~= xrgb_pixels(bytes@, i as nat));
    }
    proof {
        assert forall|i: int| 0 <= i < n implies (#[trigger] px@[i]) % 256 == bytes@[4 * i] && px@[i]
            / 256 % 256 == bytes@[4 * i + 1] && px@[i] / 65536 % 256 == bytes@[4 * i + 2] && px@[i]
            / 16777216 == bytes@[4 * i + 3] by {
            law_pixel_holds_its_bytes(bytes@, n as nat, i);
        }
    }
    px
}

/// A decoded picture: `h` rows of `w` pixels.
pub struct Picture {
    pub pixels: Vec<u32>,
    pub w: u32,
    pub h: u32,
}

impl Picture {
    /// There are as many pixels as the sides call for.
    pub open spec fn wf(&self) -> bool {
        self.pixels@.len() == self.w * self.h
    }

    /// What a window shows before the first frame.
    pub fn none() -> (res: Picture)
        ensures
            res.wf(),
            res.pixels@.len() == 0,
            res.w == 0,
            res.h == 0,
    {
        Picture { pixels: Vec::new(), w: 0, h: 0 }
    }
}

/// Why a received file could not be turned into a picture.
#[derive(Debug)]
pub enum DecodeError {
    /// Its headers cannot be read.
    Headers(zune_jpeg::errors::DecodeErrors),
    /// Its headers do not tell the sides.
    NoDimensions,
    /// The picture does not fit the address space.
    TooLarge,
    /// Its components are laid out in a way that the decoder cannot take.
    Unsupported,
    /// Its image data cannot be decoded.
    Pixels(zune_jpeg::errors::DecodeErrors),
}

/// The first `n` bytes of `s`, with zeros behind them where `s` is shorter.
pub open spec fn room_of(s: Seq<u8>, n: nat) -> Seq<u8> {
    Seq::new(
        n,
        |i: int|
            if i < s.len() {
                s[i]
            } else {
                0
            },
    )
}

/// The pixels of a picture of `n` pixels: what the file is decoded to in scratch space that held
/// `scratch`.
pub open spec fn decoded_pixels(jpeg: Seq<u8>, scratch: Seq<u8>, n: nat) -> Seq<u32> {
    xrgb_pixels(jpeg_bgra(jpeg, room_of(scratch, 4 * n)), n)
}

/// Makes a picture of the decoded bytes of an image of the given sides.
pub fn picture_from_bgra(bytes: &[u8], w: usize, h: usize) -> (res: Picture)
    requires
        w <= 65535,
        h <= 65535,
        w * h * 4 <= bytes@.len(),
    ensures
        res.wf(),
        res.w == w,
        res.h == h,
        res.pixels@ == xrgb_pixels(bytes@, (w * h) as nat),
        forall|i: int|
            0 <= i < w * h ==> (#[trigger] res.pixels@[i]) % 256 == bytes@[4 * i] && res.pixels@[i]
                / 256 % 256 == bytes@[4 * i + 1] && res.pixels@[i] / 65536 % 256 == bytes@[4 * i
                + 2] && res.pixels@[i] / 16777216 == bytes@[4 * i + 3],
{
    let total: usize = bytes.len();
    assert(0 <= w * h <= w * h * 4 <= total) by (nonlinear_arith)
        requires
            w * h * 4 <= total,
    ;
    let n: usize = w * h;
    Picture { pixels: pixels_from_bgra(bytes, n), w: w as u32, h: h as u32 }
}

/// Decodes a received file. `bytes_buf` is scratch space that is kept between calls; it grows
/// to what the largest picture takes, and on success holds the bytes of the picture.
///
/// The decoder must be built without overflow checks, as it is for a release: with them it may
/// panic on the coefficients of a damaged file, which otherwise wrap around.
pub fn decode_picture(jpeg: &[u8], bytes_buf: &mut Vec<u8>) -> (res: Result<Picture, DecodeError>)
    ensures
        final(bytes_buf)@.len() >= old(bytes_buf)@.len(),
        match res {
            Err(DecodeError::Headers(_)) => {
                &&& jpeg_sides(jpeg@) is None
                &&& final(bytes_buf)@ == old(bytes_buf)@
            },
            _ => {
                &&& jpeg_sides(jpeg@) is Some
                &&& ({
                    let (w, h) = jpeg_sides(jpeg@)->Some_0;
                    match res {
                        Ok(p) => {
                            &&& w * h * 4 <= usize::MAX
                            &&& !crate::layout::is_beyond_decoder(jpeg@)
                            &&& jpeg_decodes(jpeg@, (w * h * 4) as nat)
                            &&& p.wf()
                            &&& p.w == w
                            &&& p.h == h
                            &&& w * h * 4 <= final(bytes_buf)@.len()
                            &&& p.pixels@ == decoded_pixels(
                                jpeg@,
                                old(bytes_buf)@,
                                (w * h) as nat,
                            )
                            &&& p.pixels@ == xrgb_pixels(final(bytes_buf)@, (w * h) as nat)
                        },
                        Err(DecodeError::Pixels(_)) => {
                            &&& w * h * 4 <= usize::MAX
                            &&& !crate::layout::is_beyond_decoder(jpeg@)
                            &&& !jpeg_decodes(jpeg@, (w * h * 4) as nat)
                        },
                        Err(DecodeError::Unsupported) => {
                            &&& w * h * 4 <= usize::MAX
                            &&& crate::layout::is_beyond_decoder(jpeg@)
                            &&& final(bytes_buf)@ == old(bytes_buf)@
                        },
                        Err(DecodeError::TooLarge) => {
                            &&& w * h * 4 > usize::MAX
                            &&& final(bytes_buf)@ == old(bytes_buf)@
                        },
                        Err(_) => false,
                    }
                })
            },
        },
{
    let (sides, size) = match read_headers(jpeg) {
        Err(e) => return Err(DecodeError::Headers(e)),
        Ok(found) => found,
    };
    let (w, h) = match sides {
        None => return Err(DecodeError::NoDimensions),
        Some(wh) => wh,
    };
    let needed: usize = match size {
        None => return Err(DecodeError::TooLarge),
        Some(n) => n,
    };
    if beyond_decoder(jpeg) {
        return Err(DecodeError::Unsupported);
    }
    if bytes_buf.len() < needed {
        bytes_buf.resize(needed, 0);
    }
    let ghost n = (w * h) as nat;
    assert(bytes_buf@.take(needed as int) =~= room_of(old(bytes_buf)@, 4 * n));
    match decode_bgra(jpeg, bytes_buf, needed) {
        Err(e) => Err(DecodeError::Pixels(e)),
        Ok(()) => {
            let p = picture_from_bgra(bytes_buf.as_slice(), w, h);
            assert(xrgb_pixels(bytes_buf@, n) =~= xrgb_pixels(bytes_buf@.take(needed as int), n));
            Ok(p)
        },
    }
}

// ---------- laws ----------

/// The four bytes of a pixel can be read back from it: blue is the least significant one, then
/// come green, red and alpha.
pub proof fn law_pixel_holds_its_bytes(bytes: Seq<u8>, n: nat, i: int)
    requires
        0 <= i < n,
    ensures
        xrgb_pixels(bytes, n).len() == n,
        xrgb_pixels(bytes, n)[i] % 256 == bytes[4 * i],
        xrgb_pixels(bytes, n)[i] / 256 % 256 == bytes[4 * i + 1],
        xrgb_pixels(bytes, n)[i] / 65536 % 256 == bytes[4 * i + 2],
        xrgb_pixels(bytes, n)[i] / 16777216 == bytes[4 * i + 3],
{
    let (b, g, r, a) = (bytes[4 * i], bytes[4 * i + 1], bytes[4 * i + 2], bytes[4 * i + 3]);
    let x = b + 256 * g + 65536 * r + 16777216 * a;
    assert(x / 256 == g + 256 * r + 65536 * a);
    assert(x / 65536 == r + 256 * a);
    assert(x / 16777216 == a);
}

/// Images that differ in a byte differ in a pixel.
pub proof fn law_pixels_injective(s: Seq<u8>, t: Seq<u8>, n: nat)
    requires
        s.len() == 4 * n,
        t.len() == 4 * n,
        xrgb_pixels(s, n) == xrgb_pixels(t, n),
    ensures
        s == t,
{
    assert forall|j: int| 0 <= j < s.len() implies s[j] == t[j] by {
        let i = j / 4;
        law_pixel_holds_its_bytes(s, n, i);
        law_pixel_holds_its_bytes(t, n, i);
        assert(j == 4 * i || j == 4 * i + 1 || j == 4 * i + 2 || j == 4 * i + 3);
    }
    assert(s =~= t);
}

/// What a picture shows is what the file is decoded to: each pixel holds its four bytes, and the
/// room for them starts out as the scratch space, with zeros where that is shorter.
pub proof fn law_decoded_pixel(jpeg: Seq<u8>, scratch: Seq<u8>, room: Seq<u8>, n: nat, i: int)
    requires
        0 <= i < n,
        room.len() == 4 * n,
        forall|j: int| 0 <= j < room.len() && j < scratch.len() ==> room[j] == scratch[j],
        forall|j: int| scratch.len() <= j < room.len() ==> room[j] == 0,
    ensures
        decoded_pixels(jpeg, scratch, n).len() == n,
        decoded_pixels(jpeg, scratch, n)[i] % 256 == jpeg_bgra(jpeg, room)[4 * i],
        decoded_pixels(jpeg, scratch, n)[i] / 256 % 256 == jpeg_bgra(jpeg, room)[4 * i + 1],
        decoded_pixels(jpeg, scratch, n)[i] / 65536 % 256 == jpeg_bgra(jpeg, room)[4 * i + 2],
        decoded_pixels(jpeg, scratch, n)[i] / 16777216 == jpeg_bgra(jpeg, room)[4 * i + 3],
{
    assert(room_of(scratch, 4 * n) =~= room);
    law_pixel_holds_its_bytes(jpeg_bgra(jpeg, room), n, i);
}

/// An image takes four bytes a pixel, and there is room for it unless the address space ends
/// before.
pub proof fn law_size(w: usize, h: usize)
    ensures
        bgra_size(w, h) is Some <==> w * h * 4 <= usize::MAX,
        bgra_size(w, h) is Some ==> bgra_size(w, h)->Some_0 == w * h * 4,
{
    assert(0 <= w * h * 4) by (nonlinear_arith)
        requires
            0 <= w,
            0 <= h,
    ;
}

} // verus!
