//! One display's side of a capture loop: packing a captured frame, telling whether it changed,
//! and encoding it.

use vstd::prelude::*;

use crate::text::push_decimal;

verus! {

// ---------- outside functions ----------

/// `jpeg_encoder::EncodingError`, carried through as it is.
#[verifier::external_type_specification]
#[verifier::external_body]
pub struct ExEncodingError(jpeg_encoder::EncodingError);

/// The 64-bit XXH3 hash of `data`.
pub uninterp spec fn xxh3_of(data: Seq<u8>) -> u64;

/// `xxhash_rust::xxh3::xxh3_64`: a hash that depends on the bytes alone.
#[verifier::external_body]
fn xxh3(data: &[u8]) -> (h: u64)
    ensures
        h == xxh3_of(data@),
{
    xxhash_rust::xxh3::xxh3_64(data)
}

/// The JPEG file made of `bgra`, four bytes a pixel, at the given quality.
pub uninterp spec fn jpeg_of(bgra: Seq<u8>, width: u16, height: u16, quality: u8) -> Seq<u8>;

/// `jpeg_encoder::Encoder::encode` on BGRA pixels, writing into memory: it fails exactly when
/// a side is zero or when there are fewer bytes than the sides call for; what it writes depends
/// on its arguments alone. The file has one frame header, before its first scan, in which no
/// component is sampled more finely than the first, and it is not progressive: it is one that
/// the decoder can take.
#[verifier::external_body]
fn encode_bgra(bgra: &[u8], width: u16, height: u16, quality: u8) -> (res: Result<
    Vec<u8>,
    jpeg_encoder::EncodingError,
>)
    requires
        width * height * 4 <= usize::MAX,
    ensures
        res is Ok == (width != 0 && height != 0 && width * height * 4 <= bgra@.len()),
        res is Ok ==> res->Ok_0@ == jpeg_of(bgra@, width, height, quality),
        res is Ok ==> !crate::layout::is_beyond_decoder(res->Ok_0@),
{
    let mut out: Vec<u8> = Vec::new();
    let encoder = jpeg_encoder::Encoder::new(&mut out, quality);
    encoder.encode(bgra, width, height, jpeg_encoder::ColorType::Bgra)?;
    Ok(out)
}

// ---------- packing ----------

/// The distance between the starts of two rows in a captured frame of `height` rows.
pub open spec fn stride_of(raw: Seq<u8>, height: int) -> int {
    raw.len() as int / height
}

/// The first `rows` rows of a captured frame, `row_bytes` of each, one behind the other.
pub open spec fn packed_rows(raw: Seq<u8>, stride: int, row_bytes: int, rows: int) -> Seq<u8>
    decreases rows,
{
    if rows <= 0 {
        Seq::empty()
    } else {
        packed_rows(raw, stride, row_bytes, rows - 1) + raw.subrange(
            (rows - 1) * stride,
            (rows - 1) * stride + row_bytes,
        )
    }
}

/// Whether every row of a captured frame lies within it.
pub open spec fn rows_fit(raw: Seq<u8>, row_bytes: int, height: int) -> bool {
    height > 0 && (height - 1) * stride_of(raw, height) + row_bytes <= raw.len()
}

proof fn lemma_row_in_frame(raw: Seq<u8>, row_bytes: int, height: int, y: int)
    requires
        rows_fit(raw, row_bytes, height),
        0 <= y < height,
        0 <= row_bytes,
    ensures
        0 <= y * stride_of(raw, height) <= (height - 1) * stride_of(raw, height),
        y * stride_of(raw, height) + row_bytes <= raw.len(),
{
    let stride = stride_of(raw, height);
    assert(0 <= stride) by (nonlinear_arith)
        requires
            stride == raw.len() as int / height,
            height > 0,
            raw.len() >= 0,
    ;
    assert(0 <= y * stride <= (height - 1) * stride) by (nonlinear_arith)
        requires
            0 <= y <= height - 1,
            0 <= stride,
    ;
}

proof fn lemma_packed_len(raw: Seq<u8>, stride: int, row_bytes: int, rows: int)
    requires
        0 <= rows,
        0 <= row_bytes,
        0 <= stride,
        rows > 0 ==> (rows - 1) * stride + row_bytes <= raw.len(),
    ensures
        packed_rows(raw, stride, row_bytes, rows).len() == rows * row_bytes,
    decreases rows,
{
    if rows > 0 {
        assert((rows - 1) * stride >= 0 && (rows - 2) * stride + stride == (rows - 1) * stride)
            by (nonlinear_arith)
            requires
                rows > 0,
                stride >= 0,
        ;
        lemma_packed_len(raw, stride, row_bytes, rows - 1);
        assert(rows * row_bytes == (rows - 1) * row_bytes + row_bytes) by (nonlinear_arith);
    }
}

/// Packs the rows of a captured frame into `packed`, dropping what pads them.
fn pack_rows(raw: &[u8], row_bytes: usize, height: usize, packed: &mut Vec<u8>)
    requires
        rows_fit(raw@, row_bytes as int, height as int),
    ensures
        final(packed)@ == packed_rows(
            raw@,
            stride_of(raw@, height as int),
            row_bytes as int,
            height as int,
        ),
{
    let total: usize = raw.len();
    let stride: usize = total / height;
    packed.clear();
    let mut y: usize = 0;
    while y < height
        invariant
            y <= height,
            total == raw@.len(),
            rows_fit(raw@, row_bytes as int, height as int),
            stride == stride_of(raw@, height as int),
            packed@ == packed_rows(raw@, stride as int, row_bytes as int, y as int),
        decreases height - y,
    {
        proof {
            lemma_row_in_frame(raw@, row_bytes as int, height as int, y as int);
        }
        let start: usize = y * stride;
        let row = vstd::slice::slice_subrange(raw, start, start + row_bytes);
        packed.extend_from_slice(row);
        proof {
            assert(packed@ =~= packed_rows(raw@, stride as int, row_bytes as int, y as int) + row@);
        }
        y = y + 1;
    }
}

// ---------- the capture of one display ----------

/// A frame that waits to be sent.
pub struct PendingFrame {
    pub width: u32,
    pub height: u32,
    pub jpeg: Vec<u8>,
}

/// Why a display cannot be captured: a side is too long for a JPEG file.
#[derive(Clone, Copy, Debug, PartialEq, Eq, Structural)]
pub struct DisplayTooLarge {
    pub id: u8,
}

impl DisplayTooLarge {
    pub open spec fn text(self) -> Seq<char> {
        "display "@ + crate::text::decimal(self.id as nat)
            + " too large for JPEG (max 65535 per side)"@
    }

    pub fn message(&self) -> (res: String)
        ensures
            res@ == self.text(),
    {
        let mut out = String::from_str("display ");
        push_decimal(&mut out, self.id as u64);
        out.append(" too large for JPEG (max 65535 per side)");
        out
    }
}

/// What a capture loop keeps from one frame to the next.
pub struct Capture {
    pub width: u32,
    pub height: u32,
    pub quality: u8,
    pub skip_unchanged: bool,
    /// The hash of the last frame looked at, once there was one.
    pub last_hash: Option<u64>,
    /// The last frame captured, four bytes a pixel, without padding.
    pub packed: Vec<u8>,
}

/// Whether a frame with hash `hash` counts as the one before it.
pub open spec fn is_repeat(skip_unchanged: bool, last_hash: Option<u64>, hash: u64) -> bool {
    skip_unchanged && last_hash == Some(hash)
}

/// The hash that is remembered after a frame with hash `hash`.
pub open spec fn remembered(skip_unchanged: bool, last_hash: Option<u64>, hash: u64) -> Option<
    u64,
> {
    if skip_unchanged {
        Some(hash)
    } else {
        last_hash
    }
}

impl Capture {
    /// The sides fit a JPEG file and the buffer holds exactly one frame.
    pub open spec fn wf(&self) -> bool {
        &&& self.width <= 65535
        &&& self.height <= 65535
        &&& self.width * 4 * self.height <= usize::MAX
        &&& self.packed@.len() == self.width * 4 * self.height
    }

    /// Starts a capture of display `id`. A frame must fit the address space.
    pub fn new(id: u8, width: u32, height: u32, quality: u8, skip_unchanged: bool) -> (res: Result<
        Capture,
        DisplayTooLarge,
    >)
        requires
            width <= 65535 && height <= 65535 ==> width * 4 * height <= usize::MAX,
        ensures
            match res {
                Ok(c) => {
                    &&& width <= 65535 && height <= 65535
                    &&& c.wf()
                    &&& c.width == width
                    &&& c.height == height
                    &&& c.quality == quality
                    &&& c.skip_unchanged == skip_unchanged
                    &&& c.last_hash is None
                    &&& forall|i: int| 0 <= i < c.packed@.len() ==> c.packed@[i] == 0
                },
                Err(e) => (width > 65535 || height > 65535) && e.id == id,
            },
    {
        if width > 65535 || height > 65535 {
            return Err(DisplayTooLarge { id });
        }
        let row_bytes: usize = width as usize * 4;
        assert(row_bytes * height == width * 4 * height);
        let packed: Vec<u8> = vec![0u8; row_bytes * height as usize];
        Ok(Capture { width, height, quality, skip_unchanged, last_hash: None, packed })
    }

    /// Whether every row of a captured frame lies within it, for a caller to ask before it hands
    /// the frame over.
    pub fn accepts(&self, raw: &[u8]) -> (res: bool)
        requires
            self.wf(),
        ensures
            res == rows_fit(raw@, self.width * 4, self.height as int),
    {
        if self.height == 0 {
            return false;
        }
        let total: usize = raw.len();
        let rows: usize = self.height as usize;
        let stride: usize = total / rows;
        proof {
            vstd::arithmetic::div_mod::lemma_fundamental_div_mod(total as int, rows as int);
            assert(0 <= (rows - 1) * stride <= total) by (nonlinear_arith)
                requires
                    total == rows * stride + total % rows,
                    0 <= total % rows,
                    rows >= 1,
                    stride >= 0,
            ;
        }
        let last: usize = (rows - 1) * stride;
        self.width as usize * 4 <= total - last
    }

    /// Takes a frame as the capturer delivers it: `height` rows, possibly padded.
    pub fn take_frame(&mut self, raw: &[u8])
        requires
            old(self).wf(),
            rows_fit(raw@, old(self).width * 4, old(self).height as int),
        ensures
            final(self).wf(),
            final(self).packed@ == packed_rows(
                raw@,
                stride_of(raw@, old(self).height as int),
                old(self).width * 4,
                old(self).height as int,
            ),
            final(self).width == old(self).width,
            final(self).height == old(self).height,
            final(self).quality == old(self).quality,
            final(self).skip_unchanged == old(self).skip_unchanged,
            final(self).last_hash == old(self).last_hash,
    {
        let row_bytes: usize = self.width as usize * 4;
        let rows: usize = self.height as usize;
        proof {
            lemma_row_in_frame(raw@, row_bytes as int, rows as int, 0);
            let stride = stride_of(raw@, rows as int);
            assert(0 <= stride) by (nonlinear_arith)
                requires
                    stride == raw@.len() as int / rows as int,
                    rows > 0,
            ;
            lemma_packed_len(raw@, stride, row_bytes as int, rows as int);
            assert(rows * row_bytes == row_bytes * rows) by (nonlinear_arith);
        }
        pack_rows(raw, row_bytes, rows, &mut self.packed);
    }

    /// Takes note of the current frame's hash and tells whether the frame is to be skipped.
    pub fn note_hash(&mut self, hash: u64) -> (same: bool)
        ensures
            same == is_repeat(old(self).skip_unchanged, old(self).last_hash, hash),
            same <==> old(self).skip_unchanged && old(self).last_hash == Some(hash),
            final(self).last_hash == (if old(self).skip_unchanged {
                Some(hash)
            } else {
                old(self).last_hash
            }),
            *final(self) == (Capture {
                last_hash: remembered(old(self).skip_unchanged, old(self).last_hash, hash),
                ..*old(self)
            }),
    {
        if self.skip_unchanged {
            let same: bool = match self.last_hash {
                Some(last) => last == hash,
                None => false,
            };
            self.last_hash = Some(hash);
            same
        } else {
            false
        }
    }

    /// The frame to send once the current pixels have been encoded.
    pub fn pending(&self, jpeg: Vec<u8>) -> (res: PendingFrame)
        ensures
            res.width == self.width,
            res.height == self.height,
            res.jpeg == jpeg,
    {
        PendingFrame { width: self.width, height: self.height, jpeg }
    }

    /// The frame to send for the current pixels, or nothing if they count as unchanged. A viewer's
    /// decoder can take the file.
    pub fn encode_if_changed(&mut self) -> (res: Result<
        Option<PendingFrame>,
        jpeg_encoder::EncodingError,
    >)
        requires
            old(self).wf(),
        ensures
            *final(self) == (Capture {
                last_hash: remembered(
                    old(self).skip_unchanged,
                    old(self).last_hash,
                    xxh3_of(old(self).packed@),
                ),
                ..*old(self)
            }),
            ({
                let same = is_repeat(
                    old(self).skip_unchanged,
                    old(self).last_hash,
                    xxh3_of(old(self).packed@),
                );
                match res {
                    Ok(None) => same,
                    Ok(Some(f)) => {
                        &&& !same
                        &&& old(self).width > 0 && old(self).height > 0
                        &&& f.width == old(self).width
                        &&& f.height == old(self).height
                        &&& f.jpeg@ == jpeg_of(
                            old(self).packed@,
                            old(self).width as u16,
                            old(self).height as u16,
                            old(self).quality,
                        )
                        &&& !crate::layout::is_beyond_decoder(f.jpeg@)
                    },
                    Err(_) => !same && (old(self).width == 0 || old(self).height == 0),
                }
            }),
    {
        if self.skip_unchanged {
            let hash: u64 = xxh3(self.packed.as_slice());
            if self.note_hash(hash) {
                return Ok(None);
            }
        }
        let w: u16 = self.width as u16;
        let h: u16 = self.height as u16;
        assert(w * h * 4 == self.width * 4 * self.height) by (nonlinear_arith)
            requires
                w == self.width,
                h == self.height,
        ;
        match encode_bgra(self.packed.as_slice(), w, h, self.quality) {
            Err(e) => Err(e),
            Ok(jpeg) => Ok(Some(self.pending(jpeg))),
        }
    }
}

// ---------- pacing ----------

/// What to do when the capturer has no new frame yet.
#[derive(Clone, Copy, Debug, PartialEq, Eq, Structural)]
pub enum Wait {
    /// Ask again after a millisecond.
    Retry,
    /// Go on without a frame.
    GiveUp,
}

/// Decides whether to keep waiting for a frame: at most for one frame interval.
pub fn on_would_block(elapsed_nanos: u128, interval_nanos: u128) -> (res: Wait)
    ensures
        res == (if elapsed_nanos >= interval_nanos {
            Wait::GiveUp
        } else {
            Wait::Retry
        }),
{
    if elapsed_nanos >= interval_nanos {
        Wait::GiveUp
    } else {
        Wait::Retry
    }
}

/// How long to sleep after a round that took `elapsed_nanos`, so that rounds start one frame
/// interval apart; `None` if the interval is over.
pub fn rest_of_interval(elapsed_nanos: u128, interval_nanos: u128) -> (res: Option<u128>)
    ensures
        match res {
            Some(d) => d > 0 && elapsed_nanos + d == interval_nanos,
            None => elapsed_nanos >= interval_nanos,
        },
{
    if elapsed_nanos < interval_nanos {
        Some(interval_nanos - elapsed_nanos)
    } else {
        None
    }
}

// ---------- laws ----------

/// Packing keeps every pixel byte at its row and column.
pub proof fn law_packed_pixel(raw: Seq<u8>, row_bytes: int, height: int, y: int, x: int)
    requires
        rows_fit(raw, row_bytes, height),
        0 <= y < height,
        0 <= x < row_bytes,
    ensures
        packed_rows(raw, stride_of(raw, height), row_bytes, height).len() == height * row_bytes,
        0 <= y * row_bytes + x < height * row_bytes,
        packed_rows(raw, stride_of(raw, height), row_bytes, height)[y * row_bytes + x]
            == raw[y * stride_of(raw, height) + x],
{
    let stride = stride_of(raw, height);
    assert(0 <= stride) by (nonlinear_arith)
        requires
            stride == raw.len() as int / height,
            height > 0,
            raw.len() >= 0,
    ;
    lemma_packed_len(raw, stride, row_bytes, height);
    lemma_packed_pixel(raw, stride, row_bytes, height, y, x);
}

proof fn lemma_packed_pixel(
    raw: Seq<u8>,
    stride: int,
    row_bytes: int,
    rows: int,
    y: int,
    x: int,
)
    requires
        0 <= y < rows,
        0 <= x < row_bytes,
        0 <= stride,
        (rows - 1) * stride + row_bytes <= raw.len(),
    ensures
        0 <= y * row_bytes + x < rows * row_bytes,
        packed_rows(raw, stride, row_bytes, rows)[y * row_bytes + x] == raw[y * stride + x],
    decreases rows,
{
    assert(0 <= y * row_bytes + x < rows * row_bytes) by (nonlinear_arith)
        requires
            0 <= y <= rows - 1,
            0 <= x < row_bytes,
    ;
    assert((rows - 1) * stride >= 0 && (rows - 2) * stride + stride == (rows - 1) * stride)
        by (nonlinear_arith)
        requires
            rows > 0,
            stride >= 0,
    ;
    lemma_packed_len(raw, stride, row_bytes, rows - 1);
    if y < rows - 1 {
        lemma_packed_pixel(raw, stride, row_bytes, rows - 1, y, x);
    }
}

/// A frame without padding is taken as it is.
pub proof fn law_unpadded(raw: Seq<u8>, row_bytes: int, height: int)
    requires
        rows_fit(raw, row_bytes, height),
        stride_of(raw, height) == row_bytes,
    ensures
        packed_rows(raw, stride_of(raw, height), row_bytes, height) == raw.take(
            height * row_bytes,
        ),
{
    assert(height * row_bytes == (height - 1) * row_bytes + row_bytes) by (nonlinear_arith);
    assert(0 <= row_bytes) by (nonlinear_arith)
        requires
            row_bytes == raw.len() as int / height,
            height > 0,
            raw.len() >= 0,
    ;
    lemma_unpadded(raw, row_bytes, height);
}

proof fn lemma_unpadded(raw: Seq<u8>, row_bytes: int, rows: int)
    requires
        0 <= rows,
        0 <= row_bytes,
        rows * row_bytes <= raw.len(),
    ensures
        packed_rows(raw, row_bytes, row_bytes, rows) == raw.take(rows * row_bytes),
    decreases rows,
{
    if rows > 0 {
        assert(rows * row_bytes == (rows - 1) * row_bytes + row_bytes) by (nonlinear_arith);
        assert(0 <= (rows - 1) * row_bytes) by (nonlinear_arith)
            requires
                rows > 0,
                row_bytes >= 0,
        ;
        lemma_unpadded(raw, row_bytes, rows - 1);
        assert(packed_rows(raw, row_bytes, row_bytes, rows) =~= raw.take(rows * row_bytes));
    } else {
        assert(rows * row_bytes == 0) by (nonlinear_arith)
            requires
                rows == 0,
        ;
        assert(raw.take(0) =~= Seq::empty());
    }
}

/// A screen that is byte for byte the one before it is not encoded again, whatever was seen
/// earlier.
pub proof fn law_unchanged_is_skipped(last_hash: Option<u64>, pixels: Seq<u8>)
    ensures
        is_repeat(true, remembered(true, last_hash, xxh3_of(pixels)), xxh3_of(pixels)),
{
}

/// A screen whose hash differs from the last one is never skipped, nor is the first one, nor
/// any when skipping is off.
pub proof fn law_changed_is_sent(skip_unchanged: bool, last_hash: Option<u64>, pixels: Seq<u8>)
    requires
        !skip_unchanged || last_hash is None || last_hash->Some_0 != xxh3_of(pixels),
    ensures
        !is_repeat(skip_unchanged, last_hash, xxh3_of(pixels)),
{
}

/// A frame counts as the one before it only if skipping is on and its hash is the one remembered;
/// with skipping on each frame's hash is remembered, and with skipping off none is.
pub proof fn law_repeat(skip_unchanged: bool, last_hash: Option<u64>, hash: u64)
    ensures
        is_repeat(skip_unchanged, last_hash, hash) <==> skip_unchanged && last_hash == Some(hash),
        remembered(true, last_hash, hash) == Some(hash),
        remembered(false, last_hash, hash) == last_hash,
{
}

/// A captured frame is cut into rows of equal length, as long as they can be; what is left over
/// is less than a byte for each row.
pub proof fn law_stride(raw: Seq<u8>, height: int)
    requires
        height > 0,
    ensures
        stride_of(raw, height) * height <= raw.len() < (stride_of(raw, height) + 1) * height,
{
    let q = stride_of(raw, height);
    vstd::arithmetic::div_mod::lemma_fundamental_div_mod(raw.len() as int, height);
    assert(q * height <= raw.len() < (q + 1) * height) by (nonlinear_arith)
        requires
            raw.len() == height * q + raw.len() as int % height,
            0 <= raw.len() as int % height < height,
    ;
}

/// A captured frame is accepted exactly if it has a row and the pixels of every row lie within
/// it.
pub proof fn law_rows_fit(raw: Seq<u8>, row_bytes: int, height: int)
    requires
        0 <= row_bytes,
    ensures
        rows_fit(raw, row_bytes, height) <==> height > 0 && forall|y: int|
            0 <= y < height ==> #[trigger] (y * stride_of(raw, height)) + row_bytes <= raw.len(),
{
    if rows_fit(raw, row_bytes, height) {
        assert forall|y: int| 0 <= y < height implies #[trigger] (y * stride_of(raw, height))
            + row_bytes <= raw.len() by {
            lemma_row_in_frame(raw, row_bytes, height, y);
        }
    }
    if height > 0 && forall|y: int|
        0 <= y < height ==> #[trigger] (y * stride_of(raw, height)) + row_bytes <= raw.len() {
        let y = height - 1;
        assert(y * stride_of(raw, height) + row_bytes <= raw.len());
    }
}

/// What is said of a display that is too large names it.
pub proof fn law_too_large_text(id: u8)
    ensures
        (DisplayTooLarge { id }).text() == "display "@ + (crate::text::decimal(id as nat)
            + " too large for JPEG (max 65535 per side)"@),
{
    assert((DisplayTooLarge { id }).text() =~= "display "@ + (crate::text::decimal(id as nat)
        + " too large for JPEG (max 65535 per side)"@));
}

} // verus!
