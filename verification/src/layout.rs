//! The layout of a JPEG file, as far as the decoder's working space depends on it.
//!
//! The decoder sizes some of its working space by the first component of a picture alone. A file
//! whose first component is coarser than another one can make it run out of that space. Such a
//! file is told by its headers here, before it is handed over. Ordinary files sample the first
//! component, the brightness, most finely.

use vstd::prelude::*;

verus! {

// ---------- frame headers ----------

/// The integer that the two bytes of `s` from `at` on stand for, the most significant first.
pub open spec fn be16_at(s: Seq<u8>, at: int) -> int {
    s[at] * 256 + s[at + 1]
}

/// The number of components that the frame header at `k` announces.
pub open spec fn components_at(s: Seq<u8>, k: int) -> int {
    s[k + 9] as int
}

/// The horizontal sampling factor of component `i` of the frame header at `k`.
pub open spec fn across(s: Seq<u8>, k: int, i: int) -> int {
    s[k + 11 + 3 * i] as int / 16
}

/// The vertical sampling factor of component `i` of the frame header at `k`.
pub open spec fn down(s: Seq<u8>, k: int, i: int) -> int {
    s[k + 11 + 3 * i] as int % 16
}

/// Whether the sampling factors of component `i` are ones that can be decoded.
pub open spec fn factors_valid(s: Seq<u8>, k: int, i: int) -> bool {
    &&& across(s, k, i) == 1 || across(s, k, i) == 2 || across(s, k, i) == 4
    &&& 1 <= down(s, k, i) <= 4
}

/// Whether a frame header stands at `k`: one of the three markers for frames that can be decoded,
/// the length, eight bits a sample, the sides, and one to four components.
pub open spec fn is_frame(s: Seq<u8>, k: int) -> bool {
    &&& 0 <= k
    &&& k + 10 <= s.len()
    &&& s[k] == 0xff
    &&& 0xc0 <= s[k + 1] <= 0xc2
    &&& s[k + 4] == 8
    &&& 1 <= components_at(s, k) <= 4
    &&& be16_at(s, k + 2) == 8 + 3 * components_at(s, k)
    &&& k + 10 + 3 * components_at(s, k) <= s.len()
    &&& forall|i: int| 0 <= i < components_at(s, k) ==> #[trigger] factors_valid(s, k, i)
}

/// Whether the frame header at `k` is that of a progressive picture.
pub open spec fn is_progressive(s: Seq<u8>, k: int) -> bool {
    s[k + 1] == 0xc2
}

/// The largest horizontal sampling factor of the first `n` components.
pub open spec fn finest_across(s: Seq<u8>, k: int, n: int) -> int
    decreases n,
{
    if n <= 0 {
        0
    } else if finest_across(s, k, n - 1) < across(s, k, n - 1) {
        across(s, k, n - 1)
    } else {
        finest_across(s, k, n - 1)
    }
}

/// The largest vertical sampling factor of the first `n` components.
pub open spec fn finest_down(s: Seq<u8>, k: int, n: int) -> int
    decreases n,
{
    if n <= 0 {
        0
    } else if finest_down(s, k, n - 1) < down(s, k, n - 1) {
        down(s, k, n - 1)
    } else {
        finest_down(s, k, n - 1)
    }
}

// ---------- working space ----------

/// How many units of `factor` blocks of eight pixels cover a side.
pub open spec fn units(side: int, factor: int) -> int {
    (side + 8 * factor - 1) / (8 * factor)
}

/// The units that cover the picture across.
pub open spec fn columns(s: Seq<u8>, k: int) -> int {
    units(be16_at(s, k + 7), finest_across(s, k, components_at(s, k)))
}

/// The units that cover the picture down.
pub open spec fn rows(s: Seq<u8>, k: int) -> int {
    units(be16_at(s, k + 5), finest_down(s, k, components_at(s, k)))
}

/// The units for which the decoder lays out the rows of component `i`: it goes by the finest of
/// the components up to that one.
pub open spec fn own_columns(s: Seq<u8>, k: int, i: int) -> int {
    units(be16_at(s, k + 7), finest_across(s, k, i + 1))
}

/// Whether component `i` is stretched to twice its size both ways, and does not find scratch
/// space for that: twice its row is longer than a row of the first component.
pub open spec fn is_stretch_cramped(s: Seq<u8>, k: int, i: int) -> bool {
    &&& 2 * across(s, k, i) == finest_across(s, k, components_at(s, k))
    &&& down(s, k, i) == 1
    &&& finest_down(s, k, components_at(s, k)) == 2
    &&& 2 * across(s, k, i) * own_columns(s, k, i) > across(s, k, 0) * own_columns(s, k, 0)
}

/// Whether there is not enough scratch space to stretch a component.
pub open spec fn is_cramped(s: Seq<u8>, k: int) -> bool {
    exists|i: int| 0 <= i < components_at(s, k) && #[trigger] is_stretch_cramped(s, k, i)
}

/// What is left of the space for component `i`, in blocks, behind the last full row of units of
/// its own length.
pub open spec fn remainder(s: Seq<u8>, k: int, i: int) -> int {
    (rows(s, k) * down(s, k, i) * columns(s, k)) % (down(s, k, i) * own_columns(s, k, i))
}

/// Whether a row of blocks of component `i` starts inside the space for the component and does
/// not fit there.
pub open spec fn is_row_overrun(s: Seq<u8>, k: int, i: int) -> bool {
    0 < remainder(s, k, i) < own_columns(s, k, i)
}

/// Whether there is not enough space for a component that comes in a scan of its own.
pub open spec fn is_overrun(s: Seq<u8>, k: int) -> bool {
    exists|i: int| 0 <= i < components_at(s, k) && #[trigger] is_row_overrun(s, k, i)
}

// ---------- the way to the first scan ----------

/// Whether a segment in the manner of Adobe's programs, which tells the colours, stands at `k`.
pub open spec fn is_adobe(s: Seq<u8>, k: int) -> bool {
    &&& 0 <= k
    &&& k + 16 <= s.len()
    &&& s[k + 1] == 0xee
    &&& s[k + 4] == 0x41  // A
    &&& s[k + 5] == 0x64  // d
    &&& s[k + 6] == 0x6f  // o
    &&& s[k + 7] == 0x62  // b
    &&& s[k + 8] == 0x65  // e
}

/// Where the segment whose marker's second byte stands at `p` ends: its length says so. The
/// decoder takes seven bytes of an application segment 0 whose length is six.
pub open spec fn segment_end(s: Seq<u8>, p: int) -> int {
    if s[p] == 0xe0 && be16_at(s, p + 1) == 6 {
        p + 8
    } else {
        p + 1 + be16_at(s, p + 1)
    }
}

/// Where the frame header stands once the segment at `p` has been passed.
pub open spec fn frame_after(s: Seq<u8>, p: int, frame: Option<int>) -> Option<int> {
    if 0xc0 <= s[p] <= 0xc2 {
        Some(p - 1)
    } else {
        frame
    }
}

/// Whether four colours are declared once the segment at `p` has been passed. A frame of one
/// component takes an earlier declaration back.
pub open spec fn four_after(s: Seq<u8>, p: int, four: bool) -> bool {
    if is_adobe(s, p - 1) {
        s[p + 14] == 2
    } else if 0xc0 <= s[p] <= 0xc2 && p + 8 < s.len() && s[p + 8] == 1 {
        false
    } else {
        four
    }
}

/// The way of the decoder from `p` to the first scan: from marker to marker, past each segment by
/// its length. A marker is a byte other than 0x00 and 0xff right behind 0xff; `marked` tells
/// whether that one has just been passed. The result is the place of the frame header, the number
/// of components in the first scan, and whether four colours are declared; `None` if the bytes
/// end on the way, or a segment is without a length, or there is no frame header.
pub open spec fn way(s: Seq<u8>, p: int, marked: bool, frame: Option<int>, four: bool) -> Option<
    (int, int, bool),
>
    decreases s.len() - p,
{
    if p < 0 || p >= s.len() {
        None
    } else if !marked || s[p] == 0 || s[p] == 0xff {
        way(s, p + 1, s[p] == 0xff, frame, four)
    } else if p + 3 >= s.len() {
        None
    } else if s[p] == 0xda {
        match frame {
            Some(k) => Some((k, s[p + 3] as int, four)),
            None => None,
        }
    } else if be16_at(s, p + 1) < 2 || segment_end(s, p) >= s.len() {
        None
    } else {
        way(s, segment_end(s, p), false, frame_after(s, p, frame), four_after(s, p, four))
    }
}

/// The way from behind the two bytes that a file starts with.
pub open spec fn headers_read(s: Seq<u8>) -> Option<(int, int, bool)> {
    way(s, 2, false, None, false)
}

// ---------- files that cannot be decoded ----------

/// Whether a picture with the frame header at `k` and `scanned` components in its first scan is
/// beyond the decoder.
///
/// A progressive picture is if its rows are laid out evenly and scratch space is short, or if it
/// has less than three components and declares four colours. A sequential one can be only if its
/// components come in several scans; it counts as beyond the decoder if space is short for it,
/// although its image data may be such that the decoder never gets to where it runs out.
pub open spec fn is_frame_beyond(s: Seq<u8>, k: int, scanned: int, four: bool) -> bool {
    &&& is_frame(s, k)
    &&& if is_progressive(s, k) {
        ||| own_columns(s, k, 0) == columns(s, k) && is_cramped(s, k)
        ||| components_at(s, k) < 3 && four
    } else {
        scanned != components_at(s, k) && (is_cramped(s, k) || is_overrun(s, k))
    }
}

/// Whether the decoder may run out of its working space on a file whose headers it has read, or
/// look for a component that the file does not have.
pub open spec fn is_beyond_decoder(s: Seq<u8>) -> bool {
    match headers_read(s) {
        Some((k, scanned, four)) => is_frame_beyond(s, k, scanned, four),
        None => false,
    }
}

fn factors_ok(b: u8) -> (res: bool)
    ensures
        res == ((b / 16 == 1 || b / 16 == 2 || b / 16 == 4) && 1 <= b % 16 <= 4),
{
    let h: u8 = b / 16;
    let v: u8 = b % 16;
    (h == 1 || h == 2 || h == 4) && 1 <= v && v <= 4
}

fn frame_at(s: &[u8], k: usize) -> (res: bool)
    requires
        k < s@.len(),
    ensures
        res == is_frame(s@, k as int),
{
    let len: usize = s.len();
    let left: usize = len - k;
    if left < 10 || s[k] != 0xff || s[k + 1] < 0xc0 || s[k + 1] > 0xc2 || s[k + 4] != 8 {
        return false;
    }
    let n: usize = s[k + 9] as usize;
    if n < 1 || n > 4 || s[k + 2] as usize * 256 + s[k + 3] as usize != 8 + 3 * n || left < 10 + 3
        * n {
        return false;
    }
    let mut i: usize = 0;
    while i < n
        invariant
            i <= n,
            1 <= n <= 4,
            n == components_at(s@, k as int),
            k + 10 + 3 * n <= len,
            len == s@.len(),
            forall|j: int| 0 <= j < i ==> #[trigger] factors_valid(s@, k as int, j),
        decreases n - i,
    {
        if !factors_ok(s[k + 11 + 3 * i]) {
            assert(!factors_valid(s@, k as int, i as int));
            return false;
        }
        i = i + 1;
    }
    true
}

/// The largest sampling factors of the first `n` components of the frame header at `k`.
fn finest_at(s: &[u8], k: usize, n: usize) -> (res: (u8, u8))
    requires
        is_frame(s@, k as int),
        1 <= n <= components_at(s@, k as int),
    ensures
        res.0 == finest_across(s@, k as int, n as int),
        res.1 == finest_down(s@, k as int, n as int),
        1 <= res.0 <= 4,
        1 <= res.1 <= 4,
{
    let len: usize = s.len();
    let mut h: u8 = 0;
    let mut v: u8 = 0;
    let mut i: usize = 0;
    while i < n
        invariant
            i <= n,
            n <= components_at(s@, k as int),
            is_frame(s@, k as int),
            len == s@.len(),
            h == finest_across(s@, k as int, i as int),
            v == finest_down(s@, k as int, i as int),
            h <= 4,
            v <= 4,
            i > 0 ==> 1 <= h && 1 <= v,
        decreases n - i,
    {
        let b: u8 = s[k + 11 + 3 * i];
        assert(factors_valid(s@, k as int, i as int));
        if h < b / 16 {
            h = b / 16;
        }
        if v < b % 16 {
            v = b % 16;
        }
        i = i + 1;
    }
    (h, v)
}

fn count_units(side: u32, factor: u8) -> (res: u32)
    requires
        side <= 65535,
        1 <= factor <= 4,
    ensures
        res == units(side as int, factor as int),
        res <= 8192,
        side > 0 ==> res > 0,
{
    let of: u32 = 8 * (factor as u32);
    let res: u32 = (side + of - 1) / of;
    assert(res <= 8192 && (side > 0 ==> res > 0)) by (nonlinear_arith)
        requires
            side <= 65535,
            8 <= of <= 32,
            res == (side + of - 1) / of as int,
    ;
    res
}

/// The units for which the rows of component `i` are laid out.
fn own_columns_at(s: &[u8], k: usize, i: usize) -> (res: u32)
    requires
        is_frame(s@, k as int),
        i < components_at(s@, k as int),
    ensures
        res == own_columns(s@, k as int, i as int),
        res <= 8192,
{
    let _len: usize = s.len();
    let (h, _v) = finest_at(s, k, i + 1);
    count_units(s[k + 7] as u32 * 256 + s[k + 8] as u32, h)
}

fn cramped_at(s: &[u8], k: usize) -> (res: bool)
    requires
        is_frame(s@, k as int),
    ensures
        res == is_cramped(s@, k as int),
{
    let len: usize = s.len();
    let n: usize = s[k + 9] as usize;
    let (h, v) = finest_at(s, k, n);
    let first: u32 = s[k + 11] as u32 / 16;
    let room: u32 = own_columns_at(s, k, 0);
    let mut found: bool = false;
    let mut i: usize = 0;
    while i < n
        invariant
            i <= n,
            n == components_at(s@, k as int),
            is_frame(s@, k as int),
            len == s@.len(),
            h == finest_across(s@, k as int, n as int),
            v == finest_down(s@, k as int, n as int),
            first == across(s@, k as int, 0),
            room == own_columns(s@, k as int, 0),
            room <= 8192,
            first <= 15,
            found == exists|j: int| 0 <= j < i && #[trigger] is_stretch_cramped(s@, k as int, j),
        decreases n - i,
    {
        let b: u8 = s[k + 11 + 3 * i];
        let own: u32 = own_columns_at(s, k, i);
        let a: u32 = b as u32 / 16;
        assert(2 * a * own <= 30 * 8192 && first * room <= 15 * 8192) by (nonlinear_arith)
            requires
                a <= 15,
                own <= 8192,
                first <= 15,
                room <= 8192,
        ;
        let here: bool = 2 * a == h as u32 && b % 16 == 1 && v == 2 && 2 * a * own > first * room;
        assert(here == is_stretch_cramped(s@, k as int, i as int));
        found = found || here;
        i = i + 1;
    }
    found
}

fn overrun_at(s: &[u8], k: usize) -> (res: bool)
    requires
        is_frame(s@, k as int),
    ensures
        res == is_overrun(s@, k as int),
{
    let len: usize = s.len();
    let n: usize = s[k + 9] as usize;
    let (h, v) = finest_at(s, k, n);
    let wide: u32 = count_units(s[k + 7] as u32 * 256 + s[k + 8] as u32, h);
    let high: u32 = count_units(s[k + 5] as u32 * 256 + s[k + 6] as u32, v);
    let mut found: bool = false;
    let mut i: usize = 0;
    while i < n
        invariant
            i <= n,
            n == components_at(s@, k as int),
            is_frame(s@, k as int),
            len == s@.len(),
            wide == columns(s@, k as int),
            high == rows(s@, k as int),
            wide <= 8192,
            high <= 8192,
            found == exists|j: int| 0 <= j < i && #[trigger] is_row_overrun(s@, k as int, j),
        decreases n - i,
    {
        let b: u8 = s[k + 11 + 3 * i];
        let own: u32 = own_columns_at(s, k, i);
        let d: u32 = b as u32 % 16;
        assert(factors_valid(s@, k as int, i as int));
        let mut here: bool = false;
        if own > 0 {
            assert(high * d <= 8192 * 4 && high * d * wide <= 8192 * 4 * 8192 && 0 < d * own <= 4
                * 8192) by (nonlinear_arith)
                requires
                    1 <= d <= 4,
                    0 < own <= 8192,
                    0 <= wide <= 8192,
                    0 <= high <= 8192,
            ;
            let rest: u32 = high * d * wide % (d * own);
            assert(rest == remainder(s@, k as int, i as int));
            here = 0 < rest && rest < own;
        }
        assert(here == is_row_overrun(s@, k as int, i as int));
        found = found || here;
        i = i + 1;
    }
    found
}

fn frame_beyond(s: &[u8], k: usize, scanned: u8, four: bool) -> (res: bool)
    requires
        k < s@.len(),
    ensures
        res == is_frame_beyond(s@, k as int, scanned as int, four),
{
    if !frame_at(s, k) {
        return false;
    }
    let _len: usize = s.len();
    let n: u8 = s[k + 9];
    if s[k + 1] == 0xc2 {
        if n < 3 && four {
            return true;
        }
        let (h, _v) = finest_at(s, k, n as usize);
        own_columns_at(s, k, 0) == count_units(s[k + 7] as u32 * 256 + s[k + 8] as u32, h)
            && cramped_at(s, k)
    } else {
        scanned != n && (cramped_at(s, k) || overrun_at(s, k))
    }
}

fn adobe_at(s: &[u8], k: usize) -> (res: bool)
    requires
        k < s@.len(),
    ensures
        res == is_adobe(s@, k as int),
{
    let left: usize = s.len() - k;
    left >= 16 && s[k + 1] == 0xee && s[k + 4] == 0x41 && s[k + 5] == 0x64 && s[k + 6] == 0x6f && s[k
        + 7] == 0x62 && s[k + 8] == 0x65
}

/// Goes the way to the first scan.
fn read_headers(s: &[u8]) -> (res: Option<(usize, u8, bool)>)
    ensures
        match res {
            Some((k, scanned, four)) => {
                &&& headers_read(s@) == Some((k as int, scanned as int, four))
                &&& k < s@.len()
            },
            None => headers_read(s@) is None,
        },
{
    let len: usize = s.len();
    let mut p: usize = 2;
    let mut marked: bool = false;
    let mut frame: Option<usize> = None;
    let mut four: bool = false;
    while p < len
        invariant
            len == s@.len(),
            2 <= p,
            marked ==> p >= 3,
            frame matches Some(k) ==> k < len,
            headers_read(s@) == way(
                s@,
                p as int,
                marked,
                match frame {
                    Some(k) => Some(k as int),
                    None => None,
                },
                four,
            ),
        decreases len - p,
    {
        let m: u8 = s[p];
        if !marked || m == 0 || m == 0xff {
            marked = m == 0xff;
            p = p + 1;
        } else if len - p <= 3 {
            return None;
        } else if m == 0xda {
            return match frame {
                Some(k) => Some((k, s[p + 3], four)),
                None => None,
            };
        } else {
            let length: usize = s[p + 1] as usize * 256 + s[p + 2] as usize;
            if length < 2 {
                return None;
            }
            let taken: usize = if m == 0xe0 && length == 6 {
                7
            } else {
                length
            };
            if len - p - 1 <= taken {
                return None;
            }
            if adobe_at(s, p - 1) {
                four = s[p + 14] == 2;
            } else if 0xc0 <= m && m <= 0xc2 && len - p > 8 && s[p + 8] == 1 {
                four = false;
            }
            if 0xc0 <= m && m <= 0xc2 {
                frame = Some(p - 1);
            }
            marked = false;
            p = p + 1 + taken;
        }
    }
    None
}

/// Tells whether a file whose headers the decoder has read is one that it cannot take.
pub fn beyond_decoder(s: &[u8]) -> (res: bool)
    ensures
        res == is_beyond_decoder(s@),
{
    match read_headers(s) {
        Some((k, scanned, four)) => frame_beyond(s, k, scanned, four),
        None => false,
    }
}

// ---------- laws ----------

/// A picture in which no component is finer across than the first is within the decoder's limits,
/// unless it is a progressive one of less than three components that declares four colours.
pub proof fn law_finest_first(s: Seq<u8>, k: int, scanned: int, four: bool)
    requires
        headers_read(s) == Some((k, scanned, four)),
        is_frame(s, k),
        forall|i: int|
            0 <= i < components_at(s, k) ==> #[trigger] across(s, k, i) <= across(s, k, 0),
        !four || components_at(s, k) >= 3 || !is_progressive(s, k),
    ensures
        !is_beyond_decoder(s),
{
    let n = components_at(s, k);
    assert forall|i: int| 0 <= i < n implies own_columns(s, k, i) == columns(s, k) && finest_across(
        s,
        k,
        n,
    ) == across(s, k, 0) by {
        lemma_first_is_finest(s, k, i + 1);
        lemma_first_is_finest(s, k, n);
    }
    assert forall|i: int| 0 <= i < n implies !#[trigger] is_stretch_cramped(s, k, i) by {
        assert(own_columns(s, k, i) == columns(s, k) && own_columns(s, k, 0) == columns(s, k));
    }
    assert forall|i: int| 0 <= i < n implies !#[trigger] is_row_overrun(s, k, i) by {
        assert(own_columns(s, k, i) == columns(s, k));
        assert(factors_valid(s, k, i) && factors_valid(s, k, 0));
        let (y, d, x) = (rows(s, k), down(s, k, i), columns(s, k));
        let f = across(s, k, 0);
        assert(0 <= x) by (nonlinear_arith)
            requires
                x == (be16_at(s, k + 7) + 8 * f - 1) / (8 * f),
                be16_at(s, k + 7) >= 0,
                f >= 1,
        ;
        if x > 0 {
            assert(y * d * x == (d * x) * y) by (nonlinear_arith);
            assert(0 < d * x) by (nonlinear_arith)
                requires
                    1 <= d,
                    0 < x,
            ;
            vstd::arithmetic::div_mod::lemma_mod_multiples_basic(y, d * x);
            assert((d * x) * y == y * (d * x)) by (nonlinear_arith);
        }
    }
}

proof fn lemma_first_is_finest(s: Seq<u8>, k: int, n: int)
    requires
        is_frame(s, k),
        1 <= n <= components_at(s, k),
        forall|i: int|
            0 <= i < components_at(s, k) ==> #[trigger] across(s, k, i) <= across(s, k, 0),
    ensures
        finest_across(s, k, n) == across(s, k, 0),
    decreases n,
{
    assert(factors_valid(s, k, 0));
    if n > 1 {
        lemma_first_is_finest(s, k, n - 1);
        assert(across(s, k, n - 1) <= across(s, k, 0));
    } else {
        reveal_with_fuel(finest_across, 2);
    }
}

/// A file without a frame header and a scan is none that the decoder gets to; a sequential picture
/// whose components all come in the first scan is within its limits, however they are sampled.
pub proof fn law_one_scan(s: Seq<u8>)
    ensures
        headers_read(s) is None ==> !is_beyond_decoder(s),
        headers_read(s) matches Some((k, scanned, four)) && s[k + 1] != 0xc2 && scanned == s[k + 9]
            ==> !is_beyond_decoder(s),
{
}

/// A picture whose first component is coarser both ways than another one is beyond the decoder if
/// it comes in several sequential scans, or if it is progressive and one block wide.
pub proof fn law_coarse_first(s: Seq<u8>, k: int, scanned: int, four: bool, i: int)
    requires
        headers_read(s) == Some((k, scanned, four)),
        is_frame(s, k),
        s[k + 11] == 0x11,
        0 < i < s[k + 9],
        s[k + 11 + 3 * i] == 0x22,
        forall|j: int| 0 <= j < s[k + 9] ==> #[trigger] s[k + 11 + 3 * j] <= 0x22 && s[k + 11 + 3 * j]
            % 16 <= 2,
        s[k + 7] * 256 + s[k + 8] > 0,
    ensures
        s[k + 1] != 0xc2 && scanned != s[k + 9] ==> is_beyond_decoder(s),
        s[k + 1] == 0xc2 && s[k + 7] * 256 + s[k + 8] <= 8 ==> is_beyond_decoder(s),
{
    let n = components_at(s, k);
    assert(s[k + 11 + 3 * 0] == 0x11);
    assert(across(s, k, 0) == 1 && down(s, k, 0) == 1);
    assert(across(s, k, i) == 2 && down(s, k, i) == 2);
    lemma_finest_two(s, k, n, i);
    reveal_with_fuel(finest_across, 2);
    assert(finest_across(s, k, 1) == 1);
    let width = be16_at(s, k + 7);
    assert(own_columns(s, k, 0) == (width + 7) / 8);
    assert(columns(s, k) == (width + 15) / 16);
    assert(is_stretch_cramped(s, k, 0));
    assert(is_cramped(s, k));
}

proof fn lemma_finest_two(s: Seq<u8>, k: int, n: int, i: int)
    requires
        0 <= i,
        0 <= n,
        forall|j: int| 0 <= j < n ==> #[trigger] s[k + 11 + 3 * j] <= 0x22 && s[k + 11 + 3 * j] % 16
            <= 2,
        i < n ==> s[k + 11 + 3 * i] == 0x22,
    ensures
        0 <= finest_across(s, k, n) <= 2,
        0 <= finest_down(s, k, n) <= 2,
        i < n ==> finest_across(s, k, n) == 2 && finest_down(s, k, n) == 2,
    decreases n,
{
    if n > 0 {
        lemma_finest_two(s, k, n - 1, i);
        assert(s[k + 11 + 3 * (n - 1)] <= 0x22);
    }
}

/// A progressive picture in which no component is sampled twice down is within the decoder's
/// limits, unless it declares four colours and has less than three components.
pub proof fn law_sampled_across_only(s: Seq<u8>, k: int, scanned: int, four: bool)
    requires
        headers_read(s) == Some((k, scanned, four)),
        s[k + 1] == 0xc2,
        !four || s[k + 9] >= 3,
        forall|j: int| 0 <= j < s[k + 9] ==> #[trigger] s[k + 11 + 3 * j] % 16 == 1,
    ensures
        !is_beyond_decoder(s),
{
    lemma_finest_one(s, k, components_at(s, k));
}

proof fn lemma_finest_one(s: Seq<u8>, k: int, n: int)
    requires
        forall|j: int| 0 <= j < n ==> #[trigger] s[k + 11 + 3 * j] % 16 == 1,
    ensures
        finest_down(s, k, n) <= 1,
    decreases n,
{
    if n > 0 {
        lemma_finest_one(s, k, n - 1);
        assert(s[k + 11 + 3 * (n - 1)] % 16 == 1);
    }
}

/// A progressive picture of one or two components that declares four colours is beyond the
/// decoder.
pub proof fn law_colours_missing(s: Seq<u8>, k: int, scanned: int)
    requires
        headers_read(s) == Some((k, scanned, true)),
        is_frame(s, k),
        s[k + 1] == 0xc2,
        s[k + 9] < 3,
    ensures
        is_beyond_decoder(s),
{
}

/// The file `s` with a comment behind the two bytes that it starts with.
pub open spec fn with_comment(s: Seq<u8>, comment: Seq<u8>) -> Seq<u8> {
    let length = 2 + comment.len();
    s.take(2) + seq![0xff, 0xfe, (length / 256) as u8, (length % 256) as u8] + comment + s.skip(2)
}

/// What a comment holds does not matter, be it bytes that read like a header.
pub proof fn law_comment_does_not_matter(s: Seq<u8>, comment: Seq<u8>)
    requires
        s.len() >= 2,
        comment.len() <= 65533,
    ensures
        is_beyond_decoder(with_comment(s, comment)) == is_beyond_decoder(s),
{
    let t = with_comment(s, comment);
    let d = 4 + comment.len() as int;
    assert(t.len() == s.len() + d);
    assert forall|i: int| 2 <= i < s.len() implies #[trigger] s[i] == t[i + d] by {}
    assert(t[2] == 0xff && t[3] == 0xfe);
    assert(be16_at(t, 4) == 2 + comment.len());
    reveal_with_fuel(way, 3);
    lemma_way_moved(s, t, d, 2, false, None, false);
    if let Some((k, scanned, four)) = headers_read(s) {
        lemma_frame_moved(s, t, d, k);
    }
}

/// Whether `t` holds the bytes of `s`, but for the first two, `d` places later, and no more.
spec fn is_moved(s: Seq<u8>, t: Seq<u8>, d: int) -> bool {
    &&& 0 <= d
    &&& t.len() == s.len() + d
    &&& forall|i: int| 2 <= i < s.len() ==> #[trigger] s[i] == t[i + d]
}

spec fn moved(frame: Option<int>, d: int) -> Option<int> {
    match frame {
        Some(k) => Some(k + d),
        None => None,
    }
}

proof fn lemma_way_moved(
    s: Seq<u8>,
    t: Seq<u8>,
    d: int,
    p: int,
    marked: bool,
    frame: Option<int>,
    four: bool,
)
    requires
        is_moved(s, t, d),
        2 <= p,
        marked ==> 3 <= p,
        frame matches Some(k) ==> 2 <= k,
    ensures
        match way(s, p, marked, frame, four) {
            Some((k, scanned, f)) => {
                &&& 2 <= k
                &&& way(t, p + d, marked, moved(frame, d), four) == Some((k + d, scanned, f))
            },
            None => way(t, p + d, marked, moved(frame, d), four) is None,
        },
    decreases s.len() - p,
{
    if p < s.len() {
        assert(s[p] == t[p + d]);
        if !marked || s[p] == 0 || s[p] == 0xff {
            lemma_way_moved(s, t, d, p + 1, s[p] == 0xff, frame, four);
        } else if p + 3 < s.len() {
            assert(s[p + 1] == t[p + 1 + d] && s[p + 2] == t[p + 2 + d] && s[p + 3] == t[p + 3 + d]);
            if s[p] != 0xda && be16_at(s, p + 1) >= 2 && segment_end(s, p) < s.len() {
                assert(segment_end(t, p + d) == segment_end(s, p) + d);
                assert(is_adobe(t, p + d - 1) == is_adobe(s, p - 1)) by {
                    if p + 15 <= s.len() {
                        assert(forall|i: int|
                            p - 1 <= i < p + 15 ==> #[trigger] s[i] == t[i + d]);
                        assert(s[p + 4] == t[p + 4 + d] && s[p + 5] == t[p + 5 + d]);
                        assert(s[p + 6] == t[p + 6 + d] && s[p + 7] == t[p + 7 + d]);
                    }
                }
                assert(four_after(t, p + d, four) == four_after(s, p, four)) by {
                    if p + 15 <= s.len() {
                        assert(s[p + 14] == t[p + 14 + d]);
                    }
                    if p + 8 < s.len() {
                        assert(s[p + 8] == t[p + 8 + d]);
                    }
                }
                lemma_way_moved(
                    s,
                    t,
                    d,
                    segment_end(s, p),
                    false,
                    frame_after(s, p, frame),
                    four_after(s, p, four),
                );
            }
        }
    }
}

proof fn lemma_factors_moved(s: Seq<u8>, t: Seq<u8>, d: int, k: int, n: int)
    requires
        is_moved(s, t, d),
        2 <= k,
        0 <= n,
        k + 10 + 3 * n <= s.len(),
    ensures
        forall|i: int|
            0 <= i < n ==> #[trigger] across(t, k + d, i) == across(s, k, i) && down(t, k + d, i)
                == down(s, k, i),
        forall|i: int| 0 <= i < n ==> factors_valid(t, k + d, i) == #[trigger] factors_valid(s, k, i),
        forall|i: int|
            0 <= i < n ==> #[trigger] factors_valid(t, k + d, i) == factors_valid(s, k, i),
        finest_across(t, k + d, n) == finest_across(s, k, n),
        finest_down(t, k + d, n) == finest_down(s, k, n),
    decreases n,
{
    if n > 0 {
        lemma_factors_moved(s, t, d, k, n - 1);
        let at = k + 11 + 3 * (n - 1);
        assert(s[at] == t[at + d]);
        assert(across(t, k + d, n - 1) == across(s, k, n - 1));
        assert(down(t, k + d, n - 1) == down(s, k, n - 1));
    }
}

proof fn lemma_component_moved(s: Seq<u8>, t: Seq<u8>, d: int, k: int, i: int)
    requires
        is_moved(s, t, d),
        2 <= k,
        0 <= i < components_at(s, k),
        k + 10 + 3 * components_at(s, k) <= s.len(),
    ensures
        is_stretch_cramped(t, k + d, i) == is_stretch_cramped(s, k, i),
        is_row_overrun(t, k + d, i) == is_row_overrun(s, k, i),
{
    let n = components_at(s, k);
    assert(s[k + 5] == t[k + 5 + d] && s[k + 6] == t[k + 6 + d]);
    assert(s[k + 7] == t[k + 7 + d] && s[k + 8] == t[k + 8 + d] && s[k + 9] == t[k + 9 + d]);
    lemma_factors_moved(s, t, d, k, n);
    lemma_factors_moved(s, t, d, k, i + 1);
    lemma_factors_moved(s, t, d, k, 1);
    assert(across(t, k + d, i) == across(s, k, i) && across(t, k + d, 0) == across(s, k, 0));
    assert(own_columns(t, k + d, i) == own_columns(s, k, i));
    assert(own_columns(t, k + d, 0) == own_columns(s, k, 0));
    assert(rows(t, k + d) == rows(s, k) && columns(t, k + d) == columns(s, k));
}

proof fn lemma_frame_moved(s: Seq<u8>, t: Seq<u8>, d: int, k: int)
    requires
        is_moved(s, t, d),
        2 <= k,
    ensures
        forall|scanned: int, four: bool|
            is_frame_beyond(t, k + d, scanned, four) == is_frame_beyond(s, k, scanned, four),
{
    if k + 10 <= s.len() {
        assert(forall|i: int| k <= i < k + 10 ==> #[trigger] s[i] == t[i + d]);
        assert(s[k + 1] == t[k + 1 + d] && s[k + 2] == t[k + 2 + d] && s[k + 3] == t[k + 3 + d]);
        assert(s[k + 4] == t[k + 4 + d] && s[k + 5] == t[k + 5 + d] && s[k + 6] == t[k + 6 + d]);
        assert(s[k + 7] == t[k + 7 + d] && s[k + 8] == t[k + 8 + d] && s[k + 9] == t[k + 9 + d]);
        assert(s[k] == t[k + d]);
        let n = components_at(s, k);
        if 1 <= n <= 4 && k + 10 + 3 * n <= s.len() {
            lemma_factors_moved(s, t, d, k, n);
            assert(is_frame(t, k + d) == is_frame(s, k));
            assert forall|i: int| 0 <= i < n implies is_stretch_cramped(t, k + d, i)
                == #[trigger] is_stretch_cramped(s, k, i) by {
                lemma_component_moved(s, t, d, k, i);
            }
            assert forall|i: int| 0 <= i < n implies #[trigger] is_stretch_cramped(t, k + d, i)
                == is_stretch_cramped(s, k, i) by {
                lemma_component_moved(s, t, d, k, i);
            }
            assert forall|i: int| 0 <= i < n implies is_row_overrun(t, k + d, i)
                == #[trigger] is_row_overrun(s, k, i) by {
                lemma_component_moved(s, t, d, k, i);
            }
            assert forall|i: int| 0 <= i < n implies #[trigger] is_row_overrun(t, k + d, i)
                == is_row_overrun(s, k, i) by {
                lemma_component_moved(s, t, d, k, i);
            }
            lemma_factors_moved(s, t, d, k, 1);
            assert(own_columns(t, k + d, 0) == own_columns(s, k, 0));
            assert(columns(t, k + d) == columns(s, k));
        }
    }
}

} // verus!
