//! The sharer's decisions: its limits, which displays it captures, and what it writes for a frame
//! that waits to be sent.

use vstd::prelude::*;

use crate::capture::PendingFrame;
use crate::protocol::{write_frame, FrameHeader};
use crate::text::{push_decimal, push_listed, truth_text};
use crate::traffic::Traffic;

verus! {

// ---------- limits ----------

pub const MAX_FPS: u32 = 120;

pub const MAX_QUALITY: u8 = 100;

/// The frame rate nearest to `fps` that a share runs at.
pub fn clamp_fps(fps: u32) -> (res: u32)
    ensures
        1 <= res <= MAX_FPS,
        1 <= fps <= MAX_FPS ==> res == fps,
        fps < 1 ==> res == 1,
        fps > MAX_FPS ==> res == MAX_FPS,
{
    if fps < 1 {
        1
    } else if fps > MAX_FPS {
        MAX_FPS
    } else {
        fps
    }
}

/// The quality nearest to `quality` that a share encodes with.
pub fn clamp_quality(quality: u8) -> (res: u8)
    ensures
        1 <= res <= MAX_QUALITY,
        1 <= quality <= MAX_QUALITY ==> res == quality,
        quality < 1 ==> res == 1,
        quality > MAX_QUALITY ==> res == MAX_QUALITY,
{
    if quality < 1 {
        1
    } else if quality > MAX_QUALITY {
        MAX_QUALITY
    } else {
        quality
    }
}

// ---------- displays ----------

/// Why there is nothing to share.
#[derive(Clone, Copy, Debug, PartialEq, Eq, Structural)]
pub enum ShareError {
    NoDisplays,
    OutOfRange { idx: usize, total: usize },
    TooManyDisplays,
}

impl ShareError {
    pub open spec fn text(self) -> Seq<char> {
        match self {
            ShareError::NoDisplays => "no displays detected"@,
            ShareError::OutOfRange { idx, total } => "display index "@ + crate::text::decimal(
                idx as nat,
            ) + " out of range (only "@ + crate::text::decimal(total as nat) + " detected)"@,
            ShareError::TooManyDisplays => "too many displays"@,
        }
    }

    pub fn message(&self) -> (res: String)
        ensures
            res@ == self.text(),
    {
        match self {
            ShareError::NoDisplays => String::from_str("no displays detected"),
            ShareError::OutOfRange { idx, total } => {
                let mut out = String::from_str("display index ");
                push_decimal(&mut out, *idx as u64);
                out.append(" out of range (only ");
                push_decimal(&mut out, *total as u64);
                out.append(" detected)");
                out
            },
            ShareError::TooManyDisplays => String::from_str("too many displays"),
        }
    }
}

/// The displays that a filter asks for: all of them if it is empty.
pub open spec fn selected(total: nat, filter: Seq<usize>) -> Seq<usize> {
    if filter.len() == 0 {
        Seq::new(total, |i: int| i as usize)
    } else {
        filter
    }
}

/// Whether `idx` is the first entry of `filter` that is no display.
pub open spec fn first_out_of_range(total: nat, filter: Seq<usize>, idx: usize) -> bool {
    exists|k: int|
        #![trigger filter[k]]
        0 <= k < filter.len() && filter[k] == idx && idx >= total && forall|j: int|
            0 <= j < k ==> filter[j] < total
}

/// The displays to capture, of `total`; entry `i` becomes stream `i`.
pub fn capture_plan(total: usize, filter: Vec<usize>) -> (res: Result<Vec<usize>, ShareError>)
    ensures
        match res {
            Ok(plan) => {
                &&& total > 0
                &&& plan@ == selected(total as nat, filter@)
                &&& 0 < plan@.len() <= 255
                &&& forall|i: int| 0 <= i < plan@.len() ==> #[trigger] plan@[i] < total
                &&& filter@.len() > 0 ==> plan@ == filter@
                &&& filter@.len() == 0 ==> plan@.len() == total && forall|i: int|
                    0 <= i < total ==> #[trigger] plan@[i] == i
            },
            Err(ShareError::NoDisplays) => total == 0,
            Err(ShareError::OutOfRange { idx, total: t }) => total > 0 && t == total
                && first_out_of_range(total as nat, filter@, idx) && idx >= total
                && filter@.contains(idx),
            Err(ShareError::TooManyDisplays) => {
                &&& total > 0
                &&& filter@.len() > 255 || (filter@.len() == 0 && total > 255)
                &&& forall|i: int| 0 <= i < filter@.len() ==> filter@[i] < total
                &&& selected(total as nat, filter@).len() > 255
            },
        },
{
    if total == 0 {
        return Err(ShareError::NoDisplays);
    }
    let plan: Vec<usize>;
    if filter.len() == 0 {
        let mut all: Vec<usize> = Vec::new();
        let mut i: usize = 0;
        while i < total
            invariant
                i <= total,
                all@.len() == i,
                forall|j: int| 0 <= j < i ==> all@[j] == j,
            decreases total - i,
        {
            all.push(i);
            i = i + 1;
        }
        plan = all;
    } else {
        let mut i: usize = 0;
        while i < filter.len()
            invariant
                i <= filter@.len(),
                total > 0,
                forall|j: int| 0 <= j < i ==> filter@[j] < total,
            decreases filter@.len() - i,
        {
            let idx: usize = filter[i];
            if idx >= total {
                return Err(ShareError::OutOfRange { idx, total });
            }
            i = i + 1;
        }
        plan = filter;
    }
    assert(plan@ =~= selected(total as nat, filter@));
    if plan.len() > 255 {
        return Err(ShareError::TooManyDisplays);
    }
    Ok(plan)
}

/// What a share announces when it listens.
pub open spec fn listening_text(
    bind: Seq<char>,
    plan: Seq<usize>,
    fps: u32,
    quality: u8,
    skip_unchanged: bool,
) -> Seq<char> {
    "[share] listening on "@ + bind + " | "@ + crate::text::decimal(plan.len())
        + " monitor(s) (indices ["@ + crate::text::listed(plan, ", "@) + "]) | fps="@
        + crate::text::decimal(fps as nat) + " quality="@ + crate::text::decimal(quality as nat)
        + " skip_unchanged="@ + crate::text::truth(skip_unchanged)
}

/// Writes what a share announces when it listens.
pub fn listening_line(
    bind: &str,
    plan: &Vec<usize>,
    fps: u32,
    quality: u8,
    skip_unchanged: bool,
) -> (res: String)
    ensures
        res@ == listening_text(bind@, plan@, fps, quality, skip_unchanged),
{
    let mut out = String::from_str("[share] listening on ");
    out.append(bind);
    out.append(" | ");
    push_decimal(&mut out, plan.len() as u64);
    out.append(" monitor(s) (indices [");
    push_listed(&mut out, plan, ", ");
    out.append("]) | fps=");
    push_decimal(&mut out, fps as u64);
    out.append(" quality=");
    push_decimal(&mut out, quality as u64);
    out.append(" skip_unchanged=");
    out.append(truth_text(skip_unchanged).as_str());
    out
}

// ---------- frames ----------

/// The header of a frame of stream `i`.
pub open spec fn header_of(i: u8, frame: PendingFrame) -> FrameHeader {
    FrameHeader {
        monitor_id: i,
        width: frame.width,
        height: frame.height,
        data_len: crate::protocol::length_field(frame.jpeg@.len()),
    }
}

/// Appends to `out` what is written for a frame of stream `i`, and counts it, header included.
pub fn send_frame(i: u8, frame: &PendingFrame, out: &mut Vec<u8>, traffic: &mut Traffic)
    requires
        old(traffic).wf(),
        old(traffic).room_for(i as int, frame.jpeg@.len() as int + 13),
    ensures
        final(out)@ == old(out)@ + crate::protocol::frame_bytes(
            header_of(i, *frame),
            frame.jpeg@,
        ),
        final(traffic).wf(),
        final(traffic).frames@ == old(traffic).frames@.update(
            i as int,
            (old(traffic).frames@[i as int] + 1) as u32,
        ),
        final(traffic).bytes@ == old(traffic).bytes@.update(
            i as int,
            (old(traffic).bytes@[i as int] + frame.jpeg@.len() + 13) as u64,
        ),
{
    let len: u64 = frame.jpeg.len() as u64;
    assert(len as u32 == len % 0x1_0000_0000u64) by (bit_vector);
    let hdr = FrameHeader {
        monitor_id: i,
        width: frame.width,
        height: frame.height,
        data_len: len as u32,
    };
    write_frame(out, &hdr, frame.jpeg.as_slice());
    traffic.record(i as usize, len + 13);
}

/// The frames of a round: what waits in the first `n` slots, in the order of the streams.
pub open spec fn round_frames(waiting: Seq<Option<PendingFrame>>, n: int) -> Seq<
    (FrameHeader, Seq<u8>),
>
    decreases n,
{
    if n <= 0 {
        Seq::empty()
    } else {
        match waiting[n - 1] {
            None => round_frames(waiting, n - 1),
            Some(frame) => round_frames(waiting, n - 1).push(
                (header_of((n - 1) as u8, frame), frame.jpeg@),
            ),
        }
    }
}

/// The number of bytes that a slot adds to a round.
pub open spec fn slot_bytes(slot: Option<PendingFrame>) -> int {
    match slot {
        None => 0,
        Some(frame) => frame.jpeg@.len() as int + 13,
    }
}

// ---------- laws ----------

/// A round is sent slot by slot: each slot adds what is written for the frame that waits there,
/// or nothing.
pub proof fn law_round_by_slots(waiting: Seq<Option<PendingFrame>>, n: int)
    requires
        0 < n <= waiting.len() <= 255,
    ensures
        crate::protocol::frames_bytes(round_frames(waiting, 0)) == Seq::<u8>::empty(),
        crate::protocol::frames_bytes(round_frames(waiting, n)) == (match waiting[n - 1] {
            None => crate::protocol::frames_bytes(round_frames(waiting, n - 1)),
            Some(frame) => crate::protocol::frames_bytes(round_frames(waiting, n - 1))
                + crate::protocol::frame_bytes(header_of((n - 1) as u8, frame), frame.jpeg@),
        }),
{
    if let Some(frame) = waiting[n - 1] {
        crate::protocol::lemma_frames_push(
            round_frames(waiting, n - 1),
            header_of((n - 1) as u8, frame),
            frame.jpeg@,
        );
    }
}

proof fn lemma_round_headers(waiting: Seq<Option<PendingFrame>>, n: int)
    requires
        0 <= n <= waiting.len() <= 255,
        forall|i: int|
            0 <= i < waiting.len() && (#[trigger] waiting[i]) is Some
                ==> waiting[i]->Some_0.jpeg@.len() <= crate::protocol::MAX_FRAME_BYTES,
    ensures
        forall|k: int|
            0 <= k < round_frames(waiting, n).len() ==> (#[trigger] round_frames(
                waiting,
                n,
            )[k]).1.len() <= crate::protocol::MAX_FRAME_BYTES && crate::protocol::received_header(
                round_frames(waiting, n)[k].0,
                round_frames(waiting, n)[k].1,
            ) == round_frames(waiting, n)[k].0,
    decreases n,
{
    if n > 0 {
        lemma_round_headers(waiting, n - 1);
        let r = round_frames(waiting, n - 1);
        match waiting[n - 1] {
            None => {
                assert(round_frames(waiting, n) == r);
            },
            Some(frame) => {
                let all = round_frames(waiting, n);
                assert(forall|k: int| 0 <= k < r.len() ==> #[trigger] all[k] == r[k]);
                assert(all.last() == (header_of((n - 1) as u8, frame), frame.jpeg@));
            },
        }
    } else {
        assert(round_frames(waiting, n).len() == 0);
    }
}

/// A viewer reads a round as it was sent: every frame, in the order of the streams, with nothing
/// left over.
pub proof fn law_round_reaches_viewer(waiting: Seq<Option<PendingFrame>>, tail: Seq<u8>)
    requires
        waiting.len() <= 255,
        forall|i: int|
            0 <= i < waiting.len() && (#[trigger] waiting[i]) is Some
                ==> waiting[i]->Some_0.jpeg@.len() <= crate::protocol::MAX_FRAME_BYTES,
    ensures
        ({
            let frames = round_frames(waiting, waiting.len() as int);
            crate::protocol::frames_of(
                crate::protocol::frames_bytes(frames) + tail,
                frames.len(),
            ) == Some((frames, tail))
        }),
{
    let frames = round_frames(waiting, waiting.len() as int);
    lemma_round_headers(waiting, waiting.len() as int);
    crate::protocol::law_frames_round_trip(frames, tail);
    let seen = frames.map_values(
        |f: (FrameHeader, Seq<u8>)| (crate::protocol::received_header(f.0, f.1), f.1),
    );
    assert(seen =~= frames);
}

/// The bytes that the first `n` slots add to a round.
pub open spec fn round_bytes(waiting: Seq<Option<PendingFrame>>, n: int) -> int
    decreases n,
{
    if n <= 0 {
        0
    } else {
        round_bytes(waiting, n - 1) + slot_bytes(waiting[n - 1])
    }
}

/// What is counted is what goes over the wire: the bytes that a round adds to the counters are
/// as many as it writes.
pub proof fn law_counted_bytes(waiting: Seq<Option<PendingFrame>>, n: int)
    requires
        0 <= n <= waiting.len() <= 255,
    ensures
        crate::protocol::frames_bytes(round_frames(waiting, n)).len() == round_bytes(waiting, n),
    decreases n,
{
    if n > 0 {
        law_counted_bytes(waiting, n - 1);
        law_round_by_slots(waiting, n);
    }
}

/// The frames of a run of rounds.
pub open spec fn sent_frames(rounds: Seq<Seq<Option<PendingFrame>>>) -> Seq<
    (FrameHeader, Seq<u8>),
>
    decreases rounds.len(),
{
    if rounds.len() == 0 {
        Seq::empty()
    } else {
        sent_frames(rounds.drop_last()) + round_frames(rounds.last(), rounds.last().len() as int)
    }
}

/// The last file that a run of rounds sends of stream `i`, if any.
pub open spec fn newest_sent(rounds: Seq<Seq<Option<PendingFrame>>>, i: int) -> Option<Seq<u8>>
    decreases rounds.len(),
{
    if rounds.len() == 0 {
        None
    } else {
        match rounds.last()[i] {
            Some(frame) => Some(frame.jpeg@),
            None => newest_sent(rounds.drop_last(), i),
        }
    }
}

/// Whether `rounds` are rounds of `n` streams whose files are within the cap.
pub open spec fn rounds_of(rounds: Seq<Seq<Option<PendingFrame>>>, n: nat) -> bool {
    &&& forall|r: int| 0 <= r < rounds.len() ==> (#[trigger] rounds[r]).len() == n
    &&& forall|r: int, i: int|
        0 <= r < rounds.len() && 0 <= i < n && (#[trigger] rounds[r][i]) is Some
            ==> rounds[r][i]->Some_0.jpeg@.len() <= crate::protocol::MAX_FRAME_BYTES
}

proof fn lemma_sent_headers(rounds: Seq<Seq<Option<PendingFrame>>>, n: nat)
    requires
        0 < n <= 255,
        rounds_of(rounds, n),
    ensures
        forall|k: int|
            0 <= k < sent_frames(rounds).len() ==> (#[trigger] sent_frames(rounds)[k]).1.len()
                <= crate::protocol::MAX_FRAME_BYTES && crate::protocol::received_header(
                sent_frames(rounds)[k].0,
                sent_frames(rounds)[k].1,
            ) == sent_frames(rounds)[k].0,
    decreases rounds.len(),
{
    if rounds.len() > 0 {
        let d = rounds.drop_last();
        assert(rounds_of(d, n)) by {
            assert(forall|r: int| 0 <= r < d.len() ==> d[r] == #[trigger] rounds[r]);
        }
        lemma_sent_headers(d, n);
        let w = rounds.last();
        assert(w == rounds[rounds.len() - 1]);
        assert forall|i: int| 0 <= i < w.len() && (#[trigger] w[i]) is Some implies w[
            i
        ]->Some_0.jpeg@.len() <= crate::protocol::MAX_FRAME_BYTES by {
            assert(rounds[rounds.len() - 1][i] is Some);
        }
        lemma_round_headers(w, w.len() as int);
        let r = round_frames(w, w.len() as int);
        let all = sent_frames(rounds);
        let before = sent_frames(d);
        assert forall|k: int| 0 <= k < all.len() implies (#[trigger] all[k]).1.len()
            <= crate::protocol::MAX_FRAME_BYTES && crate::protocol::received_header(
            all[k].0,
            all[k].1,
        ) == all[k].0 by {
            if k < before.len() {
                assert(all[k] == before[k]);
            } else {
                assert(all[k] == r[k - before.len()]);
            }
        }
    } else {
        assert(sent_frames(rounds).len() == 0);
    }
}

/// What a round does to the slots of a viewer.
proof fn lemma_round_demultiplexed(
    n: nat,
    before: Seq<(FrameHeader, Seq<u8>)>,
    waiting: Seq<Option<PendingFrame>>,
    k: int,
    i: int,
)
    requires
        0 < n <= 255,
        waiting.len() == n,
        0 <= k <= n,
        0 <= i < n,
    ensures
        crate::view::demultiplexed(n, before + round_frames(waiting, k)).len() == n,
        crate::view::demultiplexed(n, before + round_frames(waiting, k))[i].item == (if i < k
            && waiting[i] is Some {
            Some(waiting[i]->Some_0.jpeg@)
        } else {
            crate::view::demultiplexed(n, before)[i].item
        }),
    decreases k,
{
    crate::view::law_streams_apart(n, before + round_frames(waiting, k), i, 0);
    if k == 0 {
        assert(before + round_frames(waiting, 0) =~= before);
    } else {
        lemma_round_demultiplexed(n, before, waiting, k - 1, i);
        let rest = before + round_frames(waiting, k - 1);
        crate::view::law_streams_apart(n, rest, i, 0);
        let all = before + round_frames(waiting, k);
        if let Some(frame) = waiting[k - 1] {
            let f = (header_of((k - 1) as u8, frame), frame.jpeg@);
            assert(all.drop_last() =~= rest);
            assert(all.last() == f);
            crate::view::law_stream_numbers((k - 1) as u8, n as int);
        }
    }
}

proof fn lemma_newest(rounds: Seq<Seq<Option<PendingFrame>>>, n: nat, i: int)
    requires
        0 < n <= 255,
        rounds_of(rounds, n),
        0 <= i < n,
    ensures
        crate::view::demultiplexed(n, sent_frames(rounds))[i].item == newest_sent(rounds, i),
    decreases rounds.len(),
{
    if rounds.len() > 0 {
        let d = rounds.drop_last();
        assert(rounds_of(d, n)) by {
            assert(forall|r: int| 0 <= r < d.len() ==> d[r] == #[trigger] rounds[r]);
        }
        lemma_newest(d, n, i);
        let w = rounds.last();
        assert(w == rounds[rounds.len() - 1]);
        lemma_round_demultiplexed(n, sent_frames(d), w, n as int, i);
    }
}

/// The whole way: after any number of rounds a viewer has read the number of streams and every
/// frame, and the slot of each stream holds the newest file that was sent of it.
pub proof fn law_newest_frame_arrives(rounds: Seq<Seq<Option<PendingFrame>>>, n: u8, i: int)
    requires
        0 < n,
        rounds_of(rounds, n as nat),
        0 <= i < n,
    ensures
        ({
            let frames = sent_frames(rounds);
            let wire = crate::protocol::handshake_bytes(n) + crate::protocol::frames_bytes(frames);
            &&& crate::protocol::handshake_of(wire) == Ok::<u8, crate::protocol::ProtocolError>(n)
            &&& crate::protocol::frames_of(crate::protocol::after_handshake(wire), frames.len())
                == Some((frames, Seq::<u8>::empty()))
            &&& crate::view::demultiplexed(n as nat, frames)[i].item == newest_sent(rounds, i)
        }),
{
    let frames = sent_frames(rounds);
    lemma_sent_headers(rounds, n as nat);
    crate::protocol::law_session_round_trip(n, frames);
    let seen = frames.map_values(
        |f: (FrameHeader, Seq<u8>)| (crate::protocol::received_header(f.0, f.1), f.1),
    );
    assert(seen =~= frames);
    lemma_newest(rounds, n as nat, i);
}

/// A share with a filter captures exactly the displays that the filter lists, in its order,
/// however many they are, and never one that it does not list.
pub proof fn law_filter_is_the_plan(total: nat, filter: Seq<usize>, i: int)
    requires
        0 <= i < filter.len(),
    ensures
        selected(total, filter).len() == filter.len(),
        selected(total, filter)[i] == filter[i],
        forall|d: usize| #[trigger] selected(total, filter).contains(d) ==> filter.contains(d),
{
}

/// The display that is named as out of range is one that the filter lists and that is not there;
/// every display listed before it is there.
pub proof fn law_first_out_of_range(total: nat, filter: Seq<usize>, k: int)
    requires
        0 <= k < filter.len(),
    ensures
        first_out_of_range(total, filter, filter[k]) ==> filter[k] >= total,
        filter[k] >= total && (forall|j: int| 0 <= j < k ==> filter[j] < total)
            ==> first_out_of_range(total, filter, filter[k]) && forall|d: usize|
            #[trigger] first_out_of_range(total, filter, d) ==> d == filter[k],
{
    assert forall|d: usize|
        filter[k] >= total && (forall|j: int| 0 <= j < k ==> filter[j] < total)
            && #[trigger] first_out_of_range(total, filter, d) implies d == filter[k] by {
        let m = choose|m: int|
            #![trigger filter[m]]
            0 <= m < filter.len() && filter[m] == d && d >= total && forall|j: int|
                0 <= j < m ==> filter[j] < total;
        if m < k {
            assert(filter[m] < total);
        } else if k < m {
            assert(filter[k] < total);
        }
    }
}

/// A frame is sent under its stream's number, with its own sides and the length of its file.
pub proof fn law_header(i: u8, frame: PendingFrame)
    ensures
        header_of(i, frame).monitor_id == i,
        header_of(i, frame).width == frame.width,
        header_of(i, frame).height == frame.height,
        frame.jpeg@.len() <= u32::MAX ==> header_of(i, frame).data_len == frame.jpeg@.len(),
{
}

/// A share without a filter captures every display and numbers its streams like the displays.
pub proof fn law_all_displays(total: nat, i: int)
    requires
        0 <= i < total <= usize::MAX,
    ensures
        selected(total, Seq::empty()).len() == total,
        selected(total, Seq::empty())[i] == i,
{
}

/// The announcement of a share names its address first, then how many displays it captures and
/// which ones, then the frame rate, the quality and whether unchanged frames are skipped.
pub proof fn law_announcement(
    bind: Seq<char>,
    plan: Seq<usize>,
    fps: u32,
    quality: u8,
    skip_unchanged: bool,
)
    ensures
        ({
            let t = listening_text(bind, plan, fps, quality, skip_unchanged);
            let address = "[share] listening on "@ + bind;
            let displays = " | "@ + crate::text::decimal(plan.len()) + " monitor(s) (indices ["@
                + crate::text::listed(plan, ", "@);
            let choices = "]) | fps="@ + crate::text::decimal(fps as nat) + " quality="@
                + crate::text::decimal(quality as nat) + " skip_unchanged="@ + crate::text::truth(
                skip_unchanged,
            );
            t == address + displays + choices
        }),
{
    let address = "[share] listening on "@ + bind;
    let displays = " | "@ + crate::text::decimal(plan.len()) + " monitor(s) (indices ["@
        + crate::text::listed(plan, ", "@);
    let choices = "]) | fps="@ + crate::text::decimal(fps as nat) + " quality="@
        + crate::text::decimal(quality as nat) + " skip_unchanged="@ + crate::text::truth(
        skip_unchanged,
    );
    assert(listening_text(bind, plan, fps, quality, skip_unchanged) =~= address + displays
        + choices);
}

/// What is said of displays that cannot be captured holds the numbers in question.
pub proof fn law_share_error_texts(idx: usize, total: usize)
    ensures
        ShareError::NoDisplays.text() == "no displays detected"@,
        ShareError::TooManyDisplays.text() == "too many displays"@,
        (ShareError::OutOfRange { idx, total }).text() == "display index "@ + crate::text::decimal(
            idx as nat,
        ) + (" out of range (only "@ + crate::text::decimal(total as nat) + " detected)"@),
{
    assert((ShareError::OutOfRange { idx, total }).text() =~= "display index "@
        + crate::text::decimal(idx as nat) + (" out of range (only "@ + crate::text::decimal(
        total as nat,
    ) + " detected)"@));
}

/// A frame that waits to be sent reaches a viewer as it is: the stream, the sides and the file.
pub proof fn law_frame_reaches_viewer(i: u8, frame: PendingFrame, tail: Seq<u8>)
    requires
        frame.jpeg@.len() <= crate::protocol::MAX_FRAME_BYTES,
    ensures
        crate::protocol::frame_of(
            crate::protocol::frame_bytes(header_of(i, frame), frame.jpeg@) + tail,
        ) == Ok::<(FrameHeader, Seq<u8>), crate::protocol::ProtocolError>(
            (header_of(i, frame), frame.jpeg@),
        ),
        crate::protocol::after_frame(
            crate::protocol::frame_bytes(header_of(i, frame), frame.jpeg@) + tail,
        ) == tail,
        header_of(i, frame) == (FrameHeader {
            monitor_id: i,
            width: frame.width,
            height: frame.height,
            data_len: frame.jpeg@.len() as u32,
        }),
{
    crate::protocol::law_frame_round_trip(header_of(i, frame), frame.jpeg@, tail);
}

} // verus!
