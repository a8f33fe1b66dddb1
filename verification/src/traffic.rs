//! Per-monitor counters, and the line in which they are reported.

use vstd::prelude::*;

use crate::text::{push_decimal, push_padded};

verus! {

/// The nanoseconds between two reports.
pub const REPORT_NANOS: u128 = 1_000_000_000;

/// What one monitor did since the last report.
#[derive(Clone, Copy, Debug, PartialEq, Eq, Structural)]
pub struct Activity {
    pub id: usize,
    pub frames: u32,
    pub bytes: u64,
}

/// Frames and bytes of each monitor since the last report.
pub struct Traffic {
    pub frames: Vec<u32>,
    pub bytes: Vec<u64>,
}

/// The activity of the first `n` monitors, without those that were idle.
pub open spec fn active(frames: Seq<u32>, bytes: Seq<u64>, n: int) -> Seq<Activity>
    decreases n,
{
    if n <= 0 {
        Seq::empty()
    } else if frames[n - 1] > 0 {
        active(frames, bytes, n - 1).push(
            Activity { id: (n - 1) as usize, frames: frames[n - 1], bytes: bytes[n - 1] },
        )
    } else {
        active(frames, bytes, n - 1)
    }
}

impl Traffic {
    /// There is a pair of counters for each monitor.
    pub open spec fn wf(&self) -> bool {
        self.frames@.len() == self.bytes@.len()
    }

    /// The number of monitors.
    pub open spec fn monitors(&self) -> nat {
        self.frames@.len()
    }

    /// Whether nothing has been counted since the last report.
    pub open spec fn at_zero(&self) -> bool {
        &&& forall|i: int| 0 <= i < self.frames@.len() ==> #[trigger] self.frames@[i] == 0
        &&& forall|i: int| 0 <= i < self.bytes@.len() ==> #[trigger] self.bytes@[i] == 0
    }

    /// Whether a frame of `len` bytes of monitor `i` can be counted.
    pub open spec fn room_for(&self, i: int, len: int) -> bool {
        &&& 0 <= i < self.monitors()
        &&& self.frames@[i] < u32::MAX
        &&& self.bytes@[i] + len <= u64::MAX
    }

    pub fn new(n: usize) -> (res: Traffic)
        ensures
            res.wf(),
            res.monitors() == n,
            res.at_zero(),
            res.frames@.len() == n,
            forall|i: int| 0 <= i < n ==> #[trigger] res.frames@[i] == 0,
            forall|i: int| 0 <= i < n ==> #[trigger] res.bytes@[i] == 0,
    {
        Traffic { frames: vec![0u32; n], bytes: vec![0u64; n] }
    }

    /// Whether a frame of `len` bytes of monitor `i` can be counted, for a caller to ask before.
    pub fn has_room(&self, i: usize, len: u64) -> (res: bool)
        requires
            self.wf(),
        ensures
            res == self.room_for(i as int, len as int),
            res <==> i < self.frames@.len() && self.frames@[i as int] < u32::MAX
                && self.bytes@[i as int] + len <= u64::MAX,
    {
        i < self.frames.len() && self.frames[i] < u32::MAX && self.bytes[i] <= u64::MAX - len
    }

    /// Counts a frame of `len` bytes of monitor `i`.
    pub fn record(&mut self, i: usize, len: u64)
        requires
            old(self).wf(),
            old(self).room_for(i as int, len as int),
        ensures
            final(self).wf(),
            final(self).frames@ == old(self).frames@.update(
                i as int,
                (old(self).frames@[i as int] + 1) as u32,
            ),
            final(self).bytes@ == old(self).bytes@.update(
                i as int,
                (old(self).bytes@[i as int] + len) as u64,
            ),
    {
        let f: u32 = self.frames[i];
        let b: u64 = self.bytes[i];
        self.frames.set(i, f + 1);
        self.bytes.set(i, b + len);
    }

    /// When a second has passed since the last report: the monitors that were active, in order,
    /// and all counters back to zero. Before that, nothing.
    pub fn take_report(&mut self, elapsed_nanos: u128) -> (res: Option<Vec<Activity>>)
        requires
            old(self).wf(),
        ensures
            final(self).wf(),
            final(self).monitors() == old(self).monitors(),
            elapsed_nanos < REPORT_NANOS ==> res is None && *final(self) == *old(self),
            res is Some <==> elapsed_nanos >= 1_000_000_000,
            elapsed_nanos >= REPORT_NANOS ==> {
                &&& res is Some
                &&& res->Some_0@ == active(
                    old(self).frames@,
                    old(self).bytes@,
                    old(self).monitors() as int,
                )
                &&& final(self).at_zero()
                &&& forall|j: int|
                    0 <= j < final(self).frames@.len() ==> #[trigger] final(self).frames@[j] == 0
                        && final(self).bytes@[j] == 0
            },
    {
        if elapsed_nanos < REPORT_NANOS {
            return None;
        }
        let mut out: Vec<Activity> = Vec::new();
        let n: usize = self.frames.len();
        let mut i: usize = 0;
        while i < n
            invariant
                i <= n,
                self.wf(),
                n == self.monitors(),
                n == old(self).monitors(),
                old(self).wf(),
                out@ == active(old(self).frames@, old(self).bytes@, i as int),
                forall|j: int| i <= j < n ==> self.frames@[j] == old(self).frames@[j],
                forall|j: int| i <= j < n ==> self.bytes@[j] == old(self).bytes@[j],
                forall|j: int| 0 <= j < i ==> self.frames@[j] == 0,
                forall|j: int| 0 <= j < i ==> self.bytes@[j] == 0,
            decreases n - i,
        {
            let frames: u32 = self.frames[i];
            let bytes: u64 = self.bytes[i];
            if frames > 0 {
                out.push(Activity { id: i, frames, bytes });
            }
            self.frames.set(i, 0);
            self.bytes.set(i, 0);
            i = i + 1;
        }
        Some(out)
    }
}

// ---------- the line ----------

/// One monitor's part of a report, with its rates already written out as numbers.
pub struct StatText {
    pub id: usize,
    pub fps: String,
    pub kbps: String,
}

/// A monitor's number, frames per second and kilobytes per second.
pub type Stat = (nat, Seq<char>, Seq<char>);

impl StatText {
    pub open spec fn stat(self) -> Stat {
        (self.id as nat, self.fps@, self.kbps@)
    }
}

/// How a report shows one monitor.
pub open spec fn stat_text(stat: Stat) -> Seq<char> {
    "  m"@ + crate::text::decimal(stat.0) + ":"@ + crate::text::padded(stat.1, 4) + "fps "@
        + crate::text::padded(stat.2, 6) + "KB/s"@
}

/// How a report shows a row of monitors.
pub open spec fn stats_text(stats: Seq<Stat>) -> Seq<char>
    decreases stats.len(),
{
    if stats.len() == 0 {
        Seq::empty()
    } else {
        stats_text(stats.drop_last()) + stat_text(stats.last())
    }
}

/// A whole report, behind the tag of the side that gives it.
pub open spec fn report_text(tag: Seq<char>, stats: Seq<Stat>) -> Seq<char> {
    tag + stats_text(stats)
}

/// What a row of texts says.
pub open spec fn stats_of(texts: Seq<StatText>) -> Seq<Stat> {
    texts.map_values(|t: StatText| t.stat())
}

fn push_stat(line: &mut String, t: &StatText)
    ensures
        final(line)@ == old(line)@ + stat_text(t.stat()),
{
    let ghost start = line@;
    let ghost number = crate::text::decimal(t.id as nat);
    let ghost fps = crate::text::padded(t.fps@, 4);
    let ghost kbps = crate::text::padded(t.kbps@, 6);
    line.append("  m");
    push_decimal(line, t.id as u64);
    line.append(":");
    push_padded(line, t.fps.as_str(), 4);
    line.append("fps ");
    push_padded(line, t.kbps.as_str(), 6);
    line.append("KB/s");
    proof {
        let head = "  m"@ + number;
        crate::text::lemma_join(start, "  m"@, number);
        crate::text::lemma_join(start, head, ":"@);
        crate::text::lemma_join(start, head + ":"@, fps);
        crate::text::lemma_join(start, head + ":"@ + fps, "fps "@);
        crate::text::lemma_join(start, head + ":"@ + fps + "fps "@, kbps);
        crate::text::lemma_join(start, head + ":"@ + fps + "fps "@ + kbps, "KB/s"@);
    }
}

/// Writes a report, unless there is nothing to report.
pub fn report_line(tag: &str, texts: &Vec<StatText>) -> (res: Option<String>)
    ensures
        match res {
            None => texts@.len() == 0,
            Some(line) => texts@.len() > 0 && line@ == report_text(tag@, stats_of(texts@)),
        },
{
    if texts.len() == 0 {
        return None;
    }
    let mut line = String::from_str(tag);
    let ghost stats = stats_of(texts@);
    let mut i: usize = 0;
    assert(line@ =~= report_text(tag@, stats.take(0)));
    while i < texts.len()
        invariant
            i <= texts@.len(),
            stats == stats_of(texts@),
            line@ == report_text(tag@, stats.take(i as int)),
        decreases texts@.len() - i,
    {
        push_stat(&mut line, &texts[i]);
        proof {
            assert(stats.take(i + 1).drop_last() =~= stats.take(i as int));
            assert(stats.take(i + 1).last() == texts@[i as int].stat());
            crate::text::lemma_join(
                tag@,
                stats_text(stats.take(i as int)),
                stat_text(texts@[i as int].stat()),
            );
        }
        i = i + 1;
    }
    assert(stats.take(stats.len() as int) =~= stats);
    Some(line)
}

// ---------- laws ----------

/// The frames of a report.
pub open spec fn frames_reported(report: Seq<Activity>) -> int
    decreases report.len(),
{
    if report.len() == 0 {
        0
    } else {
        frames_reported(report.drop_last()) + report.last().frames
    }
}

/// The frames counted for the first `n` monitors.
pub open spec fn frames_counted(frames: Seq<u32>, n: int) -> int
    decreases n,
{
    if n <= 0 {
        0
    } else {
        frames_counted(frames, n - 1) + frames[n - 1]
    }
}

/// A report leaves out no frame that was counted.
pub proof fn law_report_complete(frames: Seq<u32>, bytes: Seq<u64>, n: int)
    requires
        0 <= n <= frames.len(),
        frames.len() == bytes.len(),
    ensures
        frames_reported(active(frames, bytes, n)) == frames_counted(frames, n),
    decreases n,
{
    if n > 0 {
        law_report_complete(frames, bytes, n - 1);
        if frames[n - 1] > 0 {
            let a = active(frames, bytes, n);
            assert(a.drop_last() =~= active(frames, bytes, n - 1));
        }
    }
}

/// A report names monitors in increasing order, each at most once, and none that was idle.
pub proof fn law_report_ordered(frames: Seq<u32>, bytes: Seq<u64>, n: int)
    requires
        0 <= n <= frames.len() <= usize::MAX,
        frames.len() == bytes.len(),
    ensures
        forall|i: int|
            0 <= i < active(frames, bytes, n).len() ==> (#[trigger] active(frames, bytes, n)[i]).id
                < n && active(frames, bytes, n)[i].frames > 0,
        forall|i: int, j: int|
            0 <= i < j < active(frames, bytes, n).len() ==> (#[trigger] active(
                frames,
                bytes,
                n,
            )[i]).id < (#[trigger] active(frames, bytes, n)[j]).id,
    decreases n,
{
    if n > 0 {
        law_report_ordered(frames, bytes, n - 1);
        let a = active(frames, bytes, n);
        let b = active(frames, bytes, n - 1);
        if frames[n - 1] > 0 {
            assert(forall|i: int| 0 <= i < b.len() ==> #[trigger] a[i] == b[i]);
            assert(a.last().id == n - 1);
        } else {
            assert(a == b);
        }
    } else {
        assert(active(frames, bytes, n).len() == 0);
    }
}

/// A report says of each monitor it names what was counted for that one, the frames and the bytes,
/// and it names every monitor that was active.
pub proof fn law_report_entries(frames: Seq<u32>, bytes: Seq<u64>, n: int)
    requires
        0 <= n <= frames.len() <= usize::MAX,
        frames.len() == bytes.len(),
    ensures
        forall|k: int|
            0 <= k < active(frames, bytes, n).len() ==> {
                let a = #[trigger] active(frames, bytes, n)[k];
                &&& a.id < n
                &&& a.frames == frames[a.id as int]
                &&& a.frames > 0
                &&& a.bytes == bytes[a.id as int]
            },
        forall|i: int|
            0 <= i < n && #[trigger] frames[i] > 0 ==> exists|k: int|
                0 <= k < active(frames, bytes, n).len() && (#[trigger] active(
                    frames,
                    bytes,
                    n,
                )[k]).id == i,
    decreases n,
{
    if n > 0 {
        law_report_entries(frames, bytes, n - 1);
        let a = active(frames, bytes, n);
        let b = active(frames, bytes, n - 1);
        if frames[n - 1] > 0 {
            assert(forall|k: int| 0 <= k < b.len() ==> #[trigger] a[k] == b[k]);
            assert(a[b.len() as int].id == n - 1);
            assert forall|i: int| 0 <= i < n && #[trigger] frames[i] > 0 implies exists|k: int|
                0 <= k < a.len() && (#[trigger] a[k]).id == i by {
                if i < n - 1 {
                    let k = choose|k: int| 0 <= k < b.len() && (#[trigger] b[k]).id == i;
                    assert(a[k].id == i);
                }
            }
        } else {
            assert(a == b);
        }
    }
}

/// A report shows a monitor's number in decimal behind an `m`, then its rates in fields of four
/// and of six characters, each with its unit behind it.
pub proof fn law_stat_shown(id: nat, fps: Seq<char>, kbps: Seq<char>)
    ensures
        stat_text((id, fps, kbps)) == ("  m"@ + crate::text::decimal(id) + ":"@) + (
        crate::text::padded(fps, 4) + "fps "@) + (crate::text::padded(kbps, 6) + "KB/s"@),
{
    assert(stat_text((id, fps, kbps)) =~= ("  m"@ + crate::text::decimal(id) + ":"@) + (
    crate::text::padded(fps, 4) + "fps "@) + (crate::text::padded(kbps, 6) + "KB/s"@));
}

/// Reports are made monitor by monitor: the tag, and behind it what is shown of each, in order.
pub proof fn law_report_joined(tag: Seq<char>, stats: Seq<Stat>, stat: Stat)
    ensures
        report_text(tag, Seq::empty()) == tag,
        report_text(tag, stats.push(stat)) == report_text(tag, stats) + stat_text(stat),
{
    assert(report_text(tag, Seq::empty()) =~= tag);
    assert(stats.push(stat).drop_last() =~= stats);
    crate::text::lemma_join(tag, stats_text(stats), stat_text(stat));
}

/// A report is about the monitors it is given, one by one: their numbers, their frames and their
/// kilobytes per second.
pub proof fn law_stats_in_order(texts: Seq<StatText>, i: int)
    requires
        0 <= i < texts.len(),
    ensures
        stats_of(texts).len() == texts.len(),
        stats_of(texts)[i] == (texts[i].id as nat, texts[i].fps@, texts[i].kbps@),
{
}

} // verus!
