//! What the launcher shows of a running session: a log and per-monitor statistics, both bounded.

use std::collections::{HashMap, VecDeque};

use vstd::prelude::*;

verus! {

broadcast use vstd::std_specs::hash::group_hash_axioms;

/// How many lines the log holds.
pub const LOG_MAX_LINES: usize = 1500;

/// How many past rates are kept of a monitor.
pub const STATS_HISTORY: usize = 90;

/// For how many nanoseconds a monitor's rates count as current.
pub const FRESH_NANOS: u128 = 3_000_000_000;

// ---------- bounded queues ----------

/// `queue` with `value` at its end; a full queue loses its oldest item.
pub open spec fn queued<T>(queue: Seq<T>, limit: int, value: T) -> Seq<T> {
    if queue.len() == limit {
        queue.drop_first().push(value)
    } else {
        queue.push(value)
    }
}

fn push_bounded<T>(queue: &mut VecDeque<T>, limit: usize, value: T)
    requires
        limit > 0,
    ensures
        final(queue)@ == queued(old(queue)@, limit as int, value),
{
    if queue.len() == limit {
        queue.pop_front();
        assert(queue@ =~= old(queue)@.drop_first());
    }
    queue.push_back(value);
}

/// `queue` after each of `values` has come in, one after the other.
pub open spec fn queued_all<T>(queue: Seq<T>, limit: int, values: Seq<T>) -> Seq<T>
    decreases values.len(),
{
    if values.len() == 0 {
        queue
    } else {
        queued(queued_all(queue, limit, values.drop_last()), limit, values.last())
    }
}

/// A queue that started empty holds what came in last, in order, up to its limit.
pub proof fn law_queue_keeps_newest<T>(limit: int, values: Seq<T>)
    requires
        limit > 0,
    ensures
        queued_all(Seq::<T>::empty(), limit, values) == values.skip(
            if values.len() > limit {
                values.len() - limit
            } else {
                0
            },
        ),
        queued_all(Seq::<T>::empty(), limit, values).len() <= limit,
    decreases values.len(),
{
    if values.len() == 0 {
        assert(values.skip(0) =~= Seq::<T>::empty());
    } else {
        let d = values.drop_last();
        law_queue_keeps_newest(limit, d);
        let q = queued_all(Seq::<T>::empty(), limit, d);
        if d.len() >= limit {
            assert(q.len() == limit);
            assert(q.drop_first().push(values.last()) =~= values.skip(values.len() - limit));
        } else {
            assert(q.push(values.last()) =~= values.skip(0));
        }
    }
}

// ---------- log ----------

/// The lines of output, the oldest first.
pub struct Log {
    pub lines: VecDeque<String>,
}

impl Log {
    pub open spec fn wf(&self) -> bool {
        self.lines@.len() <= LOG_MAX_LINES
    }

    /// The texts of the lines.
    pub open spec fn texts(&self) -> Seq<Seq<char>> {
        self.lines@.map_values(|s: String| s@)
    }

    pub fn new() -> (res: Log)
        ensures
            res.wf(),
            res.texts() == Seq::<Seq<char>>::empty(),
    {
        let res = Log { lines: VecDeque::with_capacity(LOG_MAX_LINES) };
        assert(res.texts() =~= Seq::<Seq<char>>::empty());
        res
    }

    /// Adds a line; a full log loses its oldest one.
    pub fn push(&mut self, line: String)
        requires
            old(self).wf(),
        ensures
            final(self).wf(),
            final(self).texts() == queued(old(self).texts(), LOG_MAX_LINES as int, line@),
            old(self).lines@.len() < 1500 ==> final(self).lines@ == old(self).lines@.push(line),
            old(self).lines@.len() == 1500 ==> final(self).lines@
                == old(self).lines@.drop_first().push(line),
    {
        push_bounded(&mut self.lines, LOG_MAX_LINES, line);
        assert(self.texts() =~= queued(old(self).texts(), LOG_MAX_LINES as int, line@));
    }

    pub fn clear(&mut self)
        ensures
            final(self).wf(),
            final(self).texts() == Seq::<Seq<char>>::empty(),
    {
        self.lines.clear();
        assert(self.texts() =~= Seq::<Seq<char>>::empty());
    }
}

/// How a line of a session's output stands in the log.
pub open spec fn logged(line: Seq<char>, is_stderr: bool) -> Seq<char> {
    if is_stderr {
        "[err] "@ + line
    } else {
        line
    }
}

/// Marks a line of a session's output for the log.
pub fn log_line(line: String, is_stderr: bool) -> (res: String)
    ensures
        res@ == logged(line@, is_stderr),
{
    if is_stderr {
        String::from_str("[err] ").concat(line.as_str())
    } else {
        line
    }
}

/// What a line of the log is about.
#[derive(Clone, Copy, Debug, PartialEq, Eq, Structural)]
pub enum LineKind {
    Error,
    Launcher,
    Session,
    Other,
}

/// The kind of a line, by what it starts with.
pub open spec fn kind_of(line: Seq<char>) -> LineKind {
    if "[err]"@.is_prefix_of(line) {
        LineKind::Error
    } else if "[gui]"@.is_prefix_of(line) {
        LineKind::Launcher
    } else if "[share]"@.is_prefix_of(line) || "[view"@.is_prefix_of(line) {
        LineKind::Session
    } else {
        LineKind::Other
    }
}

fn has_prefix(line: &str, prefix: &str) -> (res: bool)
    ensures
        res == prefix@.is_prefix_of(line@),
{
    let n: usize = prefix.unicode_len();
    if line.unicode_len() < n {
        return false;
    }
    let mut i: usize = 0;
    while i < n
        invariant
            i <= n,
            n == prefix@.len(),
            n <= line@.len(),
            forall|j: int| 0 <= j < i ==> line@[j] == prefix@[j],
        decreases n - i,
    {
        if line.get_char(i) != prefix.get_char(i) {
            assert(line@.subrange(0, n as int)[i as int] != prefix@[i as int]);
            return false;
        }
        i = i + 1;
    }
    assert(line@.subrange(0, n as int) =~= prefix@);
    true
}

/// Tells what a line of the log is about.
pub fn line_kind(line: &str) -> (res: LineKind)
    ensures
        res == kind_of(line@),
{
    if has_prefix(line, "[err]") {
        LineKind::Error
    } else if has_prefix(line, "[gui]") {
        LineKind::Launcher
    } else if has_prefix(line, "[share]") || has_prefix(line, "[view") {
        LineKind::Session
    } else {
        LineKind::Other
    }
}

// ---------- statistics ----------

/// The rates of one monitor. A rate is a 32-bit floating-point number, held as its bits; a time
/// is in nanoseconds since the launcher started.
pub struct MonitorStats {
    pub fps: u32,
    pub kbps: u32,
    pub history_fps: VecDeque<u32>,
    pub history_kbps: VecDeque<u32>,
    pub last_update: u128,
}

impl MonitorStats {
    pub open spec fn wf(&self) -> bool {
        self.history_fps@.len() <= STATS_HISTORY && self.history_kbps@.len() <= STATS_HISTORY
    }

    /// Statistics without any report: both rates are zero, whose bits are zero.
    pub fn new(now: u128) -> (res: MonitorStats)
        ensures
            res.wf(),
            res.fps == 0,
            res.kbps == 0,
            res.history_fps@ == Seq::<u32>::empty(),
            res.history_kbps@ == Seq::<u32>::empty(),
            res.last_update == now,
    {
        MonitorStats {
            fps: 0,
            kbps: 0,
            history_fps: VecDeque::with_capacity(STATS_HISTORY),
            history_kbps: VecDeque::with_capacity(STATS_HISTORY),
            last_update: now,
        }
    }

    /// Whether these are the statistics of a monitor with the given histories, after one more
    /// report.
    pub open spec fn follows(
        &self,
        history_fps: Seq<u32>,
        history_kbps: Seq<u32>,
        fps: u32,
        kbps: u32,
        now: u128,
    ) -> bool {
        &&& self.fps == fps
        &&& self.kbps == kbps
        &&& self.history_fps@ == queued(history_fps, STATS_HISTORY as int, fps)
        &&& self.history_kbps@ == queued(history_kbps, STATS_HISTORY as int, kbps)
        &&& self.last_update == now
    }

    /// Takes in a report.
    pub fn record(&mut self, fps: u32, kbps: u32, now: u128)
        requires
            old(self).wf(),
        ensures
            final(self).wf(),
            final(self).follows(old(self).history_fps@, old(self).history_kbps@, fps, kbps, now),
            final(self).fps == fps,
            final(self).kbps == kbps,
            final(self).last_update == now,
            final(self).history_fps@.last() == fps,
            final(self).history_kbps@.last() == kbps,
    {
        self.fps = fps;
        self.kbps = kbps;
        push_bounded(&mut self.history_fps, STATS_HISTORY, fps);
        push_bounded(&mut self.history_kbps, STATS_HISTORY, kbps);
        self.last_update = now;
    }

    /// Whether the last report is less than three seconds old.
    pub fn is_fresh(&self, now: u128) -> (res: bool)
        ensures
            res == (now - self.last_update < FRESH_NANOS),
            res <==> now < self.last_update + 3_000_000_000,
    {
        now <= self.last_update || now - self.last_update < FRESH_NANOS
    }
}

/// The statistics of the monitors that have been reported so far.
pub struct StatsBoard {
    pub monitors: HashMap<u8, MonitorStats>,
}

impl StatsBoard {
    pub open spec fn wf(&self) -> bool {
        forall|id: u8| #[trigger] self.monitors@.contains_key(id) ==> self.monitors@[id].wf()
    }

    pub fn new() -> (res: StatsBoard)
        ensures
            res.wf(),
            res.monitors@ == Map::<u8, MonitorStats>::empty(),
    {
        StatsBoard { monitors: HashMap::new() }
    }

    pub fn clear(&mut self)
        ensures
            final(self).wf(),
            final(self).monitors@ == Map::<u8, MonitorStats>::empty(),
    {
        self.monitors.clear();
    }

    /// Takes in a report on monitor `id`, which may be the first one.
    pub fn record(&mut self, id: u8, fps: u32, kbps: u32, now: u128)
        requires
            old(self).wf(),
        ensures
            final(self).wf(),
            final(self).monitors@.dom() == old(self).monitors@.dom().insert(id),
            final(self).monitors@.remove(id) == old(self).monitors@.remove(id),
            if old(self).monitors@.contains_key(id) {
                final(self).monitors@[id].follows(
                    old(self).monitors@[id].history_fps@,
                    old(self).monitors@[id].history_kbps@,
                    fps,
                    kbps,
                    now,
                )
            } else {
                final(self).monitors@[id].follows(Seq::empty(), Seq::empty(), fps, kbps, now)
            },
            final(self).monitors@[id].fps == fps,
            final(self).monitors@[id].kbps == kbps,
            final(self).monitors@[id].last_update == now,
            final(self).monitors@[id].history_fps@.last() == fps,
            final(self).monitors@[id].history_kbps@.last() == kbps,
    {
        let mut m: MonitorStats = match self.monitors.remove(&id) {
            Some(m) => m,
            None => MonitorStats::new(now),
        };
        m.record(fps, kbps, now);
        self.monitors.insert(id, m);
        assert(self.monitors@.dom() =~= old(self).monitors@.dom().insert(id));
        assert(self.monitors@.remove(id) =~= old(self).monitors@.remove(id));
    }

    /// The numbers of the monitors that have been reported, in increasing order.
    pub fn ids(&self) -> (res: Vec<u8>)
        ensures
            forall|i: int, j: int| 0 <= i < j < res@.len() ==> res@[i] < res@[j],
            forall|id: u8| res@.contains(id) <==> #[trigger] self.monitors@.contains_key(id),
    {
        let mut out: Vec<u8> = Vec::new();
        let mut k: u16 = 0;
        while k < 256
            invariant
                k <= 256,
                forall|i: int, j: int| 0 <= i < j < out@.len() ==> out@[i] < out@[j],
                forall|i: int| 0 <= i < out@.len() ==> out@[i] < k,
                forall|id: u8|
                    id < k ==> (out@.contains(id) <==> #[trigger] self.monitors@.contains_key(id)),
            decreases 256 - k,
        {
            let id: u8 = k as u8;
            let ghost before = out@;
            if self.monitors.contains_key(&id) {
                out.push(id);
                assert(out@[out@.len() - 1] == id);
                assert forall|x: u8| x < k implies (out@.contains(x) <==> before.contains(x)) by {
                    if before.contains(x) {
                        let i = choose|i: int| 0 <= i < before.len() && before[i] == x;
                        assert(out@[i] == x);
                    }
                }
            }
            k = k + 1;
        }
        out
    }
}

// ---------- laws ----------

/// What comes into a queue stands at its end, behind everything that was there; only of a full
/// queue the oldest item is lost, and no other.
pub proof fn law_queued<T>(queue: Seq<T>, limit: int, value: T)
    requires
        0 < limit,
        queue.len() <= limit,
    ensures
        queue.len() < limit ==> queued(queue, limit, value) == queue + seq![value],
        queue.len() == limit ==> queued(queue, limit, value) == queue.skip(1) + seq![value],
        queued(queue, limit, value).last() == value,
        queued(queue, limit, value).len() <= limit,
{
    if queue.len() < limit {
        assert(queued(queue, limit, value) =~= queue + seq![value]);
    } else {
        assert(queued(queue, limit, value) =~= queue.skip(1) + seq![value]);
    }
}

/// After a report a monitor's rates and time are those of the report, and its histories have them
/// at their ends, behind what they held, the oldest of ninety being lost.
pub proof fn law_follows(
    m: MonitorStats,
    history_fps: Seq<u32>,
    history_kbps: Seq<u32>,
    fps: u32,
    kbps: u32,
    now: u128,
)
    requires
        history_fps.len() <= 90,
        history_kbps.len() <= 90,
    ensures
        m.follows(history_fps, history_kbps, fps, kbps, now) <==> {
            &&& (m.fps, m.kbps, m.last_update) == (fps, kbps, now)
            &&& m.history_fps@ == (if history_fps.len() == 90 {
                history_fps.skip(1)
            } else {
                history_fps
            }) + seq![fps]
            &&& m.history_kbps@ == (if history_kbps.len() == 90 {
                history_kbps.skip(1)
            } else {
                history_kbps
            }) + seq![kbps]
        },
{
    law_queued(history_fps, 90, fps);
    law_queued(history_kbps, 90, kbps);
}

/// What a session writes to its error output is marked and shown as an error; what it writes to
/// its output stands in the log as it is.
pub proof fn law_logged(line: Seq<char>)
    ensures
        logged(line, false) == line,
        logged(line, true) == "[err] "@ + line,
        kind_of(logged(line, true)) == LineKind::Error,
{
    reveal_strlit("[err] ");
    reveal_strlit("[err]");
    let t = logged(line, true);
    assert("[err]"@ =~= t.subrange(0, 5));
}

/// The kind of a line is told by what it starts with, whatever comes behind it.
pub proof fn law_line_kind(line: Seq<char>)
    ensures
        kind_of(line) == LineKind::Error <==> line.len() >= 5 && line.take(5) == seq![
            '[',
            'e',
            'r',
            'r',
            ']',
        ],
        kind_of(line) == LineKind::Launcher <==> line.len() >= 5 && line.take(5) == seq![
            '[',
            'g',
            'u',
            'i',
            ']',
        ],
        kind_of(line) == LineKind::Session <==> (line.len() >= 7 && line.take(7) == seq![
            '[',
            's',
            'h',
            'a',
            'r',
            'e',
            ']',
        ]) || (line.len() >= 5 && line.take(5) == seq!['[', 'v', 'i', 'e', 'w']),
{
    reveal_strlit("[err]");
    reveal_strlit("[gui]");
    reveal_strlit("[share]");
    reveal_strlit("[view");
    assert("[err]"@ =~= seq!['[', 'e', 'r', 'r', ']']);
    assert("[gui]"@ =~= seq!['[', 'g', 'u', 'i', ']']);
    assert("[share]"@ =~= seq!['[', 's', 'h', 'a', 'r', 'e', ']']);
    assert("[view"@ =~= seq!['[', 'v', 'i', 'e', 'w']);
    if line.len() >= 5 {
        assert(line.take(5)[1] == line[1]);
        assert(line.take(5) =~= line.subrange(0, 5));
    }
    if line.len() >= 7 {
        assert(line.take(7)[1] == line[1]);
        assert(line.take(7) =~= line.subrange(0, 7));
    }
}

/// The texts of a log are those of its lines, the oldest first.
pub proof fn law_log_texts(log: Log, i: int)
    requires
        0 <= i < log.lines@.len(),
    ensures
        log.texts().len() == log.lines@.len(),
        log.texts()[i] == log.lines@[i]@,
{
}

} // verus!
