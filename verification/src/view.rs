//! The viewer's decisions: where its windows go, which window a frame belongs to, and what to
//! do about an event.

use vstd::prelude::*;

verus! {

// ---------- windows ----------

/// Why there is nothing to view.
#[derive(Clone, Copy, Debug, PartialEq, Eq, Structural)]
pub enum ViewError {
    NoRemoteMonitors,
    NoLocalMonitors,
}

impl ViewError {
    pub open spec fn text(self) -> Seq<char> {
        match self {
            ViewError::NoRemoteMonitors => "sharer has no monitors"@,
            ViewError::NoLocalMonitors => "no local monitors"@,
        }
    }

    pub fn message(&self) -> (res: String)
        ensures
            res@ == self.text(),
    {
        match self {
            ViewError::NoRemoteMonitors => String::from_str("sharer has no monitors"),
            ViewError::NoLocalMonitors => String::from_str("no local monitors"),
        }
    }
}

/// The local monitor that shows remote monitor `i`.
pub open spec fn placement(i: int, local: int) -> int {
    i % local
}

/// Assigns to each remote monitor the local monitor that shows it, in turn.
pub fn place_windows(remote: u8, local: usize) -> (res: Result<Vec<usize>, ViewError>)
    ensures
        match res {
            Ok(places) => {
                &&& remote > 0 && local > 0
                &&& places@.len() == remote
                &&& forall|i: int|
                    0 <= i < remote ==> #[trigger] places@[i] == placement(i, local as int)
            },
            Err(ViewError::NoRemoteMonitors) => remote == 0,
            Err(ViewError::NoLocalMonitors) => remote > 0 && local == 0,
        },
{
    if remote == 0 {
        return Err(ViewError::NoRemoteMonitors);
    }
    if local == 0 {
        return Err(ViewError::NoLocalMonitors);
    }
    let mut places: Vec<usize> = Vec::new();
    let n: usize = remote as usize;
    let mut i: usize = 0;
    while i < n
        invariant
            i <= n,
            n == remote,
            local > 0,
            places@.len() == i,
            forall|j: int| 0 <= j < i ==> #[trigger] places@[j] == placement(j, local as int),
        decreases n - i,
    {
        places.push(i % local);
        i = i + 1;
    }
    Ok(places)
}

/// The stream, of `n`, that a frame under the number `monitor_id` belongs to. A number beyond the
/// streams that were announced wraps around.
pub open spec fn stream_index(monitor_id: u8, n: int) -> int {
    monitor_id as int % n
}

/// Finds the stream, of `n`, that a received frame belongs to.
pub fn stream_of(monitor_id: u8, n: usize) -> (i: usize)
    requires
        n > 0,
    ensures
        i == stream_index(monitor_id, n as int),
        i < n,
{
    monitor_id as usize % n
}

// ---------- events ----------

/// What a viewer hears of: from its windows, and from its own threads. A window is given by its
/// index if it is one of the viewer's.
#[derive(Clone, Copy, Debug, PartialEq, Eq, Structural)]
pub enum ViewEvent {
    CloseRequested,
    Key { escape: bool, pressed: bool },
    Resized { window: Option<usize>, width: u32, height: u32 },
    RedrawRequested { window: Option<usize> },
    /// A new picture of a stream has been decoded.
    Frame(u8),
    /// A second has passed.
    StatsTick,
    /// The connection is over.
    NetDown,
    Other,
}

/// What a viewer does.
#[derive(Clone, Copy, Debug, PartialEq, Eq, Structural)]
pub enum ViewAction {
    Nothing,
    Exit,
    /// Resize the surface, forget the scale tables and ask for a redraw.
    Resize { window: usize, width: u32, height: u32 },
    Present(usize),
    RequestRedraw(usize),
    Report,
}

/// What a viewer with `windows` windows does about an event.
pub open spec fn reaction(event: ViewEvent, windows: int) -> ViewAction {
    match event {
        ViewEvent::CloseRequested => ViewAction::Exit,
        ViewEvent::NetDown => ViewAction::Exit,
        ViewEvent::Key { escape, pressed } => if escape && pressed {
            ViewAction::Exit
        } else {
            ViewAction::Nothing
        },
        ViewEvent::Resized { window: Some(window), width, height } => if width > 0 && height > 0 {
            ViewAction::Resize { window, width, height }
        } else {
            ViewAction::Nothing
        },
        ViewEvent::RedrawRequested { window: Some(window) } => ViewAction::Present(window),
        ViewEvent::Frame(i) => if i < windows {
            ViewAction::RequestRedraw(i as usize)
        } else {
            ViewAction::Nothing
        },
        ViewEvent::StatsTick => ViewAction::Report,
        _ => ViewAction::Nothing,
    }
}

/// Decides what to do about an event.
pub fn on_event(event: ViewEvent, windows: usize) -> (res: ViewAction)
    ensures
        res == reaction(event, windows as int),
{
    match event {
        ViewEvent::CloseRequested => ViewAction::Exit,
        ViewEvent::NetDown => ViewAction::Exit,
        ViewEvent::Key { escape, pressed } => {
            if escape && pressed {
                ViewAction::Exit
            } else {
                ViewAction::Nothing
            }
        },
        ViewEvent::Resized { window, width, height } => match window {
            Some(window) => {
                if width > 0 && height > 0 {
                    ViewAction::Resize { window, width, height }
                } else {
                    ViewAction::Nothing
                }
            },
            None => ViewAction::Nothing,
        },
        ViewEvent::RedrawRequested { window } => match window {
            Some(window) => ViewAction::Present(window),
            None => ViewAction::Nothing,
        },
        ViewEvent::Frame(i) => {
            if (i as usize) < windows {
                ViewAction::RequestRedraw(i as usize)
            } else {
                ViewAction::Nothing
            }
        },
        ViewEvent::StatsTick => ViewAction::Report,
        ViewEvent::Other => ViewAction::Nothing,
    }
}

// ---------- laws ----------

/// With enough local monitors every remote monitor gets one of its own.
pub proof fn law_one_monitor_each(i: int, j: int, remote: int, local: int)
    requires
        0 <= i < remote,
        0 <= j < remote,
        i != j,
        remote <= local,
    ensures
        placement(i, local) == i,
        placement(i, local) != placement(j, local),
{
    vstd::arithmetic::div_mod::lemma_small_mod(i as nat, local as nat);
    vstd::arithmetic::div_mod::lemma_small_mod(j as nat, local as nat);
}

/// With fewer, the local monitors take turns, starting over after the last.
pub proof fn law_round_robin(i: int, local: int)
    requires
        0 <= i,
        0 < local,
    ensures
        0 <= placement(i, local) < local,
        placement(i + 1, local) == (if placement(i, local) == local - 1 {
            0
        } else {
            placement(i, local) + 1
        }),
{
    vstd::arithmetic::div_mod::lemma_fundamental_div_mod(i, local);
    let q = i / local;
    let r = i % local;
    if r == local - 1 {
        assert(i + 1 == (q + 1) * local + 0) by (nonlinear_arith)
            requires
                i == local * q + r,
                r == local - 1,
        ;
        vstd::arithmetic::div_mod::lemma_fundamental_div_mod_converse(i + 1, local, q + 1, 0);
    } else {
        assert(i + 1 == q * local + (r + 1)) by (nonlinear_arith)
            requires
                i == local * q + r,
        ;
        vstd::arithmetic::div_mod::lemma_fundamental_div_mod_converse(i + 1, local, q, r + 1);
    }
}

/// The slots of `n` streams once `frames` have come in, one after the other.
pub open spec fn demultiplexed(
    n: nat,
    frames: Seq<(crate::protocol::FrameHeader, Seq<u8>)>,
) -> Seq<crate::slot::Latest<Seq<u8>>>
    decreases frames.len(),
{
    if frames.len() == 0 {
        Seq::new(n, |i: int| crate::slot::Latest { item: None })
    } else {
        let before = demultiplexed(n, frames.drop_last());
        let i = stream_index(frames.last().0.monitor_id, n as int);
        before.update(i, before[i].holding(frames.last().1))
    }
}

/// Whether the frame numbered `k` is the last one of stream `i`.
pub open spec fn last_of_stream(
    frames: Seq<(crate::protocol::FrameHeader, Seq<u8>)>,
    n: int,
    i: int,
    k: int,
) -> bool {
    &&& 0 <= k < frames.len()
    &&& stream_index(frames[k].0.monitor_id, n) == i
    &&& forall|j: int|
        k < j < frames.len() ==> stream_index((#[trigger] frames[j]).0.monitor_id, n) != i
}

/// Each stream's slot holds that stream's newest frame, whatever came in for the others, and is
/// empty as long as none has come.
pub proof fn law_streams_apart(
    n: nat,
    frames: Seq<(crate::protocol::FrameHeader, Seq<u8>)>,
    i: int,
    k: int,
)
    requires
        0 <= i < n,
    ensures
        demultiplexed(n, frames).len() == n,
        last_of_stream(frames, n as int, i, k) ==> demultiplexed(n, frames)[i].item == Some(
            frames[k].1,
        ),
        (forall|j: int|
            0 <= j < frames.len() ==> stream_index((#[trigger] frames[j]).0.monitor_id, n as int)
                != i) ==> demultiplexed(n, frames)[i].item is None,
    decreases frames.len(),
{
    if frames.len() > 0 {
        let d = frames.drop_last();
        law_streams_apart(n, d, i, k);
        let last = frames.last();
        let s = stream_index(last.0.monitor_id, n as int);
        assert(0 <= s < n) by {
            vstd::arithmetic::div_mod::lemma_mod_bound(last.0.monitor_id as int, n as int);
        }
        assert(forall|j: int| 0 <= j < d.len() ==> d[j] == #[trigger] frames[j]);
        assert(frames[frames.len() - 1] == last);
        if last_of_stream(frames, n as int, i, k) && k < d.len() {
            assert(last_of_stream(d, n as int, i, k));
        }
        if forall|j: int|
            0 <= j < frames.len() ==> stream_index((#[trigger] frames[j]).0.monitor_id, n as int)
                != i {
            assert(s != i);
            assert forall|j: int| 0 <= j < d.len() implies stream_index(
                (#[trigger] d[j]).0.monitor_id,
                n as int,
            ) != i by {
                assert(d[j] == frames[j]);
            }
        }
    }
}

/// A stream that the sharer has numbered is taken for itself.
pub proof fn law_stream_numbers(monitor_id: u8, n: int)
    requires
        monitor_id < n,
    ensures
        stream_index(monitor_id, n) == monitor_id,
{
    vstd::arithmetic::div_mod::lemma_small_mod(monitor_id as nat, n as nat);
}

/// A viewer exits on a close request, on a pressed Escape key and when the connection is over,
/// and on nothing else.
pub proof fn law_exit(event: ViewEvent, windows: int)
    ensures
        reaction(event, windows) == ViewAction::Exit <==> {
            ||| event is CloseRequested
            ||| event is NetDown
            ||| event == (ViewEvent::Key { escape: true, pressed: true })
        },
{
}

/// A new picture of a stream asks for a redraw of the window of that stream, the first and the
/// last included, and of no other; without such a window it is passed over.
pub proof fn law_frame_redraws(i: u8, windows: int)
    ensures
        i < windows ==> reaction(ViewEvent::Frame(i), windows) == ViewAction::RequestRedraw(
            i as usize,
        ),
        i >= windows ==> reaction(ViewEvent::Frame(i), windows) == ViewAction::Nothing,
{
}

/// A window that is to be redrawn is drawn, whichever it is; one that is not the viewer's is not.
pub proof fn law_redraw_presents(window: Option<usize>, windows: int)
    ensures
        match window {
            Some(w) => reaction(ViewEvent::RedrawRequested { window }, windows)
                == ViewAction::Present(w),
            None => reaction(ViewEvent::RedrawRequested { window }, windows) == ViewAction::Nothing,
        },
{
}

/// A window of the viewer that gets a new size is resized to exactly that size, unless a side of
/// it is zero.
pub proof fn law_resize_follows(window: Option<usize>, width: u32, height: u32, windows: int)
    ensures
        ({
            let res = reaction(ViewEvent::Resized { window, width, height }, windows);
            if window is Some && width != 0 && height != 0 {
                res == (ViewAction::Resize { window: window->Some_0, width, height })
            } else {
                res == ViewAction::Nothing
            }
        }),
{
}

/// A report is given for every tick and for nothing else.
pub proof fn law_tick_reports(event: ViewEvent, windows: int)
    ensures
        reaction(event, windows) == ViewAction::Report <==> event is StatsTick,
{
}

/// Every key but a pressed Escape, and every event of another kind, is passed over.
pub proof fn law_passed_over(escape: bool, pressed: bool, windows: int)
    ensures
        !(escape && pressed) ==> reaction(ViewEvent::Key { escape, pressed }, windows)
            == ViewAction::Nothing,
        reaction(ViewEvent::Other, windows) == ViewAction::Nothing,
{
}

/// The events on which something is drawn, resized or redrawn name the window that it is done to.
pub proof fn law_window_named(event: ViewEvent, windows: int, w: usize)
    ensures
        reaction(event, windows) == ViewAction::RequestRedraw(w) <==> event is Frame && event->0
            == w && w < windows,
        reaction(event, windows) == ViewAction::Present(w) <==> event == (
        ViewEvent::RedrawRequested { window: Some(w) }),
{
}

/// A number beyond the streams counts on from the first one again: it is taken for the stream that
/// is whole turns before it.
pub proof fn law_stream_wraps(monitor_id: u8, n: int)
    requires
        n > 0,
    ensures
        0 <= stream_index(monitor_id, n) < n,
        monitor_id >= n ==> stream_index(monitor_id, n) == stream_index((monitor_id - n) as u8, n),
{
    vstd::arithmetic::div_mod::lemma_mod_bound(monitor_id as int, n);
    if monitor_id >= n {
        vstd::arithmetic::div_mod::lemma_mod_add_multiples_vanish(monitor_id - n, n);
    }
}

/// As many windows as there are local monitors are placed one on each, in their order, and the
/// next ones start over.
pub proof fn law_placement(i: int, local: int)
    requires
        0 <= i,
        0 < local,
    ensures
        i < local ==> placement(i, local) == i,
        placement(i + local, local) == placement(i, local),
{
    if i < local {
        vstd::arithmetic::div_mod::lemma_small_mod(i as nat, local as nat);
    }
    vstd::arithmetic::div_mod::lemma_mod_add_multiples_vanish(i, local);
}

} // verus!
