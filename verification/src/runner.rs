//! The desktop backend's decisions about the process that runs a session.

use vstd::prelude::*;

use crate::settings::share_args;
use crate::text::{push_decimal, push_listed};

verus! {

// ---------- starting ----------

/// What the frontend asks for when it starts a share.
pub struct ShareCfg {
    pub port: u16,
    pub fps: u32,
    pub quality: u8,
    pub skip_unchanged: bool,
    /// The displays to share; none means all of them.
    pub displays: Vec<usize>,
}

/// The command line for a share.
pub open spec fn share_cfg_command(cfg: ShareCfg) -> Seq<Seq<char>> {
    crate::settings::share_command(
        "0.0.0.0:"@ + crate::text::decimal(cfg.port as nat),
        cfg.fps,
        cfg.quality,
        cfg.skip_unchanged,
    ) + (if cfg.displays@.len() == 0 {
        Seq::empty()
    } else {
        seq!["--displays"@, crate::text::listed(cfg.displays@, ","@)]
    })
}

/// The arguments of a process that shares what the frontend asked for.
pub fn share_cfg_args(cfg: &ShareCfg) -> (res: Vec<String>)
    ensures
        crate::settings::texts(res@) == share_cfg_command(*cfg),
{
    let mut bind = String::from_str("0.0.0.0:");
    push_decimal(&mut bind, cfg.port as u64);
    let mut args: Vec<String> = share_args(
        bind.as_str(),
        cfg.fps,
        cfg.quality,
        cfg.skip_unchanged,
    );
    let ghost first = args@;
    if cfg.displays.len() > 0 {
        let mut list = String::new();
        push_listed(&mut list, &cfg.displays, ",");
        assert(list@ =~= crate::text::listed(cfg.displays@, ","@));
        args.push(String::from_str("--displays"));
        args.push(list);
        assert(crate::settings::texts(args@) =~= crate::settings::texts(first) + seq![
            "--displays"@,
            crate::text::listed(cfg.displays@, ","@),
        ]);
    } else {
        assert(crate::settings::texts(args@) =~= share_cfg_command(*cfg));
    }
    args
}

/// Why a session cannot be started.
#[derive(Clone, Copy, Debug, PartialEq, Eq, Structural)]
pub enum StartError {
    AlreadyRunning,
    CliNotFound,
}

impl StartError {
    pub open spec fn text(self) -> Seq<char> {
        match self {
            StartError::AlreadyRunning => "a session is already running"@,
            StartError::CliNotFound => "p2p-screenshare binary not found"@,
        }
    }

    pub fn message(&self) -> (res: String)
        ensures
            res@ == self.text(),
    {
        match self {
            StartError::AlreadyRunning => String::from_str("a session is already running"),
            StartError::CliNotFound => String::from_str("p2p-screenshare binary not found"),
        }
    }
}

/// Decides whether a session may be started.
pub fn may_start(has_child: bool, cli_found: bool) -> (res: Result<(), StartError>)
    ensures
        res == (if has_child {
            Err::<(), StartError>(StartError::AlreadyRunning)
        } else if !cli_found {
            Err(StartError::CliNotFound)
        } else {
            Ok(())
        }),
{
    if has_child {
        Err(StartError::AlreadyRunning)
    } else if !cli_found {
        Err(StartError::CliNotFound)
    } else {
        Ok(())
    }
}

// ---------- watching ----------

/// What is found when the process is asked about.
pub enum ChildState {
    /// There is none.
    Absent,
    Running,
    /// It has ended. `status` is its status in words.
    Exited { code: Option<i32>, status: String },
    /// It cannot be asked about.
    Unknown { reason: String },
}

/// What the frontend is told.
pub enum Notice {
    ChildExited { code: Option<i32> },
    Log { line: String },
}

/// What the thread that watches the process does next.
pub enum WatchStep {
    /// Stop watching.
    Return,
    /// Ask again later.
    PollAgain,
    /// Forget the process, give these notices in order and stop watching.
    Ended { first: Notice, second: Notice },
}

/// Whether `notice` logs `line`.
pub open spec fn logs(notice: Notice, line: Seq<char>) -> bool {
    notice is Log && notice->line@ == line
}

/// Decides what to do about what was found.
pub fn on_poll(state: ChildState) -> (res: WatchStep)
    ensures
        match state {
            ChildState::Absent => res is Return,
            ChildState::Running => res is PollAgain,
            ChildState::Exited { code, status } => {
                &&& res matches WatchStep::Ended { first, second }
                &&& first == (Notice::ChildExited { code })
                &&& logs(second, "[gui] child exited with status "@ + status@)
                &&& second is Log && second->line@ == "[gui] child exited with status "@ + status@
            },
            ChildState::Unknown { reason } => {
                &&& res matches WatchStep::Ended { first, second }
                &&& logs(first, "[gui] wait error: "@ + reason@)
                &&& first is Log && first->line@ == "[gui] wait error: "@ + reason@
                &&& second == (Notice::ChildExited { code: None })
            },
        },
{
    match state {
        ChildState::Absent => WatchStep::Return,
        ChildState::Running => WatchStep::PollAgain,
        ChildState::Exited { code, status } => {
            let line = String::from_str("[gui] child exited with status ").concat(status.as_str());
            WatchStep::Ended { first: Notice::ChildExited { code }, second: Notice::Log { line } }
        },
        ChildState::Unknown { reason } => {
            let line = String::from_str("[gui] wait error: ").concat(reason.as_str());
            WatchStep::Ended {
                first: Notice::Log { line },
                second: Notice::ChildExited { code: None },
            }
        },
    }
}

/// Whether a session counts as running. One whose process has ended does not, and is to be
/// forgotten.
pub fn is_running(state: &ChildState) -> (res: bool)
    ensures
        res == (state is Running || state is Unknown),
{
    match state {
        ChildState::Absent => false,
        ChildState::Exited { code, status } => false,
        ChildState::Running => true,
        ChildState::Unknown { reason } => true,
    }
}

// ---------- displays ----------

/// What stands in `s` behind its last line break.
pub open spec fn last_line(s: Seq<char>) -> Seq<char>
    decreases s.len(),
{
    if s.len() == 0 || s.last() == '\n' {
        Seq::empty()
    } else {
        last_line(s.drop_last()).push(s.last())
    }
}

/// The list of displays in what the program prints: its last line, or an empty list if it prints
/// nothing.
pub open spec fn displays_line(stdout: Seq<char>) -> Seq<char> {
    let t = crate::text::trimmed(stdout);
    if t.len() == 0 {
        "[]"@
    } else {
        last_line(t)
    }
}

/// Picks the list of displays out of what the program printed.
pub fn displays_json(stdout: &str) -> (res: String)
    ensures
        res@ == displays_line(stdout@),
{
    let t = stdout.trim();
    if t.is_empty() {
        return String::from_str("[]");
    }
    let mut line = String::new();
    for c in it: t.chars()
        invariant
            it.seq() == t@,
            line@ == last_line(t@.take(it.index() as int)),
    {
        let ghost k = it.index() as int;
        assert(t@.take(k + 1).drop_last() =~= t@.take(k));
        assert(t@.take(k + 1).last() == c);
        if c == '\n' {
            line = String::new();
        } else {
            line.push(c);
        }
    }
    assert(t@.take(t@.len() as int) =~= t@);
    line
}

/// The line that is read holds no line break, and the output ends with it; it is all of the
/// output, or a line break stands right before it.
pub proof fn law_last_line(s: Seq<char>)
    ensures
        !last_line(s).contains('\n'),
        last_line(s).is_suffix_of(s),
        last_line(s).len() < s.len() ==> s[s.len() - last_line(s).len() - 1] == '\n',
    decreases s.len(),
{
    let l = last_line(s);
    if s.len() > 0 && s.last() != '\n' {
        law_last_line(s.drop_last());
        let d = last_line(s.drop_last());
        if l.contains('\n') {
            let k = choose|k: int| 0 <= k < l.len() && l[k] == '\n';
            assert(k < d.len() ==> d[k] == '\n');
        }
        assert(d =~= s.drop_last().subrange(s.drop_last().len() - d.len(), s.drop_last().len() as int));
        assert forall|i: int| 0 <= i < l.len() implies #[trigger] l[i] == s[s.len() - l.len() + i] by {
            if i < d.len() {
                assert(d[i] == s.drop_last()[s.drop_last().len() - d.len() + i]);
            }
        }
        assert(l =~= s.subrange(s.len() - l.len(), s.len() as int));
    } else {
        assert(l =~= s.subrange(s.len() as int, s.len() as int));
    }
}

/// The list of displays is the last line of what is printed, without the white space around it,
/// or an empty list if nothing but white space is printed.
pub proof fn law_displays_line(stdout: Seq<char>)
    ensures
        ({
            let t = crate::text::trimmed(stdout);
            let l = displays_line(stdout);
            &&& t.len() == 0 ==> l == seq!['[', ']']
            &&& t.len() > 0 ==> l.len() > 0 && !l.contains('\n') && l.is_suffix_of(t)
            &&& t.len() > 0 && l.len() < t.len() ==> t[t.len() - l.len() - 1] == '\n'
        }),
{
    reveal_strlit("[]");
    assert("[]"@ =~= seq!['[', ']']);
    let t = crate::text::trimmed(stdout);
    law_last_line(t);
    if t.len() > 0 {
        crate::text::law_trimmed(stdout);
        crate::text::law_white_space('\n');
        assert(t.last() != '\n');
    }
}

/// The command line for a share carries what the frontend asked for: the port, on every address,
/// the three choices, and the displays, if any are named.
pub proof fn law_share_cfg_command(cfg: ShareCfg)
    ensures
        ({
            let c = share_cfg_command(cfg);
            &&& c.len() == (if cfg.displays@.len() == 0 {
                9
            } else {
                11int
            })
            &&& c[0] == "share"@
            &&& c[1] == "--bind"@
            &&& c[2] == "0.0.0.0:"@ + crate::text::decimal(cfg.port as nat)
            &&& c[3] == "--fps"@ && crate::text::digits_value(c[4]) == cfg.fps
            &&& c[5] == "--quality"@ && crate::text::digits_value(c[6]) == cfg.quality
            &&& c[7] == "--skip-unchanged"@
            &&& cfg.skip_unchanged ==> c[8] == "true"@
            &&& !cfg.skip_unchanged ==> c[8] == "false"@
            &&& cfg.displays@.len() > 0 ==> {
                let rows = crate::text::fields(c[10], ',');
                &&& c[9] == "--displays"@
                &&& rows.len() == cfg.displays@.len()
                &&& forall|i: int|
                    0 <= i < rows.len() ==> #[trigger] rows[i] == crate::text::decimal(
                        cfg.displays@[i] as nat,
                    ) && crate::text::digits_value(rows[i]) == cfg.displays@[i]
            }
        }),
{
    reveal_strlit(",");
    assert(","@ =~= seq![',']);
    crate::settings::law_share_command(
        "0.0.0.0:"@ + crate::text::decimal(cfg.port as nat),
        cfg.fps,
        cfg.quality,
        cfg.skip_unchanged,
    );
    crate::text::law_listed(cfg.displays@, ',');
}

} // verus!
