//! The launcher's wizard: which page is shown, when a session may be started, with what command
//! line, and what is logged about it.

use vstd::prelude::*;

use crate::monitor::{Log, StatsBoard};
use crate::settings::{share_args, view_args, Settings};
use crate::text::push_two_digits;

verus! {

/// The two sides of a session.
#[derive(Clone, Copy, Debug, PartialEq, Eq, Structural)]
pub enum Mode {
    Share,
    View,
}

/// The pages of the wizard.
#[derive(Clone, Copy, Debug, PartialEq, Eq, Structural)]
pub enum Page {
    Home,
    Configure(Mode),
    Running(Mode),
}

/// The state of the wizard.
pub struct Launcher {
    pub page: Page,
    pub settings: Settings,
    /// Whether there is a session's process.
    pub running: bool,
    /// When the session was started, in nanoseconds since the launcher was.
    pub started_at: Option<u128>,
}

/// What becomes of a request to start a session.
pub enum StartPlan {
    /// There is a session already.
    Busy,
    /// The program that runs sessions is not there.
    Missing,
    /// Run it with these arguments, after saving the settings if `save` is set.
    Launch { args: Vec<String>, save: bool },
}

pub open spec fn mode_name(mode: Mode) -> Seq<char> {
    match mode {
        Mode::Share => "Share"@,
        Mode::View => "View"@,
    }
}

fn push_mode(out: &mut String, mode: Mode)
    ensures
        final(out)@ == old(out)@ + mode_name(mode),
{
    match mode {
        Mode::Share => out.append("Share"),
        Mode::View => out.append("View"),
    }
}

/// The command line of a session.
pub open spec fn command(mode: Mode, settings: Settings) -> Seq<Seq<char>> {
    match mode {
        Mode::Share => crate::settings::share_command(
            settings.bind@,
            settings.fps,
            settings.quality,
            settings.skip_unchanged,
        ),
        Mode::View => crate::settings::view_command(settings.connect@),
    }
}

/// Whether `a` and `b` differ at most in the list of recent connections.
pub open spec fn same_choices(a: Settings, b: Settings) -> bool {
    &&& a.bind == b.bind
    &&& a.connect == b.connect
    &&& a.fps == b.fps
    &&& a.quality == b.quality
    &&& a.skip_unchanged == b.skip_unchanged
}

/// The log once `line` has been added to it.
pub open spec fn log_with(lines: Seq<Seq<char>>, line: Seq<char>) -> Seq<Seq<char>> {
    crate::monitor::queued(lines, crate::monitor::LOG_MAX_LINES as int, line)
}

fn prefixed(prefix: &str, text: &str) -> (res: String)
    ensures
        res@ == prefix@ + text@,
{
    String::from_str(prefix).concat(text)
}

impl Launcher {
    pub fn new(settings: Settings) -> (res: Launcher)
        ensures
            res.page == Page::Home,
            res.settings == settings,
            !res.running,
            res.started_at is None,
    {
        Launcher { page: Page::Home, settings, running: false, started_at: None }
    }

    /// Goes to the page that configures a session.
    pub fn configure(&mut self, mode: Mode)
        ensures
            *final(self) == (Launcher { page: Page::Configure(mode), ..*old(self) }),
    {
        self.page = Page::Configure(mode);
    }

    /// Goes back to the first page.
    pub fn go_home(&mut self)
        ensures
            *final(self) == (Launcher { page: Page::Home, ..*old(self) }),
    {
        self.page = Page::Home;
    }

    /// Takes a recent address as the one to connect to.
    pub fn use_recent(&mut self, address: String)
        ensures
            *final(self) == (Launcher {
                settings: Settings { connect: address, ..old(self).settings },
                ..*old(self)
            }),
    {
        self.settings.connect = address;
    }

    /// Takes a recent address from the first page, which leads on to configuring a view of it.
    pub fn open_recent(&mut self, address: String)
        ensures
            *final(self) == (Launcher {
                page: Page::Configure(Mode::View),
                settings: Settings { connect: address, ..old(self).settings },
                ..*old(self)
            }),
    {
        self.use_recent(address);
        self.configure(Mode::View);
    }

    /// Prepares a session, unless one is running or the program at `cli_path` is missing: a clean
    /// log and clean statistics, the address noted among the recent ones, and the command line.
    pub fn begin(
        &mut self,
        mode: Mode,
        cli_found: bool,
        cli_path: &str,
        log: &mut Log,
        stats: &mut StatsBoard,
    ) -> (res: StartPlan)
        requires
            old(log).wf(),
            old(stats).wf(),
        ensures
            final(log).wf(),
            final(stats).wf(),
            match res {
                StartPlan::Busy => {
                    &&& old(self).running
                    &&& *final(self) == *old(self)
                    &&& *final(log) == *old(log)
                    &&& *final(stats) == *old(stats)
                },
                StartPlan::Missing => {
                    &&& !old(self).running && !cli_found
                    &&& *final(self) == *old(self)
                    &&& *final(stats) == *old(stats)
                    &&& final(log).texts() == log_with(
                        old(log).texts(),
                        "[gui] CLI binary not found at "@ + cli_path@,
                    )
                },
                StartPlan::Launch { args, save } => {
                    &&& !old(self).running && cli_found
                    &&& crate::settings::texts(args@) == command(mode, old(self).settings)
                    &&& save == (mode == Mode::View)
                    &&& final(log).texts() == seq!["[gui] launching "@ + mode_name(mode)]
                    &&& final(stats).monitors@ == Map::<
                        u8,
                        crate::monitor::MonitorStats,
                    >::empty()
                    &&& final(self).page == old(self).page
                    &&& !final(self).running
                    &&& final(self).started_at == old(self).started_at
                    &&& same_choices(final(self).settings, old(self).settings)
                    &&& final(self).settings.bind == old(self).settings.bind
                    &&& final(self).settings.connect == old(self).settings.connect
                    &&& final(self).settings.fps == old(self).settings.fps
                    &&& final(self).settings.quality == old(self).settings.quality
                    &&& final(self).settings.skip_unchanged == old(self).settings.skip_unchanged
                    &&& mode == Mode::Share ==> args@.len() == 9 && args@[2]@
                        == old(self).settings.bind@
                    &&& mode == Mode::View ==> args@.len() == 3 && args@[2]@
                        == old(self).settings.connect@
                    &&& final(self).settings.recents() == (match mode {
                        Mode::Share => old(self).settings.recents(),
                        Mode::View => crate::settings::with_recent(
                            old(self).settings.recents(),
                            old(self).settings.connect@,
                        ),
                    })
                },
            },
    {
        if self.running {
            return StartPlan::Busy;
        }
        if !cli_found {
            log.push(prefixed("[gui] CLI binary not found at ", cli_path));
            return StartPlan::Missing;
        }
        stats.clear();
        log.clear();
        let args: Vec<String> = match mode {
            Mode::Share => share_args(
                self.settings.bind.as_str(),
                self.settings.fps,
                self.settings.quality,
                self.settings.skip_unchanged,
            ),
            Mode::View => view_args(self.settings.connect.as_str()),
        };
        let save: bool = match mode {
            Mode::Share => false,
            Mode::View => {
                let c: String = self.settings.connect.clone();
                self.settings.push_recent(c.as_str());
                true
            },
        };
        let mut line = String::from_str("[gui] launching ");
        push_mode(&mut line, mode);
        log.push(line);
        assert(log.texts() =~= seq!["[gui] launching "@ + mode_name(mode)]);
        StartPlan::Launch { args, save }
    }

    /// The session's process has come up.
    pub fn spawned(&mut self, mode: Mode, now: u128)
        ensures
            *final(self) == (Launcher {
                page: Page::Running(mode),
                running: true,
                started_at: Some(now),
                ..*old(self)
            }),
    {
        self.running = true;
        self.started_at = Some(now);
        self.page = Page::Running(mode);
    }

    /// The session's process could not be brought up.
    pub fn spawn_failed(&self, reason: &str, log: &mut Log)
        requires
            old(log).wf(),
        ensures
            final(log).wf(),
            final(log).texts() == log_with(old(log).texts(), "[gui] spawn failed: "@ + reason@),
    {
        log.push(prefixed("[gui] spawn failed: ", reason));
    }

    /// Stops the session. Tells whether there was one, whose process has been ended.
    pub fn stopped(&mut self, log: &mut Log) -> (had_session: bool)
        requires
            old(log).wf(),
        ensures
            had_session == old(self).running,
            *final(self) == (Launcher { running: false, started_at: None, ..*old(self) }),
            final(log).wf(),
            final(log).texts() == (if old(self).running {
                log_with(old(log).texts(), "[gui] stopped"@)
            } else {
                old(log).texts()
            }),
    {
        let had_session: bool = self.running;
        if had_session {
            self.running = false;
            log.push(String::from_str("[gui] stopped"));
        }
        self.started_at = None;
        had_session
    }

    /// The session's process has ended by itself.
    pub fn exited(&mut self, status: &str, log: &mut Log)
        requires
            old(log).wf(),
        ensures
            *final(self) == (Launcher { running: false, ..*old(self) }),
            final(log).wf(),
            final(log).texts() == log_with(old(log).texts(), "[gui] child exited: "@ + status@),
    {
        log.push(prefixed("[gui] child exited: ", status));
        self.running = false;
    }

    /// The session's process cannot be asked about any more.
    pub fn wait_failed(&mut self, reason: &str, log: &mut Log)
        requires
            old(log).wf(),
        ensures
            *final(self) == (Launcher { running: false, ..*old(self) }),
            final(log).wf(),
            final(log).texts() == log_with(old(log).texts(), "[gui] wait error: "@ + reason@),
    {
        log.push(prefixed("[gui] wait error: ", reason));
        self.running = false;
    }

    /// What the status bar says of a session.
    pub fn summary(&self, mode: Mode) -> (res: String)
        ensures
            res@ == (match mode {
                Mode::Share => "Share · "@ + self.settings.bind@,
                Mode::View => "View · "@ + self.settings.connect@,
            }),
    {
        match mode {
            Mode::Share => prefixed("Share · ", self.settings.bind.as_str()),
            Mode::View => prefixed("View · ", self.settings.connect.as_str()),
        }
    }
}

/// Minutes and seconds, two digits each at least.
pub open spec fn clock(secs: nat) -> Seq<char> {
    crate::text::two_digits(secs / 60) + ":"@ + crate::text::two_digits(secs % 60)
}

/// Writes a time in minutes and seconds.
pub fn clock_text(secs: u64) -> (res: String)
    ensures
        res@ == clock(secs as nat),
{
    let mut out = String::new();
    push_two_digits(&mut out, secs / 60);
    out.append(":");
    push_two_digits(&mut out, secs % 60);
    assert(out@ =~= clock(secs as nat));
    out
}

// ---------- laws ----------

/// A session is run with the settings of its own side: a share with the address to bind and the
/// three choices, a view with the address to connect to.
pub proof fn law_command(settings: Settings)
    ensures
        ({
            let c = command(Mode::Share, settings);
            &&& c.len() == 9
            &&& c[0] == "share"@
            &&& c[1] == "--bind"@ && c[2] == settings.bind@
            &&& c[3] == "--fps"@ && crate::text::digits_value(c[4]) == settings.fps
            &&& c[5] == "--quality"@ && crate::text::digits_value(c[6]) == settings.quality
            &&& c[7] == "--skip-unchanged"@
            &&& settings.skip_unchanged ==> c[8] == "true"@
            &&& !settings.skip_unchanged ==> c[8] == "false"@
        }),
        command(Mode::View, settings) == seq!["view"@, "--connect"@, settings.connect@],
{
    crate::settings::law_share_command(
        settings.bind@,
        settings.fps,
        settings.quality,
        settings.skip_unchanged,
    );
}

/// A line that is logged stands behind all others; only of a full log the oldest line is lost.
pub proof fn law_log_with(lines: Seq<Seq<char>>, line: Seq<char>)
    ensures
        lines.len() < 1500 ==> log_with(lines, line) == lines + seq![line],
        lines.len() == 1500 ==> log_with(lines, line) == lines.skip(1) + seq![line],
{
    if lines.len() <= 1500 {
        crate::monitor::law_queued(lines, 1500, line);
    }
}

/// The two sides of a session have different names.
pub proof fn law_mode_names(mode: Mode)
    ensures
        mode_name(mode) == (if mode == Mode::Share {
            seq!['S', 'h', 'a', 'r', 'e']
        } else {
            seq!['V', 'i', 'e', 'w']
        }),
{
    reveal_strlit("Share");
    reveal_strlit("View");
    assert("Share"@ =~= seq!['S', 'h', 'a', 'r', 'e']);
    assert("View"@ =~= seq!['V', 'i', 'e', 'w']);
}

/// A time reads back: two rows of digits, at least two each, with a colon between them; the second
/// is less than sixty, and the first counts sixty each.
pub proof fn law_clock(secs: nat)
    ensures
        ({
            let rows = crate::text::fields(clock(secs), ':');
            &&& rows.len() == 2
            &&& rows[0].len() >= 2 && rows[1].len() == 2
            &&& crate::text::digits_value(rows[1]) < 60
            &&& crate::text::digits_value(rows[0]) * 60 + crate::text::digits_value(rows[1]) == secs
            &&& rows[0].len() > 2 ==> rows[0][0] != '0'
        }),
{
    reveal_strlit(":");
    assert(":"@ =~= seq![':']);
    let m = crate::text::two_digits(secs / 60);
    let s = crate::text::two_digits(secs % 60);
    crate::text::law_two_digits(secs / 60);
    crate::text::law_two_digits(secs % 60);
    assert(forall|i: int| 0 <= i < m.len() ==> '0' <= #[trigger] m[i] && m[i] <= '9');
    assert(forall|i: int| 0 <= i < s.len() ==> '0' <= #[trigger] s[i] && s[i] <= '9');
    crate::text::law_fields(Seq::empty(), ':', m);
    crate::text::law_fields(m, ':', s);
    let rows = crate::text::fields(clock(secs), ':');
    assert(rows == seq![m].push(s));
    assert(rows[0] == m && rows[1] == s);
    assert(s.len() == 2) by {
        let k = secs % 60;
        if k >= 10 {
            crate::text::law_decimal_next(k / 10, k % 10);
            crate::text::law_decimal_next(0, k / 10);
        }
    }
}

} // verus!
