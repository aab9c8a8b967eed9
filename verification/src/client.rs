//! The client side: requests to the daemon and what their answers mean, the start of the
//! daemon, and the sequence of attachments that switching between sessions makes.

pub mod control;
pub mod emulator;
pub mod renderer;
pub mod terminal;

use crate::client::control::ControlAction;
use crate::paths::{join, with_part};
use crate::protocol::{line_payload, Request, Response, SessionInfo, TerminalEnv};
use crate::text::{decimal, digits, joined, trimmed_end};
use crate::ui::PickerSelection;
use crate::ui::naming::law_decimal;
use vstd::prelude::*;

verus! {

/// The directory of the socket: the runtime directory of the user, or one under `/tmp` that
/// holds the user's number.
pub open spec fn runtime_base(runtime_dir: Option<String>, uid: u32) -> Seq<char> {
    match runtime_dir {
        Some(dir) => dir@,
        None => "/tmp/fish-session-"@ + digits(uid as nat),
    }
}

/// The directory of the socket is the user's own where it is known; else it is named after the
/// user's number, so that no two users share one.
pub proof fn law_runtime_bases(runtime_dir: Option<String>, uid: u32, other: u32)
    ensures
        runtime_dir matches Some(dir) ==> runtime_base(runtime_dir, uid) == dir@,
        runtime_dir is None ==> runtime_base(runtime_dir, uid) == "/tmp/fish-session-"@ + digits(
            uid as nat,
        ),
        runtime_dir is None && uid != other ==> runtime_base(runtime_dir, uid) != runtime_base(
            runtime_dir,
            other,
        ),
{
    if runtime_dir is None && uid != other {
        let stem = "/tmp/fish-session-"@;
        let (a, b) = (runtime_base(runtime_dir, uid), runtime_base(runtime_dir, other));
        law_decimal(uid as nat);
        law_decimal(other as nat);
        if a == b {
            assert(a.skip(stem.len() as int) =~= digits(uid as nat));
            assert(b.skip(stem.len() as int) =~= digits(other as nat));
        }
    }
}

/// The path of the daemon's socket, from the value of `XDG_RUNTIME_DIR` and the effective
/// user number.
pub fn socket_path(runtime_dir: Option<String>, uid: u32) -> (r: String)
    ensures
        r@ == with_part(
            with_part(runtime_base(runtime_dir, uid), "fish-session"@),
            "daemon.sock"@,
        ),
{
    let base = match runtime_dir {
        Some(dir) => dir,
        None => joined("/tmp/fish-session-", decimal(uid as u128).as_str()),
    };
    join(join(base.as_str(), "fish-session").as_str(), "daemon.sock")
}

/// What to do after an attempt to reach the daemon while it is being started.
#[derive(Debug)]
pub enum StartupStep {
    /// It answers.
    Ready,
    /// Start it, wait, and try again.
    Spawn,
    /// Wait and try again.
    Wait,
    /// Give up with this message.
    GiveUp(String),
}

/// How often the daemon is tried after it was started.
pub const STARTUP_POLLS: u32 = 30;

/// How long to wait before each of these tries, in milliseconds.
pub const STARTUP_WAIT_MS: u64 = 50;

/// The start of the daemon: it counts the failed attempts to reach it.
pub struct DaemonStartup {
    pub failures: u32,
}

/// Before the first attempt.
pub fn ensure_daemon() -> (r: DaemonStartup)
    ensures
        r.failures == 0,
{
    DaemonStartup { failures: 0 }
}

impl DaemonStartup {
    /// Takes the result of an attempt. The first failure starts the daemon; it is then tried
    /// a limited number of times.
    pub fn after_ping(&mut self, reached: bool) -> (r: StartupStep)
        requires
            old(self).failures <= STARTUP_POLLS,
        ensures
            reached ==> r is Ready && final(self).failures == old(self).failures,
            !reached ==> {
                &&& final(self).failures == old(self).failures + 1
                &&& match r {
                    StartupStep::Ready => false,
                    StartupStep::Spawn => old(self).failures == 0,
                    StartupStep::Wait => 0 < old(self).failures < STARTUP_POLLS,
                    StartupStep::GiveUp(message) => old(self).failures == STARTUP_POLLS
                        && message@ == "fish-sessiond did not start in time"@,
                }
            },
    {
        if reached {
            return StartupStep::Ready;
        }
        self.failures = self.failures + 1;
        if self.failures == 1 {
            StartupStep::Spawn
        } else if self.failures > STARTUP_POLLS {
            StartupStep::GiveUp("fish-sessiond did not start in time".to_owned())
        } else {
            StartupStep::Wait
        }
    }
}

/// The message of a failed request: what failed, and the daemon's reason.
pub open spec fn failure(what: Seq<char>, response: Response) -> Seq<char> {
    match response.error {
        Some(error) => what + error@,
        None => what + "unknown error"@,
    }
}

/// What an answer without content means.
pub open spec fn is_outcome(
    what: Seq<char>,
    response: Response,
    outcome: Result<(), String>,
) -> bool {
    match outcome {
        Ok(_) => response.ok,
        Err(message) => !response.ok && message@ == failure(what, response),
    }
}

/// A request has succeeded exactly where the answer says so; else the message tells what failed
/// and the reason in the answer, or that it is not known.
pub proof fn law_outcomes(what: Seq<char>, response: Response, outcome: Result<(), String>)
    requires
        is_outcome(what, response, outcome),
    ensures
        outcome is Ok <==> response.ok,
        outcome matches Err(message) ==> what.is_prefix_of(message@),
        outcome matches Err(message) ==> match response.error {
            Some(error) => message@.skip(what.len() as int) == error@,
            None => message@.skip(what.len() as int) == "unknown error"@,
        },
{
    if let Err(message) = outcome {
        let reason = match response.error {
            Some(error) => error@,
            None => "unknown error"@,
        };
        assert(what =~= message@.subrange(0, what.len() as int));
        assert(message@.skip(what.len() as int) =~= reason);
    }
}

fn failure_message(what: &str, error: Option<String>) -> (r: String)
    ensures
        r@ == what@ + (match error {
            Some(error) => error@,
            None => "unknown error"@,
        }),
{
    match error {
        Some(error) => joined(what, error.as_str()),
        None => joined(what, "unknown error"),
    }
}

fn outcome(what: &str, response: Response) -> (r: Result<(), String>)
    ensures
        is_outcome(what@, response, r),
{
    if response.ok {
        Ok(())
    } else {
        Err(failure_message(what, response.error))
    }
}

/// Asks whether the daemon is there.
pub fn ping() -> (r: Request)
    ensures
        r == Request::Ping,
{
    Request::Ping
}

/// What the answer to `ping` means.
pub fn ping_outcome(response: Response) -> (r: Result<(), String>)
    ensures
        is_outcome("daemon ping failed: "@, response, r),
{
    outcome("daemon ping failed: ", response)
}

/// Asks for the sessions.
pub fn list_sessions() -> (r: Request)
    ensures
        r == Request::List,
{
    Request::List
}

/// What the answer to `list_sessions` means: the sessions, none if the answer holds no list.
pub fn list_outcome(response: Response) -> (r: Result<Vec<SessionInfo>, String>)
    ensures
        match r {
            Ok(sessions) => {
                &&& response.ok
                &&& match response.sessions {
                    Some(listed) => sessions == listed,
                    None => sessions@ == Seq::<SessionInfo>::empty(),
                }
            },
            Err(message) => !response.ok && message@ == failure("list failed: "@, response),
        },
{
    if !response.ok {
        return Err(failure_message("list failed: ", response.error));
    }
    match response.sessions {
        Some(sessions) => Ok(sessions),
        None => Ok(Vec::new()),
    }
}

/// Asks for a new session, in a directory if one is given, for this terminal.
pub fn create_session(name: &str, cwd: Option<String>, terminal_env: TerminalEnv) -> (r: Request)
    ensures
        r matches Request::Create { name: asked, cwd: dir, terminal_env: env } && asked@ == name@
            && dir == cwd && env == Some(terminal_env),
{
    Request::Create { name: name.to_owned(), cwd, terminal_env: Some(terminal_env) }
}

/// What the answer to `create_session` means.
pub fn create_outcome(response: Response) -> (r: Result<(), String>)
    ensures
        is_outcome("create failed: "@, response, r),
{
    outcome("create failed: ", response)
}

/// Asks to end a session.
pub fn delete_session(name: &str) -> (r: Request)
    ensures
        r matches Request::Delete { name: asked } && asked@ == name@,
{
    Request::Delete { name: name.to_owned() }
}

/// What the answer to `delete_session` means.
pub fn delete_outcome(response: Response) -> (r: Result<(), String>)
    ensures
        is_outcome("delete failed: "@, response, r),
{
    outcome("delete failed: ", response)
}

/// Asks to rename a session.
pub fn rename_session(from: &str, to: &str) -> (r: Request)
    ensures
        r matches Request::Rename { from: source, to: target } && source@ == from@ && target@
            == to@,
{
    Request::Rename { from: from.to_owned(), to: to.to_owned() }
}

/// What the answer to `rename_session` means.
pub fn rename_outcome(response: Response) -> (r: Result<(), String>)
    ensures
        is_outcome("rename failed: "@, response, r),
{
    outcome("rename failed: ", response)
}

/// The payload of an answer that was read as a line; an empty line means that the daemon
/// closed the connection.
pub fn response_payload<'a>(line: &'a str) -> (r: Result<&'a str, String>)
    ensures
        match r {
            Ok(payload) => line@.len() > 0 && payload@ == trimmed_end(line@),
            Err(message) => line@.len() == 0 && message@
                == "daemon closed connection unexpectedly"@,
        },
{
    if line.unicode_len() == 0 {
        return Err("daemon closed connection unexpectedly".to_owned());
    }
    Ok(line_payload(line))
}

/// How an attachment ended.
#[derive(Debug, Clone, Copy, PartialEq, Eq, Structural)]
pub enum BridgeOutcome {
    Detached,
    SwitchRequested,
}

/// How an attachment ended, by the control key that ended it, if one did.
pub fn bridge_outcome(action: Option<ControlAction>) -> (r: BridgeOutcome)
    ensures
        r == if action == Some(ControlAction::Switch) {
            BridgeOutcome::SwitchRequested
        } else {
            BridgeOutcome::Detached
        },
{
    match action {
        Some(ControlAction::Switch) => BridgeOutcome::SwitchRequested,
        _ => BridgeOutcome::Detached,
    }
}

/// What came of reading the output of the session.
#[derive(Debug, Clone, Copy, PartialEq, Eq, Structural)]
pub enum StreamRead {
    End,
    Data,
    Interrupted,
    BrokenPipe,
    Failed,
}

/// What to do about it.
#[derive(Debug, Clone, Copy, PartialEq, Eq, Structural)]
pub enum StreamStep {
    /// Show the data and read on.
    Show,
    /// Read again.
    Again,
    /// The attachment is over.
    Stop,
    /// Report the error.
    Fail,
}

/// The end of the output and a broken pipe both end the attachment; an interrupted read is
/// repeated.
pub fn after_read(read: StreamRead) -> (r: StreamStep)
    ensures
        r == match read {
            StreamRead::End => StreamStep::Stop,
            StreamRead::Data => StreamStep::Show,
            StreamRead::Interrupted => StreamStep::Again,
            StreamRead::BrokenPipe => StreamStep::Stop,
            StreamRead::Failed => StreamStep::Fail,
        },
{
    match read {
        StreamRead::End => StreamStep::Stop,
        StreamRead::Data => StreamStep::Show,
        StreamRead::Interrupted => StreamStep::Again,
        StreamRead::BrokenPipe => StreamStep::Stop,
        StreamRead::Failed => StreamStep::Fail,
    }
}

/// At least one.
pub open spec fn at_least_one(n: u16) -> u16 {
    if n == 0 {
        1
    } else {
        n
    }
}

/// The rows of a session on a terminal with this many: the last row holds the status, unless
/// there is only one.
pub open spec fn content_rows(rows: u16) -> u16 {
    if rows > 1 {
        (rows - 1) as u16
    } else {
        1
    }
}

/// A session gets all rows of the terminal but one, and never less than one; a terminal without
/// columns counts as one with one.
pub proof fn law_rows_and_columns(cols: u16, rows: u16)
    ensures
        rows >= 2 ==> content_rows(rows) + 1 == rows,
        rows < 2 ==> content_rows(rows) == 1,
        cols >= 1 ==> at_least_one(cols) == cols,
        cols == 0 ==> at_least_one(cols) == 1,
{
}

/// The columns and rows to ask for when attaching, from the columns and rows of the terminal
/// if they are known.
pub fn attach_dimensions_for_status_line(size: Option<(u16, u16)>) -> (r: (
    Option<u16>,
    Option<u16>,
))
    ensures
        r == match size {
            Some((cols, rows)) => (Some(at_least_one(cols)), Some(content_rows(rows))),
            None => (None, None),
        },
{
    match size {
        Some((cols, rows)) => {
            let safe_cols: u16 = if cols == 0 {
                1
            } else {
                cols
            };
            let session_rows: u16 = if rows > 1 {
                rows - 1
            } else {
                1
            };
            (Some(safe_cols), Some(session_rows))
        },
        None => (None, None),
    }
}

/// The sequence that shows the session's screen: the alternate screen, cleared if asked for,
/// and left first where a pristine one is wanted.
pub fn enter_screen(clear: bool, pristine: bool) -> (r: &'static str)
    ensures
        r@ == if clear && pristine {
            "\u{1b}[?1049l\u{1b}[?1049h\u{1b}[2J\u{1b}[H"@
        } else if clear {
            "\u{1b}[?1049h\u{1b}[2J\u{1b}[H"@
        } else {
            "\u{1b}[?1049h"@
        },
{
    if clear {
        if pristine {
            "\u{1b}[?1049l\u{1b}[?1049h\u{1b}[2J\u{1b}[H"
        } else {
            "\u{1b}[?1049h\u{1b}[2J\u{1b}[H"
        }
    } else {
        "\u{1b}[?1049h"
    }
}

/// The sequence that gives the user's own screen back.
pub fn leave_screen() -> (r: &'static str)
    ensures
        r@ == "\u{1b}[?1049l"@,
{
    "\u{1b}[?1049l"
}

/// The sequence that keeps the terminal from sending cursor keys for the scroll wheel.
pub fn disable_alternate_scroll() -> (r: &'static str)
    ensures
        r@ == "\u{1b}[?1007l"@,
{
    "\u{1b}[?1007l"
}

/// The attachment to make next: to which session, on a cleared screen or not, and whether the
/// daemon is to replay what the session has shown.
pub struct AttachFlow {
    pub current: String,
    pub clear_before_attach: bool,
    pub replay: bool,
}

/// What to do after an attachment ended.
#[derive(Debug, Clone, Copy, PartialEq, Eq, Structural)]
pub enum AttachStep {
    /// Return to the shell.
    Leave,
    /// Let the user pick a session, with the current one marked.
    Pick,
}

/// Attaches to a session and shows what it has shown before.
pub fn attach_session(name: &str) -> (r: AttachFlow)
    ensures
        r.current@ == name@,
        r.clear_before_attach,
        r.replay,
{
    attach_session_with_replay(name, true)
}

/// Attaches to a session.
pub fn attach_session_with_replay(name: &str, replay: bool) -> (r: AttachFlow)
    ensures
        r.current@ == name@,
        r.clear_before_attach,
        r.replay == replay,
{
    AttachFlow { current: name.to_owned(), clear_before_attach: true, replay }
}

impl AttachFlow {
    /// The request that starts the attachment, from the size of the terminal if it is known.
    pub fn request(&self, size: Option<(u16, u16)>) -> (r: Request)
        ensures
            r matches Request::Attach { name, rows, cols, replay } && {
                &&& name@ == self.current@
                &&& replay == Some(self.replay)
                &&& match size {
                    Some((w, h)) => cols == Some(at_least_one(w)) && rows == Some(content_rows(h)),
                    None => cols is None && rows is None,
                }
            },
    {
        let (cols, rows) = attach_dimensions_for_status_line(size);
        Request::Attach { name: self.current.clone(), rows, cols, replay: Some(self.replay) }
    }

    /// Whether the Enter key that picked the session may still arrive: that is so for a
    /// session just made, which has nothing to replay.
    pub fn swallows_enter(&self) -> (r: bool)
        ensures
            r == !self.replay,
    {
        !self.replay
    }

    /// Goes on after an attachment has ended.
    pub fn after_bridge(&self, outcome: BridgeOutcome) -> (r: AttachStep)
        ensures
            r == match outcome {
                BridgeOutcome::Detached => AttachStep::Leave,
                BridgeOutcome::SwitchRequested => AttachStep::Pick,
            },
    {
        match outcome {
            BridgeOutcome::Detached => AttachStep::Leave,
            BridgeOutcome::SwitchRequested => AttachStep::Pick,
        }
    }

    /// Goes on after the picker. Without a choice, or with the current session chosen again,
    /// the current session is shown anew, with replay, whatever the choice says of it.
    pub fn after_pick(&mut self, choice: Option<PickerSelection>)
        ensures
            final(self).clear_before_attach,
            match choice {
                Some(next) => {
                    &&& final(self).current@ == next.name@
                    &&& final(self).replay == (next.name@ == old(self).current@ || next.replay)
                },
                None => final(self).current@ == old(self).current@ && final(self).replay,
            },
    {
        self.clear_before_attach = true;
        match choice {
            Some(next) => {
                if crate::text::same_text(next.name.as_str(), self.current.as_str()) {
                    self.replay = true;
                } else {
                    self.current = next.name;
                    self.replay = next.replay;
                }
            },
            None => {
                self.replay = true;
            },
        }
    }
}

/// What the answer to an attach request means.
pub fn attach_outcome(response: Response) -> (r: Result<(), String>)
    ensures
        is_outcome("attach failed: "@, response, r),
{
    outcome("attach failed: ", response)
}

} // verus!
