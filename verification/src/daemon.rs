//! The daemon side: what a request asks for, how it is answered, how a session's shell is set
//! up, and how the bytes of an attachment flow.

pub mod bridge;
pub mod replay;
pub mod sessions;

use crate::protocol::{line_payload, Request, Response, TerminalEnv};
use crate::text::{is_white, joined, law_blank_is_all_white, trim, trimmed, trimmed_end};
use vstd::prelude::*;
use vstd::utf8::encode_utf8;

verus! {

/// What was found at the path of the socket.
#[derive(Debug, Clone, Copy, PartialEq, Eq, Structural)]
pub enum SocketState {
    /// Nothing.
    Missing,
    /// A daemon that accepts connections.
    Answering,
    /// A socket that nobody listens on.
    Stale,
}

/// How the daemon starts.
#[derive(Debug, Clone, Copy, PartialEq, Eq, Structural)]
pub enum Startup {
    /// Bind the socket and serve.
    Serve,
    /// Remove the socket that is there, then bind and serve.
    ReplaceAndServe,
    /// Leave it to the daemon that runs already.
    Leave,
}

/// Decides how to start.
pub fn startup(socket: SocketState) -> (r: Startup)
    ensures
        r == match socket {
            SocketState::Missing => Startup::Serve,
            SocketState::Answering => Startup::Leave,
            SocketState::Stale => Startup::ReplaceAndServe,
        },
{
    match socket {
        SocketState::Missing => Startup::Serve,
        SocketState::Answering => Startup::Leave,
        SocketState::Stale => Startup::ReplaceAndServe,
    }
}

/// The payload of a request that was read as a line; an empty line means that the client sent
/// nothing.
pub fn request_payload<'a>(line: &'a str) -> (r: Result<&'a str, String>)
    ensures
        match r {
            Ok(payload) => line@.len() > 0 && payload@ == trimmed_end(line@),
            Err(message) => line@.len() == 0 && message@ == "empty request"@,
        },
{
    if line.unicode_len() == 0 {
        return Err("empty request".to_owned());
    }
    Ok(line_payload(line))
}

/// What is to be done for a request. All but `Answer` first drop the sessions whose shells
/// have ended.
#[derive(Debug)]
pub enum Plan {
    /// Answer at once.
    Answer(Response),
    /// Answer with the list of sessions.
    List,
    /// Make a session.
    Create { name: String, cwd: Option<String>, terminal_env: Option<TerminalEnv> },
    /// End a session.
    Delete { name: String },
    /// Rename a session.
    Rename { from: String, to: String },
    /// Attach the client to a session.
    Attach { name: String, rows: Option<u16>, cols: Option<u16>, replay: bool },
}

/// Whether a name is empty or white space only.
pub open spec fn is_blank(name: Seq<char>) -> bool {
    trimmed(name).len() == 0
}

/// A name is blank exactly where all of it is white space.
pub proof fn law_blank_names(name: Seq<char>)
    ensures
        is_blank(name) <==> forall|i: int| 0 <= i < name.len() ==> is_white(#[trigger] name[i]),
{
    law_blank_is_all_white(name);
}

/// A refusal is an answer that fails with the message and holds no list.
pub proof fn law_refusals(plan: Plan, message: Seq<char>)
    requires
        refuses(plan, message),
    ensures
        plan matches Plan::Answer(response) && !response.ok && response.sessions is None && (
        response.error matches Some(error) && error@ == message),
{
}

/// Whether `plan` answers at once with this error.
pub open spec fn refuses(plan: Plan, message: Seq<char>) -> bool {
    plan matches Plan::Answer(response) && {
        &&& !response.ok
        &&& response.sessions is None
        &&& response.error matches Some(error) && error@ == message
    }
}

/// Decides what a request asks for. Blank names are refused; an attachment replays unless it
/// says otherwise.
pub fn handle_client(request: Request) -> (plan: Plan)
    ensures
        match request {
            Request::Ping => plan == Plan::Answer(
                Response { ok: true, error: None, sessions: None },
            ),
            Request::List => plan == Plan::List,
            Request::Create { name, cwd, terminal_env } => if is_blank(name@) {
                refuses(plan, "session name cannot be empty"@)
            } else {
                plan == (Plan::Create { name, cwd, terminal_env })
            },
            Request::Delete { name } => plan == (Plan::Delete { name }),
            Request::Rename { from, to } => if is_blank(to@) {
                refuses(plan, "new name cannot be empty"@)
            } else {
                plan == (Plan::Rename { from, to })
            },
            Request::Attach { name, rows, cols, replay } => plan == (Plan::Attach {
                name,
                rows,
                cols,
                replay: replay != Some(false),
            }),
        },
{
    match request {
        Request::Ping => Plan::Answer(Response::ok()),
        Request::List => Plan::List,
        Request::Create { name, cwd, terminal_env } => {
            if trim(name.as_str()).unicode_len() == 0 {
                return Plan::Answer(Response::err("session name cannot be empty".to_owned()));
            }
            Plan::Create { name, cwd, terminal_env }
        },
        Request::Delete { name } => Plan::Delete { name },
        Request::Rename { from, to } => {
            if trim(to.as_str()).unicode_len() == 0 {
                return Plan::Answer(Response::err("new name cannot be empty".to_owned()));
            }
            Plan::Rename { from, to }
        },
        Request::Attach { name, rows, cols, replay } => {
            let replay = match replay {
                Some(replay) => replay,
                None => true,
            };
            Plan::Attach { name, rows, cols, replay }
        },
    }
}

/// The answer to a request that succeeds with nothing to tell, or fails.
pub fn result_to_response(result: Result<(), String>) -> (r: Response)
    ensures
        match result {
            Ok(_) => r == (Response { ok: true, error: None, sessions: None }),
            Err(message) => r == (Response { ok: false, error: Some(message), sessions: None }),
        },
{
    match result {
        Ok(_) => Response::ok(),
        Err(message) => Response::err(message),
    }
}

/// A directory: its path as the system has it, and as it is shown.
#[derive(Debug)]
pub struct Directory {
    pub bytes: Vec<u8>,
    pub shown: String,
}

/// The directory of a new session: the one asked for, else the daemon's own, else the root.
pub fn session_cwd(asked: Option<Directory>, current: Option<Directory>) -> (r: Directory)
    ensures
        match (asked, current) {
            (Some(cwd), _) => r == cwd,
            (None, Some(cwd)) => r == cwd,
            (None, None) => r.bytes@ == encode_utf8("/"@) && r.shown@ == "/"@,
        },
{
    match asked {
        Some(cwd) => cwd,
        None => match current {
            Some(cwd) => cwd,
            None => Directory { bytes: "/".as_bytes_vec(), shown: "/".to_owned() },
        },
    }
}

/// Refuses a directory that does not exist.
pub fn check_cwd(cwd: &str, exists: bool) -> (r: Result<(), String>)
    ensures
        match r {
            Ok(_) => exists,
            Err(message) => !exists && message@ == "working directory does not exist: "@ + cwd@,
        },
{
    if exists {
        Ok(())
    } else {
        Err(joined("working directory does not exist: ", cwd))
    }
}

/// The shell of new sessions, from the value of `FISH_SESSION_SHELL`.
pub fn preferred_shell(chosen: Option<String>) -> (r: String)
    ensures
        r@ == match chosen {
            Some(shell) => shell@,
            None => "fish"@,
        },
{
    match chosen {
        Some(shell) => shell,
        None => "fish".to_owned(),
    }
}

/// A variable to set for a shell, with its value as bytes.
pub struct EnvVar {
    pub name: &'static str,
    pub value: Vec<u8>,
}

/// A variable and its value.
pub type Setting = (Seq<char>, Seq<u8>);

/// The variables and values of a list.
pub open spec fn settings(vars: Seq<EnvVar>) -> Seq<Setting> {
    vars.map_values(|var: EnvVar| (var.name@, var.value@))
}

/// Each variable stands for its name and its value, in order.
pub proof fn law_settings(vars: Seq<EnvVar>, i: int)
    requires
        0 <= i < vars.len(),
    ensures
        settings(vars).len() == vars.len(),
        settings(vars)[i] == (vars[i].name@, vars[i].value@),
{
}

/// The setting of a variable that may have no value.
pub open spec fn setting(name: Seq<char>, value: Option<String>) -> Seq<Setting> {
    match value {
        Some(value) => seq![(name, encode_utf8(value@))],
        None => Seq::empty(),
    }
}

/// What is set to describe a terminal. Its type is always set, to a common one if it is not
/// known; the rest only as far as it is known.
pub open spec fn terminal_settings(terminal: TerminalEnv) -> Seq<Setting> {
    let term = match terminal.term {
        Some(term) => encode_utf8(term@),
        None => encode_utf8("xterm-256color"@),
    };
    seq![("TERM"@, term)] + setting("COLORTERM"@, terminal.colorterm) + setting(
        "TERM_PROGRAM"@,
        terminal.term_program,
    ) + setting("TERM_PROGRAM_VERSION"@, terminal.term_program_version) + setting(
        "TERMINFO"@,
        terminal.terminfo,
    ) + setting("TERMINFO_DIRS"@, terminal.terminfo_dirs)
}

/// What is set for the shell of a session: its name, its directory, and the terminal of the
/// client that made it, if that was told.
pub open spec fn session_settings(
    name: Seq<char>,
    cwd: Seq<u8>,
    terminal: Option<TerminalEnv>,
) -> Seq<Setting> {
    seq![("__fish_session_name"@, encode_utf8(name)), ("__fish_session_cwd"@, cwd)] + (
    match terminal {
        Some(terminal) => terminal_settings(terminal),
        None => Seq::empty(),
    })
}

/// Whether a variable is set to a value in a list, and to nothing else.
#[verifier::opaque]
pub open spec fn is_set(list: Seq<Setting>, name: Seq<char>, value: Option<Seq<u8>>) -> bool {
    &&& value matches Some(value) ==> exists|i: int|
        0 <= i < list.len() && #[trigger] list[i] == (name, value)
    &&& forall|i: int|
        0 <= i < list.len() && (#[trigger] list[i]).0 == name ==> value == Some(list[i].1)
}

/// The bytes of a text that may be missing.
pub open spec fn bytes_of_text(text: Option<String>) -> Option<Seq<u8>> {
    match text {
        Some(text) => Some(encode_utf8(text@)),
        None => None,
    }
}

/// The shell of a session finds the session's name and directory in its variables, and what its
/// terminal was told to be; the type of the terminal is a common one where it was not told, and
/// what else was not told is not set.
pub proof fn law_settings_of_a_session(name: Seq<char>, cwd: Seq<u8>, terminal: TerminalEnv)
    ensures
        ({
            let list = session_settings(name, cwd, Some(terminal));
            &&& is_set(list, "__fish_session_name"@, Some(encode_utf8(name)))
            &&& is_set(list, "__fish_session_cwd"@, Some(cwd))
            &&& terminal.term is Some ==> is_set(list, "TERM"@, bytes_of_text(terminal.term))
            &&& terminal.term is None ==> is_set(
                list,
                "TERM"@,
                Some(encode_utf8("xterm-256color"@)),
            )
            &&& is_set(list, "COLORTERM"@, bytes_of_text(terminal.colorterm))
            &&& is_set(list, "TERM_PROGRAM"@, bytes_of_text(terminal.term_program))
            &&& is_set(list, "TERM_PROGRAM_VERSION"@, bytes_of_text(terminal.term_program_version))
            &&& is_set(list, "TERMINFO"@, bytes_of_text(terminal.terminfo))
            &&& is_set(list, "TERMINFO_DIRS"@, bytes_of_text(terminal.terminfo_dirs))
        }),
{
    lemma_names_differ();
    let list = session_settings(name, cwd, Some(terminal));
    let own = seq![("__fish_session_name"@, encode_utf8(name)), ("__fish_session_cwd"@, cwd)];
    let term = if terminal.term is Some {
        encode_utf8(terminal.term.unwrap()@)
    } else {
        encode_utf8("xterm-256color"@)
    };
    let a = own + seq![("TERM"@, term)];
    let b = a + setting("COLORTERM"@, terminal.colorterm);
    let c = b + setting("TERM_PROGRAM"@, terminal.term_program);
    let d = c + setting("TERM_PROGRAM_VERSION"@, terminal.term_program_version);
    let e = d + setting("TERMINFO"@, terminal.terminfo);
    let f = e + setting("TERMINFO_DIRS"@, terminal.terminfo_dirs);
    lemma_added(own, "TERM"@, seq![("TERM"@, term)]);
    lemma_added(a, "COLORTERM"@, setting("COLORTERM"@, terminal.colorterm));
    lemma_added(b, "TERM_PROGRAM"@, setting("TERM_PROGRAM"@, terminal.term_program));
    lemma_added(
        c,
        "TERM_PROGRAM_VERSION"@,
        setting("TERM_PROGRAM_VERSION"@, terminal.term_program_version),
    );
    lemma_added(d, "TERMINFO"@, setting("TERMINFO"@, terminal.terminfo));
    lemma_added(e, "TERMINFO_DIRS"@, setting("TERMINFO_DIRS"@, terminal.terminfo_dirs));
    assert(list =~= f);
    lemma_own_settings(name, cwd);
}

/// Where nothing was told of a terminal, only the name and the directory are set.
pub proof fn law_settings_without_a_terminal(name: Seq<char>, cwd: Seq<u8>)
    ensures
        ({
            let list = session_settings(name, cwd, None);
            &&& list.len() == 2
            &&& is_set(list, "__fish_session_name"@, Some(encode_utf8(name)))
            &&& is_set(list, "__fish_session_cwd"@, Some(cwd))
        }),
{
    lemma_own_settings(name, cwd);
    assert(session_settings(name, cwd, None) =~= seq![
        ("__fish_session_name"@, encode_utf8(name)),
        ("__fish_session_cwd"@, cwd),
    ]);
}

proof fn lemma_own_settings(name: Seq<char>, cwd: Seq<u8>)
    ensures
        ({
            let own = seq![
                ("__fish_session_name"@, encode_utf8(name)),
                ("__fish_session_cwd"@, cwd),
            ];
            &&& is_set(own, "__fish_session_name"@, Some(encode_utf8(name)))
            &&& is_set(own, "__fish_session_cwd"@, Some(cwd))
            &&& is_set(own, "TERM"@, None)
            &&& is_set(own, "COLORTERM"@, None)
            &&& is_set(own, "TERM_PROGRAM"@, None)
            &&& is_set(own, "TERM_PROGRAM_VERSION"@, None)
            &&& is_set(own, "TERMINFO"@, None)
            &&& is_set(own, "TERMINFO_DIRS"@, None)
        }),
{
    reveal(is_set);
    lemma_names_differ();
    let own = seq![("__fish_session_name"@, encode_utf8(name)), ("__fish_session_cwd"@, cwd)];
    assert(own[0] == ("__fish_session_name"@, encode_utf8(name)));
    assert(own[1] == ("__fish_session_cwd"@, cwd));
}

proof fn lemma_names_differ()
    ensures
        "__fish_session_name"@.len() == 19,
        "__fish_session_cwd"@.len() == 18,
        "TERM"@.len() == 4,
        "COLORTERM"@.len() == 9,
        "TERM_PROGRAM"@.len() == 12,
        "TERM_PROGRAM_VERSION"@.len() == 20,
        "TERMINFO"@.len() == 8,
        "TERMINFO_DIRS"@.len() == 13,
{
    reveal_strlit("__fish_session_name");
    reveal_strlit("__fish_session_cwd");
    reveal_strlit("TERM");
    reveal_strlit("COLORTERM");
    reveal_strlit("TERM_PROGRAM");
    reveal_strlit("TERM_PROGRAM_VERSION");
    reveal_strlit("TERMINFO");
    reveal_strlit("TERMINFO_DIRS");
}

/// The setting of a variable is added to a list, or not, without changing what else is set.
proof fn lemma_added(list: Seq<Setting>, name: Seq<char>, added: Seq<Setting>)
    requires
        added.len() <= 1,
        added.len() == 1 ==> added[0].0 == name,
    ensures
        forall|other: Seq<char>, set: Option<Seq<u8>>|
            #![trigger is_set(list, other, set)]
            #![trigger is_set(list + added, other, set)]
            other != name ==> is_set(list, other, set) == is_set(list + added, other, set),
        is_set(list, name, None) ==> is_set(
            list + added,
            name,
            if added.len() == 0 {
                None
            } else {
                Some(added[0].1)
            },
        ),
{
    reveal(is_set);
    let more = list + added;
    let last = list.len() as int;
    if added.len() == 0 {
        assert(more =~= list);
    } else {
        assert(more[last] == added[0]);
        assert forall|other: Seq<char>, set: Option<Seq<u8>>|
            #![trigger is_set(list, other, set)]
            other != name implies is_set(list, other, set) == is_set(more, other, set) by {
            if is_set(list, other, set) {
                if let Some(given) = set {
                    let i = choose|i: int|
                        0 <= i < list.len() && #[trigger] list[i] == (other, given);
                    assert(more[i] == (other, given));
                }
            }
            if is_set(more, other, set) {
                if let Some(given) = set {
                    let i = choose|i: int|
                        0 <= i < more.len() && #[trigger] more[i] == (other, given);
                    assert(list[i] == (other, given));
                }
                assert forall|i: int| 0 <= i < list.len() && (#[trigger] list[i]).0
                    == other implies set == Some(list[i].1) by {
                    assert(more[i] == list[i]);
                }
            }
        }
        if is_set(list, name, None) {
            assert(more[last] == (name, added[0].1));
            assert forall|i: int| 0 <= i < more.len() && (#[trigger] more[i]).0
                == name implies Some(added[0].1) == Some(more[i].1) by {
                if i < last {
                    assert(list[i] == more[i]);
                }
            }
        }
    }
}

fn push_setting(vars: &mut Vec<EnvVar>, name: &'static str, value: &Option<String>)
    ensures
        settings(final(vars)@) == settings(old(vars)@) + setting(name@, *value),
{
    match value {
        Some(text) => {
            let value = text.as_str().as_bytes_vec();
            vars.push(EnvVar { name, value });
            assert(settings(vars@) =~= settings(old(vars)@) + seq![(name@, value@)]);
        },
        None => {
            assert(settings(vars@) + Seq::<Setting>::empty() =~= settings(vars@));
        },
    }
}

/// Adds what describes a terminal.
pub fn apply_terminal_env(vars: &mut Vec<EnvVar>, terminal: &TerminalEnv)
    ensures
        settings(final(vars)@) == settings(old(vars)@) + terminal_settings(*terminal),
{
    let value = match &terminal.term {
        Some(term) => term.as_str().as_bytes_vec(),
        None => "xterm-256color".as_bytes_vec(),
    };
    vars.push(EnvVar { name: "TERM", value });
    assert(settings(vars@) =~= settings(old(vars)@) + seq![("TERM"@, value@)]);
    push_setting(vars, "COLORTERM", &terminal.colorterm);
    push_setting(vars, "TERM_PROGRAM", &terminal.term_program);
    push_setting(vars, "TERM_PROGRAM_VERSION", &terminal.term_program_version);
    push_setting(vars, "TERMINFO", &terminal.terminfo);
    push_setting(vars, "TERMINFO_DIRS", &terminal.terminfo_dirs);
    assert(settings(vars@) =~= settings(old(vars)@) + terminal_settings(*terminal));
}

/// The variables to set for the shell of a session.
pub fn child_env(name: &str, cwd: &[u8], terminal: Option<&TerminalEnv>) -> (r: Vec<EnvVar>)
    ensures
        settings(r@) == session_settings(
            name@,
            cwd@,
            match terminal {
                Some(terminal) => Some(*terminal),
                None => None,
            },
        ),
{
    let mut vars: Vec<EnvVar> = Vec::new();
    vars.push(EnvVar { name: "__fish_session_name", value: name.as_bytes_vec() });
    let mut value: Vec<u8> = Vec::new();
    crate::bytes::append_bytes(&mut value, cwd);
    assert(value@ =~= cwd@);
    vars.push(EnvVar { name: "__fish_session_cwd", value });
    assert(settings(vars@) =~= seq![
        ("__fish_session_name"@, encode_utf8(name@)),
        ("__fish_session_cwd"@, cwd@),
    ]);
    match terminal {
        Some(terminal) => {
            apply_terminal_env(&mut vars, terminal);
        },
        None => {
            assert(settings(vars@) + Seq::<Setting>::empty() =~= settings(vars@));
        },
    }
    vars
}

/// The rows and columns to give a session's terminal: those asked for, if both are.
pub fn requested_size(rows: Option<u16>, cols: Option<u16>) -> (r: Option<(u16, u16)>)
    ensures
        match r {
            Some((height, width)) => rows == Some(height) && cols == Some(width),
            None => rows is None || cols is None,
        },
{
    match (rows, cols) {
        (Some(height), Some(width)) => Some((height, width)),
        _ => None,
    }
}

} // verus!
