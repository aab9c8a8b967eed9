//! How the picker answers keys, and the results of what it asks for.
//!
//! The picker itself does nothing but decide. Each step ends in a command; what comes of the
//! command is handed to the next step.

use crate::config::AppConfig;
use crate::paths::{is_same_place, Place};
use crate::protocol::SessionInfo;
use crate::text::{chars_of, is_white, law_blank_is_all_white, trim, trimmed};
use crate::ui::app::{App, AppView, Mode, ModeView};
use crate::ui::naming::{
    directory_stem, has_generated_name, is_first_free, is_generated_form, is_taken,
    law_some_name_is_free, law_taken_names, next_session_name, suggest_session_name,
};
use crate::ui::zoxide::{is_best, is_first_at, session_at, ZoxideEntry};
use crate::ui::PickerSelection;
use vstd::prelude::*;

verus! {

/// A key.
#[derive(Debug, Clone, Copy, PartialEq, Eq, Structural)]
pub enum KeyCode {
    Char(char),
    Backspace,
    Enter,
    Esc,
    Up,
    Down,
    Other,
}

/// A key that was pressed, with the modifiers that matter.
#[derive(Debug, Clone, Copy, PartialEq, Eq, Structural)]
pub struct Key {
    pub code: KeyCode,
    pub ctrl: bool,
    pub alt: bool,
    pub logo: bool,
}

/// What the picker asks for.
#[derive(Debug)]
pub enum Command {
    /// The next key.
    Wait,
    /// To close, with the session to attach to, if any.
    Finish(Option<PickerSelection>),
    /// To close with the error that occurred.
    Fail,
    /// The list of sessions.
    List,
    /// To end a session.
    Delete { name: String },
    /// A new session in the directory of the user's shell.
    Create { name: String },
    /// A new session in this directory.
    CreateIn { name: String, path: String },
    /// To rename a session.
    Rename { from: String, to: String },
    /// The directories that zoxide knows.
    QueryZoxide,
    /// The scores of the directories for the input.
    Score,
    /// The directories of the sessions and those found, as places.
    Locate,
    /// The list of sessions, their directories as places, and this directory as one.
    ListPlaces { path: String },
}

/// The same, in text.
pub ghost enum CommandView {
    Wait,
    Quit,
    Attach { name: Seq<char>, replay: bool },
    Fail,
    List,
    Delete { name: Seq<char> },
    Create { name: Seq<char> },
    CreateIn { name: Seq<char>, path: Seq<char> },
    Rename { from: Seq<char>, to: Seq<char> },
    QueryZoxide,
    Score,
    Locate,
    ListPlaces { path: Seq<char> },
}

impl View for Command {
    type V = CommandView;

    open spec fn view(&self) -> CommandView {
        match self {
            Command::Wait => CommandView::Wait,
            Command::Finish(None) => CommandView::Quit,
            Command::Finish(Some(selection)) => CommandView::Attach {
                name: selection.name@,
                replay: selection.replay,
            },
            Command::Fail => CommandView::Fail,
            Command::List => CommandView::List,
            Command::Delete { name } => CommandView::Delete { name: name@ },
            Command::Create { name } => CommandView::Create { name: name@ },
            Command::CreateIn { name, path } => CommandView::CreateIn { name: name@, path: path@ },
            Command::Rename { from, to } => CommandView::Rename { from: from@, to: to@ },
            Command::QueryZoxide => CommandView::QueryZoxide,
            Command::Score => CommandView::Score,
            Command::Locate => CommandView::Locate,
            Command::ListPlaces { path } => CommandView::ListPlaces { path: path@ },
        }
    }
}

/// A command asks for the same, in text.
pub proof fn law_views_of_commands(command: Command)
    ensures
        command is Wait <==> command@ is Wait,
        command is Fail <==> command@ is Fail,
        command is List <==> command@ is List,
        command is QueryZoxide <==> command@ is QueryZoxide,
        command is Score <==> command@ is Score,
        command is Locate <==> command@ is Locate,
        command matches Command::Finish(None) <==> command@ is Quit,
        command matches Command::Finish(Some(selection)) ==> command@ == (CommandView::Attach {
            name: selection.name@,
            replay: selection.replay,
        }),
        command matches Command::Delete { name } ==> command@ == (CommandView::Delete {
            name: name@,
        }),
        command matches Command::Create { name } ==> command@ == (CommandView::Create {
            name: name@,
        }),
        command matches Command::CreateIn { name, path } ==> command@ == (CommandView::CreateIn {
            name: name@,
            path: path@,
        }),
        command matches Command::Rename { from, to } ==> command@ == (CommandView::Rename {
            from: from@,
            to: to@,
        }),
        command matches Command::ListPlaces { path } ==> command@ == (CommandView::ListPlaces {
            path: path@,
        }),
{
}

/// What the picker waits for, and why.
pub enum Task {
    /// For a key.
    Idle,
    /// For the list to start with.
    StartList,
    /// For zoxide's directories, to start with them.
    StartIndex,
    /// For zoxide's directories.
    Index { select_active: bool },
    /// For scores.
    Score { select_active: bool },
    /// For places.
    Locate { select_active: bool },
    /// For the end of a session.
    Delete,
    /// For the list after that.
    DeleteList,
    /// For a new session.
    Create { name: String },
    /// For the list after that failed.
    CreateList,
    /// For a new name.
    Rename,
    /// For the list after that.
    RenameList,
    /// For the list to find a session in a directory.
    Open { path: String },
    /// For a new session in a directory.
    OpenCreate { name: String },
    /// For nothing: the picker is closed.
    Over,
}

/// The same, in text.
pub ghost enum TaskView {
    Idle,
    StartList,
    StartIndex,
    Index { select_active: bool },
    Score { select_active: bool },
    Locate { select_active: bool },
    Delete,
    DeleteList,
    Create { name: Seq<char> },
    CreateList,
    Rename,
    RenameList,
    Open { path: Seq<char> },
    OpenCreate { name: Seq<char> },
    Over,
}

impl View for Task {
    type V = TaskView;

    open spec fn view(&self) -> TaskView {
        match self {
            Task::Idle => TaskView::Idle,
            Task::StartList => TaskView::StartList,
            Task::StartIndex => TaskView::StartIndex,
            Task::Index { select_active } => TaskView::Index { select_active: *select_active },
            Task::Score { select_active } => TaskView::Score { select_active: *select_active },
            Task::Locate { select_active } => TaskView::Locate { select_active: *select_active },
            Task::Delete => TaskView::Delete,
            Task::DeleteList => TaskView::DeleteList,
            Task::Create { name } => TaskView::Create { name: name@ },
            Task::CreateList => TaskView::CreateList,
            Task::Rename => TaskView::Rename,
            Task::RenameList => TaskView::RenameList,
            Task::Open { path } => TaskView::Open { path: path@ },
            Task::OpenCreate { name } => TaskView::OpenCreate { name: name@ },
            Task::Over => TaskView::Over,
        }
    }
}

/// The picker: its state, and what it waits for.
pub struct Picker {
    pub app: App,
    pub task: Task,
}

/// A step of the picker: the state after it, what it then waits for, and its command.
#[verifier::ext_equal]
pub ghost struct Step {
    pub app: AppView,
    pub task: TaskView,
    pub command: CommandView,
}

impl Picker {
    /// The state is well formed.
    pub open spec fn wf(&self) -> bool {
        self.app@.wf()
    }
}

/// Whether the picker has taken a step.
pub open spec fn took(picker: Picker, command: Command, step: Step) -> bool {
    &&& picker.app@ == step.app
    &&& picker.task@ == step.task
    &&& command@ == step.command
}

/// The step to wait for the next key.
pub open spec fn wait(app: AppView) -> Step {
    Step { app, task: TaskView::Idle, command: CommandView::Wait }
}

/// The step to close the picker without a choice.
pub open spec fn quit(app: AppView) -> Step {
    Step { app, task: TaskView::Over, command: CommandView::Quit }
}

/// The step to close the picker with a choice.
pub open spec fn attach(app: AppView, name: Seq<char>, replay: bool) -> Step {
    Step { app, task: TaskView::Over, command: CommandView::Attach { name, replay } }
}

/// A picker that took a step is in its state, waits for what it says, and asks for it.
pub proof fn law_steps_are_taken(picker: Picker, command: Command, step: Step)
    requires
        took(picker, command, step),
    ensures
        picker.app@ == step.app,
        picker.task@ == step.task,
        command@ == step.command,
        picker.task matches Task::Create { name } ==> step.task == (TaskView::Create {
            name: name@,
        }),
        picker.task matches Task::Open { path } ==> step.task == (TaskView::Open { path: path@ }),
        picker.task matches Task::OpenCreate { name } ==> step.task == (TaskView::OpenCreate {
            name: name@,
        }),
        picker.task matches Task::Index { select_active } ==> step.task == (TaskView::Index {
            select_active,
        }),
        picker.task matches Task::Score { select_active } ==> step.task == (TaskView::Score {
            select_active,
        }),
        picker.task matches Task::Locate { select_active } ==> step.task == (TaskView::Locate {
            select_active,
        }),
        picker.task is Idle <==> step.task is Idle,
        picker.task is StartList <==> step.task is StartList,
        picker.task is StartIndex <==> step.task is StartIndex,
        picker.task is Delete <==> step.task is Delete,
        picker.task is DeleteList <==> step.task is DeleteList,
        picker.task is CreateList <==> step.task is CreateList,
        picker.task is Rename <==> step.task is Rename,
        picker.task is RenameList <==> step.task is RenameList,
        picker.task is Over <==> step.task is Over,
{
}

/// What a key makes of typed text, if it edits: a character is added, Backspace takes the last
/// away. With a modifier no key edits.
pub open spec fn edited(input: Seq<char>, key: Key) -> Option<Seq<char>> {
    if key.ctrl || key.alt || key.logo {
        None
    } else {
        match key.code {
            KeyCode::Char(c) => Some(input.push(c)),
            KeyCode::Backspace => Some(
                if input.len() > 0 {
                    input.drop_last()
                } else {
                    input
                },
            ),
            _ => None,
        }
    }
}

/// Whether a key is Ctrl with this letter.
pub open spec fn is_ctrl(key: Key, c: char) -> bool {
    key.ctrl && key.code == KeyCode::Char(c)
}

/// Whether a key moves up.
pub open spec fn is_up(key: Key) -> bool {
    key.code == KeyCode::Up || key.code == KeyCode::Char('k')
}

/// Whether a key moves down.
pub open spec fn is_down(key: Key) -> bool {
    key.code == KeyCode::Down || key.code == KeyCode::Char('j')
}

/// Whether a name can be suggested for a new session.
pub open spec fn can_suggest(sessions: Seq<SessionInfo>, name: Seq<char>) -> bool {
    &&& !is_taken(sessions, name)
    &&& is_generated_form(name) || is_first_free(sessions, "session"@, name)
    &&& has_generated_name(sessions) || is_generated_form(name)
}

/// Whatever sessions there are, some name can be suggested.
pub proof fn law_something_can_be_suggested(sessions: Seq<SessionInfo>)
    ensures
        exists|name: Seq<char>| can_suggest(sessions, name),
{
    let fallback = law_some_name_is_free(sessions, "session"@);
    if has_generated_name(sessions) {
        assert(can_suggest(sessions, fallback));
    } else {
        let name = seq!['a'].push('-') + seq!['b'];
        assert(is_generated_form(name));
        if is_taken(sessions, name) {
            let i = crate::ui::naming::names(sessions).index_of(name);
            assert(sessions[i].name@ == name);
        }
        assert(can_suggest(sessions, name));
    }
}

/// A name that is suggested is that of no session. It has the form of the generated ones, or is
/// the first free one of `session`, and that only where some session has a generated name.
pub proof fn law_suggested_names(sessions: Seq<SessionInfo>, name: Seq<char>)
    requires
        can_suggest(sessions, name),
    ensures
        forall|i: int| 0 <= i < sessions.len() ==> (#[trigger] sessions[i]).name@ != name,
        !is_generated_form(name) ==> is_first_free(
            sessions,
            seq!['s', 'e', 's', 's', 'i', 'o', 'n'],
            name,
        ) && exists|i: int|
            0 <= i < sessions.len() && is_generated_form(#[trigger] sessions[i].name@),
{
    reveal_strlit("session");
    assert("session"@ =~= seq!['s', 'e', 's', 's', 'i', 'o', 'n']);
    law_taken_names(sessions, name);
}

/// The step for a key while sessions are chosen, where `suggestion` is the name to suggest.
pub open spec fn normal_key(app: AppView, key: Key, suggestion: Seq<char>) -> Step {
    if let Some(input) = edited(app.input, key) {
        wait((AppView { input, ..app }).synced())
    } else if key.code == KeyCode::Esc {
        if app.input.len() > 0 {
            wait((AppView { input: Seq::empty(), ..app }).synced())
        } else {
            quit(app)
        }
    } else if is_up(key) {
        wait(app.moved_up())
    } else if is_down(key) {
        wait(app.moved_down())
    } else if key.code == KeyCode::Enter {
        match app.chosen() {
            Some(name) => attach(app, name, true),
            None => wait(app),
        }
    } else if is_ctrl(key, 'o') && app.config.zoxide.enabled {
        Step {
            app: app.in_zoxide_mode(),
            task: TaskView::Index { select_active: true },
            command: CommandView::QueryZoxide,
        }
    } else if is_ctrl(key, 'r') {
        match app.chosen() {
            Some(name) => wait(
                AppView { input: name, mode: ModeView::Rename { old_name: name }, ..app },
            ),
            None => wait(app),
        }
    } else if is_ctrl(key, 'n') {
        wait(
            AppView {
                input: Seq::empty(),
                mode: ModeView::Create,
                create_suggestion: suggestion,
                ..app
            },
        )
    } else if is_ctrl(key, 'd') {
        match app.chosen() {
            Some(name) => Step {
                app,
                task: TaskView::Delete,
                command: CommandView::Delete { name },
            },
            None => wait(app),
        }
    } else {
        wait(app)
    }
}

/// The step for a key while a new session is named.
pub open spec fn create_key(app: AppView, key: Key) -> Step {
    if let Some(input) = edited(app.input, key) {
        wait(AppView { input, ..app })
    } else if key.code == KeyCode::Esc {
        wait(
            AppView {
                mode: ModeView::Normal,
                input: Seq::empty(),
                create_suggestion: Seq::empty(),
                ..app
            },
        )
    } else if key.code == KeyCode::Enter {
        match app.new_name() {
            Some(name) => Step {
                app,
                task: TaskView::Create { name },
                command: CommandView::Create { name },
            },
            None => wait(app),
        }
    } else {
        wait(app)
    }
}

/// The step for a key while a session is given another name.
pub open spec fn rename_key(app: AppView, old_name: Seq<char>, key: Key) -> Step {
    if let Some(input) = edited(app.input, key) {
        wait(AppView { input, ..app })
    } else if key.code == KeyCode::Esc {
        wait(AppView { mode: ModeView::Normal, input: Seq::empty(), ..app })
    } else if key.code == KeyCode::Enter && trimmed(app.input).len() > 0 {
        Step {
            app,
            task: TaskView::Rename,
            command: CommandView::Rename { from: old_name, to: trimmed(app.input) },
        }
    } else {
        wait(app)
    }
}

/// The step for a key while directories are chosen.
pub open spec fn zoxide_key(app: AppView, key: Key) -> Step {
    if let Some(input) = edited(app.input, key) {
        Step {
            app: AppView { input, ..app },
            task: TaskView::Score { select_active: false },
            command: CommandView::Score,
        }
    } else if key.code == KeyCode::Esc {
        quit(app)
    } else if is_up(key) {
        wait(app.zoxide_moved_up())
    } else if is_down(key) {
        wait(app.zoxide_moved_down())
    } else if is_ctrl(key, 'r') {
        Step {
            app,
            task: TaskView::Index { select_active: false },
            command: CommandView::QueryZoxide,
        }
    } else if key.code == KeyCode::Enter {
        match app.chosen_path() {
            Some(path) => Step {
                app,
                task: TaskView::Open { path },
                command: CommandView::ListPlaces { path },
            },
            None => wait(app),
        }
    } else {
        wait(app)
    }
}

/// The step for a key.
pub open spec fn key_step(app: AppView, key: Key, suggestion: Seq<char>) -> Step {
    match app.mode {
        ModeView::Normal => normal_key(app, key, suggestion),
        ModeView::Create => create_key(app, key),
        ModeView::Rename { old_name } => rename_key(app, old_name, key),
        ModeView::Zoxide => zoxide_key(app, key),
    }
}

/// The state with a new list of sessions, if there is one.
pub open spec fn maybe_refreshed(app: AppView, sessions: Option<Vec<SessionInfo>>) -> AppView {
    match sessions {
        Some(sessions) => app.refreshed(sessions@),
        None => app,
    }
}

/// The step for a list of sessions, or the failure to get one, where `suggestion` is the name
/// to suggest.
pub open spec fn list_step(
    app: AppView,
    task: TaskView,
    sessions: Option<Vec<SessionInfo>>,
    suggestion: Seq<char>,
) -> Step {
    let refreshed = maybe_refreshed(app, sessions);
    match task {
        TaskView::StartList => if sessions is None {
            Step { app, task: TaskView::Over, command: CommandView::Fail }
        } else if app.config.zoxide.enabled && app.config.zoxide.auto_open {
            Step {
                app: refreshed.in_zoxide_mode(),
                task: TaskView::StartIndex,
                command: CommandView::QueryZoxide,
            }
        } else {
            wait(refreshed)
        },
        TaskView::DeleteList => wait(refreshed.synced()),
        TaskView::CreateList => wait(AppView { create_suggestion: suggestion, ..refreshed }),
        _ => wait(refreshed),
    }
}

/// The step for the success or failure of what was asked of the daemon.
pub open spec fn done_step(app: AppView, task: TaskView, ok: bool) -> Step {
    match task {
        TaskView::Delete => if ok {
            Step { app, task: TaskView::DeleteList, command: CommandView::List }
        } else {
            wait(app)
        },
        TaskView::Create { name } => if ok {
            attach(app, name, false)
        } else if trimmed(app.input).len() == 0 {
            Step { app, task: TaskView::CreateList, command: CommandView::List }
        } else {
            wait(app)
        },
        TaskView::Rename => if ok {
            Step {
                app: AppView { mode: ModeView::Normal, input: Seq::empty(), ..app },
                task: TaskView::RenameList,
                command: CommandView::List,
            }
        } else {
            wait(app)
        },
        TaskView::OpenCreate { name } => if ok {
            attach(app, name, false)
        } else {
            wait(app)
        },
        _ => wait(app),
    }
}

/// The step for zoxide's directories, or the failure to get them.
pub open spec fn index_step(
    app: AppView,
    task: TaskView,
    entries: Option<Vec<ZoxideEntry>>,
) -> Step {
    match (task, entries) {
        (TaskView::StartIndex, Some(entries)) => Step {
            app: AppView { zoxide_index: entries@, ..app },
            task: TaskView::Score { select_active: true },
            command: CommandView::Score,
        },
        (TaskView::Index { select_active }, Some(entries)) => Step {
            app: AppView { zoxide_index: entries@, ..app },
            task: TaskView::Score { select_active },
            command: CommandView::Score,
        },
        (TaskView::StartIndex, None) => wait(
            AppView { mode: ModeView::Normal, input: Seq::empty(), ..app },
        ),
        _ => wait(app),
    }
}

/// Whether a step opens a directory: it attaches to the first session there, or asks for a new
/// one under the first free name made from the path.
pub open spec fn opens(
    app: AppView,
    path: Seq<char>,
    sessions: Seq<SessionInfo>,
    places: Seq<Place>,
    place: Place,
    step: Step,
) -> bool {
    if exists|i: int| is_first_at(places, place, i) {
        exists|i: int| #[trigger]
            is_first_at(places, place, i) && step == attach(app, sessions[i].name@, true)
    } else {
        exists|name: Seq<char>| #[trigger]
            is_first_free(sessions, directory_stem(path), name) && step == (Step {
                app,
                task: TaskView::OpenCreate { name },
                command: CommandView::CreateIn { name, path },
            })
    }
}

/// Edits typed text, if the key does.
pub fn handle_text_input(key: Key, input: &mut String) -> (r: bool)
    ensures
        match edited(old(input)@, key) {
            Some(text) => r && final(input)@ == text,
            None => !r && final(input)@ == old(input)@,
        },
{
    if key.ctrl || key.alt || key.logo {
        return false;
    }
    match key.code {
        KeyCode::Char(c) => {
            input.push(c);
            true
        },
        KeyCode::Backspace => {
            let chars = chars_of(input.as_str());
            let n = chars.len();
            if n > 0 {
                let shorter = input.as_str().substring_char(0, n - 1).to_owned();
                assert(shorter@ =~= input@.drop_last());
                *input = shorter;
            }
            true
        },
        _ => false,
    }
}

impl Picker {
    /// A picker that asks for the list of sessions first.
    pub fn new(config: AppConfig, active_session: Option<String>) -> (r: (Self, Command))
        ensures
            r.0.wf(),
            r.0.task@ == TaskView::StartList,
            r.1@ == CommandView::List,
            r.0.app@ == (AppView {
                config,
                active_session,
                sessions: Seq::empty(),
                selected: 0,
                zoxide_index: Seq::empty(),
                zoxide_matches: Seq::empty(),
                zoxide_selected: 0,
                mode: ModeView::Normal,
                input: Seq::empty(),
                create_suggestion: Seq::empty(),
            }),
    {
        (Picker { app: App::new(config, active_session), task: Task::StartList }, Command::List)
    }

    fn quit(&mut self) -> (command: Command)
        ensures
            took(*final(self), command, quit(old(self).app@)),
    {
        self.task = Task::Over;
        Command::Finish(None)
    }

    fn attach(&mut self, name: String, replay: bool) -> (command: Command)
        ensures
            took(*final(self), command, attach(old(self).app@, name@, replay)),
    {
        self.task = Task::Over;
        Command::Finish(Some(PickerSelection { name, replay }))
    }

    fn wait(&mut self) -> (command: Command)
        ensures
            took(*final(self), command, wait(old(self).app@)),
    {
        self.task = Task::Idle;
        Command::Wait
    }

    fn on_normal_key(&mut self, key: Key) -> (command: Command)
        requires
            old(self).wf(),
            old(self).app@.mode is Normal,
        ensures
            final(self).wf(),
            exists|suggestion: Seq<char>| #[trigger]
                can_suggest(old(self).app@.sessions, suggestion) && took(
                    *final(self),
                    command,
                    normal_key(old(self).app@, key, suggestion),
                ),
    {
        proof {
            law_something_can_be_suggested(self.app@.sessions);
        }
        if handle_text_input(key, &mut self.app.input) {
            self.app.sync_selected_with_search();
            return self.wait();
        }
        match key.code {
            KeyCode::Esc => {
                if self.app.input.as_str().unicode_len() > 0 {
                    self.app.input = String::new();
                    assert(self.app.input@ =~= Seq::empty());
                    self.app.sync_selected_with_search();
                    self.wait()
                } else {
                    self.quit()
                }
            },
            KeyCode::Up => {
                self.app.move_session_up();
                self.wait()
            },
            KeyCode::Down => {
                self.app.move_session_down();
                self.wait()
            },
            KeyCode::Enter => match self.app.selected_visible_session_name() {
                Some(name) => self.attach(name, true),
                None => self.wait(),
            },
            KeyCode::Char(c) => {
                if c == 'k' {
                    self.app.move_session_up();
                    self.wait()
                } else if c == 'j' {
                    self.app.move_session_down();
                    self.wait()
                } else if !key.ctrl {
                    self.wait()
                } else if c == 'o' {
                    if !self.app.config.zoxide.enabled {
                        return self.wait();
                    }
                    self.app.enter_zoxide_mode();
                    self.task = Task::Index { select_active: true };
                    Command::QueryZoxide
                } else if c == 'r' {
                    if let Some(name) = self.app.selected_visible_session_name() {
                        self.app.input = name.clone();
                        self.app.mode = Mode::Rename { old_name: name };
                    }
                    self.wait()
                } else if c == 'n' {
                    self.app.input = String::new();
                    assert(self.app.input@ =~= Seq::empty());
                    self.app.mode = Mode::Create;
                    self.app.create_suggestion = suggest_session_name(&self.app.sessions);
                    assert(can_suggest(self.app@.sessions, self.app.create_suggestion@));
                    self.wait()
                } else if c == 'd' {
                    match self.app.selected_visible_session_name() {
                        Some(name) => {
                            self.task = Task::Delete;
                            Command::Delete { name }
                        },
                        None => self.wait(),
                    }
                } else {
                    self.wait()
                }
            },
            _ => self.wait(),
        }
    }

    fn on_create_key(&mut self, key: Key) -> (command: Command)
        requires
            old(self).wf(),
        ensures
            final(self).wf(),
            took(*final(self), command, create_key(old(self).app@, key)),
    {
        if handle_text_input(key, &mut self.app.input) {
            return self.wait();
        }
        match key.code {
            KeyCode::Esc => {
                self.app.mode = Mode::Normal;
                self.app.input = String::new();
                self.app.create_suggestion = String::new();
                assert(self.app.input@ =~= Seq::empty());
                assert(self.app.create_suggestion@ =~= Seq::empty());
                self.wait()
            },
            KeyCode::Enter => match self.app.create_name() {
                Some(name) => {
                    self.task = Task::Create { name: name.clone() };
                    Command::Create { name }
                },
                None => self.wait(),
            },
            _ => self.wait(),
        }
    }

    fn on_rename_key(&mut self, old_name: String, key: Key) -> (command: Command)
        requires
            old(self).wf(),
        ensures
            final(self).wf(),
            took(*final(self), command, rename_key(old(self).app@, old_name@, key)),
    {
        if handle_text_input(key, &mut self.app.input) {
            return self.wait();
        }
        match key.code {
            KeyCode::Esc => {
                self.app.mode = Mode::Normal;
                self.app.input = String::new();
                assert(self.app.input@ =~= Seq::empty());
                self.wait()
            },
            KeyCode::Enter => {
                let to = trim(self.app.input.as_str()).to_owned();
                if to.as_str().unicode_len() == 0 {
                    return self.wait();
                }
                self.task = Task::Rename;
                Command::Rename { from: old_name, to }
            },
            _ => self.wait(),
        }
    }

    fn on_zoxide_key(&mut self, key: Key) -> (command: Command)
        requires
            old(self).wf(),
        ensures
            final(self).wf(),
            took(*final(self), command, zoxide_key(old(self).app@, key)),
    {
        if handle_text_input(key, &mut self.app.input) {
            self.task = Task::Score { select_active: false };
            return Command::Score;
        }
        match key.code {
            KeyCode::Esc => self.quit(),
            KeyCode::Up => {
                self.app.move_zoxide_up();
                self.wait()
            },
            KeyCode::Down => {
                self.app.move_zoxide_down();
                self.wait()
            },
            KeyCode::Enter => match self.app.selected_zoxide_path() {
                Some(path) => {
                    self.task = Task::Open { path: path.clone() };
                    Command::ListPlaces { path }
                },
                None => self.wait(),
            },
            KeyCode::Char(c) => {
                if c == 'k' {
                    self.app.move_zoxide_up();
                    self.wait()
                } else if c == 'j' {
                    self.app.move_zoxide_down();
                    self.wait()
                } else if c == 'r' && key.ctrl {
                    self.task = Task::Index { select_active: false };
                    Command::QueryZoxide
                } else {
                    self.wait()
                }
            },
            _ => self.wait(),
        }
    }

    /// Takes a key.
    pub fn on_key(&mut self, key: Key) -> (command: Command)
        requires
            old(self).wf(),
            old(self).task@ == TaskView::Idle,
        ensures
            final(self).wf(),
            exists|suggestion: Seq<char>| #[trigger]
                can_suggest(old(self).app@.sessions, suggestion) && took(
                    *final(self),
                    command,
                    key_step(old(self).app@, key, suggestion),
                ),
    {
        if let Mode::Normal = &self.app.mode {
            return self.on_normal_key(key);
        }
        proof {
            law_something_can_be_suggested(self.app@.sessions);
        }
        let old_name: Option<String> = match &self.app.mode {
            Mode::Rename { old_name } => Some(old_name.clone()),
            _ => None,
        };
        if let Some(name) = old_name {
            return self.on_rename_key(name, key);
        }
        match &self.app.mode {
            Mode::Create => self.on_create_key(key),
            _ => self.on_zoxide_key(key),
        }
    }

    /// Takes the list of sessions, or the failure to get one.
    pub fn on_listed(&mut self, sessions: Option<Vec<SessionInfo>>) -> (command: Command)
        requires
            old(self).wf(),
            old(self).task@ is StartList || old(self).task@ is DeleteList
                || old(self).task@ is CreateList || old(self).task@ is RenameList,
        ensures
            final(self).wf(),
            exists|suggestion: Seq<char>| #[trigger]
                can_suggest(maybe_refreshed(old(self).app@, sessions).sessions, suggestion) && took(
                    *final(self),
                    command,
                    list_step(old(self).app@, old(self).task@, sessions, suggestion),
                ),
    {
        let failed = sessions.is_none();
        if let Some(list) = sessions {
            self.app.refresh(list);
        }
        proof {
            law_something_can_be_suggested(self.app@.sessions);
        }
        match &self.task {
            Task::StartList => {
                if failed {
                    self.task = Task::Over;
                    Command::Fail
                } else if self.app.config.zoxide.enabled && self.app.config.zoxide.auto_open {
                    self.app.enter_zoxide_mode();
                    self.task = Task::StartIndex;
                    Command::QueryZoxide
                } else {
                    self.wait()
                }
            },
            Task::DeleteList => {
                self.app.sync_selected_with_search();
                self.wait()
            },
            Task::CreateList => {
                self.app.create_suggestion = suggest_session_name(&self.app.sessions);
                assert(can_suggest(self.app@.sessions, self.app.create_suggestion@));
                self.wait()
            },
            _ => self.wait(),
        }
    }

    /// Takes the success or failure of what was asked of the daemon.
    pub fn on_done(&mut self, ok: bool) -> (command: Command)
        requires
            old(self).wf(),
            old(self).task@ is Delete || old(self).task@ is Create || old(self).task@ is Rename
                || old(self).task@ is OpenCreate,
        ensures
            final(self).wf(),
            took(*final(self), command, done_step(old(self).app@, old(self).task@, ok)),
    {
        let named: Option<String> = match &self.task {
            Task::Create { name } => Some(name.clone()),
            Task::OpenCreate { name } => Some(name.clone()),
            _ => None,
        };
        if let Some(name) = named {
            if ok {
                return self.attach(name, false);
            }
        }
        match &self.task {
            Task::Delete => {
                if ok {
                    self.task = Task::DeleteList;
                    Command::List
                } else {
                    self.wait()
                }
            },
            Task::Create { .. } => {
                if trim(self.app.input.as_str()).unicode_len() == 0 {
                    self.task = Task::CreateList;
                    Command::List
                } else {
                    self.wait()
                }
            },
            Task::Rename => {
                if ok {
                    self.app.mode = Mode::Normal;
                    self.app.input = String::new();
                    assert(self.app.input@ =~= Seq::empty());
                    self.task = Task::RenameList;
                    Command::List
                } else {
                    self.wait()
                }
            },
            _ => self.wait(),
        }
    }

    /// Takes zoxide's directories, or the failure to get them.
    pub fn on_indexed(&mut self, entries: Option<Vec<ZoxideEntry>>) -> (command: Command)
        requires
            old(self).wf(),
            old(self).task@ is StartIndex || old(self).task@ is Index,
        ensures
            final(self).wf(),
            took(*final(self), command, index_step(old(self).app@, old(self).task@, entries)),
    {
        let starting = match &self.task {
            Task::StartIndex => true,
            _ => false,
        };
        let select_active = match &self.task {
            Task::Index { select_active } => *select_active,
            _ => true,
        };
        match entries {
            Some(entries) => {
                self.app.zoxide_index = entries;
                self.task = Task::Score { select_active };
                Command::Score
            },
            None => {
                if starting {
                    self.app.mode = Mode::Normal;
                    self.app.input = String::new();
                    assert(self.app.input@ =~= Seq::empty());
                }
                self.wait()
            },
        }
    }

    /// Takes the scores of the directories for the input.
    pub fn on_scored(&mut self, totals: &[u64]) -> (command: Command)
        requires
            old(self).task@ is Score,
            totals@.len() == old(self).app@.zoxide_index.len(),
        ensures
            is_best(
                old(self).app@.input,
                old(self).app@.zoxide_index,
                totals@,
                old(self).app@.config.zoxide.limit as int,
                final(self).app@.zoxide_matches,
            ),
            took(
                *final(self),
                command,
                Step {
                    app: AppView {
                        zoxide_matches: final(self).app@.zoxide_matches,
                        ..old(self).app@
                    },
                    task: TaskView::Locate { select_active: old(self).task@->Score_select_active },
                    command: CommandView::Locate,
                },
            ),
    {
        let select_active = match &self.task {
            Task::Score { select_active } => *select_active,
            _ => false,
        };
        self.app.search_zoxide(totals);
        self.task = Task::Locate { select_active };
        Command::Locate
    }

    /// Takes the directories of the sessions and those found, as places.
    pub fn on_located(&mut self, sessions: &[Place], found: &[Place]) -> (command: Command)
        requires
            old(self).app@.selected < old(self).app@.sessions.len() || old(self).app@.selected == 0,
            old(self).task@ is Locate,
            sessions@.len() == old(self).app@.sessions.len(),
            found@.len() == old(self).app@.zoxide_matches.len(),
        ensures
            final(self).wf(),
            old(self).app@.is_arranged(
                sessions@,
                found@,
                old(self).task@->Locate_select_active,
                final(self).app@,
            ),
            final(self).task@ == TaskView::Idle,
            command@ == CommandView::Wait,
    {
        let select_active = match &self.task {
            Task::Locate { select_active } => *select_active,
            _ => false,
        };
        self.app.arrange_zoxide(sessions, found, select_active);
        self.wait()
    }

    /// Takes the list of sessions with their directories as places, and the chosen directory as
    /// one, or the failure to get them. A session in that directory is attached to; else one is
    /// made there.
    pub fn on_places(
        &mut self,
        listed: Option<(Vec<SessionInfo>, Vec<Place>, Place)>,
    ) -> (command: Command)
        requires
            old(self).wf(),
            old(self).task@ is Open,
            listed matches Some((sessions, places, _)) ==> places@.len() == sessions@.len(),
        ensures
            final(self).wf(),
            match listed {
                Some((sessions, places, place)) => opens(
                    old(self).app@,
                    old(self).task@->Open_path,
                    sessions@,
                    places@,
                    place,
                    Step {
                        app: final(self).app@,
                        task: final(self).task@,
                        command: command@,
                    },
                ),
                None => took(*final(self), command, wait(old(self).app@)),
            },
    {
        let (sessions, places, place) = match listed {
            Some(listed) => listed,
            None => {
                return self.wait();
            },
        };
        let path: String = match &self.task {
            Task::Open { path } => path.clone(),
            _ => String::new(),
        };
        match session_at(&places, &place) {
            Some(i) => {
                assert(is_first_at(places@, place, i as int));
                self.attach(sessions[i].name.clone(), true)
            },
            None => {
                assert forall|i: int| !(#[trigger] is_first_at(places@, place, i)) by {
                    if 0 <= i < places@.len() {
                        assert(!crate::paths::is_same_place(places@[i], place));
                    }
                }
                let name = next_session_name(path.as_str(), &sessions);
                assert(is_first_free(sessions@, directory_stem(path@), name@));
                self.task = Task::OpenCreate { name: name.clone() };
                Command::CreateIn { name, path }
            },
        }
    }
}

/// Whether a command asks for what is waited for.
pub open spec fn asks_for(task: TaskView, command: CommandView) -> bool {
    match task {
        TaskView::Idle => command is Wait,
        TaskView::StartList => command is List,
        TaskView::StartIndex => command is QueryZoxide,
        TaskView::Index { .. } => command is QueryZoxide,
        TaskView::Score { .. } => command is Score,
        TaskView::Locate { .. } => command is Locate,
        TaskView::Delete => command is Delete,
        TaskView::DeleteList => command is List,
        TaskView::Create { name } => command == (CommandView::Create { name }),
        TaskView::CreateList => command is List,
        TaskView::Rename => command is Rename,
        TaskView::RenameList => command is List,
        TaskView::Open { path } => command == (CommandView::ListPlaces { path }),
        TaskView::OpenCreate { name } => command matches CommandView::CreateIn { name: asked, .. }
            && asked == name,
        TaskView::Over => command is Quit || command is Attach || command is Fail,
    }
}

/// Every step asks for what is then waited for.
pub proof fn law_steps_ask_for_what_they_await(
    app: AppView,
    task: TaskView,
    key: Key,
    suggestion: Seq<char>,
    sessions: Option<Vec<SessionInfo>>,
    entries: Option<Vec<ZoxideEntry>>,
    ok: bool,
)
    ensures
        ({
            let step = key_step(app, key, suggestion);
            asks_for(step.task, step.command)
        }),
        ({
            let step = list_step(app, task, sessions, suggestion);
            asks_for(step.task, step.command)
        }),
        ({
            let step = done_step(app, task, ok);
            asks_for(step.task, step.command)
        }),
        ({
            let step = index_step(app, task, entries);
            asks_for(step.task, step.command)
        }),
{
}

/// From any state Esc closes the picker, pressed once or twice.
pub proof fn law_esc_closes(app: AppView, esc: Key, first: Seq<char>, second: Seq<char>)
    requires
        esc.code == KeyCode::Esc,
    ensures
        ({
            let step = key_step(app, esc, first);
            ||| step.command is Quit
            ||| step.command is Wait && key_step(step.app, esc, second).command is Quit
        }),
{
}

/// While sessions are chosen, what is asked for is what stands at the selection, and only where
/// that is shown, whatever was typed: Ctrl-D asks to end that session, Enter to attach to it.
/// Esc closes the picker where nothing is typed, and Ctrl-O asks for directories where they are
/// enabled. No other key asks for anything.
pub proof fn law_normal_keys_act_on_the_selection(app: AppView, key: Key, suggestion: Seq<char>)
    requires
        app.mode is Normal,
    ensures
        ({
            let command = key_step(app, key, suggestion).command;
            let shown = app.selected < app.sessions.len() && app.visible().contains(
                app.selected as int,
            );
            let name = app.sessions[app.selected as int].name@;
            &&& command matches CommandView::Delete { name: asked } ==> {
                &&& key.ctrl && key.code == KeyCode::Char('d')
                &&& app.visible().contains(app.selected as int)
                &&& asked == name
            }
            &&& key.ctrl && key.code == KeyCode::Char('d') && shown ==> command == (
            CommandView::Delete { name })
            &&& command matches CommandView::Attach { name: asked, replay } ==> {
                &&& key.code == KeyCode::Enter
                &&& app.visible().contains(app.selected as int)
                &&& asked == name
                &&& replay
            }
            &&& key.code == KeyCode::Enter && shown ==> command == (CommandView::Attach {
                name,
                replay: true,
            })
            &&& command is Quit <==> key.code == KeyCode::Esc && app.input.len() == 0
            &&& command is QueryZoxide <==> key.ctrl && key.code == KeyCode::Char('o')
                && app.config.zoxide.enabled
            &&& command is Delete || command is Attach || command is Quit || command is QueryZoxide
                || command is Wait
        }),
{
}

/// A key that only asks for something leaves the state as it is.
pub proof fn law_asking_changes_nothing(app: AppView, key: Key, suggestion: Seq<char>)
    ensures
        ({
            let step = key_step(app, key, suggestion);
            step.command is Delete || step.command is Attach || step.command is Quit
                || step.command is Create || step.command is Rename || step.command is ListPlaces
                ==> step.app == app
        }),
{
}

/// While sessions are chosen, a character is typed and Backspace takes the last away, unless a
/// modifier is held, and Esc takes all; the selection then follows the search, and nothing else
/// changes.
pub proof fn law_normal_keys_type_a_search(app: AppView, key: Key, suggestion: Seq<char>)
    requires
        app.mode is Normal,
    ensures
        ({
            let after = key_step(app, key, suggestion).app;
            let plain = !key.ctrl && !key.alt && !key.logo;
            &&& plain && key.code is Char ==> after == (AppView {
                input: app.input.push(key.code->Char_0),
                ..app
            }).synced()
            &&& plain && key.code == KeyCode::Backspace && app.input.len() > 0 ==> after == (
            AppView { input: app.input.take(app.input.len() - 1), ..app }).synced()
            &&& plain && key.code == KeyCode::Backspace && app.input.len() == 0 ==> after
                == app.synced()
            &&& key.code == KeyCode::Esc && app.input.len() > 0 ==> after == (AppView {
                input: Seq::empty(),
                ..app
            }).synced()
        }),
{
    assert(app.input.len() > 0 ==> app.input.drop_last() =~= app.input.take(app.input.len() - 1));
}

/// While sessions are chosen, the arrows move the selection, and so do `j`, down, and `k`, up,
/// with a modifier. Ctrl-N starts to name a new session, with a suggestion and nothing typed;
/// Ctrl-R starts to rename the one that is selected and shown, with its name to begin with;
/// Ctrl-O starts to choose a directory. All other keys leave the state as it is.
pub proof fn law_normal_keys_move_and_change_modes(app: AppView, key: Key, suggestion: Seq<char>)
    requires
        app.mode is Normal,
        key.ctrl || key.alt || key.logo || !(key.code is Char || key.code is Backspace),
        key.code != KeyCode::Esc,
    ensures
        ({
            let after = key_step(app, key, suggestion).app;
            let shown = app.selected < app.sessions.len() && app.visible().contains(
                app.selected as int,
            );
            let name = app.sessions[app.selected as int].name@;
            if key.code == KeyCode::Up || key.code == KeyCode::Char('k') {
                after == app.moved_up()
            } else if key.code == KeyCode::Down || key.code == KeyCode::Char('j') {
                after == app.moved_down()
            } else if key.ctrl && key.code == KeyCode::Char('n') {
                after == AppView {
                    mode: ModeView::Create,
                    input: Seq::empty(),
                    create_suggestion: suggestion,
                    ..app
                }
            } else if key.ctrl && key.code == KeyCode::Char('r') && shown {
                after == AppView { mode: ModeView::Rename { old_name: name }, input: name, ..app }
            } else if key.ctrl && key.code == KeyCode::Char('o') && app.config.zoxide.enabled {
                after == AppView {
                    mode: ModeView::Zoxide,
                    input: Seq::empty(),
                    zoxide_selected: 0,
                    ..app
                }
            } else {
                after == app
            }
        }),
{
}

/// Whether a key types: a character or Backspace without a modifier.
pub open spec fn types(key: Key) -> bool {
    !key.ctrl && !key.alt && !key.logo && (key.code is Char || key.code is Backspace)
}

/// What was typed, with what a key that types makes of it.
pub open spec fn typed(input: Seq<char>, key: Key) -> Seq<char> {
    match key.code {
        KeyCode::Char(c) => input + seq![c],
        _ => if input.len() == 0 {
            input
        } else {
            input.take(input.len() - 1)
        },
    }
}

/// While a new session is named, Enter asks for it under the name that was typed, or else under
/// the one suggested; Esc goes back to the sessions, with nothing typed and nothing suggested;
/// other keys only type.
pub proof fn law_create_keys(app: AppView, key: Key, suggestion: Seq<char>)
    requires
        app.mode is Create,
    ensures
        ({
            let step = key_step(app, key, suggestion);
            &&& step.command is Create || step.command is Wait
            &&& step.command matches CommandView::Create { name } ==> key.code == KeyCode::Enter
                && app.new_name() == Some(name)
            &&& key.code == KeyCode::Enter && app.new_name() is Some ==> step.command == (
            CommandView::Create { name: app.new_name().unwrap() })
            &&& types(key) ==> step.app == AppView { input: typed(app.input, key), ..app }
            &&& key.code == KeyCode::Esc ==> step.app == AppView {
                mode: ModeView::Normal,
                input: Seq::empty(),
                create_suggestion: Seq::empty(),
                ..app
            }
            &&& !types(key) && key.code != KeyCode::Esc ==> step.app == app
        }),
{
    lemma_typed(app.input, key);
}

/// While a session is renamed, Enter asks to give it the name that was typed, without white
/// space around it, unless that is nothing; Esc goes back to the sessions, with nothing typed;
/// other keys only type.
pub proof fn law_rename_keys(app: AppView, key: Key, suggestion: Seq<char>)
    requires
        app.mode is Rename,
    ensures
        ({
            let step = key_step(app, key, suggestion);
            let named = exists|i: int|
                0 <= i < app.input.len() && !is_white(#[trigger] app.input[i]);
            &&& step.command is Rename || step.command is Wait
            &&& step.command is Rename <==> key.code == KeyCode::Enter && named
            &&& step.command matches CommandView::Rename { from, to } ==> from
                == app.mode->Rename_old_name && to == trimmed(app.input)
            &&& types(key) ==> step.app == AppView { input: typed(app.input, key), ..app }
            &&& key.code == KeyCode::Esc ==> step.app == AppView {
                mode: ModeView::Normal,
                input: Seq::empty(),
                ..app
            }
            &&& !types(key) && key.code != KeyCode::Esc ==> step.app == app
        }),
{
    lemma_typed(app.input, key);
    law_blank_is_all_white(app.input);
}

/// While directories are chosen, typing asks for new scores, Ctrl-R for the directories, Enter
/// for the session in the selected one, and Esc to close the picker. The arrows move the
/// selection, and so do `j`, down, and `k`, up, with a modifier.
pub proof fn law_zoxide_keys(app: AppView, key: Key, suggestion: Seq<char>)
    requires
        app.mode is Zoxide,
    ensures
        ({
            let step = key_step(app, key, suggestion);
            let chosen = app.zoxide_selected < app.zoxide_matches.len();
            let path = app.zoxide_matches[app.zoxide_selected as int].path@;
            &&& step.command is Score <==> types(key)
            &&& step.command is QueryZoxide <==> key.ctrl && key.code == KeyCode::Char('r')
            &&& step.command is Quit <==> key.code == KeyCode::Esc
            &&& step.command is ListPlaces <==> key.code == KeyCode::Enter && chosen
            &&& step.command matches CommandView::ListPlaces { path: asked } ==> asked == path
            &&& step.command is Score || step.command is QueryZoxide || step.command is Quit
                || step.command is ListPlaces || step.command is Wait
            &&& step.task == TaskView::Score { select_active: false } <==> types(key)
            &&& step.task == TaskView::Index { select_active: false } <==> key.ctrl && key.code
                == KeyCode::Char('r')
            &&& if types(key) {
                step.app == AppView { input: typed(app.input, key), ..app }
            } else if key.code == KeyCode::Up || key.code == KeyCode::Char('k') {
                step.app == app.zoxide_moved_up()
            } else if key.code == KeyCode::Down || key.code == KeyCode::Char('j') {
                step.app == app.zoxide_moved_down()
            } else {
                step.app == app
            }
        }),
{
    lemma_typed(app.input, key);
}

proof fn lemma_typed(input: Seq<char>, key: Key)
    ensures
        types(key) ==> edited(input, key) == Some(typed(input, key)),
        !types(key) ==> edited(input, key) is None,
{
    if let KeyCode::Char(c) = key.code {
        assert(input.push(c) =~= input + seq![c]);
    }
    assert(input.len() > 0 ==> input.drop_last() =~= input.take(input.len() - 1));
}

/// The directories are asked for from the list of sessions, with a wish to select that of the
/// active one.
pub proof fn law_directories_are_asked_for(app: AppView, key: Key, suggestion: Seq<char>)
    requires
        app.mode is Normal,
        key.ctrl,
        key.code == KeyCode::Char('o'),
        app.config.zoxide.enabled,
    ensures
        key_step(app, key, suggestion).task == (TaskView::Index { select_active: true }),
{
}

/// What follows a request: a session that was made is attached to, without its past; one that
/// was ended or renamed calls for a new list; a session that could not be made calls for one
/// where the name was a suggestion. Any other failure is passed over.
pub proof fn law_requests_are_followed_up(app: AppView, task: TaskView, ok: bool)
    requires
        task is Delete || task is Create || task is Rename || task is OpenCreate,
    ensures
        ({
            let step = done_step(app, task, ok);
            let blank = forall|i: int|
                0 <= i < app.input.len() ==> is_white(#[trigger] app.input[i]);
            &&& step.command is Attach <==> ok && (task is Create || task is OpenCreate)
            &&& step.command matches CommandView::Attach { name, replay } ==> {
                &&& !replay
                &&& task matches TaskView::Create { name: made } ==> name == made
                &&& task matches TaskView::OpenCreate { name: made } ==> name == made
            }
            &&& step.command is List <==> (ok && (task is Delete || task is Rename)) || (!ok
                && task is Create && blank)
            &&& step.command is List ==> step.task == (match task {
                TaskView::Delete => TaskView::DeleteList,
                TaskView::Rename => TaskView::RenameList,
                _ => TaskView::CreateList,
            })
            &&& step.command is Attach || step.command is List || step.command is Wait
            &&& ok && task is Rename ==> step.app == AppView {
                mode: ModeView::Normal,
                input: Seq::empty(),
                ..app
            }
            &&& !(ok && task is Rename) ==> step.app == app
        }),
{
    law_blank_is_all_white(app.input);
}

/// What follows a list of sessions: it takes the place of the one before. At the start the
/// picker closes with an error where there is none, and asks for directories where the settings
/// say so; after a session was ended the selection is matched with the search; after one could
/// not be made another name is suggested. Without a list nothing else changes.
pub proof fn law_lists_are_taken(
    app: AppView,
    task: TaskView,
    sessions: Option<Vec<SessionInfo>>,
    suggestion: Seq<char>,
)
    requires
        task is StartList || task is DeleteList || task is CreateList || task is RenameList,
    ensures
        ({
            let step = list_step(app, task, sessions, suggestion);
            let opens = app.config.zoxide.enabled && app.config.zoxide.auto_open;
            let listed = match sessions {
                Some(sessions) => app.refreshed(sessions@),
                None => app,
            };
            &&& step.command is Fail <==> task is StartList && sessions is None
            &&& step.command is QueryZoxide <==> task is StartList && sessions is Some && opens
            &&& step.command is QueryZoxide ==> step.task is StartIndex
            &&& step.command is Fail || step.command is QueryZoxide || step.command is Wait
            &&& step.app == if task is StartList && sessions is Some && opens {
                AppView {
                    mode: ModeView::Zoxide,
                    input: Seq::empty(),
                    zoxide_selected: 0,
                    ..listed
                }
            } else if task is DeleteList {
                listed.synced()
            } else if task is CreateList {
                AppView { create_suggestion: suggestion, ..listed }
            } else {
                listed
            }
        }),
{
}

/// What follows zoxide's directories: they are kept and scored; without them, the picker that
/// started with them shows the sessions, with nothing typed.
pub proof fn law_directories_are_taken(
    app: AppView,
    task: TaskView,
    entries: Option<Vec<ZoxideEntry>>,
)
    requires
        task is StartIndex || task is Index,
    ensures
        ({
            let step = index_step(app, task, entries);
            match entries {
                Some(entries) => {
                    &&& step.command is Score
                    &&& step.task == TaskView::Score {
                        select_active: task is StartIndex || task->Index_select_active,
                    }
                    &&& step.app == AppView { zoxide_index: entries@, ..app }
                },
                None => {
                    &&& step.command is Wait
                    &&& step.task is Idle
                    &&& task is StartIndex ==> step.app == AppView {
                        mode: ModeView::Normal,
                        input: Seq::empty(),
                        ..app
                    }
                    &&& task is Index ==> step.app == app
                },
            }
        }),
{
}

/// A directory in which there is a session is opened by attaching to the first one there, with
/// its past.
pub proof fn law_directories_with_a_session_are_attached(
    app: AppView,
    path: Seq<char>,
    sessions: Seq<SessionInfo>,
    places: Seq<Place>,
    place: Place,
    step: Step,
    i: int,
)
    requires
        opens(app, path, sessions, places, place, step),
        0 <= i < places.len(),
        is_same_place(places[i], place),
        forall|k: int| 0 <= k < i ==> !is_same_place(#[trigger] places[k], place),
    ensures
        step.command == (CommandView::Attach { name: sessions[i].name@, replay: true }),
        step.task is Over,
        step.app == app,
{
    assert(is_first_at(places, place, i));
    assert forall|k: int| #[trigger] is_first_at(places, place, k) implies k == i by {
        if k < i {
            assert(!is_same_place(places[k], place));
        } else if i < k {
            assert(!is_same_place(places[i], place));
        }
    }
}

/// A directory without a session is opened by asking for one in it, under a name that no other
/// session has.
pub proof fn law_directories_without_a_session_get_one(
    app: AppView,
    path: Seq<char>,
    sessions: Seq<SessionInfo>,
    places: Seq<Place>,
    place: Place,
    step: Step,
)
    requires
        opens(app, path, sessions, places, place, step),
        forall|k: int| 0 <= k < places.len() ==> !is_same_place(#[trigger] places[k], place),
    ensures
        step.app == app,
        step.command matches CommandView::CreateIn { name, path: asked } && asked == path
            && is_first_free(sessions, directory_stem(path), name) && step.task == (
        TaskView::OpenCreate { name }),
{
    assert forall|k: int| !(#[trigger] is_first_at(places, place, k)) by {
        if 0 <= k < places.len() {
            assert(!is_same_place(places[k], place));
        }
    }
}

/// Backspace takes back what a character added.
pub proof fn law_backspace_undoes_typing(input: Seq<char>, c: char)
    ensures
        ({
            let key = Key { code: KeyCode::Char(c), ctrl: false, alt: false, logo: false };
            let back = Key { code: KeyCode::Backspace, ctrl: false, alt: false, logo: false };
            match edited(input, key) {
                Some(typed) => edited(typed, back) == Some(input),
                None => false,
            }
        }),
{
    assert(input.push(c).drop_last() =~= input);
}

/// The name that is asked for when a session is made is never blank.
pub proof fn law_new_names_are_not_blank(app: AppView, key: Key)
    requires
        trimmed(app.create_suggestion).len() > 0 || app.create_suggestion.len() == 0,
    ensures
        create_key(app, key).command matches CommandView::Create { name } ==> trimmed(name).len()
            > 0,
{
    crate::text::law_trimmed_is_stable(app.input);
}

} // verus!
