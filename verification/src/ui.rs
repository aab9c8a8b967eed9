//! The picker, in which the user chooses, makes, renames and ends sessions.

pub mod app;
pub mod events;
pub mod layout;
pub mod naming;
pub mod render;
pub mod zoxide;

use crate::client::{attach_session_with_replay, AttachFlow};
use crate::config::AppConfig;
use crate::ui::app::{AppView, ModeView};
use crate::ui::events::{Command, CommandView, Picker, TaskView};
use vstd::prelude::*;

verus! {

/// What the user chose in the picker: a session, and whether to replay what it has shown.
#[derive(Debug, Clone)]
pub struct PickerSelection {
    pub name: String,
    pub replay: bool,
}

/// Whether a picker is at its start: nothing is known but the settings and the active session,
/// and the list of sessions is asked for.
pub open spec fn is_at_start(
    picker: Picker,
    command: Command,
    config: AppConfig,
    active_session: Option<String>,
) -> bool {
    &&& picker.wf()
    &&& picker.task@ == TaskView::StartList
    &&& command@ == CommandView::List
    &&& picker.app@ == (AppView {
        config,
        active_session,
        sessions: Seq::empty(),
        selected: 0,
        zoxide_index: Seq::empty(),
        zoxide_matches: Seq::empty(),
        zoxide_selected: 0,
        mode: ModeView::Normal,
        input: Seq::empty(),
        create_suggestion: Seq::empty(),
    })
}

/// At its start a picker shows sessions, with nothing typed and nothing listed yet, and asks for
/// the list; it knows the settings and the active session.
pub proof fn law_start_of_a_picker(
    picker: Picker,
    command: Command,
    config: AppConfig,
    active_session: Option<String>,
)
    requires
        is_at_start(picker, command, config, active_session),
    ensures
        command is List,
        picker.task is StartList,
        picker.app.mode is Normal,
        picker.app.config == config,
        picker.app.active_session == active_session,
        picker.app@.input.len() == 0,
        picker.app@.create_suggestion.len() == 0,
        picker.app@.sessions.len() == 0,
        picker.app@.zoxide_index.len() == 0,
        picker.app@.zoxide_matches.len() == 0,
        picker.app.selected == 0,
        picker.app.zoxide_selected == 0,
{
}

/// Opens the picker while no session is active.
pub fn pick_session(config: AppConfig) -> (r: (Picker, Command))
    ensures
        is_at_start(r.0, r.1, config, None),
{
    pick_session_with_active(config, None)
}

/// Opens the picker.
pub fn pick_session_with_active(config: AppConfig, active_session: Option<String>) -> (r: (
    Picker,
    Command,
))
    ensures
        is_at_start(r.0, r.1, config, active_session),
{
    Picker::new(config, active_session)
}

/// What follows the picker when it was opened from a shell: the attachment to the session that
/// was chosen, if one was.
pub fn run_ui(selection: Option<PickerSelection>) -> (r: Option<AttachFlow>)
    ensures
        match selection {
            Some(chosen) => r matches Some(flow) && flow.current@ == chosen.name@
                && flow.clear_before_attach && flow.replay == chosen.replay,
            None => r is None,
        },
{
    match selection {
        Some(chosen) => Some(attach_session_with_replay(chosen.name.as_str(), chosen.replay)),
        None => None,
    }
}

} // verus!
