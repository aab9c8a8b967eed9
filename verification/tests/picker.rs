use fish_session::config::AppConfig;
use fish_session::paths::Place;
use fish_session::protocol::SessionInfo;
use fish_session::ui::app::{App, Mode};
use fish_session::ui::events::{handle_text_input, Command, Key, KeyCode, Picker};
use fish_session::ui::zoxide::ZoxideEntry;
use fish_session::ui::{pick_session, pick_session_with_active, run_ui, PickerSelection};

fn session(name: &str, cwd: &str) -> SessionInfo {
    SessionInfo { name: name.to_string(), cwd: cwd.to_string(), pid: 1, attached: false }
}

fn sessions() -> Vec<SessionInfo> {
    vec![session("api", "/srv/api"), session("Docs", "/srv/docs"), session("web", "/home/web")]
}

fn key(code: KeyCode) -> Key {
    Key { code, ctrl: false, alt: false, logo: false }
}

fn ctrl(c: char) -> Key {
    Key { code: KeyCode::Char(c), ctrl: true, alt: false, logo: false }
}

fn place(path: &str) -> Place {
    Place { path: path.to_string(), canonical: None }
}

fn places(list: &[SessionInfo]) -> Vec<Place> {
    list.iter().map(|session| place(&session.cwd)).collect()
}

fn open() -> Picker {
    let (mut picker, command) = pick_session(AppConfig::default());
    assert!(matches!(command, Command::List));
    assert!(matches!(picker.on_listed(Some(sessions())), Command::Wait));
    picker
}

fn type_text(picker: &mut Picker, text: &str) {
    for c in text.chars() {
        picker.on_key(key(KeyCode::Char(c)));
    }
}

fn attached(command: Command) -> (String, bool) {
    match command {
        Command::Finish(Some(selection)) => (selection.name, selection.replay),
        other => panic!("unexpected command {other:?}"),
    }
}

fn selected(app: &App) -> &str {
    &app.sessions[app.selected].name
}

#[test]
fn a_choice_is_attached_to() {
    assert!(run_ui(None).is_none());
    let flow = run_ui(Some(PickerSelection { name: "dev".to_string(), replay: false })).unwrap();
    assert_eq!((flow.current.as_str(), flow.replay), ("dev", false));
}

#[test]
fn without_a_list_the_picker_fails() {
    let (mut picker, _) = pick_session_with_active(AppConfig::default(), None);
    assert!(matches!(picker.on_listed(None), Command::Fail));
}

#[test]
fn the_active_session_is_selected_first() {
    let (mut picker, _) =
        pick_session_with_active(AppConfig::default(), Some("web".to_string()));
    picker.on_listed(Some(sessions()));
    assert_eq!(selected(&picker.app), "web");
}

#[test]
fn enter_attaches_to_the_selected_session() {
    let mut picker = open();
    picker.on_key(key(KeyCode::Down));
    assert_eq!(attached(picker.on_key(key(KeyCode::Enter))), ("Docs".to_string(), true));
    let (mut empty, _) = pick_session(AppConfig::default());
    empty.on_listed(Some(Vec::new()));
    assert!(matches!(empty.on_key(key(KeyCode::Enter)), Command::Wait));
}

#[test]
fn the_selection_goes_round() {
    let mut picker = open();
    picker.on_key(key(KeyCode::Up));
    assert_eq!(selected(&picker.app), "web");
    picker.on_key(key(KeyCode::Down));
    assert_eq!(selected(&picker.app), "api");
    picker.on_key(ctrl('j'));
    assert_eq!(selected(&picker.app), "Docs");
    picker.on_key(ctrl('k'));
    assert_eq!(selected(&picker.app), "api");
}

#[test]
fn a_search_narrows_the_list() {
    let mut picker = open();
    type_text(&mut picker, "SRV do");
    assert_eq!(picker.app.filtered_session_indices(), [1]);
    assert_eq!(selected(&picker.app), "Docs");
    type_text(&mut picker, "x");
    assert!(picker.app.filtered_session_indices().is_empty());
    assert!(matches!(picker.on_key(key(KeyCode::Enter)), Command::Wait));
    picker.on_key(key(KeyCode::Backspace));
    assert_eq!(picker.app.filtered_session_indices(), [1]);
    picker.on_key(key(KeyCode::Esc));
    assert_eq!(picker.app.filtered_session_indices(), [0, 1, 2]);
    assert!(matches!(picker.on_key(key(KeyCode::Esc)), Command::Finish(None)));
}

#[test]
fn name_and_directory_are_searched_as_one_text() {
    let mut picker = open();
    type_text(&mut picker, "i /srv");
    assert_eq!(picker.app.filtered_session_indices(), [0]);
    let mut picker = open();
    type_text(&mut picker, "/srv api");
    assert_eq!(picker.app.filtered_session_indices(), [0]);
}

#[test]
fn modifiers_keep_keys_from_editing() {
    let mut input = "ab".to_string();
    assert!(!handle_text_input(ctrl('x'), &mut input));
    let alt = Key { code: KeyCode::Char('x'), ctrl: false, alt: true, logo: false };
    assert!(!handle_text_input(alt, &mut input));
    let logo = Key { code: KeyCode::Backspace, ctrl: false, alt: false, logo: true };
    assert!(!handle_text_input(logo, &mut input));
    assert!(!handle_text_input(key(KeyCode::Other), &mut input));
    assert_eq!(input, "ab");
    assert!(handle_text_input(key(KeyCode::Char('ß')), &mut input));
    assert_eq!(input, "abß");
    for expected in ["ab", "a", "", ""] {
        assert!(handle_text_input(key(KeyCode::Backspace), &mut input));
        assert_eq!(input, expected);
    }
}

#[test]
fn a_session_is_ended_and_the_list_renewed() {
    let mut picker = open();
    picker.on_key(key(KeyCode::Down));
    assert!(matches!(picker.on_key(ctrl('d')), Command::Delete { name } if name == "Docs"));
    assert!(matches!(picker.on_done(true), Command::List));
    let left = vec![session("api", "/srv/api"), session("web", "/home/web")];
    assert!(matches!(picker.on_listed(Some(left)), Command::Wait));
    assert_eq!(selected(&picker.app), "web");
    picker.on_key(ctrl('d'));
    assert!(matches!(picker.on_done(false), Command::Wait));
    picker.on_key(ctrl('d'));
    picker.on_done(true);
    assert!(matches!(picker.on_listed(None), Command::Wait));
    assert_eq!(picker.app.sessions.len(), 2);
}

#[test]
fn a_session_is_made_under_the_typed_name() {
    let mut picker = open();
    picker.on_key(ctrl('n'));
    assert!(matches!(picker.app.mode, Mode::Create));
    assert!(!picker.app.create_suggestion.is_empty());
    type_text(&mut picker, "  new one ");
    assert!(matches!(picker.on_key(key(KeyCode::Enter)), Command::Create { name } if name == "new one"));
    assert_eq!(attached(picker.on_done(true)), ("new one".to_string(), false));
}

#[test]
fn a_session_is_made_under_the_suggested_name() {
    let mut picker = open();
    picker.on_key(ctrl('n'));
    let suggestion = picker.app.create_suggestion.clone();
    assert!(matches!(picker.on_key(key(KeyCode::Enter)), Command::Create { name } if name == suggestion));
    assert!(matches!(picker.on_done(false), Command::List));
    let list = vec![session(&suggestion, "/x")];
    assert!(matches!(picker.on_listed(Some(list)), Command::Wait));
    assert_ne!(picker.app.create_suggestion, suggestion);
    type_text(&mut picker, "x");
    picker.on_key(key(KeyCode::Enter));
    assert!(matches!(picker.on_done(false), Command::Wait));
    picker.on_key(key(KeyCode::Esc));
    assert!(matches!(picker.app.mode, Mode::Normal));
    assert!(picker.app.input.is_empty() && picker.app.create_suggestion.is_empty());
}

#[test]
fn a_session_is_renamed() {
    let mut picker = open();
    picker.on_key(ctrl('r'));
    assert_eq!(picker.app.input, "api");
    type_text(&mut picker, "2 ");
    match picker.on_key(key(KeyCode::Enter)) {
        Command::Rename { from, to } => assert_eq!((from.as_str(), to.as_str()), ("api", "api2")),
        other => panic!("unexpected command {other:?}"),
    }
    assert!(matches!(picker.on_done(false), Command::Wait));
    assert!(matches!(picker.app.mode, Mode::Rename { .. }));
    picker.on_key(key(KeyCode::Enter));
    assert!(matches!(picker.on_done(true), Command::List));
    assert!(matches!(picker.app.mode, Mode::Normal));
    picker.on_listed(Some(sessions()));

    picker.on_key(ctrl('r'));
    for _ in 0..3 {
        picker.on_key(key(KeyCode::Backspace));
    }
    assert!(matches!(picker.on_key(key(KeyCode::Enter)), Command::Wait));
    picker.on_key(key(KeyCode::Esc));
    assert!(matches!(picker.app.mode, Mode::Normal));
}

fn entries() -> Vec<ZoxideEntry> {
    [("/tmp/x", 5.0), ("/srv/api", 3.0), ("/home/web", 1.0)]
        .into_iter()
        .map(|(path, score): (&str, f64)| ZoxideEntry {
            path: path.to_string(),
            zoxide_score: score.to_bits(),
        })
        .collect()
}

fn answer_search(picker: &mut Picker) {
    let totals = vec![1.0f64.to_bits(); picker.app.zoxide_index.len()];
    assert!(matches!(picker.on_scored(&totals), Command::Locate));
    let owned = places(&picker.app.sessions);
    let found: Vec<Place> = picker.app.zoxide_matches.iter().map(|m| place(&m.path)).collect();
    assert!(matches!(picker.on_located(&owned, &found), Command::Wait));
}

fn found(picker: &Picker) -> Vec<&str> {
    picker.app.zoxide_matches.iter().map(|m| m.path.as_str()).collect()
}

#[test]
fn directories_of_sessions_come_first() {
    let (mut picker, _) =
        pick_session_with_active(AppConfig::default(), Some("web".to_string()));
    picker.on_listed(Some(sessions()));
    assert!(matches!(picker.on_key(ctrl('o')), Command::QueryZoxide));
    assert!(matches!(picker.on_indexed(Some(entries())), Command::Score));
    answer_search(&mut picker);
    assert_eq!(found(&picker), ["/home/web", "/srv/api", "/tmp/x"]);
    assert_eq!(picker.app.zoxide_selected, 0);
    picker.on_key(key(KeyCode::Up));
    assert_eq!(picker.app.zoxide_selected, 2);
    picker.on_key(ctrl('j'));
    assert_eq!(picker.app.zoxide_selected, 0);
    picker.on_key(key(KeyCode::Down));
    assert!(matches!(picker.on_key(key(KeyCode::Char('x'))), Command::Score));
    answer_search(&mut picker);
    assert_eq!(found(&picker), ["/tmp/x"]);
    assert_eq!(picker.app.zoxide_selected, 0);
    assert!(matches!(picker.on_key(key(KeyCode::Esc)), Command::Finish(None)));
}

#[test]
fn zoxide_can_be_switched_off_or_fail() {
    let mut config = AppConfig::default();
    config.zoxide.enabled = false;
    let (mut picker, _) = pick_session(config);
    picker.on_listed(Some(sessions()));
    assert!(matches!(picker.on_key(ctrl('o')), Command::Wait));
    assert!(matches!(picker.app.mode, Mode::Normal));

    let mut picker = open();
    picker.on_key(ctrl('o'));
    assert!(matches!(picker.on_indexed(None), Command::Wait));
    assert!(matches!(picker.app.mode, Mode::Zoxide));
    assert!(matches!(picker.on_key(ctrl('r')), Command::QueryZoxide));
    assert!(matches!(picker.on_indexed(Some(entries())), Command::Score));
}

#[test]
fn zoxide_can_be_opened_at_once() {
    let mut config = AppConfig::default();
    config.zoxide.auto_open = true;
    let (mut picker, _) = pick_session(config.clone());
    assert!(matches!(picker.on_listed(Some(sessions())), Command::QueryZoxide));
    assert!(matches!(picker.on_indexed(None), Command::Wait));
    assert!(matches!(picker.app.mode, Mode::Normal));
    let (mut picker, _) = pick_session(config);
    picker.on_listed(Some(sessions()));
    assert!(matches!(picker.on_indexed(Some(entries())), Command::Score));
    answer_search(&mut picker);
    assert!(matches!(picker.app.mode, Mode::Zoxide));
}

#[test]
fn a_directory_opens_its_session_or_a_new_one() {
    let in_directory = |index: usize| {
        let mut picker = open();
        picker.on_key(ctrl('o'));
        picker.on_indexed(Some(entries()));
        answer_search(&mut picker);
        for _ in 0..index {
            picker.on_key(key(KeyCode::Down));
        }
        let path = match picker.on_key(key(KeyCode::Enter)) {
            Command::ListPlaces { path } => path,
            other => panic!("unexpected command {other:?}"),
        };
        (picker, path)
    };
    let (mut picker, path) = in_directory(0);
    assert_eq!(path, "/srv/api");
    let list = sessions();
    let owned = places(&list);
    let command = picker.on_places(Some((list, owned, place(&path))));
    assert_eq!(attached(command), ("api".to_string(), true));

    let (mut picker, path) = in_directory(2);
    assert_eq!(path, "/tmp/x");
    let list = vec![session("x", "/other")];
    let owned = places(&list);
    match picker.on_places(Some((list, owned, place(&path)))) {
        Command::CreateIn { name, path } => {
            assert_eq!((name.as_str(), path.as_str()), ("x-2", "/tmp/x"));
        }
        other => panic!("unexpected command {other:?}"),
    }
    assert_eq!(attached(picker.on_done(true)), ("x-2".to_string(), false));

    let (mut picker, _) = in_directory(1);
    assert!(matches!(picker.on_places(None), Command::Wait));
}
