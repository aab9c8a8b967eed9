use fish_session::client::control::ControlAction;
use fish_session::client::{
    after_read, attach_dimensions_for_status_line, attach_outcome, attach_session,
    attach_session_with_replay, bridge_outcome, create_outcome, create_session, delete_outcome,
    delete_session, disable_alternate_scroll, ensure_daemon, enter_screen, leave_screen,
    list_outcome, list_sessions, ping, ping_outcome, rename_outcome, rename_session,
    response_payload, socket_path, AttachStep, BridgeOutcome, StartupStep, StreamRead, StreamStep,
};
use fish_session::protocol::{Request, Response, SessionInfo, TerminalEnv};
use fish_session::ui::PickerSelection;

fn refusal(message: Option<&str>) -> Response {
    Response { ok: false, error: message.map(str::to_string), sessions: None }
}

#[test]
fn socket_stands_in_the_runtime_directory() {
    assert_eq!(
        socket_path(Some("/run/user/1000".to_string()), 7),
        "/run/user/1000/fish-session/daemon.sock"
    );
    assert_eq!(socket_path(None, 1000), "/tmp/fish-session-1000/fish-session/daemon.sock");
    assert_eq!(socket_path(Some("/run/".to_string()), 0), "/run/fish-session/daemon.sock");
}

#[test]
fn requests_say_what_is_asked() {
    assert!(matches!(ping(), Request::Ping));
    assert!(matches!(list_sessions(), Request::List));
    let env = TerminalEnv { term: Some("xterm".to_string()), ..TerminalEnv::default() };
    match create_session("dev", Some("/srv".to_string()), env) {
        Request::Create { name, cwd, terminal_env } => {
            assert_eq!(name, "dev");
            assert_eq!(cwd.as_deref(), Some("/srv"));
            assert_eq!(terminal_env.unwrap().term.as_deref(), Some("xterm"));
        }
        other => panic!("unexpected request {other:?}"),
    }
    assert!(matches!(delete_session("dev"), Request::Delete { name } if name == "dev"));
    assert!(
        matches!(rename_session("a", "b"), Request::Rename { from, to } if from == "a" && to == "b")
    );
}

#[test]
fn refusals_name_what_failed() {
    assert_eq!(ping_outcome(Response::ok()), Ok(()));
    let outcomes = [
        ping_outcome(refusal(Some("x"))),
        create_outcome(refusal(Some("x"))),
        delete_outcome(refusal(Some("x"))),
        rename_outcome(refusal(Some("x"))),
        attach_outcome(refusal(None)),
    ];
    let messages = [
        "daemon ping failed: x",
        "create failed: x",
        "delete failed: x",
        "rename failed: x",
        "attach failed: unknown error",
    ];
    for (outcome, message) in outcomes.into_iter().zip(messages) {
        assert_eq!(outcome, Err(message.to_string()));
    }
    assert_eq!(list_outcome(refusal(Some("x"))).unwrap_err(), "list failed: x");
}

#[test]
fn a_list_is_passed_on_or_empty() {
    let info = SessionInfo {
        name: "dev".to_string(),
        cwd: "/srv".to_string(),
        pid: 4,
        attached: true,
    };
    let listed = list_outcome(Response::with_sessions(vec![info])).unwrap();
    assert_eq!(listed.len(), 1);
    assert_eq!(listed[0].name, "dev");
    assert!(list_outcome(Response::ok()).unwrap().is_empty());
}

#[test]
fn an_answer_is_a_line() {
    assert_eq!(response_payload("{\"ok\":true}\n"), Ok("{\"ok\":true}"));
    assert_eq!(
        response_payload(""),
        Err("daemon closed connection unexpectedly".to_string())
    );
}

#[test]
fn the_daemon_is_started_once_and_tried_thirty_times() {
    let mut startup = ensure_daemon();
    assert!(matches!(startup.after_ping(false), StartupStep::Spawn));
    for _ in 0..29 {
        assert!(matches!(startup.after_ping(false), StartupStep::Wait));
    }
    match startup.after_ping(false) {
        StartupStep::GiveUp(message) => assert_eq!(message, "fish-sessiond did not start in time"),
        other => panic!("unexpected step {other:?}"),
    }
    let mut startup = ensure_daemon();
    assert!(matches!(startup.after_ping(true), StartupStep::Ready));
    let mut startup = ensure_daemon();
    startup.after_ping(false);
    assert!(matches!(startup.after_ping(true), StartupStep::Ready));
}

#[test]
fn the_last_row_is_kept_for_the_status() {
    assert_eq!(attach_dimensions_for_status_line(Some((80, 24))), (Some(80), Some(23)));
    assert_eq!(attach_dimensions_for_status_line(Some((0, 0))), (Some(1), Some(1)));
    assert_eq!(attach_dimensions_for_status_line(Some((80, 1))), (Some(80), Some(1)));
    assert_eq!(attach_dimensions_for_status_line(None), (None, None));
}

#[test]
fn reads_decide_how_the_output_goes_on() {
    assert_eq!(after_read(StreamRead::End), StreamStep::Stop);
    assert_eq!(after_read(StreamRead::Data), StreamStep::Show);
    assert_eq!(after_read(StreamRead::Interrupted), StreamStep::Again);
    assert_eq!(after_read(StreamRead::BrokenPipe), StreamStep::Stop);
    assert_eq!(after_read(StreamRead::Failed), StreamStep::Fail);
    assert_eq!(bridge_outcome(Some(ControlAction::Switch)), BridgeOutcome::SwitchRequested);
    assert_eq!(bridge_outcome(Some(ControlAction::Detach)), BridgeOutcome::Detached);
    assert_eq!(bridge_outcome(None), BridgeOutcome::Detached);
}

#[test]
fn screens_are_entered_and_left() {
    assert_eq!(enter_screen(true, true), "\x1b[?1049l\x1b[?1049h\x1b[2J\x1b[H");
    assert_eq!(enter_screen(true, false), "\x1b[?1049h\x1b[2J\x1b[H");
    assert_eq!(enter_screen(false, true), "\x1b[?1049h");
    assert_eq!(leave_screen(), "\x1b[?1049l");
    assert_eq!(disable_alternate_scroll(), "\x1b[?1007l");
}

#[test]
fn attaching_asks_for_the_session() {
    let flow = attach_session_with_replay("dev", false);
    match flow.request(Some((100, 40))) {
        Request::Attach { name, rows, cols, replay } => {
            assert_eq!(name, "dev");
            assert_eq!((rows, cols), (Some(39), Some(100)));
            assert_eq!(replay, Some(false));
        }
        other => panic!("unexpected request {other:?}"),
    }
    assert!(flow.swallows_enter());
    assert!(!attach_session("dev").swallows_enter());
}

#[test]
fn switching_goes_through_the_picker() {
    let mut flow = attach_session_with_replay("dev", false);
    assert_eq!(flow.after_bridge(BridgeOutcome::Detached), AttachStep::Leave);
    assert_eq!(flow.after_bridge(BridgeOutcome::SwitchRequested), AttachStep::Pick);

    flow.after_pick(None);
    assert_eq!((flow.current.as_str(), flow.replay), ("dev", true));

    flow.replay = false;
    flow.after_pick(Some(PickerSelection { name: "dev".to_string(), replay: false }));
    assert_eq!((flow.current.as_str(), flow.replay), ("dev", true));

    flow.after_pick(Some(PickerSelection { name: "ops".to_string(), replay: false }));
    assert_eq!((flow.current.as_str(), flow.replay), ("ops", false));
    flow.after_pick(Some(PickerSelection { name: "dev".to_string(), replay: true }));
    assert_eq!((flow.current.as_str(), flow.replay), ("dev", true));
    assert!(flow.clear_before_attach);
}
