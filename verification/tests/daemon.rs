use fish_session::daemon::bridge::{
    fd_read, is_disconnect_error, Bridge, BridgeAction, BridgeEvent, CallResult, ErrorClass,
    Polled, ReadStep, WriteAll, WriteStep,
};
use fish_session::daemon::{
    apply_terminal_env, check_cwd, child_env, handle_client, preferred_shell, request_payload,
    requested_size, result_to_response, session_cwd, startup, Directory, Plan, SocketState, Startup,
};
use fish_session::protocol::{Request, TerminalEnv};

fn refusal(plan: Plan) -> String {
    match plan {
        Plan::Answer(response) => {
            assert!(!response.ok);
            response.error.unwrap()
        }
        other => panic!("unexpected plan {other:?}"),
    }
}

#[test]
fn the_socket_decides_how_to_start() {
    assert_eq!(startup(SocketState::Missing), Startup::Serve);
    assert_eq!(startup(SocketState::Answering), Startup::Leave);
    assert_eq!(startup(SocketState::Stale), Startup::ReplaceAndServe);
}

#[test]
fn requests_are_planned() {
    assert!(matches!(handle_client(Request::Ping), Plan::Answer(response) if response.ok));
    assert!(matches!(handle_client(Request::List), Plan::List));
    let create = Request::Create {
        name: " dev ".to_string(),
        cwd: Some("/srv".to_string()),
        terminal_env: None,
    };
    assert!(matches!(
        handle_client(create),
        Plan::Create { name, cwd: Some(cwd), terminal_env: None } if name == " dev " && cwd == "/srv"
    ));
    let rename = Request::Rename { from: "".to_string(), to: "x".to_string() };
    assert!(matches!(handle_client(rename), Plan::Rename { from, to } if from.is_empty() && to == "x"));
    let delete = Request::Delete { name: "x".to_string() };
    assert!(matches!(handle_client(delete), Plan::Delete { name } if name == "x"));
}

#[test]
fn blank_names_are_refused() {
    let create = Request::Create { name: " \t".to_string(), cwd: None, terminal_env: None };
    assert_eq!(refusal(handle_client(create)), "session name cannot be empty");
    let rename = Request::Rename { from: "a".to_string(), to: " ".to_string() };
    assert_eq!(refusal(handle_client(rename)), "new name cannot be empty");
}

#[test]
fn attaching_replays_unless_told_otherwise() {
    for (asked, expected) in [(None, true), (Some(true), true), (Some(false), false)] {
        let request =
            Request::Attach { name: "a".to_string(), rows: Some(3), cols: None, replay: asked };
        assert!(matches!(
            handle_client(request),
            Plan::Attach { name, rows: Some(3), cols: None, replay } if name == "a" && replay == expected
        ));
    }
    assert_eq!(requested_size(Some(3), Some(4)), Some((3, 4)));
    assert_eq!(requested_size(Some(3), None), None);
}

#[test]
fn results_become_answers() {
    assert!(result_to_response(Ok(())).ok);
    let response = result_to_response(Err("broken".to_string()));
    assert!(!response.ok);
    assert_eq!(response.error.as_deref(), Some("broken"));
    assert_eq!(request_payload("{} \r\n"), Ok("{}"));
    assert_eq!(request_payload(""), Err("empty request".to_string()));
}

#[test]
fn a_session_has_a_directory_and_a_shell() {
    let text = |s: &str| Some(s.to_string());
    let dir = |s: &str| Some(Directory { bytes: s.as_bytes().to_vec(), shown: s.to_string() });
    assert_eq!(session_cwd(dir("/a"), dir("/b")).shown, "/a");
    let odd = Directory { bytes: b"/\xff".to_vec(), shown: "/\u{fffd}".to_string() };
    let kept = session_cwd(None, Some(odd));
    assert_eq!((kept.bytes.as_slice(), kept.shown.as_str()), (&b"/\xff"[..], "/\u{fffd}"));
    let root = session_cwd(None, None);
    assert_eq!((root.bytes.as_slice(), root.shown.as_str()), (&b"/"[..], "/"));
    assert_eq!(check_cwd("/a", true), Ok(()));
    assert_eq!(check_cwd("/a", false), Err("working directory does not exist: /a".to_string()));
    assert_eq!(preferred_shell(text("sh")), "sh");
    assert_eq!(preferred_shell(None), "fish");
}

#[test]
fn the_shell_gets_its_variables() {
    let vars = child_env("dev", b"/srv", None);
    let pairs: Vec<(&str, &[u8])> = vars.iter().map(|v| (v.name, v.value.as_slice())).collect();
    assert_eq!(
        pairs,
        [("__fish_session_name", &b"dev"[..]), ("__fish_session_cwd", &b"/srv"[..])]
    );

    let mut vars = Vec::new();
    apply_terminal_env(&mut vars, &TerminalEnv::default());
    assert_eq!(vars.len(), 1);
    assert_eq!((vars[0].name, vars[0].value.as_slice()), ("TERM", &b"xterm-256color"[..]));

    let text = |s: &str| Some(s.to_string());
    let env = TerminalEnv {
        term: text("xterm-kitty"),
        colorterm: text("truecolor"),
        term_program: text("kitty"),
        term_program_version: text("1"),
        terminfo: text("/ti"),
        terminfo_dirs: text("/a:/b"),
    };
    let vars = child_env("dev", b"/srv", Some(&env));
    let names: Vec<&str> = vars.iter().map(|v| v.name).collect();
    assert_eq!(
        names,
        [
            "__fish_session_name",
            "__fish_session_cwd",
            "TERM",
            "COLORTERM",
            "TERM_PROGRAM",
            "TERM_PROGRAM_VERSION",
            "TERMINFO",
            "TERMINFO_DIRS",
        ]
    );
    assert_eq!(vars[2].value, b"xterm-kitty");
    assert_eq!(vars[7].value, b"/a:/b");
}

fn polled(client_input: bool, client_gone: bool, session_output: bool, session_gone: bool) -> Polled {
    Polled { client_input, client_gone, session_output, session_gone }
}

#[test]
fn bytes_flow_in_rounds() {
    let mut bridge = Bridge::new();
    assert_eq!(bridge.step(BridgeEvent::Superseded(false)), BridgeAction::Poll);
    let both = polled(true, false, true, false);
    assert_eq!(bridge.step(BridgeEvent::Ready(both)), BridgeAction::ReadClient);
    assert_eq!(bridge.step(BridgeEvent::Read(3)), BridgeAction::WriteSession);
    assert_eq!(bridge.step(BridgeEvent::Written), BridgeAction::ReadSession);
    assert_eq!(bridge.step(BridgeEvent::Read(5)), BridgeAction::KeepAndWriteClient);
    assert_eq!(bridge.step(BridgeEvent::Written), BridgeAction::Check);
    assert_eq!(bridge.step(BridgeEvent::Superseded(true)), BridgeAction::Stop);
}

#[test]
fn an_attachment_ends_where_a_side_is_gone() {
    let at_poll = || {
        let mut bridge = Bridge::new();
        bridge.step(BridgeEvent::Superseded(false));
        bridge
    };
    let gone = polled(true, true, true, false);
    assert_eq!(at_poll().step(BridgeEvent::Ready(gone)), BridgeAction::Stop);
    let nothing = polled(false, false, false, false);
    assert_eq!(at_poll().step(BridgeEvent::Ready(nothing)), BridgeAction::Check);
    let ended = polled(false, false, false, true);
    assert_eq!(at_poll().step(BridgeEvent::Ready(ended)), BridgeAction::Stop);

    let mut bridge = at_poll();
    bridge.step(BridgeEvent::Ready(polled(false, false, true, true)));
    assert_eq!(bridge.step(BridgeEvent::Read(1)), BridgeAction::KeepAndWriteClient);
    assert_eq!(bridge.step(BridgeEvent::Written), BridgeAction::Stop);

    let mut bridge = at_poll();
    bridge.step(BridgeEvent::Ready(polled(true, false, false, false)));
    assert_eq!(bridge.step(BridgeEvent::Read(0)), BridgeAction::Stop);
}

#[test]
fn only_a_client_that_disconnects_is_no_error() {
    let at_write = || {
        let mut bridge = Bridge::new();
        bridge.step(BridgeEvent::Superseded(false));
        bridge.step(BridgeEvent::Ready(polled(false, false, true, false)));
        bridge.step(BridgeEvent::Read(1));
        bridge
    };
    assert_eq!(at_write().step(BridgeEvent::Error(true)), BridgeAction::Stop);
    assert_eq!(at_write().step(BridgeEvent::Error(false)), BridgeAction::Fail);
    let mut bridge = Bridge::new();
    bridge.step(BridgeEvent::Superseded(false));
    assert_eq!(bridge.step(BridgeEvent::Error(true)), BridgeAction::Fail);
    assert!(is_disconnect_error(ErrorClass::BrokenPipe));
    assert!(is_disconnect_error(ErrorClass::ConnectionAborted));
    assert!(is_disconnect_error(ErrorClass::ConnectionReset));
    assert!(is_disconnect_error(ErrorClass::NotConnected));
    assert!(!is_disconnect_error(ErrorClass::Interrupted));
    assert!(!is_disconnect_error(ErrorClass::Other));
}

#[test]
fn calls_are_repeated_as_needed() {
    assert_eq!(fd_read(CallResult::Count(0)), ReadStep::Done(0));
    assert_eq!(fd_read(CallResult::Error(ErrorClass::Interrupted)), ReadStep::Again);
    assert_eq!(fd_read(CallResult::Error(ErrorClass::Other)), ReadStep::Fail);

    let mut write = WriteAll::new(5);
    assert_eq!(write.state(), WriteStep::More);
    assert_eq!(write.fd_write_all(CallResult::Count(2)), WriteStep::More);
    assert_eq!(write.fd_write_all(CallResult::Error(ErrorClass::Interrupted)), WriteStep::More);
    assert_eq!(write.fd_write_all(CallResult::Error(ErrorClass::BrokenPipe)), WriteStep::Fail);
    assert_eq!(write.fd_write_all(CallResult::Count(0)), WriteStep::Refused);
    assert_eq!(write.written, 2);
    assert_eq!(write.fd_write_all(CallResult::Count(3)), WriteStep::Done);
    assert_eq!(WriteAll::new(0).state(), WriteStep::Done);
}
