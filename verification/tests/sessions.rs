use fish_session::daemon::sessions::{DaemonState, ReapEvent, SCROLLBACK_MAX_BYTES};
use fish_session::protocol::SessionInfo;

fn table(entries: &[(&str, i32)]) -> DaemonState<u32> {
    let mut state = DaemonState::new();
    for (name, pid) in entries {
        assert!(state.check_free(name).is_ok());
        let spawned = Ok((*pid, *pid as u32 * 10));
        state.finish_create(name.to_string(), format!("/srv/{name}"), spawned).unwrap();
    }
    state
}

fn names(sessions: &[SessionInfo]) -> Vec<&str> {
    sessions.iter().map(|session| session.name.as_str()).collect()
}

#[test]
fn sessions_are_listed_by_name() {
    let state = table(&[("b", 2), ("a", 1), ("äb", 4), ("ab", 3)]);
    let list = state.list();
    assert_eq!(names(&list), ["a", "ab", "b", "äb"]);
    assert_eq!(list[2].cwd, "/srv/b");
    assert_eq!(list[2].pid, 2);
    assert!(!list[2].attached);
}

#[test]
fn a_name_is_taken_once() {
    let state = table(&[("dev", 1)]);
    assert_eq!(state.check_free("dev").unwrap_err(), "session already exists: dev");
    assert!(state.check_free("ops").is_ok());
}

#[test]
fn a_shell_that_did_not_start_leaves_no_session() {
    let mut state = table(&[("dev", 1)]);
    let result = state.finish_create("ops".to_string(), "/".to_string(), Err("no pty".to_string()));
    assert_eq!(result.unwrap_err(), "no pty");
    assert_eq!(names(&state.list()), ["dev"]);
}

#[test]
fn delete_undoes_create() {
    let mut state = table(&[("dev", 1), ("ops", 7)]);
    let session = state.delete_session("ops").ok().unwrap();
    assert_eq!(session.kill_targets(), (-7, 7));
    assert_eq!(names(&state.list()), ["dev"]);
    assert_eq!(state.delete_session("ops").err().unwrap(), "session not found: ops");
}

#[test]
fn rename_keeps_everything_but_the_name() {
    let mut state = table(&[("dev", 1), ("ops", 2)]);
    state.append_scrollback("dev", b"past");
    assert_eq!(state.rename_session("dev", "ops").unwrap_err(), "session already exists: ops");
    assert_eq!(state.rename_session("dev", "dev").unwrap_err(), "session already exists: dev");
    assert_eq!(state.rename_session("gone", "new").unwrap_err(), "session not found: gone");
    state.rename_session("dev", "web").unwrap();
    assert_eq!(names(&state.list()), ["ops", "web"]);
    assert_eq!(state.list()[1].cwd, "/srv/dev");
    assert_eq!(state.master("web"), Some(&10));
    assert_eq!(state.master("dev"), None);
    assert_eq!(state.begin_attach("web", true).ok().unwrap().replay, b"past");
    state.rename_session("web", "dev").unwrap();
    assert_eq!(names(&state.list()), ["dev", "ops"]);
}

#[test]
fn ended_shells_are_reaped() {
    let mut state = table(&[("a", 1), ("b", 2), ("c", 3)]);
    assert!(state.reap(ReapEvent::Gone(2)));
    assert_eq!(names(&state.list()), ["a", "c"]);
    assert!(state.reap(ReapEvent::Gone(99)));
    assert!(state.reap(ReapEvent::Other));
    assert!(!state.reap(ReapEvent::StillAlive));
    assert!(!state.reap(ReapEvent::Failed));
    assert_eq!(names(&state.list()), ["a", "c"]);
    state.remove_by_pid(1);
    assert_eq!(names(&state.list()), ["c"]);
}

#[test]
fn a_newer_attachment_supersedes() {
    let mut state = table(&[("dev", 1)]);
    let older = state.begin_attach("dev", true).ok().unwrap();
    assert!(!state.attach_was_superseded("dev", older.id));
    let newer = state.begin_attach("dev", true).ok().unwrap();
    assert!(state.attach_was_superseded("dev", older.id));
    assert!(!state.attach_was_superseded("dev", newer.id));
    state.finish_attach("dev", older.id);
    assert!(state.list()[0].attached);
    state.finish_attach("dev", newer.id);
    assert!(!state.list()[0].attached);
    assert!(state.attach_was_superseded("gone", newer.id));
    assert_eq!(state.begin_attach("gone", true).err().unwrap(), "session not found: gone");
}

#[test]
fn reattaching_shows_what_was_shown() {
    let mut state = table(&[("dev", 1), ("ops", 2)]);
    state.append_scrollback("dev", b"hello\x1b[?1049h ");
    state.append_scrollback("dev", b"world");
    assert_eq!(state.begin_attach("dev", true).ok().unwrap().replay, b"hello world");
    assert!(state.begin_attach("dev", false).ok().unwrap().replay.is_empty());
    assert!(state.begin_attach("ops", true).ok().unwrap().replay.is_empty());
    state.append_scrollback("gone", b"nothing");
}

#[test]
fn only_the_latest_output_is_kept() {
    let mut state = table(&[("dev", 1)]);
    state.append_scrollback("dev", b"old");
    state.append_scrollback("dev", &vec![b'x'; SCROLLBACK_MAX_BYTES - 1]);
    let replay = state.begin_attach("dev", true).ok().unwrap().replay;
    assert_eq!(replay.len(), SCROLLBACK_MAX_BYTES);
    assert_eq!(&replay[..2], b"dx");
    state.append_scrollback("dev", &vec![b'y'; SCROLLBACK_MAX_BYTES + 5]);
    let replay = state.begin_attach("dev", true).ok().unwrap().replay;
    assert_eq!(replay, vec![b'y'; SCROLLBACK_MAX_BYTES]);
    assert_eq!(SCROLLBACK_MAX_BYTES, 512 * 1024);
}
