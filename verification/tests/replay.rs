use fish_session::daemon::replay::filter_replay_bytes;

#[test]
fn replay_strips_alt_screen_sequences() {
    let input = b"pre\x1b[?1049hmid\x1b[?1049lpost";
    let output = filter_replay_bytes(input);
    let text = String::from_utf8_lossy(&output);
    assert_eq!(text, "premidpost");
}

#[test]
fn replay_rewrites_mixed_private_modes() {
    let input = b"\x1b[?1049;25h";
    let output = filter_replay_bytes(input);
    assert_eq!(output, b"\x1b[?25h");
}

#[test]
fn replay_drops_alt_scroll_enable() {
    let input = b"A\x1b[?1007hB";
    let output = filter_replay_bytes(input);
    assert_eq!(output, b"AB");
}

#[test]
fn replay_keeps_plain_text() {
    assert_eq!(filter_replay_bytes(b"ls -l\r\ntotal 0\r\n"), b"ls -l\r\ntotal 0\r\n");
    assert_eq!(filter_replay_bytes(b""), b"");
    assert_eq!(filter_replay_bytes(b"\x1b[1mbold\x1b[0m"), b"\x1b[1mbold\x1b[0m");
}

#[test]
fn replay_drops_queries() {
    assert_eq!(filter_replay_bytes(b"a\x1b[6nb"), b"ab");
    assert_eq!(filter_replay_bytes(b"a\x1b[cb"), b"ab");
    assert_eq!(filter_replay_bytes(b"a\x1b[1;1Rb"), b"ab");
    assert_eq!(filter_replay_bytes(b"a\x1b[?ub"), b"ab");
    assert_eq!(filter_replay_bytes(b"a\x1b[ub"), b"a\x1b[ub");
    assert_eq!(filter_replay_bytes(b"a\x1b[?2026$pb"), b"ab");
    assert_eq!(filter_replay_bytes(b"a\x1b[!pb"), b"a\x1b[!pb");
    assert_eq!(filter_replay_bytes(b"a\x1b]10;?\x07b"), b"ab");
    assert_eq!(filter_replay_bytes(b"a\x1b]11;?\x1b\\b"), b"ab");
    assert_eq!(filter_replay_bytes(b"a\x1b]0;title\x07b"), b"a\x1b]0;title\x07b");
    assert_eq!(filter_replay_bytes(b"a\x1b_Ga=q,i=1;AA\x1b\\b"), b"ab");
    assert_eq!(filter_replay_bytes(b"a\x1b_Gi=1;OK\x1b\\b"), b"ab");
    assert_eq!(filter_replay_bytes(b"a\x1b_Ga=T;AA\x1b\\b"), b"a\x1b_Ga=T;AA\x1b\\b");
}

#[test]
fn replay_keeps_incomplete_sequences() {
    assert_eq!(filter_replay_bytes(b"a\x1b"), b"a\x1b");
    assert_eq!(filter_replay_bytes(b"a\x1b[?1049"), b"a\x1b[?1049");
    assert_eq!(filter_replay_bytes(b"a\x1b]11;?"), b"a\x1b]11;?");
}

#[test]
fn replay_rewrites_only_what_changes() {
    assert_eq!(filter_replay_bytes(b"\x1b[?25;;2004h"), b"\x1b[?25;;2004h");
    assert_eq!(filter_replay_bytes(b"\x1b[?25;1047;2004l"), b"\x1b[?25;2004l");
    assert_eq!(filter_replay_bytes(b"\x1b[?1007l"), b"\x1b[?1007l");
    assert_eq!(filter_replay_bytes(b"\x1b[?47;1007h"), b"");
}

#[test]
fn replay_goes_part_by_part() {
    let before = b"x\x1b[1;31mred\x1b]0;t\x1b\x07\x1b[?25;1049h\x1bM";
    let after = b"\x1b_Ga=q;\x07\x1b\\y\x1b]11;?\x07";
    let mut whole = before.to_vec();
    whole.extend_from_slice(after);
    let mut parts = filter_replay_bytes(before);
    parts.extend(filter_replay_bytes(after));
    assert_eq!(filter_replay_bytes(&whole), parts);
    assert_eq!(parts, b"x\x1b[1;31mred\x1b]0;t\x1b\x07\x1b[?25h\x1bMy");
}
