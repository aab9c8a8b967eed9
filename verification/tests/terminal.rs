use fish_session::client::terminal::{TerminalQueryForwarder, TerminalReplyFilter};

#[test]
fn forwards_primary_da_query() {
    let mut forwarder = TerminalQueryForwarder::default();
    let bytes = b"abc\x1b[cdef";
    let queries = forwarder.extract_queries(bytes);
    assert_eq!(queries, b"\x1b[c");
}

#[test]
fn forwards_query_split_across_chunks() {
    let mut forwarder = TerminalQueryForwarder::default();
    let first = forwarder.extract_queries(b"\x1b[");
    assert!(first.is_empty());
    let second = forwarder.extract_queries(b"0c");
    assert_eq!(second, b"\x1b[0c");
}

#[test]
fn does_not_forward_non_query_csi_sequences() {
    let mut forwarder = TerminalQueryForwarder::default();
    let queries = forwarder.extract_queries(b"\x1b[31mhello\x1b[0m");
    assert!(queries.is_empty());
}

#[test]
fn forwards_queries_of_every_form() {
    let mut forwarder = TerminalQueryForwarder::default();
    assert_eq!(forwarder.extract_queries(b"\x1b[6n"), b"\x1b[6n");
    assert_eq!(forwarder.extract_queries(b"\x1b[14t"), b"\x1b[14t");
    assert_eq!(forwarder.extract_queries(b"\x1b[1;18t"), b"\x1b[1;18t");
    assert!(forwarder.extract_queries(b"\x1b[8;24;80t").is_empty());
    assert_eq!(forwarder.extract_queries(b"\x1bZ"), b"\x1bZ");
    assert_eq!(forwarder.extract_queries(b"\x1b]11;?\x07"), b"\x1b]11;?\x07");
    assert!(forwarder.extract_queries(b"\x1b]0;title\x07").is_empty());
    assert_eq!(forwarder.extract_queries(b"\x1bP+q544e\x1b\\"), b"\x1bP+q544e\x1b\\");
    assert_eq!(forwarder.extract_queries(b"\x1bP$qm\x1b\\"), b"\x1bP$qm\x1b\\");
    assert!(forwarder.extract_queries(b"\x1bP1;2q\x1b\\").is_empty());
}

#[test]
fn forwarding_does_not_depend_on_the_cut() {
    let output = b"a\x1b]10;?\x1b\\b\x1b[c\x1b[1mc\x1bP+q00\x1b\\d";
    let mut whole = TerminalQueryForwarder::default();
    let expected = whole.extract_queries(output);
    assert_eq!(expected, b"\x1b]10;?\x1b\\\x1b[c\x1bP+q00\x1b\\");
    for cut in 0..=output.len() {
        let mut forwarder = TerminalQueryForwarder::default();
        let mut queries = forwarder.extract_queries(&output[..cut]);
        queries.extend(forwarder.extract_queries(&output[cut..]));
        assert_eq!(queries, expected);
    }
}

#[test]
fn output_without_escapes_holds_no_query() {
    let mut forwarder = TerminalQueryForwarder::default();
    assert!(forwarder.extract_queries(b"plain text [c ]11;?").is_empty());
    assert!(forwarder.extract_queries(b"\x1b[31mred").is_empty());
}

#[test]
fn replies_are_dropped_and_the_rest_passes() {
    let mut filter = TerminalReplyFilter::default();
    assert_eq!(filter.filter(b"ls\x1b]11;rgb:0000/0000/0000\x07 -l"), b"ls -l");
    assert_eq!(filter.filter(b"a\x1b]10;x\x1b\\b"), b"ab");
    assert_eq!(filter.filter(b"a\x1bP1+r544e\x1b\\b"), b"ab");
    assert_eq!(filter.filter(b"\x1b[A\x1bOB"), b"\x1b[A\x1bOB");
    assert_eq!(filter.filter(b"plain"), b"plain");
}

#[test]
fn filtering_does_not_depend_on_the_cut() {
    let input = b"a\x1b]11;rgb:1\x1b\\b\x1b[Ac\x1bP0\x1b\\d";
    for cut in 0..=input.len() {
        let mut filter = TerminalReplyFilter::default();
        let mut passed = filter.filter(&input[..cut]);
        passed.extend(filter.filter(&input[cut..]));
        assert_eq!(passed, b"ab\x1b[Acd");
    }
}
