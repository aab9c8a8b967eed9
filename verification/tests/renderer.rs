use fish_session::client::emulator::{Sequence, Watch};
use fish_session::client::renderer::{
    compose_frame, current_terminal_layout, has_room, redraw, status_label, Layout, Redraw,
    SessionRenderer,
};

fn layout(cols: u16, rows: u16) -> Layout {
    current_terminal_layout(Some((cols, rows)))
}

fn shown(rows: u16, cols: u16, output: &[&[u8]]) -> vt100::Parser {
    let mut terminal = vt100::Parser::new(rows, cols, 0);
    for bytes in output {
        terminal.process(bytes);
    }
    terminal
}

#[test]
fn the_terminal_is_divided() {
    assert_eq!(layout(80, 24), Layout { cols: 80, rows: 24, content_rows: 23 });
    assert_eq!(layout(0, 0), Layout { cols: 1, rows: 1, content_rows: 1 });
    assert_eq!(
        current_terminal_layout(None),
        Layout { cols: 80, rows: 24, content_rows: 23 }
    );
    assert!(has_room(layout(80, 24)));
    assert!(!has_room(layout(80, 2)));
    assert!(has_room(layout(3, 3)));
    assert!(!has_room(layout(2, 24)));
    assert!(!has_room(layout(1, 24)));
}

#[test]
fn the_label_is_cut_to_the_columns() {
    assert_eq!(status_label("dev", 80), " dev ");
    assert_eq!(status_label("dev", 3), " de");
    assert_eq!(status_label("dev", 0), "");
    assert_eq!(status_label("größe", 4), " grö");
}

#[test]
fn a_frame_is_put_together() {
    let frame = compose_frame(b"C", b"K", b"A", "dev", 80, 24, true);
    assert_eq!(
        frame,
        b"\x1b[?25h\x1b[m\x1b[H\x1b[2J\x1b[1;1HC\x1b[24;1H\x1b[2K\x1b[7m dev \x1b[mKA"
    );
    let bare = b"\x1b[?25h\x1b[m\x1b[H\x1b[2J\x1b[1;1HCKA";
    assert_eq!(compose_frame(b"C", b"K", b"A", "dev", 80, 1, true), bare);
    assert_eq!(compose_frame(b"C", b"K", b"A", "dev", 80, 24, false), bare);
}

#[test]
fn the_session_and_its_name_are_drawn() {
    let size = layout(20, 5);
    let mut renderer = SessionRenderer::new("dev", size);
    renderer.process_output(b"hello\r\n\x1b[31mred", size);
    let picture = renderer.render(size);
    let terminal = shown(5, 20, &[&picture]);
    assert_eq!(terminal.screen().contents(), "hello\nred\n\n\n dev ");
    assert!(terminal.screen().cell(4, 1).unwrap().inverse());
    assert_eq!(terminal.screen().cursor_position(), (1, 3));
}

#[test]
fn only_changes_are_drawn_again() {
    let size = layout(20, 5);
    let mut renderer = SessionRenderer::new("dev", size);
    renderer.process_output(b"hello", size);
    let first = renderer.render(size);
    assert!(renderer.render(size).is_empty());
    renderer.process_output(b" you", size);
    let second = renderer.render(size);
    assert!(!second.is_empty() && second.len() < first.len());
    let terminal = shown(5, 20, &[&first, &second]);
    assert!(terminal.screen().contents().starts_with("hello you"));
}

#[test]
fn drawing_does_not_depend_on_the_cut() {
    let size = layout(20, 5);
    let output = b"a\x1b[1;31mb\xc3\xa4\x1b]0;title\x07c";
    let mut whole = SessionRenderer::new("dev", size);
    whole.process_output(output, size);
    let expected = whole.render(size);
    for cut in 0..=output.len() {
        let mut renderer = SessionRenderer::new("dev", size);
        renderer.process_output(&output[..cut], size);
        renderer.process_output(&output[cut..], size);
        assert_eq!(renderer.render(size), expected);
    }
}

#[test]
fn a_new_size_draws_everything() {
    let small = layout(20, 5);
    let large = layout(30, 8);
    let mut renderer = SessionRenderer::new("dev", small);
    renderer.process_output(b"hello", small);
    renderer.render(small);
    assert!(renderer.accepts(large));
    let picture = renderer.render(large);
    let terminal = shown(8, 30, &[&picture]);
    assert!(terminal.screen().contents().starts_with("hello"));
    assert_eq!(terminal.screen().cell(7, 1).unwrap().contents(), "d");
    assert!(renderer.accepts(small));
    renderer.process_output(b"\x1b[1;31m$\x1b[?2004h\x1b]0;title\x07", large);
    assert!(renderer.accepts(small));
    renderer.process_output("\u{4e2d}".as_bytes(), large);
    assert!(!renderer.accepts(small));
    assert!(renderer.accepts(layout(30, 5)));
    renderer.process_output(b"\x1b7", large);
    assert!(!renderer.accepts(layout(30, 5)));
    assert!(renderer.accepts(layout(31, 8)));
    assert!(!renderer.accepts(layout(30, 2)));
    assert_eq!(renderer.into_parser().screen().size(), (7, 30));
}

#[test]
fn the_narrowest_terminal_holds_the_widest_character() {
    let size = layout(3, 3);
    let mut renderer = SessionRenderer::new("dev", size);
    renderer.process_output("\u{17d8}\u{17d8}\u{4e2d}\t\u{17d8}".as_bytes(), size);
    assert!(!renderer.render(size).is_empty());
    assert!(renderer.render(size).is_empty());
}

fn watch(bytes: &[u8]) -> Watch {
    let mut watch = Watch::new();
    watch.take(bytes, 6, 20);
    watch
}

#[test]
fn output_that_cannot_be_cut_is_told_apart() {
    for calm in [
        &b"ls -l\r\n\x1b[1mbold\x1b[0m\x1b(B\x1bM\x1b8"[..],
        b"\x1b[?25;1047h\x1b[?1049l\x1b[1049h\x1b]7;x\x1b\\",
        "gr\u{f6}\u{df}e \u{436} \u{5d0}".as_bytes(),
    ] {
        assert_eq!(watch(calm), Watch::new());
    }
    assert_eq!(watch(b"\x1b").sequence, Sequence::Escape);
    assert_eq!(watch(b"\x1b[?12").sequence, Sequence::Private { param: 12, saves: false });
    assert!(watch("\u{4e2d}".as_bytes()).wide);
    assert!(!watch(b"\x1b7").wide);
}

#[test]
fn a_saved_cursor_is_noticed_however_the_output_is_cut() {
    for saving in [
        &b"\x1b7"[..],
        b"a\x1b\x077",
        b"\x1b\x1b7",
        b"\x1b[?1049h",
        b"\x1b[?25;01049h",
        b"\x1b[?1049;25h",
        b"\x1b[\x07?10\x0849 h",
        b"\x1b]0;t\x1b7",
        b"\x1b\xc3\xa47",
        b"\x1b[?1049h\x1b[?1049l",
    ] {
        let whole = watch(saving);
        assert_eq!((whole.rows, whole.cols), (6, 20));
        for cut in 0..=saving.len() {
            let mut pieces = watch(&saving[..cut]);
            pieces.take(&saving[cut..], 6, 20);
            assert_eq!(pieces, whole);
        }
    }
}

#[test]
fn a_new_size_must_hold_what_could_be_cut() {
    let mut saved = watch(b"\x1b7");
    saved.take(b"\x1b7", 4, 30);
    assert!(saved.allows(40, 6, 30));
    assert!(!saved.allows(40, 5, 30));
    assert!(!saved.allows(40, 6, 29));
    let wide = watch("\u{4e2d}".as_bytes());
    assert!(wide.allows(20, 2, 20));
    assert!(!wide.allows(20, 9, 19));
    assert!(Watch::new().allows(20, 2, 3));
}

#[test]
fn characters_with_a_small_lead_byte_are_narrow() {
    for code in 0xa0..0x1000 {
        if let Some(c) = char::from_u32(code) {
            let terminal = shown(2, 5, &[c.to_string().as_bytes()]);
            assert!(!terminal.screen().cell(0, 0).unwrap().is_wide());
            assert!(terminal.screen().cursor_position().1 <= 1);
        }
    }
}

#[test]
fn a_new_layout_is_drawn_whole() {
    let (small, large) = (layout(20, 5), layout(30, 8));
    assert_eq!(redraw(small, small, true), Redraw { resize: false, whole: false });
    assert_eq!(redraw(small, small, false), Redraw { resize: false, whole: true });
    assert_eq!(redraw(small, large, true), Redraw { resize: true, whole: true });
    assert_eq!(redraw(large, small, false), Redraw { resize: true, whole: true });
}

#[test]
fn rows_may_go_under_wide_characters() {
    let mut renderer = SessionRenderer::new("dev", layout(9, 8));
    for rows in [8, 3, 6, 4, 9, 3] {
        let size = layout(9, rows);
        assert!(renderer.accepts(size));
        renderer.process_output("\u{4e2d}\u{4e2d} a\u{4e2d}\u{4e2d}\r\n".as_bytes(), size);
        assert!(!renderer.render(size).is_empty());
    }
}

#[test]
fn a_terminal_that_shrinks_and_grows_is_drawn() {
    let samples: [&[u8]; 16] = [
        b"word ",
        b"\r\n",
        b"\t",
        b"\x1b[3;5H",
        b"\x1b[2;4r",
        b"\x1b[?6h",
        b"\x1b[?47h",
        b"\x1b[?47l",
        b"\x1b[4P\x1b[3@",
        b"\x1b[2L\x1b[5M",
        b"\x1bM\x1bM",
        b"\x1b[9S\x1b[2T",
        b"\x1b[J\x1b[1K",
        b"\x1b8",
        b"\x1b[99;99H",
        b"a long line that wraps more than once on a small terminal",
    ];
    let mut seed: u32 = 1;
    let mut next = |bound: u32| {
        seed = seed.wrapping_mul(1664525).wrapping_add(1013904223);
        (seed >> 8) % bound
    };
    let mut renderer = SessionRenderer::new("dev", layout(20, 6));
    for _ in 0..2000 {
        let size = layout(3 + next(30) as u16, 3 + next(12) as u16);
        assert!(renderer.accepts(size));
        for _ in 0..next(4) {
            renderer.process_output(samples[next(16) as usize], size);
        }
        renderer.render(size);
    }
}
