use fish_session::config::AppConfig;
use fish_session::paths::Place;
use fish_session::protocol::SessionInfo;
use fish_session::ui::app::{App, Mode};
use fish_session::ui::layout::{centered_rect, content_area, divide, Area};
use fish_session::ui::render::{truncate_from_left, PieceKind, Row};
use fish_session::ui::zoxide::ZoxideMatch;

fn app() -> App {
    let mut app = App::new(AppConfig::default(), Some("web".to_string()));
    app.refresh(
        [("api", "/srv/api"), ("web", "/home/web")]
            .into_iter()
            .map(|(name, cwd)| SessionInfo {
                name: name.to_string(),
                cwd: cwd.to_string(),
                pid: 1,
                attached: false,
            })
            .collect(),
    );
    app
}

fn found(path: &str) -> ZoxideMatch {
    ZoxideMatch { path: path.to_string(), zoxide_score: 0, total_score: 0 }
}

fn place(path: &str) -> Place {
    Place { path: path.to_string(), canonical: None }
}

#[test]
fn texts_are_cut_on_the_left() {
    assert_eq!(truncate_from_left("/srv/api", 20), "/srv/api");
    assert_eq!(truncate_from_left("/srv/api", 8), "/srv/api");
    assert_eq!(truncate_from_left("/srv/api", 5), "…/api");
    assert_eq!(truncate_from_left("/srv/api", 1), "…");
    assert_eq!(truncate_from_left("/srv/api", 0), "");
    assert_eq!(truncate_from_left("/größe", 4), "…öße");
}

#[test]
fn the_header_shows_what_to_type() {
    let mut app = app();
    let header = app.header();
    assert_eq!((header.title, header.text.as_str()), (" Search ", "Type to search sessions..."));
    assert!(header.placeholder);
    app.input = "x".to_string();
    assert_eq!(app.header().text, "x");
    assert!(!app.header().placeholder);
    app.input.clear();
    app.mode = Mode::Create;
    assert_eq!(app.header().title, " New Session ");
    assert_eq!(app.header().text, "Type new session name...");
    app.mode = Mode::Rename { old_name: "x".to_string() };
    assert_eq!(app.header().title, " Rename Session ");
    assert_eq!(app.header().text, "Type new name...");
    app.mode = Mode::Zoxide;
    assert_eq!(app.header().text, "Type to search directories...");
}

#[test]
fn the_hints_fit_the_mode() {
    let mut app = app();
    assert!(app.hints().starts_with("Type search | Enter attach | Ctrl-N new"));
    app.mode = Mode::Create;
    assert_eq!(app.hints(), "Enter save | Esc cancel");
    app.mode = Mode::Zoxide;
    assert_eq!(app.hints(), "Enter attach/create | Ctrl-R refresh | Esc close");
}

#[test]
fn sessions_are_rows() {
    let list = app().render_sessions(24);
    assert_eq!(list.title, " Sessions ");
    assert_eq!(list.marked, Some(1));
    assert_eq!(list.rows.len(), 2);
    match &list.rows[1] {
        Row::Session { active, name, path } => {
            assert!(*active);
            assert_eq!((name.as_str(), path.as_str()), ("web", "/home/web"));
        }
        other => panic!("unexpected row {other:?}"),
    }
    match &app().render_sessions(18).rows[0] {
        Row::Session { active, path, .. } => {
            assert!(!*active);
            assert_eq!(path, "…api");
        }
        other => panic!("unexpected row {other:?}"),
    }
}

#[test]
fn empty_lists_say_so() {
    let empty = App::new(AppConfig::default(), None);
    let list = empty.render_sessions(40);
    assert!(matches!(
        list.rows[..],
        [Row::Note("No sessions yet. Press Ctrl-N to create one.")]
    ));
    assert_eq!(list.marked, None);
    let mut searched = app();
    searched.input = "zzz".to_string();
    assert!(matches!(
        searched.render_sessions(40).rows[..],
        [Row::Note("No sessions match search. Press Esc to clear search.")]
    ));
    assert!(matches!(
        empty.render_zoxide(&[], &[], 40).rows[..],
        [Row::Note("No matching directories. Type to refine search.")]
    ));
}

#[test]
fn directories_are_rows() {
    let mut app = app();
    app.mode = Mode::Zoxide;
    app.zoxide_matches = vec![found("/home/web"), found("/a/long/path")];
    app.zoxide_selected = 1;
    let sessions = [place("/srv/api"), place("/home/web")];
    let places = [place("/home/web"), place("/a/long/path")];
    let list = app.render_zoxide(&sessions, &places, 14);
    assert_eq!((list.title, list.marked), (" Directories ", Some(1)));
    assert!(matches!(
        &list.rows[0],
        Row::Session { active: true, name, path } if name == "web" && path.is_empty()
    ));
    assert!(matches!(&list.rows[1], Row::Directory { path } if path == "…ng/path"));
}

#[test]
fn the_picker_stands_in_the_middle() {
    let frame = Area { x: 0, y: 0, width: 100, height: 50 };
    assert_eq!(centered_rect(0, 72, frame), frame);
    assert_eq!(centered_rect(0, 500, frame), frame);
    assert_eq!(centered_rect(500, 0, frame), frame);
    let area = centered_rect(78, 72, frame);
    assert_eq!(area, Area { x: 11, y: 7, width: 78, height: 36 });
    let content = content_area(area);
    assert_eq!(content, Area { x: 12, y: 8, width: 76, height: 34 });
    let parts = divide(content);
    assert_eq!(parts.header, Area { x: 12, y: 8, width: 76, height: 3 });
    assert_eq!(parts.list, Area { x: 12, y: 11, width: 76, height: 30 });
    assert_eq!(parts.hints, Area { x: 12, y: 41, width: 76, height: 1 });
    assert_eq!(app().extent(), (78, 72));
    let mut zoxide = app();
    zoxide.mode = Mode::Zoxide;
    assert_eq!(zoxide.extent(), (84, 76));
    let tiny = content_area(Area { x: 3, y: 4, width: 1, height: 0 });
    assert_eq!(tiny, Area { x: 4, y: 5, width: 0, height: 0 });
}

#[test]
fn the_middle_is_rounded_to_whole_cells() {
    let area = Area { x: 2, y: 1, width: 133, height: 25 };
    // Borders at 14.63 and 118.37 of the width, at 3.5 and 21.5 of the height.
    assert_eq!(centered_rect(78, 72, area), Area { x: 17, y: 5, width: 103, height: 18 });
    // A percentage that leaves an odd rest stands half of a hundredth further to the front.
    assert_eq!(
        centered_rect(77, 75, Area { x: 0, y: 0, width: 200, height: 100 }),
        Area { x: 22, y: 12, width: 154, height: 75 }
    );
    assert_eq!(centered_rect(100, 100, area), area);
    let beyond = Area { x: 65435, y: 65525, width: 500, height: 500 };
    assert_eq!(
        centered_rect(50, 20, beyond),
        Area { x: 65460, y: 65529, width: 50, height: 2 }
    );
}

#[test]
fn the_middle_begins_and_ends_at_its_hundredths() {
    let edge = |len: u16, percent: u16| ((u32::from(len) * u32::from(percent) + 50) / 100) as u16;
    for len in [0, 1, 2, 3, 7, 24, 80, 133, 999] {
        let area = Area { x: 4, y: 9, width: len, height: len };
        for percent in 1..=100 {
            let rest = (100 - percent) / 2;
            let (from, to) = (edge(len, rest), edge(len, rest + percent));
            let middle = centered_rect(percent, percent, area);
            assert_eq!((middle.x, middle.width), (4 + from, to - from));
            assert_eq!((middle.y, middle.height), (9 + from, to - from));
        }
    }
}

#[test]
fn the_parts_follow_one_another() {
    for height in 0..=40 {
        let content = Area { x: 2, y: 5, width: 30, height };
        let parts = divide(content);
        assert_eq!(parts.header.y, 5);
        assert_eq!(parts.list.y, parts.header.y + parts.header.height);
        assert_eq!(parts.hints.y, parts.list.y + parts.list.height);
        if height >= 8 {
            let heights = (parts.header.height, parts.list.height, parts.hints.height);
            assert_eq!(heights, (3, height - 4, 1));
        } else {
            assert_eq!(parts.list.height, height.min(4));
            let total = parts.header.height + parts.list.height + parts.hints.height;
            assert_eq!(total, height);
        }
        for part in [parts.header, parts.list, parts.hints] {
            assert_eq!((part.x, part.width), (2, 30));
        }
    }
    let beyond = divide(Area { x: 0, y: 65525, width: 9, height: 100 });
    assert_eq!((beyond.header.height, beyond.list.height, beyond.hints.y), (3, 6, 65534));
}

#[test]
fn rows_are_put_together() {
    let text = |row: &Row| row.pieces().into_iter().map(|piece| piece.text).collect::<String>();
    let session = |active| Row::Session {
        active,
        name: "web".to_string(),
        path: "…/site".to_string(),
    };
    assert_eq!(text(&session(true)), "● web (…/site)");
    assert_eq!(text(&session(false)), "○ web (…/site)");
    assert_eq!(text(&Row::Directory { path: "/srv".to_string() }), "/srv");
    assert_eq!(text(&Row::Note("nothing")), "nothing");
    let kinds: Vec<PieceKind> =
        session(true).pieces().into_iter().map(|piece| piece.kind).collect();
    assert_eq!(
        kinds,
        [
            PieceKind::Marker,
            PieceKind::Blank,
            PieceKind::Name,
            PieceKind::Path,
            PieceKind::Path,
            PieceKind::Path
        ]
    );
}

#[test]
fn the_row_of_a_session_fits() {
    for width in 14..60 {
        for row in app().render_sessions(width).rows {
            let len: usize = row.pieces().iter().map(|piece| piece.text.chars().count()).sum();
            assert!(len <= usize::from(width) - 6);
        }
    }
}
