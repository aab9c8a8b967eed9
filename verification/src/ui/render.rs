//! What the picker shows, and where.

use crate::paths::{is_same_place, Place};
use crate::text::{chars_of, same_text};
use crate::ui::app::{as_ints, App, AppView, Mode, ModeView};
use crate::ui::zoxide::{is_active, is_first_at, session_at};
use vstd::prelude::*;

verus! {

/// The tail of a text that fits, with a mark where something was cut off.
pub open spec fn tail(s: Seq<char>, max: int) -> Seq<char> {
    if max <= 0 {
        Seq::empty()
    } else if s.len() <= max {
        s
    } else {
        seq!['…'] + s.skip(s.len() - (max - 1))
    }
}

/// The tail of a text that fits into so many characters.
pub fn truncate_from_left(input: &str, max_chars: usize) -> (r: String)
    ensures
        r@ == tail(input@, max_chars as int),
{
    if max_chars == 0 {
        let r = String::new();
        assert(r@ =~= Seq::empty());
        return r;
    }
    let chars = chars_of(input);
    let n = chars.len();
    if n <= max_chars {
        return input.to_owned();
    }
    let mut r = String::new();
    r.push('…');
    let start: usize = n - (max_chars - 1);
    let rest = input.substring_char(start, n);
    r.append(rest);
    assert(r@ =~= tail(input@, max_chars as int));
    r
}

/// A text that was cut fits, and is the end of what it was cut from, but for the mark.
pub proof fn law_cut_text_fits(s: Seq<char>, max: int)
    requires
        0 <= max,
    ensures
        tail(s, max).len() <= max,
        s.len() <= max ==> tail(s, max) == s,
        s.len() > max > 0 ==> tail(s, max)[0] == '…' && tail(s, max).skip(1).is_suffix_of(s),
{
    if s.len() > max > 0 {
        let cut = tail(s, max).skip(1);
        assert(cut =~= s.subrange(s.len() - cut.len(), s.len() as int));
    }
}

/// A text that was cut fills all the room there is: the mark, and as many of its last characters
/// as fit behind it.
pub proof fn law_cut_text_fills_the_room(s: Seq<char>, max: int, i: int)
    requires
        s.len() > max > 0,
    ensures
        tail(s, max).len() == max,
        tail(s, max)[0] == '…',
        0 < i < max ==> tail(s, max)[max - i] == s[s.len() - i],
{
}

/// The line at the top: its title, and what was typed, or what to type.
#[derive(Debug)]
pub struct Header {
    pub title: &'static str,
    pub text: String,
    pub placeholder: bool,
}

/// The title and the hint for what can be typed in a mode.
pub open spec fn header_texts(mode: ModeView) -> (Seq<char>, Seq<char>) {
    match mode {
        ModeView::Normal => (" Search "@, "Type to search sessions..."@),
        ModeView::Create => (" New Session "@, "Type new session name..."@),
        ModeView::Rename { .. } => (" Rename Session "@, "Type new name..."@),
        ModeView::Zoxide => (" Search "@, "Type to search directories..."@),
    }
}

/// Whether a header is that of a state.
pub open spec fn is_header(app: AppView, header: Header) -> bool {
    &&& header.title@ == header_texts(app.mode).0
    &&& header.placeholder == (app.input.len() == 0)
    &&& header.text@ == if app.input.len() == 0 {
        header_texts(app.mode).1
    } else {
        app.input
    }
}

/// The line at the top says what is typed in each mode, shows what was typed, and where that is
/// nothing a hint.
pub proof fn law_headers(app: AppView, header: Header)
    requires
        is_header(app, header),
    ensures
        app.input.len() > 0 ==> header.text@ == app.input && !header.placeholder,
        app.input.len() == 0 ==> header.placeholder,
        app.mode is Normal || app.mode is Zoxide ==> header.title@ == " Search "@,
        app.mode is Create ==> header.title@ == " New Session "@,
        app.mode is Rename ==> header.title@ == " Rename Session "@,
        app.input.len() == 0 && app.mode is Normal ==> header.text@
            == "Type to search sessions..."@,
        app.input.len() == 0 && app.mode is Create ==> header.text@ == "Type new session name..."@,
        app.input.len() == 0 && app.mode is Rename ==> header.text@ == "Type new name..."@,
        app.input.len() == 0 && app.mode is Zoxide ==> header.text@
            == "Type to search directories..."@,
{
}

/// A row of the list.
#[derive(Debug)]
pub enum Row {
    /// A note in place of entries.
    Note(&'static str),
    /// A session, with its directory.
    Session { active: bool, name: String, path: String },
    /// A directory without a session.
    Directory { path: String },
}

/// What a piece of a row is.
#[derive(Debug, Clone, Copy, PartialEq, Eq, Structural)]
pub enum PieceKind {
    /// A note.
    Note,
    /// The marker of a session.
    Marker,
    /// A blank.
    Blank,
    /// The name of a session.
    Name,
    /// The directory of a session, with its brackets.
    Path,
    /// A directory without a session.
    Directory,
}

/// A piece of a row, with its text.
#[derive(Debug)]
pub struct Piece {
    pub kind: PieceKind,
    pub text: String,
}

/// The kinds and texts of pieces.
pub open spec fn piece_texts(pieces: Seq<Piece>) -> Seq<(PieceKind, Seq<char>)> {
    pieces.map_values(|piece: Piece| (piece.kind, piece.text@))
}

/// Each piece stands for its kind and its text, in order.
pub proof fn law_piece_texts(pieces: Seq<Piece>, i: int)
    requires
        0 <= i < pieces.len(),
    ensures
        piece_texts(pieces).len() == pieces.len(),
        piece_texts(pieces)[i] == (pieces[i].kind, pieces[i].text@),
{
}

/// The marker of a session: full for the active one.
pub open spec fn marker(active: bool) -> Seq<char> {
    if active {
        "●"@
    } else {
        "○"@
    }
}

/// The pieces of a row, from left to right. That of a session holds its marker, its name, and
/// its directory in brackets.
pub open spec fn row_pieces(row: Row) -> Seq<(PieceKind, Seq<char>)> {
    match row {
        Row::Note(text) => seq![(PieceKind::Note, text@)],
        Row::Session { active, name, path } => seq![
            (PieceKind::Marker, marker(active)),
            (PieceKind::Blank, " "@),
            (PieceKind::Name, name@),
            (PieceKind::Path, " ("@),
            (PieceKind::Path, path@),
            (PieceKind::Path, ")"@),
        ],
        Row::Directory { path } => seq![(PieceKind::Directory, path@)],
    }
}

/// The characters that pieces take.
pub open spec fn pieces_len(pieces: Seq<(PieceKind, Seq<char>)>) -> int
    decreases pieces.len(),
{
    if pieces.len() == 0 {
        0
    } else {
        pieces_len(pieces.drop_last()) + pieces.last().1.len()
    }
}

/// The row of a session fits, provided there is room for its name, its marker and its brackets.
pub proof fn law_session_rows_fit(
    row: Row,
    name: Seq<char>,
    path: Seq<char>,
    active: bool,
    width: u16,
)
    requires
        shows_session(row, name, path, active, width),
        name.len() + 5 <= row_width(width),
    ensures
        pieces_len(row_pieces(row)) <= row_width(width),
{
    reveal_strlit("●");
    reveal_strlit("○");
    reveal_strlit(" ");
    reveal_strlit(" (");
    reveal_strlit(")");
    law_cut_text_fits(path, path_width(width, name));
    let pieces = row_pieces(row);
    reveal_with_fuel(pieces_len, 7);
    assert(pieces.drop_last() =~= pieces.take(5));
    assert(pieces.take(5).drop_last() =~= pieces.take(4));
    assert(pieces.take(4).drop_last() =~= pieces.take(3));
    assert(pieces.take(3).drop_last() =~= pieces.take(2));
    assert(pieces.take(2).drop_last() =~= pieces.take(1));
    assert(pieces.take(1).drop_last() =~= Seq::empty());
}

fn piece(kind: PieceKind, text: &str) -> (r: Piece)
    ensures
        r.kind == kind,
        r.text@ == text@,
{
    Piece { kind, text: text.to_owned() }
}

impl Row {
    /// The pieces of the row, from left to right.
    pub fn pieces(&self) -> (r: Vec<Piece>)
        ensures
            piece_texts(r@) == row_pieces(*self),
    {
        let mut pieces: Vec<Piece> = Vec::new();
        match self {
            Row::Note(text) => {
                pieces.push(piece(PieceKind::Note, text));
            },
            Row::Session { active, name, path } => {
                let marker = if *active {
                    "●"
                } else {
                    "○"
                };
                pieces.push(piece(PieceKind::Marker, marker));
                pieces.push(piece(PieceKind::Blank, " "));
                pieces.push(piece(PieceKind::Name, name.as_str()));
                pieces.push(piece(PieceKind::Path, " ("));
                pieces.push(piece(PieceKind::Path, path.as_str()));
                pieces.push(piece(PieceKind::Path, ")"));
            },
            Row::Directory { path } => {
                pieces.push(piece(PieceKind::Directory, path.as_str()));
            },
        }
        assert(piece_texts(pieces@) =~= row_pieces(*self));
        pieces
    }
}

/// The list: its title, its rows, and which of them is marked.
#[derive(Debug)]
pub struct ListView {
    pub title: &'static str,
    pub rows: Vec<Row>,
    pub marked: Option<usize>,
}

/// The characters for a row in an area of this width: what borders and mark leave.
pub open spec fn row_width(width: u16) -> int {
    if width > 6 {
        width - 6
    } else {
        0
    }
}

/// The characters for the directory in the row of a session: what marker, name, brackets and
/// blanks leave.
pub open spec fn path_width(width: u16, name: Seq<char>) -> int {
    if row_width(width) > name.len() + 5 {
        row_width(width) - (name.len() + 5)
    } else {
        0
    }
}

/// Whether a row shows a session.
pub open spec fn shows_session(
    row: Row,
    name: Seq<char>,
    path: Seq<char>,
    active: bool,
    width: u16,
) -> bool {
    row matches Row::Session { active: marked, name: shown, path: cut } && marked == active
        && shown@ == name && cut@ == tail(path, path_width(width, name))
}

/// Whether the only row is this note.
pub open spec fn is_note(rows: Seq<Row>, text: Seq<char>) -> bool {
    &&& rows.len() == 1
    &&& rows[0] matches Row::Note(note)
    &&& note@ == text
}

/// Whether a list shows the sessions of a state, in an area of this width.
pub open spec fn is_session_list(app: AppView, width: u16, list: ListView) -> bool {
    let visible = app.visible();
    &&& list.title@ == " Sessions "@
    &&& if app.sessions.len() == 0 {
        is_note(list.rows@, "No sessions yet. Press Ctrl-N to create one."@)
    } else if visible.len() == 0 {
        is_note(list.rows@, "No sessions match search. Press Esc to clear search."@)
    } else {
        &&& list.rows@.len() == visible.len()
        &&& forall|k: int|
            0 <= k < visible.len() ==> shows_session(
                #[trigger] list.rows@[k],
                app.sessions[visible[k]].name@,
                app.sessions[visible[k]].cwd@,
                is_active(app.active_session, app.sessions[visible[k]].name@),
                width,
            )
    }
    &&& match list.marked {
        Some(k) => visible.len() > 0 && k == app.cursor(),
        None => visible.len() == 0,
    }
}

/// Whether a row shows the directory with this number, where `sessions` are the directories of
/// the sessions and `found` the directories found, both as places.
pub open spec fn shows_directory(
    app: AppView,
    sessions: Seq<Place>,
    found: Seq<Place>,
    k: int,
    width: u16,
    row: Row,
) -> bool {
    if exists|i: int| is_first_at(sessions, found[k], i) {
        exists|i: int| #[trigger]
            is_first_at(sessions, found[k], i) && shows_session(
                row,
                app.sessions[i].name@,
                app.zoxide_matches[k].path@,
                is_active(app.active_session, app.sessions[i].name@),
                width,
            )
    } else {
        row matches Row::Directory { path } && path@ == tail(
            app.zoxide_matches[k].path@,
            row_width(width),
        )
    }
}

/// Whether a list shows the directories found, in an area of this width.
pub open spec fn is_directory_list(
    app: AppView,
    sessions: Seq<Place>,
    found: Seq<Place>,
    width: u16,
    list: ListView,
) -> bool {
    &&& list.title@ == " Directories "@
    &&& if app.zoxide_matches.len() == 0 {
        is_note(list.rows@, "No matching directories. Type to refine search."@)
    } else {
        &&& list.rows@.len() == app.zoxide_matches.len()
        &&& forall|k: int|
            0 <= k < app.zoxide_matches.len() ==> shows_directory(
                app,
                sessions,
                found,
                k,
                width,
                #[trigger] list.rows@[k],
            )
    }
    &&& list.marked == if app.zoxide_matches.len() == 0 {
        None
    } else {
        Some(app.zoxide_selected)
    }
}

/// The row of a session shows whether it is active, its name, and of the path as much as the area
/// leaves: six cells go to borders and mark, and five to marker, blanks and brackets.
pub proof fn law_rows_of_sessions(
    row: Row,
    name: Seq<char>,
    path: Seq<char>,
    active: bool,
    width: u16,
)
    requires
        shows_session(row, name, path, active, width),
    ensures
        row matches Row::Session { active: marked, name: shown, path: cut } && {
            let room = width - 6 - 5 - name.len();
            &&& marked == active
            &&& shown@ == name
            &&& room <= 0 ==> cut@.len() == 0
            &&& room > 0 && path.len() <= room ==> cut@ == path
            &&& room > 0 && path.len() > room ==> cut@.len() == room && cut@[0] == '…'
                && cut@.skip(1).is_suffix_of(path)
        },
{
    let room = width - 6 - 5 - name.len();
    law_cut_text_fits(path, path_width(width, name));
    if room > 0 && path.len() > room {
        law_cut_text_fills_the_room(path, room, 0);
    }
}

/// A row is marked for the active session alone: its marker is full, and that of any other is
/// not; behind it come a blank, the name, and the path in brackets.
pub proof fn law_pieces_of_rows(row: Row)
    ensures
        row matches Row::Session { active, name, path } ==> {
            let pieces = row_pieces(row);
            &&& pieces.len() == 6
            &&& active ==> pieces[0] == (PieceKind::Marker, seq!['●'])
            &&& !active ==> pieces[0] == (PieceKind::Marker, seq!['○'])
            &&& pieces[1] == (PieceKind::Blank, seq![' '])
            &&& pieces[2] == (PieceKind::Name, name@)
            &&& pieces[3] == (PieceKind::Path, seq![' ', '('])
            &&& pieces[4] == (PieceKind::Path, path@)
            &&& pieces[5] == (PieceKind::Path, seq![')'])
        },
        row matches Row::Directory { path } ==> row_pieces(row) == seq![
            (PieceKind::Directory, path@),
        ],
        row matches Row::Note(text) ==> row_pieces(row) == seq![(PieceKind::Note, text@)],
{
    reveal_strlit("●");
    reveal_strlit("○");
    reveal_strlit(" ");
    reveal_strlit(" (");
    reveal_strlit(")");
    assert("●"@ =~= seq!['●']);
    assert("○"@ =~= seq!['○']);
    assert(" "@ =~= seq![' ']);
    assert(" ("@ =~= seq![' ', '(']);
    assert(")"@ =~= seq![')']);
}

/// The list of sessions has one row for each session that is shown, in order, with its own name,
/// its own directory, and marked as active where it is; the selected one is marked where it is
/// shown. Where nothing is shown, a note says why.
pub proof fn law_session_lists(app: AppView, width: u16, list: ListView, k: int)
    requires
        is_session_list(app, width, list),
    ensures
        list.title@ == " Sessions "@,
        0 <= k < app.visible().len() ==> {
            let session = app.sessions[app.visible()[k]];
            let active = app.active_session matches Some(name) && name@ == session.name@;
            &&& list.rows@.len() == app.visible().len()
            &&& shows_session(list.rows@[k], session.name@, session.cwd@, active, width)
            &&& app.visible()[k] == app.selected ==> list.marked == Some(k as usize)
        },
        app.visible().len() > 0 && !app.visible().contains(app.selected as int) ==> list.marked
            == Some(0usize),
        app.visible().len() == 0 ==> list.marked is None && list.rows@.len() == 1 && (
        list.rows@[0] matches Row::Note(note) && note@ == if app.sessions.len() == 0 {
            "No sessions yet. Press Ctrl-N to create one."@
        } else {
            "No sessions match search. Press Esc to clear search."@
        }),
{
    let visible = app.visible();
    crate::ui::app::lemma_visible(app, app.sessions.len() as int);
    if 0 <= k < visible.len() {
        assert(0 <= visible[k] < app.sessions.len());
        assert(shows_session(
            list.rows@[k],
            app.sessions[visible[k]].name@,
            app.sessions[visible[k]].cwd@,
            is_active(app.active_session, app.sessions[visible[k]].name@),
            width,
        ));
        if visible[k] == app.selected {
            assert(visible.contains(app.selected as int));
            crate::ui::app::lemma_first_place(visible, app.selected as int, k);
        }
    }
}

/// The row of a directory in which there is a session shows the first one there; any other shows
/// as much of the path as the area leaves.
pub proof fn law_rows_of_directories(
    app: AppView,
    sessions: Seq<Place>,
    found: Seq<Place>,
    width: u16,
    list: ListView,
    k: int,
    i: int,
)
    requires
        is_directory_list(app, sessions, found, width, list),
        0 <= k < app.zoxide_matches.len(),
    ensures
        list.title@ == " Directories "@,
        list.rows@.len() == app.zoxide_matches.len(),
        list.marked == Some(app.zoxide_selected),
        0 <= i < sessions.len() && is_same_place(sessions[i], found[k]) && (forall|j: int|
            0 <= j < i ==> !is_same_place(#[trigger] sessions[j], found[k])) ==> shows_session(
            list.rows@[k],
            app.sessions[i].name@,
            app.zoxide_matches[k].path@,
            app.active_session matches Some(name) && name@ == app.sessions[i].name@,
            width,
        ),
        (forall|j: int|
            0 <= j < sessions.len() ==> !is_same_place(#[trigger] sessions[j], found[k])) ==> (list.rows@[k] matches Row::Directory { path } && path@ == tail(
            app.zoxide_matches[k].path@,
            width - 6,
        )),
{
    assert(shows_directory(app, sessions, found, k, width, list.rows@[k]));
    if 0 <= i < sessions.len() && is_same_place(sessions[i], found[k]) && (forall|j: int|
        0 <= j < i ==> !is_same_place(#[trigger] sessions[j], found[k])) {
        assert(is_first_at(sessions, found[k], i));
        assert forall|j: int| #[trigger] is_first_at(sessions, found[k], j) implies j == i by {
            if j < i {
                assert(!is_same_place(sessions[j], found[k]));
            } else if i < j {
                assert(!is_same_place(sessions[i], found[k]));
            }
        }
    }
    if forall|j: int| 0 <= j < sessions.len() ==> !is_same_place(#[trigger] sessions[j], found[k]) {
        assert forall|j: int| !(#[trigger] is_first_at(sessions, found[k], j)) by {
            if 0 <= j < sessions.len() {
                assert(!is_same_place(sessions[j], found[k]));
            }
        }
    }
}

fn width_of_row(width: u16) -> (r: usize)
    ensures
        r == row_width(width),
{
    if width > 6 {
        (width - 6) as usize
    } else {
        0
    }
}

fn session_row(name: &String, path: &str, active: bool, width: u16) -> (r: Row)
    ensures
        shows_session(r, name@, path@, active, width),
{
    let row = width_of_row(width);
    let chars = chars_of(name.as_str());
    let available: usize = if row > 5 && row - 5 > chars.len() {
        row - 5 - chars.len()
    } else {
        0
    };
    Row::Session { active, name: name.clone(), path: truncate_from_left(path, available) }
}

fn active_is(active: &Option<String>, name: &String) -> (r: bool)
    ensures
        r == is_active(*active, name@),
{
    match active {
        Some(current) => same_text(current.as_str(), name.as_str()),
        None => false,
    }
}

impl App {
    /// The line at the top.
    pub fn header(&self) -> (r: Header)
        ensures
            is_header(self@, r),
    {
        let (title, hint) = match &self.mode {
            Mode::Normal => (" Search ", "Type to search sessions..."),
            Mode::Create => (" New Session ", "Type new session name..."),
            Mode::Rename { .. } => (" Rename Session ", "Type new name..."),
            Mode::Zoxide => (" Search ", "Type to search directories..."),
        };
        if self.input.as_str().unicode_len() == 0 {
            Header { title, text: hint.to_owned(), placeholder: true }
        } else {
            Header { title, text: self.input.clone(), placeholder: false }
        }
    }

    /// The line at the bottom.
    pub fn hints(&self) -> (r: &'static str)
        ensures
            r@ == match self@.mode {
                ModeView::Normal =>
                    "Type search | Enter attach | Ctrl-N new | Ctrl-D delete | Ctrl-R rename | Ctrl-O zoxide | Esc close"@,
                ModeView::Create => "Enter save | Esc cancel"@,
                ModeView::Rename { .. } => "Enter save | Esc cancel"@,
                ModeView::Zoxide => "Enter attach/create | Ctrl-R refresh | Esc close"@,
            },
    {
        match &self.mode {
            Mode::Normal =>
                "Type search | Enter attach | Ctrl-N new | Ctrl-D delete | Ctrl-R rename | Ctrl-O zoxide | Esc close",
            Mode::Create => "Enter save | Esc cancel",
            Mode::Rename { .. } => "Enter save | Esc cancel",
            Mode::Zoxide => "Enter attach/create | Ctrl-R refresh | Esc close",
        }
    }

    /// The list of sessions, in an area of this width.
    pub fn render_sessions(&self, width: u16) -> (r: ListView)
        ensures
            is_session_list(self@, width, r),
    {
        let visible = self.filtered_session_indices();
        let ghost shown = self@.visible();
        assert(as_ints(visible@).len() == visible@.len());
        let mut rows: Vec<Row> = Vec::new();
        if self.sessions.len() == 0 {
            rows.push(Row::Note("No sessions yet. Press Ctrl-N to create one."));
            assert(shown.len() == 0);
            return ListView { title: " Sessions ", rows, marked: None };
        }
        if visible.len() == 0 {
            rows.push(Row::Note("No sessions match search. Press Esc to clear search."));
            return ListView { title: " Sessions ", rows, marked: None };
        }
        proof {
            crate::ui::app::lemma_visible(self@, self.sessions@.len() as int);
        }
        let mut k: usize = 0;
        let mut marked: usize = 0;
        let mut found = false;
        while k < visible.len()
            invariant
                shown == self@.visible(),
                as_ints(visible@) == shown,
                visible@.len() == shown.len(),
                forall|j: int| 0 <= j < shown.len() ==> 0 <= #[trigger] shown[j]
                    < self.sessions@.len(),
                k <= visible@.len(),
                rows@.len() == k,
                forall|j: int|
                    0 <= j < k ==> shows_session(
                        #[trigger] rows@[j],
                        self@.sessions[shown[j]].name@,
                        self@.sessions[shown[j]].cwd@,
                        is_active(self@.active_session, self@.sessions[shown[j]].name@),
                        width,
                    ),
                found ==> marked < k && shown[marked as int] == self.selected && forall|j: int|
                    0 <= j < marked ==> shown[j] != self.selected,
                !found ==> marked == 0 && forall|j: int| 0 <= j < k ==> shown[j] != self.selected,
            decreases visible@.len() - k,
        {
            assert(shown[k as int] == visible@[k as int]);
            let session = &self.sessions[visible[k]];
            let active = active_is(&self.active_session, &session.name);
            rows.push(session_row(&session.name, session.cwd.as_str(), active, width));
            if !found && visible[k] == self.selected {
                found = true;
                marked = k;
            }
            k += 1;
        }
        proof {
            if found {
                crate::ui::app::lemma_first_place(shown, self.selected as int, marked as int);
                assert(shown.contains(self.selected as int));
            }
        }
        ListView { title: " Sessions ", rows, marked: Some(marked) }
    }

    /// The list of directories found, in an area of this width. `sessions` are the directories
    /// of the sessions, `found` the directories found, both as places.
    pub fn render_zoxide(&self, sessions: &[Place], found: &[Place], width: u16) -> (r: ListView)
        requires
            sessions@.len() == self@.sessions.len(),
            found@.len() == self@.zoxide_matches.len(),
        ensures
            is_directory_list(self@, sessions@, found@, width, r),
    {
        let mut rows: Vec<Row> = Vec::new();
        if self.zoxide_matches.len() == 0 {
            rows.push(Row::Note("No matching directories. Type to refine search."));
            return ListView { title: " Directories ", rows, marked: None };
        }
        let mut k: usize = 0;
        while k < self.zoxide_matches.len()
            invariant
                sessions@.len() == self@.sessions.len(),
                found@.len() == self@.zoxide_matches.len(),
                k <= self.zoxide_matches@.len(),
                rows@.len() == k,
                forall|j: int|
                    0 <= j < k ==> shows_directory(
                        self@,
                        sessions@,
                        found@,
                        j,
                        width,
                        #[trigger] rows@[j],
                    ),
            decreases self.zoxide_matches@.len() - k,
        {
            let path = self.zoxide_matches[k].path.as_str();
            match session_at(sessions, &found[k]) {
                Some(i) => {
                    let session = &self.sessions[i];
                    let active = active_is(&self.active_session, &session.name);
                    rows.push(session_row(&session.name, path, active, width));
                    assert(is_first_at(sessions@, found@[k as int], i as int));
                },
                None => {
                    rows.push(
                        Row::Directory { path: truncate_from_left(path, width_of_row(width)) },
                    );
                    assert forall|i: int| !(#[trigger] is_first_at(
                        sessions@,
                        found@[k as int],
                        i,
                    )) by {
                        if 0 <= i < sessions@.len() {
                            assert(!crate::paths::is_same_place(sessions@[i], found@[k as int]));
                        }
                    }
                },
            }
            k += 1;
        }
        ListView { title: " Directories ", rows, marked: Some(self.zoxide_selected) }
    }
}

} // verus!
