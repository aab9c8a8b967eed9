//! The drawing of an attached session: its screen in the upper rows, its name in the last.

use crate::bytes::append_bytes;
use crate::client::emulator::{
    can_resize, fed, is_ample, is_steady, lemma_fed_is_steady, lemma_new_is_steady,
    lemma_resize_is_steady, parser_history, screen_history, shown_attributes, shown_change,
    shown_contents, shown_cursor, shown_state, size_after, watch_after, Feed, Watch, MAX_COLS,
};
use crate::client::{at_least_one, content_rows};
use crate::text::{chars_of, decimal, digits, joined};
use crate::client::control::digit_bytes;
use crate::ui::naming::law_decimal;
use vstd::prelude::*;
use vstd::utf8::{encode_utf8, is_ascii_chars_encode_utf8};

verus! {

/// The lines of a session that are kept once they have scrolled out.
pub const SCROLLBACK_LINES: usize = 8192;

/// How the terminal is divided: its columns and rows, and the rows for the session.
#[derive(Debug, Clone, Copy, PartialEq, Eq, Structural)]
pub struct Layout {
    pub cols: u16,
    pub rows: u16,
    pub content_rows: u16,
}

/// The division of a terminal of this size; one of common size if it is not known.
pub open spec fn layout_of(size: Option<(u16, u16)>) -> Layout {
    let (cols, rows) = match size {
        Some(size) => size,
        None => (80, 24),
    };
    Layout {
        cols: at_least_one(cols),
        rows: at_least_one(rows),
        content_rows: content_rows(rows),
    }
}

/// How the terminal is divided, from its columns and rows if they are known.
pub fn current_terminal_layout(size: Option<(u16, u16)>) -> (r: Layout)
    ensures
        r == layout_of(size),
{
    let (cols, rows): (u16, u16) = match size {
        Some(size) => size,
        None => (80, 24),
    };
    let safe_cols: u16 = if cols == 0 {
        1
    } else {
        cols
    };
    let safe_rows: u16 = if rows == 0 {
        1
    } else {
        rows
    };
    let content_rows: u16 = if safe_rows > 1 {
        safe_rows - 1
    } else {
        safe_rows
    };
    Layout { cols: safe_cols, rows: safe_rows, content_rows }
}

/// A session is drawn in the size that it is asked to have when attaching.
pub proof fn law_layout_matches_attach_size(cols: u16, rows: u16)
    ensures
        layout_of(Some((cols, rows))).cols == at_least_one(cols),
        layout_of(Some((cols, rows))).content_rows == content_rows(rows),
{
}

/// The session gets all rows but the last, which is for its name; a terminal of unknown size
/// counts as one of 80 columns and 24 rows, and one without columns or rows as one with one.
pub proof fn law_layouts(cols: u16, rows: u16)
    ensures
        ({
            let layout = layout_of(Some((cols, rows)));
            &&& cols > 0 ==> layout.cols == cols
            &&& cols == 0 ==> layout.cols == 1
            &&& rows > 1 ==> layout.rows == rows && layout.content_rows + 1 == rows
            &&& rows <= 1 ==> layout.rows == 1 && layout.content_rows == 1
        }),
        layout_of(None) == (Layout { cols: 80, rows: 24, content_rows: 23 }),
        is_roomy(layout_of(Some((cols, rows)))) <==> rows >= 3 && 3 <= cols <= 65527,
{
}

/// The name between blanks, cut to the columns there are.
pub open spec fn label(name: Seq<char>, cols: u16) -> Seq<char> {
    let full = seq![' '] + name + seq![' '];
    if full.len() > cols {
        full.take(cols as int)
    } else {
        full
    }
}

/// The label holds a blank, the name and a blank, as far as there are columns for it.
pub proof fn law_labels(name: Seq<char>, cols: u16, i: int)
    requires
        0 <= i < label(name, cols).len(),
    ensures
        label(name, cols).len() == if name.len() + 2 <= cols {
            name.len() + 2
        } else {
            cols as nat
        },
        i == 0 ==> label(name, cols)[i] == ' ',
        0 < i <= name.len() ==> label(name, cols)[i] == name[i - 1],
        i == name.len() + 1 ==> label(name, cols)[i] == ' ',
{
}

/// The label that shows the name of the session.
pub fn status_label(name: &str, cols: u16) -> (r: String)
    ensures
        r@ == label(name@, cols),
{
    proof {
        reveal_strlit(" ");
    }
    let full = joined(joined(" ", name).as_str(), " ");
    assert(full@ =~= seq![' '] + name@ + seq![' ']);
    let chars = chars_of(full.as_str());
    if chars.len() > cols as usize {
        full.as_str().substring_char(0, cols as usize).to_owned()
    } else {
        full
    }
}

/// The sequences for the last row: the label in reverse.
pub open spec fn status(name: Seq<char>, cols: u16, rows: u16) -> Seq<u8> {
    encode_utf8("\u{1b}["@) + encode_utf8(digits(rows as nat)) + encode_utf8(
        ";1H\u{1b}[2K\u{1b}[7m"@,
    ) + encode_utf8(label(name, cols)) + encode_utf8("\u{1b}[m"@)
}

/// A whole frame: a cleared screen, the session's contents, the status where it is wanted and
/// there is a row for it, and the session's cursor and attributes.
pub open spec fn frame(
    contents: Seq<u8>,
    cursor: Seq<u8>,
    attributes: Seq<u8>,
    name: Seq<char>,
    cols: u16,
    rows: u16,
    include_status: bool,
) -> Seq<u8> {
    encode_utf8("\u{1b}[?25h\u{1b}[m\u{1b}[H\u{1b}[2J\u{1b}[1;1H"@) + contents + (
    if include_status && rows >= 2 {
        status(name, cols, rows)
    } else {
        Seq::empty()
    }) + cursor + attributes
}

/// A frame shows the cursor, resets attributes, clears the screen and goes home; draws the
/// contents; goes to the last row, clears it, writes the label in reverse and resets attributes,
/// where that is wanted and there are two rows or more; and ends with the session's cursor and
/// attributes.
pub proof fn law_frames(
    contents: Seq<u8>,
    cursor: Seq<u8>,
    attributes: Seq<u8>,
    name: Seq<char>,
    cols: u16,
    rows: u16,
)
    ensures
        ({
            let start = seq![
                0x1bu8, 0x5b, 0x3f, 0x32, 0x35, 0x68, 0x1b, 0x5b, 0x6d, 0x1b, 0x5b, 0x48, 0x1b,
                0x5b, 0x32, 0x4a, 0x1b, 0x5b, 0x31, 0x3b, 0x31, 0x48,
            ];
            let last_row = seq![0x1bu8, 0x5b] + digit_bytes(rows as nat) + seq![
                0x3bu8, 0x31, 0x48, 0x1b, 0x5b, 0x32, 0x4b, 0x1b, 0x5b, 0x37, 0x6d,
            ] + encode_utf8(label(name, cols)) + seq![0x1bu8, 0x5b, 0x6d];
            &&& rows >= 2 ==> frame(contents, cursor, attributes, name, cols, rows, true) == start
                + contents + last_row + cursor + attributes
            &&& rows < 2 ==> frame(contents, cursor, attributes, name, cols, rows, true) == start
                + contents + cursor + attributes
            &&& frame(contents, cursor, attributes, name, cols, rows, false) == start + contents
                + cursor + attributes
        }),
{
    reveal_strlit("\u{1b}[?25h\u{1b}[m\u{1b}[H\u{1b}[2J\u{1b}[1;1H");
    reveal_strlit("\u{1b}[");
    reveal_strlit(";1H\u{1b}[2K\u{1b}[7m");
    reveal_strlit("\u{1b}[m");
    is_ascii_chars_encode_utf8("\u{1b}[?25h\u{1b}[m\u{1b}[H\u{1b}[2J\u{1b}[1;1H"@);
    is_ascii_chars_encode_utf8("\u{1b}["@);
    is_ascii_chars_encode_utf8(";1H\u{1b}[2K\u{1b}[7m"@);
    is_ascii_chars_encode_utf8("\u{1b}[m"@);
    law_decimal(rows as nat);
    is_ascii_chars_encode_utf8(digits(rows as nat));
    let start = seq![
        0x1bu8, 0x5b, 0x3f, 0x32, 0x35, 0x68, 0x1b, 0x5b, 0x6d, 0x1b, 0x5b, 0x48, 0x1b, 0x5b, 0x32,
        0x4a, 0x1b, 0x5b, 0x31, 0x3b, 0x31, 0x48,
    ];
    assert(encode_utf8("\u{1b}[?25h\u{1b}[m\u{1b}[H\u{1b}[2J\u{1b}[1;1H"@) =~= start);
    assert(encode_utf8("\u{1b}["@) =~= seq![0x1bu8, 0x5b]);
    assert(encode_utf8(";1H\u{1b}[2K\u{1b}[7m"@) =~= seq![
        0x3bu8, 0x31, 0x48, 0x1b, 0x5b, 0x32, 0x4b, 0x1b, 0x5b, 0x37, 0x6d,
    ]);
    assert(encode_utf8("\u{1b}[m"@) =~= seq![0x1bu8, 0x5b, 0x6d]);
    assert(encode_utf8(digits(rows as nat)) =~= digit_bytes(rows as nat));
    assert(start + contents + Seq::<u8>::empty() =~= start + contents);
}

/// What is drawn of a session is its screen as its emulator gives it, with its name in the last
/// row, on an emulator of the whole terminal without lines that scroll out.
pub proof fn law_session_frames(history: Seq<Feed>, name: Seq<char>, layout: Layout)
    requires
        layout.rows >= 2,
    ensures
        composed(history, name, layout).len() == 1 + session_frame(history, name, layout).len(),
        composed(history, name, layout)[0] == (Feed::New {
            rows: layout.rows,
            cols: layout.cols,
            scrollback: 0,
        }),
        forall|i: int|
            0 <= i < session_frame(history, name, layout).len() ==> composed(
                history,
                name,
                layout,
            )[1 + i] == (Feed::Byte { byte: #[trigger] session_frame(history, name, layout)[i] }),
        session_frame(history, name, layout) == frame(
            shown_contents(history),
            Seq::empty(),
            Seq::empty(),
            name,
            layout.cols,
            layout.rows,
            true,
        ) + shown_cursor(history) + shown_attributes(history),
{
    assert(session_frame(history, name, layout) =~= frame(
        shown_contents(history),
        Seq::empty(),
        Seq::empty(),
        name,
        layout.cols,
        layout.rows,
        true,
    ) + shown_cursor(history) + shown_attributes(history));
}

/// Puts a frame together from what the session's screen gives.
pub fn compose_frame(
    contents: &[u8],
    cursor: &[u8],
    attributes: &[u8],
    name: &str,
    cols: u16,
    rows: u16,
    include_status: bool,
) -> (r: Vec<u8>)
    ensures
        r@ == frame(contents@, cursor@, attributes@, name@, cols, rows, include_status),
{
    let mut frame = "\u{1b}[?25h\u{1b}[m\u{1b}[H\u{1b}[2J\u{1b}[1;1H".as_bytes_vec();
    append_bytes(&mut frame, contents);
    if include_status && rows >= 2 {
        append_bytes(&mut frame, "\u{1b}[".as_bytes());
        append_bytes(&mut frame, decimal(rows as u128).as_str().as_bytes());
        append_bytes(&mut frame, ";1H\u{1b}[2K\u{1b}[7m".as_bytes());
        append_bytes(&mut frame, status_label(name, cols).as_str().as_bytes());
        append_bytes(&mut frame, "\u{1b}[m".as_bytes());
    }
    append_bytes(&mut frame, cursor);
    append_bytes(&mut frame, attributes);
    assert(frame@ =~= self::frame(
        contents@,
        cursor@,
        attributes@,
        name@,
        cols,
        rows,
        include_status,
    ));
    frame
}

/// The frame that shows an emulator's screen.
pub open spec fn session_frame(history: Seq<Feed>, name: Seq<char>, layout: Layout) -> Seq<u8> {
    frame(
        shown_contents(history),
        shown_cursor(history),
        shown_attributes(history),
        name,
        layout.cols,
        layout.rows,
        true,
    )
}

/// The history of an emulator of the whole terminal that was fed one frame.
pub open spec fn composed(history: Seq<Feed>, name: Seq<char>, layout: Layout) -> Seq<Feed> {
    seq![Feed::New { rows: layout.rows, cols: layout.cols, scrollback: 0 }] + fed(
        session_frame(history, name, layout),
    )
}

/// Draws one session.
pub struct SessionRenderer {
    session_name: String,
    parser: vt100::Parser,
    composed_screen: Option<vt100::Screen>,
    layout: Layout,
    watch: Watch,
}

/// What drawing in a layout takes.
#[derive(Debug, Clone, Copy, PartialEq, Eq, Structural)]
pub struct Redraw {
    /// The session's emulator gets a new size.
    pub resize: bool,
    /// All of the picture is drawn, not only what has changed.
    pub whole: bool,
}

/// What drawing takes where the layout was `before` and is `now`, and something was drawn
/// already or not: a new layout means a new size, and that what was drawn no longer counts.
pub fn redraw(before: Layout, now: Layout, drawn: bool) -> (r: Redraw)
    ensures
        r.resize == (before != now),
        r.whole == (before != now || !drawn),
{
    let resize = before.cols != now.cols || before.rows != now.rows || before.content_rows
        != now.content_rows;
    Redraw { resize, whole: resize || !drawn }
}

/// Whether a layout leaves ample room for a session.
pub open spec fn is_roomy(layout: Layout) -> bool {
    &&& layout.rows >= 3
    &&& layout.content_rows == layout.rows - 1
    &&& is_ample(layout.content_rows, layout.cols)
}

/// Whether a layout leaves ample room for a session.
pub fn has_room(layout: Layout) -> (r: bool)
    ensures
        r == is_roomy(layout),
{
    layout.rows >= 3 && layout.content_rows == layout.rows - 1 && 3 <= layout.cols && layout.cols
        <= MAX_COLS
}

impl SessionRenderer {
    /// The name of the session.
    pub closed spec fn name(&self) -> Seq<char> {
        self.session_name@
    }

    /// The history of the session's emulator.
    pub closed spec fn history(&self) -> Seq<Feed> {
        parser_history(self.parser)
    }

    /// The history of the emulator that stands for what the terminal shows, if anything was
    /// drawn since the layout last changed.
    pub closed spec fn drawn(&self) -> Option<Seq<Feed>> {
        match self.composed_screen {
            Some(screen) => Some(screen_history(screen)),
            None => None,
        }
    }

    /// How the terminal is divided.
    pub closed spec fn layout(&self) -> Layout {
        self.layout
    }

    /// The emulators are steady and have the sizes of the layout.
    pub closed spec fn wf(&self) -> bool {
        &&& is_roomy(self.layout)
        &&& is_steady(self.history())
        &&& size_after(self.history()) == (self.layout.content_rows, self.layout.cols)
        &&& self.watch == watch_after(self.history())
        &&& self.drawn() matches Some(drawn) ==> is_steady(drawn) && size_after(drawn) == (
            self.layout.rows,
            self.layout.cols,
        )
    }

    /// Whether the layout can become this one: a cursor that the session has saved must be within
    /// it, and where a wide character may have been shown, there may not be fewer columns.
    pub open spec fn can_take(&self, layout: Layout) -> bool {
        &&& is_roomy(layout)
        &&& can_resize(self.history(), layout.content_rows, layout.cols)
    }

    /// Whether the layout can become this one.
    pub fn accepts(&self, layout: Layout) -> (r: bool)
        requires
            self.wf(),
        ensures
            r == self.can_take(layout),
    {
        has_room(layout) && self.watch.allows(self.layout.cols, layout.content_rows, layout.cols)
    }

    /// A renderer for a session that has shown nothing.
    pub fn new(session_name: &str, layout: Layout) -> (r: Self)
        requires
            is_roomy(layout),
        ensures
            r.wf(),
            r.name() == session_name@,
            r.layout() == layout,
            r.history() == seq![
                Feed::New {
                    rows: layout.content_rows,
                    cols: layout.cols,
                    scrollback: SCROLLBACK_LINES,
                },
            ],
            r.drawn() is None,
    {
        proof {
            lemma_new_is_steady(layout.content_rows, layout.cols, SCROLLBACK_LINES);
        }
        SessionRenderer {
            session_name: session_name.to_owned(),
            parser: vt100::Parser::new(layout.content_rows, layout.cols, SCROLLBACK_LINES),
            composed_screen: None,
            layout,
            watch: Watch::new(),
        }
    }

    /// Takes the present layout. Where it has changed, the session's emulator gets its new
    /// size, and what was drawn no longer counts.
    pub fn refresh_layout_if_needed(&mut self, layout: Layout)
        requires
            old(self).wf(),
            old(self).can_take(layout),
        ensures
            final(self).wf(),
            final(self).name() == old(self).name(),
            final(self).layout() == layout,
            if layout == old(self).layout() {
                final(self).history() == old(self).history() && final(self).drawn() == old(
                    self,
                ).drawn()
            } else {
                &&& final(self).history() == old(self).history().push(
                    Feed::Resize { rows: layout.content_rows, cols: layout.cols },
                )
                &&& final(self).drawn() is None
            },
    {
        if !redraw(self.layout, layout, self.composed_screen.is_some()).resize {
            return;
        }
        proof {
            lemma_resize_is_steady(self.history(), layout.content_rows, layout.cols);
        }
        self.layout = layout;
        self.parser.set_size(layout.content_rows, layout.cols);
        self.composed_screen = None;
    }

    /// Takes output of the session, in the present layout.
    pub fn process_output(&mut self, bytes: &[u8], layout: Layout)
        requires
            old(self).wf(),
            old(self).can_take(layout),
        ensures
            final(self).wf(),
            final(self).name() == old(self).name(),
            final(self).layout() == layout,
            if layout == old(self).layout() {
                final(self).history() == old(self).history() + fed(bytes@) && final(self).drawn()
                    == old(self).drawn()
            } else {
                &&& final(self).history() == old(self).history().push(
                    Feed::Resize { rows: layout.content_rows, cols: layout.cols },
                ) + fed(bytes@)
                &&& final(self).drawn() is None
            },
    {
        self.refresh_layout_if_needed(layout);
        proof {
            lemma_fed_is_steady(self.history(), bytes@);
        }
        self.watch.take(bytes, layout.content_rows, layout.cols);
        self.parser.process(bytes);
    }

    /// What to write to the terminal, in the present layout: all of the picture, or what has
    /// changed since it was last drawn.
    pub fn render(&mut self, layout: Layout) -> (r: Vec<u8>)
        requires
            old(self).wf(),
            old(self).can_take(layout),
        ensures
            final(self).wf(),
            final(self).name() == old(self).name(),
            final(self).layout() == layout,
            final(self).history() == if layout == old(self).layout() {
                old(self).history()
            } else {
                old(self).history().push(
                    Feed::Resize { rows: layout.content_rows, cols: layout.cols },
                )
            },
            final(self).drawn() == Some(composed(final(self).history(), old(self).name(), layout)),
            match old(self).drawn() {
                Some(drawn) if layout == old(self).layout() => {
                    &&& r@ == shown_change(
                        composed(final(self).history(), old(self).name(), layout),
                        drawn,
                    )
                    &&& drawn == composed(final(self).history(), old(self).name(), layout)
                        ==> r@ == Seq::<u8>::empty()
                },
                _ => r@ == shown_state(
                    composed(final(self).history(), old(self).name(), layout),
                ),
            },
    {
        let plan = redraw(self.layout, layout, self.composed_screen.is_some());
        self.refresh_layout_if_needed(layout);
        let contents = self.parser.screen().contents_formatted();
        let cursor = self.parser.screen().cursor_state_formatted();
        let attributes = self.parser.screen().attributes_formatted();
        let frame = compose_frame(
            &contents,
            &cursor,
            &attributes,
            self.session_name.as_str(),
            layout.cols,
            layout.rows,
            true,
        );
        proof {
            lemma_new_is_steady(layout.rows, layout.cols, 0);
            lemma_fed_is_steady(
                seq![Feed::New { rows: layout.rows, cols: layout.cols, scrollback: 0 }],
                frame@,
            );
        }
        let mut next = vt100::Parser::new(layout.rows, layout.cols, 0);
        next.process(&frame);
        let rendered = match &self.composed_screen {
            Some(prev) if !plan.whole => next.screen().state_diff(prev),
            _ => next.screen().state_formatted(),
        };
        self.composed_screen = Some(next.screen().clone());
        rendered
    }

    /// Gives the session's emulator away.
    pub fn into_parser(self) -> (r: vt100::Parser)
        ensures
            parser_history(r) == self.history(),
    {
        self.parser
    }
}

} // verus!
