//! The terminal emulator of the `vt100` crate, as far as it is relied on.
//!
//! An emulator is described by its history: the size it was made with, the bytes it was fed
//! and the sizes it was given since, in order. What it shows is a function of that history.

use crate::ansi::{CSI_OPEN, ESC, QUESTION, SEMICOLON};
use crate::client::control::digit_bytes;
use vstd::prelude::*;

verus! {

/// `vt100::Parser`: an emulator with its screen.
#[verifier::external_type_specification]
#[verifier::external_body]
pub struct ExParser(vt100::Parser);

/// `vt100::Screen`: what an emulator shows, with its modes.
#[verifier::external_type_specification]
#[verifier::external_body]
pub struct ExScreen(vt100::Screen);

/// An event in the history of an emulator.
pub ghost enum Feed {
    /// It was made, with a size and room for lines that scroll out.
    New { rows: u16, cols: u16, scrollback: usize },
    /// It was fed a byte.
    Byte { byte: u8 },
    /// It was given a new size.
    Resize { rows: u16, cols: u16 },
}

/// The history of an emulator.
pub uninterp spec fn parser_history(parser: vt100::Parser) -> Seq<Feed>;

/// The history of the emulator whose screen this is, up to the moment of the screen.
pub uninterp spec fn screen_history(screen: vt100::Screen) -> Seq<Feed>;

/// The sequences that `contents_formatted` gives for a history.
pub uninterp spec fn shown_contents(history: Seq<Feed>) -> Seq<u8>;

/// The sequences that `cursor_state_formatted` gives for a history.
pub uninterp spec fn shown_cursor(history: Seq<Feed>) -> Seq<u8>;

/// The sequences that `attributes_formatted` gives for a history.
pub uninterp spec fn shown_attributes(history: Seq<Feed>) -> Seq<u8>;

/// The sequences that `state_formatted` gives for a history.
pub uninterp spec fn shown_state(history: Seq<Feed>) -> Seq<u8>;

/// The sequences that `state_diff` gives for a history and an earlier one.
pub uninterp spec fn shown_change(history: Seq<Feed>, earlier: Seq<Feed>) -> Seq<u8>;

/// The feeding of bytes.
pub open spec fn fed(bytes: Seq<u8>) -> Seq<Feed> {
    bytes.map_values(|byte: u8| Feed::Byte { byte })
}

/// The rows and columns at the end of a history.
pub open spec fn size_after(history: Seq<Feed>) -> (u16, u16)
    decreases history.len(),
{
    if history.len() == 0 {
        (0, 0)
    } else {
        match history.last() {
            Feed::New { rows, cols, .. } => (rows, cols),
            Feed::Byte { .. } => size_after(history.drop_last()),
            Feed::Resize { rows, cols } => (rows, cols),
        }
    }
}

/// Where the bytes fed so far end, as far as the cursor could be saved from there.
#[derive(Debug, Clone, Copy, PartialEq, Eq, Structural)]
pub enum Sequence {
    /// In no sequence that could save the cursor.
    Calm,
    /// Behind ESC.
    Escape,
    /// Behind the opening of a CSI sequence.
    Csi,
    /// Among the parameters of a private CSI sequence: the one being read, and whether one before
    /// is the mode that saves the cursor.
    Private { param: u16, saves: bool },
}

/// What is known of the bytes fed so far, as far as it bears on making the emulator smaller.
#[derive(Debug, Clone, Copy, PartialEq, Eq, Structural)]
pub struct Watch {
    /// The sequence in which they end.
    pub sequence: Sequence,
    /// Whether a wide character may have been drawn.
    pub wide: bool,
    /// The most rows there were when the cursor was saved, none if it never was.
    pub rows: u16,
    /// The most columns there were then.
    pub cols: u16,
}

/// The private mode whose setting saves the cursor.
pub const SAVING_MODE: u16 = 1049;

/// The least byte that begins a character of more than one column: all below U+1000 are narrow.
pub const WIDE_LEAD: u8 = 0xe1;

/// A parameter with another digit, or the largest where it is larger.
pub open spec fn with_digit(param: u16, digit: int) -> u16 {
    if param * 10 + digit > u16::MAX {
        u16::MAX
    } else {
        (param * 10 + digit) as u16
    }
}

/// Whether a byte saves the cursor: as the end of ESC `7`, or of the setting of the saving mode.
pub open spec fn saves_cursor(sequence: Sequence, byte: u8) -> bool {
    match sequence {
        Sequence::Escape => byte == 0x37,
        Sequence::Private { param, saves } => byte == 0x68 && (saves || param == SAVING_MODE),
        _ => false,
    }
}

/// The sequence after another byte. It begins with ESC and is given up with CAN or SUB; other
/// control bytes, DEL and bytes beyond ASCII do not count in it.
pub open spec fn sequence_step(sequence: Sequence, byte: u8) -> Sequence {
    if byte == ESC {
        Sequence::Escape
    } else if byte == 0x18 || byte == 0x1a {
        Sequence::Calm
    } else if byte < 0x20 || byte >= 0x7f {
        sequence
    } else {
        match sequence {
            Sequence::Escape if byte == CSI_OPEN => Sequence::Csi,
            Sequence::Csi if byte == QUESTION => Sequence::Private { param: 0, saves: false },
            Sequence::Private { param, saves } if byte < 0x40 => if 0x30 <= byte <= 0x39 {
                Sequence::Private { param: with_digit(param, byte - 0x30), saves }
            } else if byte == 0x3a || byte == SEMICOLON {
                Sequence::Private { param: 0, saves: saves || param == SAVING_MODE }
            } else {
                sequence
            },
            _ => Sequence::Calm,
        }
    }
}

/// The larger of two.
pub open spec fn larger(a: u16, b: u16) -> u16 {
    if a < b {
        b
    } else {
        a
    }
}

/// What is known after another byte, fed to an emulator of this size.
pub open spec fn watch_step(watch: Watch, byte: u8, size: (u16, u16)) -> Watch {
    let saves = saves_cursor(watch.sequence, byte);
    Watch {
        sequence: sequence_step(watch.sequence, byte),
        wide: watch.wide || byte >= WIDE_LEAD,
        rows: if saves {
            larger(watch.rows, size.0)
        } else {
            watch.rows
        },
        cols: if saves {
            larger(watch.cols, size.1)
        } else {
            watch.cols
        },
    }
}

/// What is known after some more bytes.
pub open spec fn watched(watch: Watch, bytes: Seq<u8>, size: (u16, u16)) -> Watch
    decreases bytes.len(),
{
    if bytes.len() == 0 {
        watch
    } else {
        watch_step(watched(watch, bytes.drop_last(), size), bytes.last(), size)
    }
}

/// What is known at the start.
pub open spec fn fresh_watch() -> Watch {
    Watch { sequence: Sequence::Calm, wide: false, rows: 0, cols: 0 }
}

/// What is known at the end of a history.
pub open spec fn watch_after(history: Seq<Feed>) -> Watch
    decreases history.len(),
{
    if history.len() == 0 {
        fresh_watch()
    } else {
        let before = history.drop_last();
        match history.last() {
            Feed::New { .. } => fresh_watch(),
            Feed::Byte { byte } => watch_step(watch_after(before), byte, size_after(before)),
            Feed::Resize { .. } => watch_after(before),
        }
    }
}

/// Whether nothing is cut when an emulator gets a new size: a saved cursor is within it, and
/// where a wide character may have been drawn, there are no fewer columns.
pub open spec fn cuts_nothing(watch: Watch, cols_before: u16, rows: u16, cols: u16) -> bool {
    &&& watch.rows <= rows && watch.cols <= cols
    &&& watch.wide ==> cols_before <= cols
}

/// Whether nothing is cut when the emulator at the end of a history gets a new size.
pub open spec fn can_resize(history: Seq<Feed>, rows: u16, cols: u16) -> bool {
    cuts_nothing(watch_after(history), size_after(history).1, rows, cols)
}

/// The most columns with which a tab stop can be reached from anywhere.
pub const MAX_COLS: u16 = 65527;

/// Whether an emulator of this size can wrap lines and has room for the widest character in
/// each.
pub open spec fn is_ample(rows: u16, cols: u16) -> bool {
    2 <= rows && 3 <= cols <= MAX_COLS
}

/// Whether the event at `i` keeps the emulator in a state from which everything it does is
/// defined: sizes are ample, and a new one cuts neither a wide character nor a saved cursor.
pub open spec fn keeps_steady(history: Seq<Feed>, i: int) -> bool {
    match history[i] {
        Feed::New { rows, cols, .. } => is_ample(rows, cols),
        Feed::Byte { .. } => true,
        Feed::Resize { rows, cols } => is_ample(rows, cols) && can_resize(
            history.take(i),
            rows,
            cols,
        ),
    }
}

/// Whether a history keeps the emulator in such a state throughout.
pub open spec fn is_steady(history: Seq<Feed>) -> bool {
    &&& history.len() > 0
    &&& history[0] is New
    &&& forall|i: int| 0 <= i < history.len() ==> #[trigger] keeps_steady(history, i)
}

/// `vt100::Parser::new` makes an emulator: its history begins.
pub assume_specification[ vt100::Parser::new ](
    rows: u16,
    cols: u16,
    scrollback_len: usize,
) -> (r: vt100::Parser)
    requires
        rows >= 1,
        cols >= 1,
    ensures
        parser_history(r) == seq![Feed::New { rows, cols, scrollback: scrollback_len }],
;

/// `vt100::Parser::process` feeds bytes, one after the other. A history that is not steady is
/// left out, here and below: there the emulator may panic.
pub assume_specification[ vt100::Parser::process ](parser: &mut vt100::Parser, bytes: &[u8])
    requires
        is_steady(parser_history(*old(parser))),
    ensures
        parser_history(*final(parser)) == parser_history(*old(parser)) + fed(bytes@),
;

/// `vt100::Parser::set_size` changes the size.
pub assume_specification[ vt100::Parser::set_size ](
    parser: &mut vt100::Parser,
    rows: u16,
    cols: u16,
)
    requires
        rows >= 1,
        cols >= 1,
    ensures
        parser_history(*final(parser)) == parser_history(*old(parser)).push(
            Feed::Resize { rows, cols },
        ),
;

/// `vt100::Parser::screen` gives the screen of an emulator, with its history.
pub assume_specification[ vt100::Parser::screen ](parser: &vt100::Parser) -> (r: &vt100::Screen)
    ensures
        screen_history(*r) == parser_history(*parser),
;

/// `vt100::Screen::clone` gives a screen of its own, with the same history.
pub assume_specification[ <vt100::Screen as Clone>::clone ](screen: &vt100::Screen) -> (r:
    vt100::Screen)
    ensures
        screen_history(r) == screen_history(*screen),
;

/// `vt100::Screen::contents_formatted` gives the sequences that draw what is shown. They are
/// fixed by the history.
pub assume_specification[ vt100::Screen::contents_formatted ](screen: &vt100::Screen) -> (r: Vec<
    u8,
>)
    requires
        is_steady(screen_history(*screen)),
    ensures
        r@ == shown_contents(screen_history(*screen)),
;

/// `vt100::Screen::cursor_state_formatted` gives the sequences that place and show or hide the
/// cursor. They are fixed by the history.
pub assume_specification[ vt100::Screen::cursor_state_formatted ](screen: &vt100::Screen) -> (r:
    Vec<u8>)
    requires
        is_steady(screen_history(*screen)),
    ensures
        r@ == shown_cursor(screen_history(*screen)),
;

/// `vt100::Screen::attributes_formatted` gives the sequences that set the drawing attributes.
/// They are fixed by the history.
pub assume_specification[ vt100::Screen::attributes_formatted ](screen: &vt100::Screen) -> (r:
    Vec<u8>)
    requires
        is_steady(screen_history(*screen)),
    ensures
        r@ == shown_attributes(screen_history(*screen)),
;

/// `vt100::Screen::state_formatted` gives the sequences that bring any terminal into the state
/// of the screen. They are fixed by the history.
pub assume_specification[ vt100::Screen::state_formatted ](screen: &vt100::Screen) -> (r: Vec<u8>)
    requires
        is_steady(screen_history(*screen)),
    ensures
        r@ == shown_state(screen_history(*screen)),
;

/// `vt100::Screen::state_diff` gives the sequences that bring a terminal from the state of
/// `prev` into that of a screen of the same size. They are fixed by the two histories, and there
/// are none where these are the same.
pub assume_specification[ vt100::Screen::state_diff ](
    screen: &vt100::Screen,
    prev: &vt100::Screen,
) -> (r: Vec<u8>)
    requires
        is_steady(screen_history(*screen)),
        is_steady(screen_history(*prev)),
        size_after(screen_history(*screen)) == size_after(screen_history(*prev)),
    ensures
        r@ == shown_change(screen_history(*screen), screen_history(*prev)),
        screen_history(*screen) == screen_history(*prev) ==> r@ == Seq::<u8>::empty(),
;

/// A new emulator of ample size is steady.
pub proof fn lemma_new_is_steady(rows: u16, cols: u16, scrollback: usize)
    requires
        is_ample(rows, cols),
    ensures
        ({
            let history = seq![Feed::New { rows, cols, scrollback }];
            &&& is_steady(history)
            &&& watch_after(history) == fresh_watch()
            &&& size_after(history) == (rows, cols)
        }),
{
}

/// Bytes keep an emulator steady and its size.
pub proof fn lemma_fed_is_steady(history: Seq<Feed>, bytes: Seq<u8>)
    requires
        is_steady(history),
    ensures
        is_steady(history + fed(bytes)),
        size_after(history + fed(bytes)) == size_after(history),
        watch_after(history + fed(bytes)) == watched(
            watch_after(history),
            bytes,
            size_after(history),
        ),
    decreases bytes.len(),
{
    let whole = history + fed(bytes);
    assert forall|i: int| 0 <= i < whole.len() implies #[trigger] keeps_steady(whole, i) by {
        if i < history.len() {
            assert(whole[i] == history[i]);
            assert(whole.take(i) =~= history.take(i));
            assert(keeps_steady(history, i));
        }
    }
    if bytes.len() == 0 {
        assert(whole =~= history);
    } else {
        lemma_fed_is_steady(history, bytes.drop_last());
        assert(whole.drop_last() =~= history + fed(bytes.drop_last()));
    }
}

/// A new size keeps an emulator steady if it is ample and cuts nothing.
pub proof fn lemma_resize_is_steady(history: Seq<Feed>, rows: u16, cols: u16)
    requires
        is_steady(history),
        is_ample(rows, cols),
        can_resize(history, rows, cols),
    ensures
        ({
            let resized = history.push(Feed::Resize { rows, cols });
            &&& is_steady(resized)
            &&& size_after(resized) == (rows, cols)
            &&& watch_after(resized) == watch_after(history)
        }),
{
    let resized = history.push(Feed::Resize { rows, cols });
    assert forall|i: int| 0 <= i < resized.len() implies #[trigger] keeps_steady(resized, i) by {
        assert(resized.take(i) =~= history.take(i));
        if i < history.len() {
            assert(keeps_steady(history, i));
        } else {
            assert(history.take(i) =~= history);
        }
    }
    assert(resized.drop_last() =~= history);
}

/// A saved cursor is within the emulator, so that one that is steady can always grow.
pub proof fn law_growing_cuts_nothing(history: Seq<Feed>, rows: u16, cols: u16)
    requires
        is_steady(history),
        size_after(history).0 <= rows,
        size_after(history).1 <= cols,
    ensures
        watch_after(history).rows <= size_after(history).0,
        watch_after(history).cols <= size_after(history).1,
        can_resize(history, rows, cols),
    decreases history.len(),
{
    let before = history.drop_last();
    let last = history.len() - 1;
    assert(keeps_steady(history, last));
    assert(history.take(last) =~= before);
    if history.last() !is New {
        assert forall|i: int| 0 <= i < before.len() implies #[trigger] keeps_steady(before, i) by {
            assert(keeps_steady(history, i));
            assert(before.take(i) =~= history.take(i));
        }
        law_growing_cuts_nothing(before, size_after(before).0, size_after(before).1);
    }
}

/// What is known after bytes that came in two pieces is what is known after all of them.
pub proof fn law_watched_in_chunks(
    watch: Watch,
    first: Seq<u8>,
    second: Seq<u8>,
    size: (u16, u16),
)
    ensures
        watched(watched(watch, first, size), second, size) == watched(watch, first + second, size),
    decreases second.len(),
{
    if second.len() == 0 {
        assert(first + second =~= first);
    } else {
        law_watched_in_chunks(watch, first, second.drop_last(), size);
        assert((first + second).drop_last() =~= first + second.drop_last());
    }
}

/// Text without ESC and without characters that may be wide allows for any size.
pub proof fn law_narrow_text_is_not_cut(text: Seq<u8>, size: (u16, u16), rows: u16, cols: u16)
    requires
        forall|i: int| 0 <= i < text.len() ==> text[i] != ESC && #[trigger] text[i] < WIDE_LEAD,
    ensures
        watched(fresh_watch(), text, size) == fresh_watch(),
        cuts_nothing(watched(fresh_watch(), text, size), size.1, rows, cols),
    decreases text.len(),
{
    if text.len() > 0 {
        law_narrow_text_is_not_cut(text.drop_last(), size, rows, cols);
        assert(text[text.len() - 1] < WIDE_LEAD);
    }
}

/// Outside of sequences, bytes other than ESC change nothing but for those from 0xe1 on, with
/// which a wide character may begin.
pub proof fn law_text_between_sequences(watch: Watch, text: Seq<u8>, size: (u16, u16))
    requires
        watch.sequence is Calm,
        forall|i: int| 0 <= i < text.len() ==> #[trigger] text[i] != 0x1b,
    ensures
        watched(watch, text, size) == (Watch {
            wide: watch.wide || exists|i: int| 0 <= i < text.len() && #[trigger] text[i] >= 0xe1,
            ..watch
        }),
    decreases text.len(),
{
    if text.len() > 0 {
        let front = text.drop_last();
        let last = text.len() - 1;
        assert forall|i: int| 0 <= i < front.len() implies #[trigger] front[i] != 0x1b by {
            assert(front[i] == text[i]);
        }
        law_text_between_sequences(watch, front, size);
        assert(text[last] != 0x1b);
        if exists|i: int| 0 <= i < front.len() && #[trigger] front[i] >= 0xe1 {
            let i = choose|i: int| 0 <= i < front.len() && #[trigger] front[i] >= 0xe1;
            assert(text[i] >= 0xe1);
        }
        if exists|i: int| 0 <= i < text.len() && #[trigger] text[i] >= 0xe1 {
            let i = choose|i: int| 0 <= i < text.len() && #[trigger] text[i] >= 0xe1;
            if i < last {
                assert(front[i] >= 0xe1);
            }
        }
    }
}

/// ESC `7` saves the cursor, wherever it stands: the most rows and columns there were then are
/// at least those of now.
pub proof fn law_escape_seven_saves(watch: Watch, size: (u16, u16))
    ensures
        ({
            let after = watched(watch, seq![0x1bu8, 0x37], size);
            &&& after.rows == if watch.rows < size.0 {
                size.0
            } else {
                watch.rows
            }
            &&& after.cols == if watch.cols < size.1 {
                size.1
            } else {
                watch.cols
            }
            &&& after.wide == watch.wide
            &&& after.sequence is Calm
        }),
{
    let both = seq![0x1bu8, 0x37];
    assert(both.drop_last() =~= seq![0x1bu8]);
    assert(seq![0x1bu8].drop_last() =~= Seq::empty());
    reveal_with_fuel(watched, 3);
}

/// Of the settings of private modes, ESC `[?` with one mode or two and `h`, that of mode 1049
/// saves the cursor, and no other; the same with `l` does not.
pub proof fn law_setting_the_mode_saves(
    watch: Watch,
    first: u16,
    second: u16,
    set: bool,
    size: (u16, u16),
)
    ensures
        ({
            let end = if set {
                seq![0x68u8]
            } else {
                seq![0x6cu8]
            };
            let one = seq![0x1bu8, 0x5b, 0x3f] + digit_bytes(first as nat) + end;
            let two = seq![0x1bu8, 0x5b, 0x3f] + digit_bytes(first as nat) + seq![0x3bu8]
                + digit_bytes(second as nat) + end;
            let saved = Watch {
                sequence: Sequence::Calm,
                wide: watch.wide,
                rows: if watch.rows < size.0 {
                    size.0
                } else {
                    watch.rows
                },
                cols: if watch.cols < size.1 {
                    size.1
                } else {
                    watch.cols
                },
            };
            let calm = Watch { sequence: Sequence::Calm, ..watch };
            &&& watched(watch, one, size) == if set && first == 1049 {
                saved
            } else {
                calm
            }
            &&& watched(watch, two, size) == if set && (first == 1049 || second == 1049) {
                saved
            } else {
                calm
            }
        }),
{
    let end = if set {
        seq![0x68u8]
    } else {
        seq![0x6cu8]
    };
    let open = seq![0x1bu8, 0x5b, 0x3f];
    let (a, b) = (digit_bytes(first as nat), digit_bytes(second as nat));
    let opened = watched(watch, open, size);
    assert(open.drop_last() =~= seq![0x1bu8, 0x5b]);
    assert(seq![0x1bu8, 0x5b].drop_last() =~= seq![0x1bu8]);
    assert(seq![0x1bu8].drop_last() =~= Seq::empty());
    reveal_with_fuel(watched, 4);
    assert(opened == Watch { sequence: Sequence::Private { param: 0, saves: false }, ..watch });
    lemma_mode_is_read(opened, first as nat, size);
    law_watched_in_chunks(watch, open, a, size);
    law_watched_in_chunks(watch, open + a, end, size);
    assert(end.drop_last() =~= Seq::empty());
    let sep = seq![0x3bu8];
    assert(sep.drop_last() =~= Seq::empty());
    law_watched_in_chunks(watch, open + a, sep, size);
    let parted = watched(watch, open + a + sep, size);
    lemma_mode_is_read(parted, second as nat, size);
    law_watched_in_chunks(watch, open + a + sep, b, size);
    law_watched_in_chunks(watch, open + a + sep + b, end, size);
}

proof fn lemma_mode_is_read(watch: Watch, n: nat, size: (u16, u16))
    requires
        watch.sequence matches Sequence::Private { param, .. } && param == 0,
        n <= 65535,
    ensures
        watched(watch, digit_bytes(n), size) == (Watch {
            sequence: Sequence::Private { param: n as u16, saves: watch.sequence->saves },
            ..watch
        }),
    decreases n,
{
    let run = digit_bytes(n);
    if n < 10 {
        assert(run.drop_last() =~= Seq::empty());
        assert(run.last() == 0x30 + n);
        assert(watched(watch, run.drop_last(), size) == watch);
    } else {
        lemma_mode_is_read(watch, n / 10, size);
        assert(run.drop_last() =~= digit_bytes(n / 10));
        assert(run.last() == 0x30 + n % 10);
    }
}

fn next_param(param: u16, digit: u8) -> (r: u16)
    requires
        digit <= 9,
    ensures
        r == with_digit(param, digit as int),
{
    let next: u32 = param as u32 * 10 + digit as u32;
    if next > 0xffff {
        0xffff
    } else {
        next as u16
    }
}

fn next_sequence(sequence: Sequence, byte: u8) -> (r: Sequence)
    ensures
        r == sequence_step(sequence, byte),
{
    if byte == ESC {
        return Sequence::Escape;
    }
    if byte == 0x18 || byte == 0x1a {
        return Sequence::Calm;
    }
    if byte < 0x20 || byte >= 0x7f {
        return sequence;
    }
    match sequence {
        Sequence::Escape if byte == CSI_OPEN => Sequence::Csi,
        Sequence::Csi if byte == QUESTION => Sequence::Private { param: 0, saves: false },
        Sequence::Private { param, saves } if byte < 0x40 => if 0x30 <= byte && byte <= 0x39 {
            Sequence::Private { param: next_param(param, byte - 0x30), saves }
        } else if byte == 0x3a || byte == SEMICOLON {
            Sequence::Private { param: 0, saves: saves || param == SAVING_MODE }
        } else {
            sequence
        },
        _ => Sequence::Calm,
    }
}

impl Watch {
    /// What is known at the start.
    pub fn new() -> (r: Self)
        ensures
            r == fresh_watch(),
    {
        Watch { sequence: Sequence::Calm, wide: false, rows: 0, cols: 0 }
    }

    fn take_byte(&mut self, byte: u8, rows: u16, cols: u16)
        ensures
            *final(self) == watch_step(*old(self), byte, (rows, cols)),
    {
        let saves = match self.sequence {
            Sequence::Escape => byte == 0x37,
            Sequence::Private { param, saves } => byte == 0x68 && (saves || param == SAVING_MODE),
            _ => false,
        };
        if saves && self.rows < rows {
            self.rows = rows;
        }
        if saves && self.cols < cols {
            self.cols = cols;
        }
        if byte >= WIDE_LEAD {
            self.wide = true;
        }
        self.sequence = next_sequence(self.sequence, byte);
    }

    /// Takes note of bytes that are fed to an emulator of this size.
    pub fn take(&mut self, bytes: &[u8], rows: u16, cols: u16)
        ensures
            *final(self) == watched(*old(self), bytes@, (rows, cols)),
    {
        let mut i: usize = 0;
        while i < bytes.len()
            invariant
                i <= bytes@.len(),
                *self == watched(*old(self), bytes@.take(i as int), (rows, cols)),
            decreases bytes@.len() - i,
        {
            self.take_byte(bytes[i], rows, cols);
            i += 1;
            assert(bytes@.take(i as int).drop_last() =~= bytes@.take(i - 1));
        }
        assert(bytes@.take(i as int) =~= bytes@);
    }

    /// Whether nothing is cut when the emulator, with so many columns before, gets a new size.
    pub fn allows(&self, cols_before: u16, rows: u16, cols: u16) -> (r: bool)
        ensures
            r == cuts_nothing(*self, cols_before, rows, cols),
    {
        self.rows <= rows && self.cols <= cols && (!self.wide || cols_before <= cols)
    }
}

/// Feeding bytes in two pieces is feeding them in one.
pub proof fn law_fed_in_chunks(history: Seq<Feed>, first: Seq<u8>, second: Seq<u8>)
    ensures
        history + fed(first) + fed(second) == history + fed(first + second),
{
    assert(history + fed(first) + fed(second) =~= history + fed(first + second));
}

} // verus!
