//! Where the parts of the picker stand on the terminal.

use crate::ui::app::{App, Mode};
use vstd::prelude::*;

verus! {

/// A rectangle of the terminal.
#[derive(Debug, Clone, Copy, PartialEq, Eq, Structural)]
pub struct Area {
    pub x: u16,
    pub y: u16,
    pub width: u16,
    pub height: u16,
}

/// How much of an area a part of it wants.
#[derive(Debug, Clone, Copy, PartialEq, Eq, Structural)]
pub enum Share {
    /// Exactly this.
    Length(u16),
    /// At least this.
    Min(u16),
    /// This many hundredths.
    Percentage(u16),
}

/// Whether an area lies within another.
pub open spec fn is_within(part: Area, area: Area) -> bool {
    &&& area.x <= part.x && part.x + part.width <= area.x + area.width
    &&& area.y <= part.y && part.y + part.height <= area.y + area.height
}

/// How far an area reaches in one direction from where it starts: coordinates end with the
/// largest `u16`.
pub open spec fn reach(start: u16, len: u16) -> int {
    if start + len > u16::MAX {
        u16::MAX - start
    } else {
        len as int
    }
}

/// So many hundredths of a length, to the nearest whole.
pub open spec fn hundredths(len: int, percent: int) -> int {
    (len * percent + 50) / 100
}

/// The hundredths that the first `n` shares ask for.
pub open spec fn percent_before(shares: Seq<Share>, n: int) -> int
    decreases n,
{
    if n <= 0 {
        0
    } else {
        percent_before(shares, n - 1) + match shares[n - 1] {
            Share::Percentage(percent) => percent as int,
            _ => 0,
        }
    }
}

/// Whether shares are three percentages that make up no more than the whole.
pub open spec fn are_percentages(shares: Seq<Share>) -> bool {
    &&& shares.len() == 3
    &&& shares[0] is Percentage && shares[1] is Percentage && shares[2] is Percentage
    &&& percent_before(shares, 3) <= 100
}

/// Where a part begins, counted from top to bottom or from left to right.
pub open spec fn start_of(part: Area, top_down: bool) -> int {
    if top_down {
        part.y as int
    } else {
        part.x as int
    }
}

/// How long a part is in this direction.
pub open spec fn len_of(part: Area, top_down: bool) -> int {
    if top_down {
        part.height as int
    } else {
        part.width as int
    }
}

/// How far an area reaches in this direction.
pub open spec fn reach_of(area: Area, top_down: bool) -> int {
    if top_down {
        reach(area.y, area.height)
    } else {
        reach(area.x, area.width)
    }
}

/// Whether a part begins and ends at these hundredths of an area, from top to bottom or from
/// left to right.
pub open spec fn spans(part: Area, area: Area, top_down: bool, from: int, to: int) -> bool {
    let begin = start_of(area, top_down);
    let len = reach_of(area, top_down);
    &&& start_of(part, top_down) == begin + hundredths(len, from)
    &&& start_of(part, top_down) + len_of(part, top_down) == begin + hundredths(len, to)
}

/// Whether shares are two lengths with a minimum between them.
pub open spec fn is_framed(shares: Seq<Share>) -> bool {
    &&& shares.len() == 3
    &&& shares[0] is Length && shares[1] is Min && shares[2] is Length
}

/// Whether three parts follow one another from where an area begins.
pub open spec fn are_stacked(parts: Seq<Area>, area: Area, top_down: bool) -> bool {
    &&& start_of(parts[0], top_down) == start_of(area, top_down)
    &&& start_of(parts[1], top_down) == start_of(parts[0], top_down) + len_of(parts[0], top_down)
    &&& start_of(parts[2], top_down) == start_of(parts[1], top_down) + len_of(parts[1], top_down)
}

/// Whether the outer two of three parts have these lengths, and the one between them what an
/// area leaves.
pub open spec fn are_framed(
    parts: Seq<Area>,
    area: Area,
    top_down: bool,
    first: int,
    last: int,
) -> bool {
    &&& len_of(parts[0], top_down) == first
    &&& len_of(parts[1], top_down) == reach_of(area, top_down) - first - last
    &&& len_of(parts[2], top_down) == last
}

/// Whether the middle of three parts has this length, or all there is where that is less, and
/// the three use up an area.
pub open spec fn is_middle_first(
    parts: Seq<Area>,
    area: Area,
    top_down: bool,
    middle: int,
) -> bool {
    let len = reach_of(area, top_down);
    &&& len_of(parts[1], top_down) == if middle < len {
        middle
    } else {
        len
    }
    &&& len_of(parts[0], top_down) + len_of(parts[1], top_down) + len_of(parts[2], top_down)
        == len
}

/// `ratatui::layout::Layout::split`: divides an area into parts, from top to bottom or from left
/// to right. There is one part for each share, all lie within the area, and across the direction
/// of the division each reaches over the whole of it. Along it, three percentages that can all
/// be granted are: each part begins where the one before ends, and borders are rounded to the
/// nearest cell. Of two lengths with a minimum between them, the parts follow one another from
/// where the area begins; where there is room for all three, the outer ones have their lengths
/// and the inner one gets the rest. Where there is not, the inner one gets its minimum first,
/// provided that is less than 32768, beyond which `split` misreads it, and the outer ones share
/// what it leaves. How they share it, and what becomes of other shares, is left to a numeric
/// solver.
#[verifier::external_body]
fn split_area(area: Area, top_down: bool, shares: &[Share]) -> (r: Vec<Area>)
    ensures
        r@.len() == shares@.len(),
        forall|i: int|
            0 <= i < r@.len() ==> is_within(#[trigger] r@[i], area) && if top_down {
                r@[i].x == area.x && r@[i].width == area.width
            } else {
                r@[i].y == area.y && r@[i].height == area.height
            },
        are_percentages(shares@) ==> forall|i: int|
            0 <= i < 3 ==> spans(
                #[trigger] r@[i],
                area,
                top_down,
                percent_before(shares@, i),
                percent_before(shares@, i + 1),
            ),
        is_framed(shares@) ==> are_stacked(r@, area, top_down),
        is_framed(shares@) && shares@[0]->Length_0 + shares@[1]->Min_0 + shares@[2]->Length_0
            <= reach_of(area, top_down) ==> are_framed(
            r@,
            area,
            top_down,
            shares@[0]->Length_0 as int,
            shares@[2]->Length_0 as int,
        ),
        is_framed(shares@) && shares@[0]->Length_0 + shares@[1]->Min_0 + shares@[2]->Length_0
            > reach_of(area, top_down) && shares@[1]->Min_0 < 32768 ==> is_middle_first(
            r@,
            area,
            top_down,
            shares@[1]->Min_0 as int,
        ),
{
    let direction = if top_down {
        ratatui::layout::Direction::Vertical
    } else {
        ratatui::layout::Direction::Horizontal
    };
    let constraints = shares.iter().map(|share| match *share {
        Share::Length(n) => ratatui::layout::Constraint::Length(n),
        Share::Min(n) => ratatui::layout::Constraint::Min(n),
        Share::Percentage(n) => ratatui::layout::Constraint::Percentage(n),
    });
    let Area { x, y, width, height } = area;
    let rect = ratatui::layout::Rect { x, y, width, height };
    let layout = ratatui::layout::Layout::new(direction, constraints).split(rect);
    layout.iter().map(|r| Area { x: r.x, y: r.y, width: r.width, height: r.height }).collect()
}

/// The middle of an area: so many hundredths of its width and height, behind half of what is
/// left, in whole hundredths. With nothing asked for in either direction it is the whole area.
pub fn centered_rect(percent_x: u16, percent_y: u16, area: Area) -> (r: Area)
    requires
        percent_x == 0 || percent_y == 0 || (percent_x <= 100 && percent_y <= 100),
    ensures
        percent_x == 0 || percent_y == 0 ==> r == area,
        percent_x > 0 && percent_y > 0 ==> {
            let above = (100 - percent_y) / 2;
            let beside = (100 - percent_x) / 2;
            &&& spans(r, area, true, above, above + percent_y)
            &&& spans(r, area, false, beside, beside + percent_x)
        },
        is_within(r, area),
{
    proof {
        reveal_with_fuel(percent_before, 4);
    }
    if percent_x == 0 || percent_y == 0 {
        return area;
    }
    let above: u16 = (100 - percent_y) / 2;
    let rows = split_area(
        area,
        true,
        &[Share::Percentage(above), Share::Percentage(percent_y), Share::Percentage(above)],
    );
    let beside: u16 = (100 - percent_x) / 2;
    let columns = split_area(
        rows[1],
        false,
        &[Share::Percentage(beside), Share::Percentage(percent_x), Share::Percentage(beside)],
    );
    columns[1]
}

/// What a border leaves of an area.
pub open spec fn inside(area: Area) -> Area {
    Area {
        x: (area.x + 1) as u16,
        y: (area.y + 1) as u16,
        width: if area.width >= 2 {
            (area.width - 2) as u16
        } else {
            0
        },
        height: if area.height >= 2 {
            (area.height - 2) as u16
        } else {
            0
        },
    }
}

/// A border takes one cell at each side; of an area with less than two there is nothing left.
pub proof fn law_borders_take_one_cell(area: Area)
    requires
        area.x < u16::MAX,
        area.y < u16::MAX,
    ensures
        inside(area).x == area.x + 1,
        inside(area).y == area.y + 1,
        area.width >= 2 ==> inside(area).x + inside(area).width + 1 == area.x + area.width,
        area.width < 2 ==> inside(area).width == 0,
        area.height >= 2 ==> inside(area).y + inside(area).height + 1 == area.y + area.height,
        area.height < 2 ==> inside(area).height == 0,
{
}

/// What a border leaves of an area.
pub fn content_area(area: Area) -> (r: Area)
    requires
        area.x < u16::MAX,
        area.y < u16::MAX,
    ensures
        r == inside(area),
{
    Area {
        x: area.x + 1,
        y: area.y + 1,
        width: area.width.saturating_sub(2),
        height: area.height.saturating_sub(2),
    }
}

/// The three parts of the picker, one above the other.
#[derive(Debug, Clone, Copy, PartialEq, Eq, Structural)]
pub struct Parts {
    pub header: Area,
    pub list: Area,
    pub hints: Area,
}

/// The least height with room for all parts of the picker.
pub const FULL_HEIGHT: u16 = 8;

/// Divides the inside of the picker: a header of three rows, the list, and one row of hints, one
/// below the other and each as wide as the whole. The list gets what the others leave. With less
/// than the full height it gets four rows, or all there are; how the header and the hints share
/// what it leaves is left open.
pub fn divide(content: Area) -> (r: Parts)
    ensures
        r.header.x == content.x && r.header.width == content.width,
        r.list.x == content.x && r.list.width == content.width,
        r.hints.x == content.x && r.hints.width == content.width,
        is_within(r.header, content),
        is_within(r.list, content),
        is_within(r.hints, content),
        r.header.y == content.y,
        r.list.y == r.header.y + r.header.height,
        r.hints.y == r.list.y + r.list.height,
        reach(content.y, content.height) >= FULL_HEIGHT ==> {
            &&& r.header.height == 3
            &&& r.list.height == reach(content.y, content.height) - 4
            &&& r.hints.height == 1
        },
        reach(content.y, content.height) < FULL_HEIGHT ==> {
            &&& r.list.height == if 4 < reach(content.y, content.height) {
                4
            } else {
                reach(content.y, content.height)
            }
            &&& r.header.height + r.list.height + r.hints.height == reach(
                content.y,
                content.height,
            )
        },
{
    let parts = split_area(
        content,
        true,
        &[Share::Length(3), Share::Min(4), Share::Length(1)],
    );
    Parts { header: parts[0], list: parts[1], hints: parts[2] }
}

impl App {
    /// How much of the terminal the picker takes, in hundredths of its width and height: more
    /// while directories are chosen.
    pub fn extent(&self) -> (r: (u16, u16))
        ensures
            r == if self.mode is Zoxide {
                (84u16, 76u16)
            } else {
                (78u16, 72u16)
            },
    {
        match &self.mode {
            Mode::Zoxide => (84, 76),
            _ => (78, 72),
        }
    }
}

} // verus!
