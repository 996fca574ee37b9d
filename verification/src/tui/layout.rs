//! Areas of the terminal and their division into rows.

use vstd::prelude::*;

verus! {

/// A rectangle of terminal cells.
#[derive(Clone, Copy, PartialEq, Eq, Structural, Debug)]
pub struct Area {
    pub x: u16,
    pub y: u16,
    pub width: u16,
    pub height: u16,
}

/// What is asked of a row's height.
#[derive(Clone, Copy, PartialEq, Eq, Structural, Debug)]
pub enum Row {
    /// The row is this many cells high.
    Length(u16),
    /// The row is at least this many cells high.
    Min(u16),
}

/// The most rows that an area is divided into at once.
pub const MAX_ROWS: usize = 16;

/// Whether `part` spans the width of `area` and lies inside it.
pub open spec fn spans(area: Area, part: Area) -> bool {
    &&& part.x == area.x
    &&& part.width == area.width
    &&& area.y <= part.y
    &&& part.y + part.height <= area.y + area.height
}

/// Whether `upper` ends where `lower` begins, or above.
pub open spec fn above(upper: Area, lower: Area) -> bool {
    upper.y + upper.height <= lower.y
}

/// What holds of the rows that an area is divided into, whatever their
/// heights: each spans the width of the area and lies inside it, and they
/// run from the top down without overlap.
pub open spec fn divided(area: Area, rows: Seq<Area>) -> bool {
    &&& forall|i: int| 0 <= i < rows.len() ==> spans(area, #[trigger] rows[i])
    &&& forall|i: int, j: int| 0 <= i < j < rows.len() ==> above(#[trigger] rows[i], #[trigger] rows[j])
}

/// The height that a row asks for.
pub open spec fn asked(row: Row) -> int {
    match row {
        Row::Length(h) => h as int,
        Row::Min(h) => h as int,
    }
}

/// The heights that the first `n` rows ask for, together.
pub open spec fn asked_upto(rows: Seq<Row>, n: int) -> int
    decreases n,
{
    if n <= 0 {
        0
    } else {
        asked_upto(rows, n - 1) + asked(rows[n - 1])
    }
}

/// The heights of the rows among the first `n` that ask for a height of
/// their own, together.
pub open spec fn lengths_upto(rows: Seq<Row>, n: int) -> int
    decreases n,
{
    if n <= 0 {
        0
    } else {
        lengths_upto(rows, n - 1) + if rows[n - 1] is Length {
            asked(rows[n - 1])
        } else {
            0
        }
    }
}

/// The number of rows among the first `n` that ask for a least height.
pub open spec fn mins_upto(rows: Seq<Row>, n: int) -> int
    decreases n,
{
    if n <= 0 {
        0
    } else {
        mins_upto(rows, n - 1) + if rows[n - 1] is Min {
            1int
        } else {
            0int
        }
    }
}

/// Whether every row can have what it asks for: one row asks for a least
/// height and takes what the others leave, the others ask for a height of
/// their own, all that is asked for fits into the area, and the area ends
/// within the range of the coordinates.
pub open spec fn settles(area: Area, rows: Seq<Row>) -> bool {
    &&& mins_upto(rows, rows.len() as int) == 1
    &&& asked_upto(rows, rows.len() as int) <= area.height
    &&& area.y + area.height <= u16::MAX
}

/// The height of row `i` where the rows settle: its own where it asks
/// for one, and what the others leave where it asks for a least height.
pub open spec fn height_in(area: Area, rows: Seq<Row>, i: int) -> int {
    if rows[i] is Length {
        asked(rows[i])
    } else {
        area.height - lengths_upto(rows, rows.len() as int)
    }
}

/// Where row `i` begins where the rows settle: at the top of the area
/// for the first, and below the row in front for each other.
pub open spec fn top_in(area: Area, rows: Seq<Row>, i: int) -> int
    decreases i,
{
    if i <= 0 {
        area.y as int
    } else {
        top_in(area, rows, i - 1) + height_in(area, rows, i - 1)
    }
}

/// Whether the areas `out` are the rows `rows` settled in `area`: each
/// begins where the one in front ends, the first at the top, and each has
/// the height that is its own.
pub open spec fn settled(area: Area, rows: Seq<Row>, out: Seq<Area>) -> bool {
    forall|i: int|
        0 <= i < out.len() ==> (#[trigger] out[i]).y == top_in(area, rows, i) && out[i].height
            == height_in(area, rows, i)
}

/// Divides an area into rows, one for each of `rows`, from the top down.
/// This is `Layout::split` of ratatui for a vertical layout without
/// margin, with the default spacing and flex. Of what it returns this is
/// taken as given:
/// - there is one area for each row;
/// - each has the `x` and the `width` of the area that was divided, which
///   the layout copies into it;
/// - each lies inside that area: the layout requires of every row that it
///   begins and ends between the area's top and bottom, and that it does
///   not end above where it begins;
/// - no row begins above the end of a row in front of it: the layout holds
///   the gap between neighbours at the spacing, which is none, with a
///   strength that the wishes for the heights of up to `MAX_ROWS` rows
///   cannot outweigh together.
/// - where every row can have what it asks for, it has it: a row that
///   asks for a height has that height, which the layout's documentation
///   promises of `Constraint::Length`; the one row that asks for a least
///   height takes what the others leave, since the layout wishes such a
///   row to fill the area more strongly than it wishes the space behind
///   the last row to grow; and the rows begin at the top of the area and
///   follow one another without a gap, as the spacing asks.
/// Where not every row can have what it asks for, how high each row is
/// and where in the area it begins is the layout solver's word, and
/// nothing more is claimed of it.
#[verifier::external_body]
pub(crate) fn split_rows(area: Area, rows: &Vec<Row>) -> (out: Vec<Area>)
    requires
        rows.len() <= MAX_ROWS,
    ensures
        out.len() == rows.len(),
        divided(area, out@),
        settles(area, rows@) ==> settled(area, rows@, out@),
{
    let constraints: Vec<ratatui::layout::Constraint> = rows.iter().map(
        |r| match r {
            Row::Length(n) => ratatui::layout::Constraint::Length(*n),
            Row::Min(n) => ratatui::layout::Constraint::Min(*n),
        },
    ).collect();
    let rect = ratatui::layout::Rect { x: area.x, y: area.y, width: area.width, height: area.height };
    let layout = ratatui::layout::Layout::default().direction(ratatui::layout::Direction::Vertical);
    layout.constraints(constraints).split(rect).iter().map(
        |r| Area { x: r.x, y: r.y, width: r.width, height: r.height },
    ).collect()
}

} // verus!
