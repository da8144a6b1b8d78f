//! The calls into the `vt100` grid emulator, each behind a trusted item.
//! The grid's state is opaque here, but it is made by nothing else than
//! what was done to it: a grid is modelled by the list of operations it has
//! undergone, and what a query returns is named as a function of that list
//! and the query's arguments (the emulator is deterministic). What those
//! functions are on given operations is the emulator's business and is not
//! stated; only what holds of every answer is (sizes are never zero).
use vstd::prelude::*;
use crate::screen::{Color, MouseMode};

verus! {

/// A `vt100` parser: a grid and everything it was fed. Held in a private
/// field because Verus refuses a declaration of `vt100::Parser` itself (its
/// parameter is bounded by the crate's `Callbacks` trait). What it holds is
/// opaque; [`grid_ops`] names what was done to it.
#[verifier::external_body]
pub struct Grid {
    parser: vt100::Parser,
}

/// One thing done to a grid, in the order it was done.
pub enum GridOp {
    /// Made blank at `rows` by `cols`, keeping `scrollback` rows of history.
    Open { rows: u16, cols: u16, scrollback: usize },
    /// Fed these bytes.
    Feed(Seq<u8>),
    /// Resized to `rows` by `cols`.
    Resize { rows: u16, cols: u16 },
    /// The view moved this many rows back into the history.
    Scroll(usize),
}

/// Everything done to the grid since it was made, oldest first.
pub uninterp spec fn grid_ops(g: Grid) -> Seq<GridOp>;

/// The grid's `(rows, cols)` after `ops`.
pub uninterp spec fn vt100_size(ops: Seq<GridOp>) -> (u16, u16);

/// The cursor's `(row, col)` after `ops`.
pub uninterp spec fn vt100_cursor(ops: Seq<GridOp>) -> (u16, u16);

/// The text, wideness and wide-continuation of the cell at `(row, col)`
/// of the view after `ops`; `None` outside the grid.
pub uninterp spec fn vt100_cell_text(ops: Seq<GridOp>, row: u16, col: u16) -> Option<(Seq<char>, bool, bool)>;

/// The bold, dim, italic, underline and inverse flags of the cell at
/// `(row, col)` of the view after `ops`; `None` outside the grid.
pub uninterp spec fn vt100_cell_flags(ops: Seq<GridOp>, row: u16, col: u16) -> Option<(bool, bool, bool, bool, bool)>;

/// The foreground colour of the cell at `(row, col)` of the view after
/// `ops`; `None` outside the grid.
pub uninterp spec fn vt100_cell_fg(ops: Seq<GridOp>, row: u16, col: u16) -> Option<Color>;

/// The background colour of the cell at `(row, col)` of the view after
/// `ops`; `None` outside the grid.
pub uninterp spec fn vt100_cell_bg(ops: Seq<GridOp>, row: u16, col: u16) -> Option<Color>;

/// The view's offset into the history after `ops`.
pub uninterp spec fn vt100_scrollback(ops: Seq<GridOp>) -> usize;

/// The text of each row of the view after `ops`, `cols` columns wide.
pub uninterp spec fn vt100_rows(ops: Seq<GridOp>, cols: u16) -> Seq<Seq<char>>;

/// Whether the cursor is hidden after `ops`.
pub uninterp spec fn vt100_hide_cursor(ops: Seq<GridOp>) -> bool;

/// Whether the alternate screen is active after `ops`.
pub uninterp spec fn vt100_alternate_screen(ops: Seq<GridOp>) -> bool;

/// Whether bracketed paste is on after `ops`.
pub uninterp spec fn vt100_bracketed_paste(ops: Seq<GridOp>) -> bool;

/// Whether application cursor keys are on after `ops`.
pub uninterp spec fn vt100_application_cursor(ops: Seq<GridOp>) -> bool;

/// The mouse tracking mode after `ops`.
pub uninterp spec fn vt100_mouse_mode(ops: Seq<GridOp>) -> MouseMode;

/// The mouse coordinate encoding after `ops`.
pub uninterp spec fn vt100_mouse_encoding(ops: Seq<GridOp>) -> MouseEncoding;

/// How the application asked for mouse coordinates to be encoded.
#[derive(Debug, Clone, Copy, PartialEq, Eq, Structural)]
pub enum MouseEncoding {
    /// `ESC [ M Cb Cx Cy`, unusable past coordinate 222.
    Legacy,
    /// SGR (mode 1006): `ESC [ < b ; col ; row M`, unbounded.
    Sgr,
    /// UTF-8 (mode 1005): coordinates above 95 as two-byte UTF-8.
    Utf8,
}

/// `vt100::Parser::new`: a blank grid of `rows` by `cols` keeping
/// `scrollback` rows of history. The size must not be zero (the crate takes
/// `NonZeroU16`). Claimed: the new grid's operations are its opening alone.
#[verifier::external_body]
pub(crate) fn vt_new(rows: u16, cols: u16, scrollback: usize) -> (p: Grid)
    requires
        rows > 0,
        cols > 0,
    ensures
        grid_ops(p) == seq![GridOp::Open { rows, cols, scrollback }],
{
    let rows = std::num::NonZeroU16::new(rows).unwrap();
    let cols = std::num::NonZeroU16::new(cols).unwrap();
    Grid { parser: vt100::Parser::new(rows, cols, scrollback) }
}

/// `vt100::Parser::process`: feed bytes to the grid. Claimed: the grid's
/// operations grow by this feed.
#[verifier::external_body]
pub(crate) fn vt_process(g: &mut Grid, bytes: &[u8])
    ensures
        grid_ops(*final(g)) == grid_ops(*old(g)).push(GridOp::Feed(bytes@)),
{
    g.parser.process(bytes)
}

/// `vt100::Screen::set_size`: resize the grid; the size must not be zero.
/// Claimed: the grid's operations grow by this resize.
#[verifier::external_body]
pub(crate) fn vt_set_size(g: &mut Grid, rows: u16, cols: u16)
    requires
        rows > 0,
        cols > 0,
    ensures
        grid_ops(*final(g)) == grid_ops(*old(g)).push(GridOp::Resize { rows, cols }),
{
    let rows = std::num::NonZeroU16::new(rows).unwrap();
    let cols = std::num::NonZeroU16::new(cols).unwrap();
    g.parser.screen_mut().set_size(rows, cols)
}

/// `vt100::Screen::size`: `(rows, cols)`, neither of them zero (the crate
/// returns `NonZeroU16`). Claimed: the answer is [`vt100_size`] of the
/// grid's operations.
#[verifier::external_body]
pub(crate) fn vt_size(g: &Grid) -> (r: (u16, u16))
    ensures
        r == vt100_size(grid_ops(*g)),
        r.0 > 0,
        r.1 > 0,
{
    let (rows, cols) = g.parser.screen().size();
    (rows.get(), cols.get())
}

/// `vt100::Screen::cursor_position`: `(row, col)`. Claimed: the answer is
/// [`vt100_cursor`] of the grid's operations.
#[verifier::external_body]
pub(crate) fn vt_cursor(g: &Grid) -> (r: (u16, u16))
    ensures
        r == vt100_cursor(grid_ops(*g)),
{
    g.parser.screen().cursor_position()
}

/// `vt100::Screen::hide_cursor`. Claimed: the answer is
/// [`vt100_hide_cursor`] of the grid's operations.
#[verifier::external_body]
pub(crate) fn vt_hide_cursor(g: &Grid) -> (r: bool)
    ensures
        r == vt100_hide_cursor(grid_ops(*g)),
{
    g.parser.screen().hide_cursor()
}

/// `vt100::Screen::alternate_screen`. Claimed: the answer is
/// [`vt100_alternate_screen`] of the grid's operations.
#[verifier::external_body]
pub(crate) fn vt_alternate_screen(g: &Grid) -> (r: bool)
    ensures
        r == vt100_alternate_screen(grid_ops(*g)),
{
    g.parser.screen().alternate_screen()
}

/// `vt100::Screen::bracketed_paste`. Claimed: the answer is
/// [`vt100_bracketed_paste`] of the grid's operations.
#[verifier::external_body]
pub(crate) fn vt_bracketed_paste(g: &Grid) -> (r: bool)
    ensures
        r == vt100_bracketed_paste(grid_ops(*g)),
{
    g.parser.screen().bracketed_paste()
}

/// `vt100::Screen::application_cursor`. Claimed: the answer is
/// [`vt100_application_cursor`] of the grid's operations.
#[verifier::external_body]
pub(crate) fn vt_application_cursor(g: &Grid) -> (r: bool)
    ensures
        r == vt100_application_cursor(grid_ops(*g)),
{
    g.parser.screen().application_cursor()
}

/// `vt100::Screen::mouse_protocol_mode`, as this library's mode. Claimed:
/// the answer is [`vt100_mouse_mode`] of the grid's operations.
#[verifier::external_body]
pub(crate) fn vt_mouse_mode(g: &Grid) -> (r: MouseMode)
    ensures
        r == vt100_mouse_mode(grid_ops(*g)),
{
    match g.parser.screen().mouse_protocol_mode() {
        vt100::MouseProtocolMode::None => MouseMode::Disabled,
        vt100::MouseProtocolMode::Press => MouseMode::Press,
        vt100::MouseProtocolMode::PressRelease => MouseMode::PressRelease,
        vt100::MouseProtocolMode::ButtonMotion => MouseMode::ButtonMotion,
        vt100::MouseProtocolMode::AnyMotion => MouseMode::AnyMotion,
    }
}

/// `vt100::Screen::mouse_protocol_encoding`, as this library's encoding.
/// Claimed: the answer is [`vt100_mouse_encoding`] of the grid's operations.
#[verifier::external_body]
pub(crate) fn vt_mouse_encoding(g: &Grid) -> (r: MouseEncoding)
    ensures
        r == vt100_mouse_encoding(grid_ops(*g)),
{
    match g.parser.screen().mouse_protocol_encoding() {
        vt100::MouseProtocolEncoding::Default => MouseEncoding::Legacy,
        vt100::MouseProtocolEncoding::Sgr => MouseEncoding::Sgr,
        vt100::MouseProtocolEncoding::Utf8 => MouseEncoding::Utf8,
    }
}

/// `vt100::Cell::contents`, `is_wide` and `is_wide_continuation` of the
/// cell at `(row, col)`; `None` outside the grid. Claimed: the answer, the
/// text by its characters, is [`vt100_cell_text`] of the grid's operations
/// and the position.
#[verifier::external_body]
pub(crate) fn vt_cell_text(g: &Grid, row: u16, col: u16) -> (r: Option<(String, bool, bool)>)
    ensures
        match r {
            Some(t) => vt100_cell_text(grid_ops(*g), row, col) == Some((t.0@, t.1, t.2)),
            None => vt100_cell_text(grid_ops(*g), row, col) is None,
        },
{
    g.parser.screen().cell(row, col).map(|c| (c.contents().to_owned(), c.is_wide(), c.is_wide_continuation()))
}

/// `vt100::Cell::bold`, `dim`, `italic`, `underline` and `inverse` of the
/// cell at `(row, col)`; `None` outside the grid. Claimed: the answer is
/// [`vt100_cell_flags`] of the grid's operations and the position.
#[verifier::external_body]
pub(crate) fn vt_cell_flags(g: &Grid, row: u16, col: u16) -> (r: Option<(bool, bool, bool, bool, bool)>)
    ensures
        r == vt100_cell_flags(grid_ops(*g), row, col),
{
    g.parser.screen().cell(row, col).map(|c| (c.bold(), c.dim(), c.italic(), c.underline(), c.inverse()))
}

/// `vt100::Cell::fgcolor` of the cell at `(row, col)`, as this library's
/// colour; `None` outside the grid. Claimed: the answer is
/// [`vt100_cell_fg`] of the grid's operations and the position.
#[verifier::external_body]
pub(crate) fn vt_cell_fg(g: &Grid, row: u16, col: u16) -> (r: Option<Color>)
    ensures
        r == vt100_cell_fg(grid_ops(*g), row, col),
{
    g.parser.screen().cell(row, col).map(|c| match c.fgcolor() {
        vt100::Color::Default => Color::Default,
        vt100::Color::Idx(i) => Color::Indexed(i),
        vt100::Color::Rgb(r, g, b) => Color::Rgb(r, g, b),
    })
}

/// `vt100::Cell::bgcolor` of the cell at `(row, col)`, as this library's
/// colour; `None` outside the grid. Claimed: the answer is
/// [`vt100_cell_bg`] of the grid's operations and the position.
#[verifier::external_body]
pub(crate) fn vt_cell_bg(g: &Grid, row: u16, col: u16) -> (r: Option<Color>)
    ensures
        r == vt100_cell_bg(grid_ops(*g), row, col),
{
    g.parser.screen().cell(row, col).map(|c| match c.bgcolor() {
        vt100::Color::Default => Color::Default,
        vt100::Color::Idx(i) => Color::Indexed(i),
        vt100::Color::Rgb(r, g, b) => Color::Rgb(r, g, b),
    })
}

/// `vt100::Screen::set_scrollback`: move the view into the history; the
/// crate clamps the offset to the history's length. Claimed: the grid's
/// operations grow by this move.
#[verifier::external_body]
pub(crate) fn vt_set_scrollback(g: &mut Grid, rows: usize)
    ensures
        grid_ops(*final(g)) == grid_ops(*old(g)).push(GridOp::Scroll(rows)),
{
    g.parser.screen_mut().set_scrollback(rows)
}

/// `vt100::Screen::scrollback`: the view's offset into the history.
/// Claimed: the answer is [`vt100_scrollback`] of the grid's operations.
#[verifier::external_body]
pub(crate) fn vt_scrollback(g: &Grid) -> (r: usize)
    ensures
        r == vt100_scrollback(grid_ops(*g)),
{
    g.parser.screen().scrollback()
}

/// `vt100::Screen::rows`: the text of each row of the current view.
/// Claimed: the rows, by their characters, are [`vt100_rows`] of the grid's
/// operations and the width.
#[verifier::external_body]
pub(crate) fn vt_rows(g: &Grid, cols: u16) -> (r: Vec<String>)
    ensures
        r@.map_values(|s: String| s@) == vt100_rows(grid_ops(*g), cols),
{
    g.parser.screen().rows(0, cols).collect()
}

/// The current instant, from the monotonic clock.
#[verifier::external_body]
pub(crate) fn now() -> std::time::Instant {
    std::time::Instant::now()
}

/// `Instant::elapsed`: the time since `at`.
#[verifier::external_body]
pub(crate) fn elapsed(at: &std::time::Instant) -> std::time::Duration {
    at.elapsed()
}

/// `Duration::ZERO`.
#[verifier::external_body]
pub(crate) fn zero_duration() -> (d: std::time::Duration) {
    std::time::Duration::ZERO
}

/// `std::time::Instant`, the monotonic clock's reading.
#[verifier::external_type_specification]
#[verifier::external_body]
pub struct ExInstant(std::time::Instant);

} // verus!
