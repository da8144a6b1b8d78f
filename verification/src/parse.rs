//! The snapshot text format read back into a [`Screen`]: the header, the
//! grid one row per line, and optionally a blank line, `styles:` and its
//! span lines. What the text does not carry comes back default: the
//! out-of-band state, and the difference between an erased cell and a
//! written blank.
use vstd::prelude::*;
use crate::error::Error;
use crate::screen::{
    Cell, CellModel, Color, Screen, ScreenModel, Style, TermState, append_chars, blank_state, chars_equal, find_chars,
    first_occurrence, index_of, lemma_first_occurrence, lemma_index_of, plain_style, starts_with, trim_end,
    trimmed_len,
};
use crate::text::{chars_of, decimal_text, push_chars, push_decimal_text, push_str, string_of};
use crate::words::{
    all_digits, blank, is_blank, is_digit, lines_spec, parse_uint, split_at_each, split_on, text_lines, texts, trim,
    trim_range, uint_text, words, words_spec,
};

verus! {

/// How many columns `unicode-width` gives a character; `None` for a
/// control character.
pub uninterp spec fn char_width(c: char) -> Option<usize>;

/// A `str` as its `Debug` form prints it: quoted, with escapes.
pub uninterp spec fn debug_text(s: Seq<char>) -> Seq<char>;

/// A `char` as its `Debug` form prints it: quoted, with escapes.
pub uninterp spec fn char_debug(c: char) -> Seq<char>;

/// `UnicodeWidthChar::width` from `unicode-width`: the columns a character
/// takes on a terminal. Its source gives `None` exactly for the C0 and C1
/// controls and `Some(1)` for printable ASCII; the widths of the other
/// characters come from its Unicode tables and are named, not stated.
#[verifier::external_body]
fn width_of(c: char) -> (r: Option<usize>)
    ensures
        r == char_width(c),
        r is None <==> ((c as u32) < 0x20 || (0x7f <= (c as u32) && (c as u32) < 0xa0)),
        (0x20 <= (c as u32) && (c as u32) < 0x7f) ==> r == Some(1usize),
{
    unicode_width::UnicodeWidthChar::width(c)
}

/// `str`'s `Debug` formatting: the text quoted, with escapes.
#[verifier::external_body]
fn debug_str(s: &str) -> (r: String)
    ensures
        r@ == debug_text(s@),
{
    format!("{s:?}")
}

/// `char`'s `Debug` formatting: the character quoted, with escapes.
#[verifier::external_body]
fn debug_char(c: char) -> (r: String)
    ensures
        r@ == char_debug(c),
{
    format!("{c:?}")
}

/// A number in decimal.
pub open spec fn dec(n: int) -> Seq<char> {
    decimal_text(n as nat)
}

/// A diagnostic about the line numbered `number`, counting from one.
pub open spec fn line_msg(number: int, rest: Seq<char>) -> Seq<char> {
    "line "@ + dec(number) + ": "@ + rest
}

/// The header refused as a whole.
pub open spec fn header_bad(line: Seq<char>) -> Seq<char> {
    line_msg(1, "expected `size: COLSxROWS  cursor: ROW,COL` (or `cursor: hidden`), got "@ + debug_text(line))
}

/// The cursor part of the header: `hidden`, or `ROW,COL` inside the grid.
pub open spec fn cursor_spec(line: Seq<char>, cursor: Seq<char>, cols: nat, rows: nat) -> Result<
    (u16, u16, bool),
    Seq<char>,
> {
    if cursor == "hidden"@ {
        Ok((0u16, 0u16, false))
    } else {
        let ci = index_of(cursor, ',');
        if ci >= cursor.len() {
            Err(header_bad(line))
        } else {
            match (uint_text(cursor.take(ci), 65535), uint_text(cursor.skip(ci + 1), 65535)) {
                (Some(r), Some(c)) => if r >= rows || c >= cols {
                    Err(
                        line_msg(
                            1,
                            "cursor "@ + dec(r as int) + ","@ + dec(c as int) + " is outside the "@ + dec(cols as int)
                                + "x"@ + dec(rows as int) + " grid"@,
                        ),
                    )
                } else {
                    Ok((r as u16, c as u16, true))
                },
                _ => Err(header_bad(line)),
            }
        }
    }
}

/// `size: <cols>x<rows>  cursor: <row>,<col>` or `cursor: hidden`, read
/// as `(cols, rows, (cursor row, cursor column, visible))`.
pub open spec fn header_spec(line: Seq<char>) -> Result<(u16, u16, (u16, u16, bool)), Seq<char>> {
    if !starts_with(line, "size: "@) {
        Err(header_bad(line))
    } else {
        let rest = line.skip("size: "@.len() as int);
        match first_occurrence(rest, "cursor:"@) {
            None => Err(header_bad(line)),
            Some(k) => {
                let size = trim(rest.take(k));
                let cursor = trim(rest.skip(k + "cursor:"@.len()));
                let xi = index_of(size, 'x');
                if xi >= size.len() {
                    Err(header_bad(line))
                } else {
                    match (uint_text(size.take(xi), 65535), uint_text(size.skip(xi + 1), 65535)) {
                        (Some(c), Some(r)) => if c == 0 || r == 0 {
                            Err(
                                line_msg(
                                    1,
                                    "a screen has at least one column and one row, got "@ + dec(c as int) + "x"@
                                        + dec(r as int),
                                ),
                            )
                        } else {
                            match cursor_spec(line, cursor, c, r) {
                                Ok(cur) => Ok((c as u16, r as u16, cur)),
                                Err(e) => Err(e),
                            }
                        },
                        _ => Err(header_bad(line)),
                    }
                }
            },
        }
    }
}

/// Whether `v` is exactly `w`.
fn is_word(v: &[char], w: &str) -> (r: bool)
    ensures
        r == (v@ == w@),
{
    let b = chars_of(w);
    if v.len() != b.len() {
        return false;
    }
    chars_equal(v, b.as_slice())
}

/// Whether `v` starts with `p`.
fn has_prefix(v: &[char], p: &str) -> (r: bool)
    ensures
        r == starts_with(v@, p@),
{
    let b = chars_of(p);
    if b.len() > v.len() {
        return false;
    }
    let head = vstd::slice::slice_subrange(v, 0, b.len());
    assert(head@ =~= v@.take(b@.len() as int));
    chars_equal(head, b.as_slice())
}

/// The text of `v` as a `String`, quoted as `Debug` prints it.
pub(crate) fn quoted(v: &[char]) -> (r: String)
    ensures
        r@ == debug_text(v@),
{
    let s = string_of(v);
    debug_str(s.as_str())
}

/// `line N: <rest>`.
fn line_message(number: u128, rest: &str) -> (r: String)
    ensures
        r@ == line_msg(number as int, rest@),
{
    let mut out = String::new();
    push_str(&mut out, "line ");
    crate::text::push_decimal_wide(&mut out, number);
    push_str(&mut out, ": ");
    push_str(&mut out, rest);
    out
}

fn header_error(line: &[char]) -> (r: Error)
    ensures
        r == Error::Parse(r->Parse_0),
        r->Parse_0@ == header_bad(line@),
{
    let mut rest = String::new();
    push_str(&mut rest, "expected `size: COLSxROWS  cursor: ROW,COL` (or `cursor: hidden`), got ");
    let q = quoted(line);
    push_str(&mut rest, q.as_str());
    let m = line_message(1, rest.as_str());
    assert(m@ =~= header_bad(line@));
    Error::Parse(m)
}

fn parse_cursor(line: &[char], cursor: &[char], cols: u16, rows: u16) -> (r: Result<(u16, u16, bool), Error>)
    ensures
        match (r, cursor_spec(line@, cursor@, cols as nat, rows as nat)) {
            (Ok(a), Ok(b)) => a == b,
            (Err(Error::Parse(m)), Err(b)) => m@ == b,
            _ => false,
        },
{
    if is_word(cursor, "hidden") {
        return Ok((0, 0, false));
    }
    let len = cursor.len();
    let mut ci: usize = 0;
    while ci < len && cursor[ci] != ','
        invariant
            ci <= len == cursor@.len(),
            forall|j: int| 0 <= j < ci ==> cursor@[j] != ',',
        decreases len - ci,
    {
        ci = ci + 1;
    }
    proof {
        lemma_index_of(cursor@, ',');
        crate::screen::lemma_index_of_unique(cursor@, ',', ci as int);
    }
    if ci == len {
        return Err(header_error(line));
    }
    let a = parse_uint(vstd::slice::slice_subrange(cursor, 0, ci), 65535);
    let b = parse_uint(vstd::slice::slice_subrange(cursor, ci + 1, len), 65535);
    proof {
        assert(cursor@.subrange(0, ci as int) =~= cursor@.take(ci as int));
        assert(cursor@.subrange(ci + 1, len as int) =~= cursor@.skip(ci + 1));
    }
    match (a, b) {
        (Some(r), Some(c)) => {
            if r >= rows as u32 || c >= cols as u32 {
                let mut rest = String::new();
                push_str(&mut rest, "cursor ");
                push_decimal_text(&mut rest, r as u64);
                push_str(&mut rest, ",");
                push_decimal_text(&mut rest, c as u64);
                push_str(&mut rest, " is outside the ");
                push_decimal_text(&mut rest, cols as u64);
                push_str(&mut rest, "x");
                push_decimal_text(&mut rest, rows as u64);
                push_str(&mut rest, " grid");
                let m = line_message(1, rest.as_str());
                return Err(Error::Parse(m));
            }
            Ok((r as u16, c as u16, true))
        },
        _ => Err(header_error(line)),
    }
}

/// Read the header line: `(cols, rows, (cursor row, cursor column,
/// visible))`, or the error naming line 1.
pub fn parse_header(line: &[char]) -> (r: Result<(u16, u16, (u16, u16, bool)), Error>)
    ensures
        match (r, header_spec(line@)) {
            (Ok(a), Ok(b)) => a == b,
            (Err(Error::Parse(m)), Err(b)) => m@ == b,
            _ => false,
        },
{
    if !has_prefix(line, "size: ") {
        return Err(header_error(line));
    }
    let p = chars_of("size: ");
    let len = line.len();
    let rest = vstd::slice::slice_subrange(line, p.len(), len);
    assert(rest@ =~= line@.skip("size: "@.len() as int));
    let marker = chars_of("cursor:");
    let k = match find_chars(rest, marker.as_slice()) {
        Some(k) => {
            proof {
                lemma_first_occurrence(rest@, marker@, k as int);
            }
            k
        },
        None => {
            return Err(header_error(line));
        },
    };
    let size_all = vstd::slice::slice_subrange(rest, 0, k);
    let (sa, sb) = trim_range(size_all);
    let size = vstd::slice::slice_subrange(size_all, sa, sb);
    let cur_all = vstd::slice::slice_subrange(rest, k + marker.len(), rest.len());
    let (ca, cb) = trim_range(cur_all);
    let cursor = vstd::slice::slice_subrange(cur_all, ca, cb);
    proof {
        assert(size_all@ =~= rest@.take(k as int));
        assert(cur_all@ =~= rest@.skip(k + "cursor:"@.len()));
    }
    let slen = size.len();
    let mut xi: usize = 0;
    while xi < slen && size[xi] != 'x'
        invariant
            xi <= slen == size@.len(),
            forall|j: int| 0 <= j < xi ==> size@[j] != 'x',
        decreases slen - xi,
    {
        xi = xi + 1;
    }
    proof {
        crate::screen::lemma_index_of_unique(size@, 'x', xi as int);
    }
    if xi == slen {
        return Err(header_error(line));
    }
    let c = parse_uint(vstd::slice::slice_subrange(size, 0, xi), 65535);
    let r = parse_uint(vstd::slice::slice_subrange(size, xi + 1, slen), 65535);
    proof {
        assert(size@.subrange(0, xi as int) =~= size@.take(xi as int));
        assert(size@.subrange(xi + 1, slen as int) =~= size@.skip(xi + 1));
    }
    match (c, r) {
        (Some(c), Some(r)) => {
            if c == 0 || r == 0 {
                let mut rest_msg = String::new();
                push_str(&mut rest_msg, "a screen has at least one column and one row, got ");
                push_decimal_text(&mut rest_msg, c as u64);
                push_str(&mut rest_msg, "x");
                push_decimal_text(&mut rest_msg, r as u64);
                let m = line_message(1, rest_msg.as_str());
                return Err(Error::Parse(m));
            }
            match parse_cursor(line, cursor, c as u16, r as u16) {
                Ok(cur) => Ok((c as u16, r as u16, cur)),
                Err(e) => Err(e),
            }
        },
        _ => Err(header_error(line)),
    }
}


/// A blank cell: no text, the default style.
pub open spec fn blank_cell() -> CellModel {
    CellModel { contents: Seq::empty(), style: plain_style(), wide: false, continuation: false }
}

/// The columns a character of the grid takes; a control character none.
pub open spec fn glyph_width(c: char) -> int {
    match char_width(c) {
        Some(w) => w as int,
        None => 0,
    }
}

/// The columns a space takes on a terminal, as `unicode-width` gives it:
/// one. The snapshot round-trip laws rest on this fact.
pub fn space_width() -> (r: usize)
    ensures
        r == 1,
        glyph_width(' ') == 1,
{
    assert((' ' as u32) == 0x20u32);
    match width_of(' ') {
        Some(w) => w,
        None => 1,
    }
}

/// One character of a grid line placed on the row built so far, whose next
/// free column is `col`: a zero-width character joins the cell before it,
/// a wide one takes two cells.
pub open spec fn row_step(
    st: Result<(Seq<CellModel>, int), Seq<char>>,
    ch: char,
    number: int,
    cols: int,
) -> Result<(Seq<CellModel>, int), Seq<char>> {
    match st {
        Err(e) => Err(e),
        Ok((cells, col)) => {
            let w = glyph_width(ch);
            if w == 0 {
                if col > 0 && cells[col - 1].contents.len() > 0 {
                    let prev = cells[col - 1];
                    Ok(
                        (
                            cells.update(
                                col - 1,
                                CellModel {
                                    contents: prev.contents.push(ch),
                                    style: prev.style,
                                    wide: prev.wide,
                                    continuation: prev.continuation,
                                },
                            ),
                            col,
                        ),
                    )
                } else {
                    Err(line_msg(number, char_debug(ch) + " has no character to combine with"@))
                }
            } else if col + w > cols {
                Err(line_msg(number, "the row is wider than the "@ + dec(cols) + " columns the header declares"@))
            } else {
                let placed = cells.update(
                    col,
                    CellModel { contents: seq![ch], style: plain_style(), wide: w == 2, continuation: false },
                );
                Ok(
                    (
                        if w == 2 {
                            placed.update(
                                col + 1,
                                CellModel {
                                    contents: Seq::empty(),
                                    style: plain_style(),
                                    wide: false,
                                    continuation: true,
                                },
                            )
                        } else {
                            placed
                        },
                        col + w,
                    ),
                )
            }
        },
    }
}

/// The first `n` characters of a grid line placed on a blank row.
pub open spec fn row_fold(line: Seq<char>, n: int, number: int, cols: int) -> Result<(Seq<CellModel>, int), Seq<char>>
    decreases n,
{
    if n <= 0 {
        Ok((Seq::new(cols as nat, |i: int| blank_cell()), 0))
    } else {
        row_step(row_fold(line, n - 1, number, cols), line[n - 1], number, cols)
    }
}

/// The cells of the grid line numbered `number`, `cols` wide.
pub open spec fn row_spec(line: Seq<char>, number: int, cols: int) -> Result<Seq<CellModel>, Seq<char>> {
    match row_fold(line, line.len() as int, number, cols) {
        Ok((cells, _)) => Ok(cells),
        Err(e) => Err(e),
    }
}

/// The rows of the first `n` grid lines; a line past the last row must be
/// blank.
pub open spec fn grid_fold(grid: Seq<Seq<char>>, n: int, cols: int, rows: int) -> Result<Seq<CellModel>, Seq<char>>
    decreases n,
{
    if n <= 0 {
        Ok(Seq::empty())
    } else {
        match grid_fold(grid, n - 1, cols, rows) {
            Err(e) => Err(e),
            Ok(cells) => {
                let index = n - 1;
                let line = grid[index];
                if index >= rows {
                    if is_blank(line) {
                        Ok(cells)
                    } else {
                        Err(
                            line_msg(
                                index + 2,
                                "expected `styles:` or the end of the text after the "@ + dec(rows) + "-row grid, got "@
                                    + debug_text(line),
                            ),
                        )
                    }
                } else {
                    match row_spec(line, index + 2, cols) {
                        Err(e) => Err(e),
                        Ok(r) => Ok(cells + r),
                    }
                }
            },
        }
    }
}

/// The whole grid from its lines, missing rows blank.
pub open spec fn grid_spec(grid: Seq<Seq<char>>, cols: int, rows: int) -> Result<Seq<CellModel>, Seq<char>> {
    match grid_fold(grid, grid.len() as int, cols, rows) {
        Ok(cells) => Ok(cells + Seq::new((cols * rows - cells.len()) as nat, |i: int| blank_cell())),
        Err(e) => Err(e),
    }
}

/// The plain values of a vector of cells.
pub open spec fn cell_views(v: Seq<Cell>) -> Seq<CellModel> {
    v.map_values(|c: Cell| c@)
}

fn blank_cells(n: usize) -> (r: Vec<Cell>)
    ensures
        cell_views(r@) == Seq::new(n as nat, |i: int| blank_cell()),
{
    let mut v: Vec<Cell> = Vec::new();
    let mut i: usize = 0;
    while i < n
        invariant
            i <= n,
            v@.len() == i,
            cell_views(v@) == Seq::new(i as nat, |j: int| blank_cell()),
        decreases n - i,
    {
        let ghost before = v@;
        let c = Cell::new(String::new(), Style::default(), false, false);
        assert(c@ == blank_cell());
        v.push(c);
        assert(v@ == before.push(c));
        i = i + 1;
        assert(cell_views(v@) =~= Seq::new(i as nat, |j: int| blank_cell())) by {
            assert forall|j: int| 0 <= j < i implies #[trigger] cell_views(v@)[j] == blank_cell() by {
                if j < i - 1 {
                    assert(cell_views(before)[j] == blank_cell());
                    assert(v@[j] == before[j]);
                }
            }
        }
    }
    v
}

proof fn lemma_row_fold_err(line: Seq<char>, k: int, n: int, number: int, cols: int)
    requires
        0 <= k <= n,
        row_fold(line, k, number, cols) is Err,
    ensures
        row_fold(line, n, number, cols) == row_fold(line, k, number, cols),
    decreases n - k,
{
    if k < n {
        lemma_row_fold_err(line, k, n - 1, number, cols);
    }
}

fn char_error(number: u128, ch: char) -> (r: Error)
    ensures
        r is Parse,
        r->Parse_0@ == line_msg(number as int, char_debug(ch) + " has no character to combine with"@),
{
    let mut rest = debug_char(ch);
    push_str(&mut rest, " has no character to combine with");
    Error::Parse(line_message(number, rest.as_str()))
}

fn wide_error(number: u128, cols: u16) -> (r: Error)
    ensures
        r is Parse,
        r->Parse_0@ == line_msg(number as int, "the row is wider than the "@ + dec(cols as int) + " columns the header declares"@),
{
    let mut rest = String::new();
    push_str(&mut rest, "the row is wider than the ");
    push_decimal_text(&mut rest, cols as u64);
    push_str(&mut rest, " columns the header declares");
    Error::Parse(line_message(number, rest.as_str()))
}

/// One grid line into `cols` cells: zero-width characters join the cell
/// before them, a wide character takes two.
pub fn parse_row(line: &[char], number: u128, cols: u16) -> (r: Result<Vec<Cell>, Error>)
    ensures
        match (r, row_spec(line@, number as int, cols as int)) {
            (Ok(a), Ok(b)) => cell_views(a@) == b,
            (Err(Error::Parse(m)), Err(b)) => m@ == b,
            _ => false,
        },
{
    let mut cells = blank_cells(cols as usize);
    assert(cells@.len() == cell_views(cells@).len());
    let mut col: usize = 0;
    let mut i: usize = 0;
    while i < line.len()
        invariant
            i <= line@.len(),
            cells@.len() == cols,
            col <= cols,
            row_fold(line@, i as int, number as int, cols as int) == Ok::<(Seq<CellModel>, int), Seq<char>>(
                (cell_views(cells@), col as int),
            ),
        decreases line@.len() - i,
    {
        let ch = line[i];
        let ghost before = cell_views(cells@);
        let w: usize = match width_of(ch) {
            Some(w) => w,
            None => 0,
        };
        if w == 0 {
            if col > 0 && !cells[col - 1].contents().is_empty() {
                let mut cell = cells[col - 1].clone();
                cell.push_contents(ch);
                cells.set(col - 1, cell);
                assert(cell_views(cells@) =~= before.update(
                    col - 1,
                    CellModel {
                        contents: before[col - 1].contents.push(ch),
                        style: before[col - 1].style,
                        wide: before[col - 1].wide,
                        continuation: before[col - 1].continuation,
                    },
                ));
            } else {
                proof {
                    lemma_row_fold_err(line@, i + 1, line@.len() as int, number as int, cols as int);
                }
                return Err(char_error(number, ch));
            }
        } else {
            if w > cols as usize - col {
                proof {
                    lemma_row_fold_err(line@, i + 1, line@.len() as int, number as int, cols as int);
                }
                return Err(wide_error(number, cols));
            }
            let mut text = String::new();
            crate::text::push_char(&mut text, ch);
            cells.set(col, Cell::new(text, Style::default(), w == 2, false));
            let ghost placed = cell_views(cells@);
            assert(placed =~= before.update(
                col as int,
                CellModel { contents: seq![ch], style: plain_style(), wide: w == 2, continuation: false },
            ));
            if w == 2 {
                cells.set(col + 1, Cell::new(String::new(), Style::default(), false, true));
                assert(cell_views(cells@) =~= placed.update(
                    col + 1,
                    CellModel { contents: Seq::empty(), style: plain_style(), wide: false, continuation: true },
                ));
            }
            col = col + w;
        }
        i = i + 1;
    }
    proof {
        assert(line@.len() == i);
    }
    Ok(cells)
}


pub proof fn lemma_row_len(line: Seq<char>, n: int, number: int, cols: int)
    requires
        0 <= n <= line.len(),
        cols >= 0,
    ensures
        row_fold(line, n, number, cols) matches Ok((c, col)) ==> c.len() == cols && 0 <= col <= cols,
    decreases n,
{
    if n > 0 {
        lemma_row_len(line, n - 1, number, cols);
    }
}

proof fn lemma_grid_fold_err(grid: Seq<Seq<char>>, k: int, n: int, cols: int, rows: int)
    requires
        0 <= k <= n,
        grid_fold(grid, k, cols, rows) is Err,
    ensures
        grid_fold(grid, n, cols, rows) == grid_fold(grid, k, cols, rows),
    decreases n - k,
{
    if k < n {
        lemma_grid_fold_err(grid, k, n - 1, cols, rows);
    }
}

fn extra_line_error(line: &[char], number: u128, rows: u16) -> (r: Error)
    ensures
        r is Parse,
        r->Parse_0@ == line_msg(
            number as int,
            "expected `styles:` or the end of the text after the "@ + dec(rows as int) + "-row grid, got "@ + debug_text(
                line@,
            ),
        ),
{
    let mut rest = String::new();
    push_str(&mut rest, "expected `styles:` or the end of the text after the ");
    push_decimal_text(&mut rest, rows as u64);
    push_str(&mut rest, "-row grid, got ");
    let q = quoted(line);
    push_str(&mut rest, q.as_str());
    Error::Parse(line_message(number, rest.as_str()))
}

/// The grid lines into `cols * rows` cells: each line one row, missing
/// rows blank, lines past the last row allowed only when blank.
pub fn parse_grid(grid: &[Vec<char>], cols: u16, rows: u16) -> (r: Result<Vec<Cell>, Error>)
    ensures
        r matches Ok(a) ==> a@.len() == cols * rows,
        match (r, grid_spec(texts(grid@), cols as int, rows as int)) {
            (Ok(a), Ok(b)) => cell_views(a@) == b,
            (Err(Error::Parse(m)), Err(b)) => m@ == b,
            _ => false,
        },
{
    let ghost g = texts(grid@);
    let mut cells: Vec<Cell> = Vec::new();
    assert(cell_views(cells@) =~= Seq::<CellModel>::empty());
    let mut index: usize = 0;
    let mut filled: usize = 0;
    while index < grid.len()
        invariant
            index <= grid@.len(),
            g == texts(grid@),
            filled <= rows,
            filled <= index,
            index < rows ==> filled == index,
            cells@.len() == filled * cols,
            grid_fold(g, index as int, cols as int, rows as int) == Ok::<Seq<CellModel>, Seq<char>>(cell_views(cells@)),
        decreases grid@.len() - index,
    {
        let line = &grid[index];
        assert(line@ == g[index as int]);
        let number = index as u128 + 2;
        if index >= rows as usize {
            if !blank(line.as_slice()) {
                proof {
                    lemma_grid_fold_err(g, index + 1, g.len() as int, cols as int, rows as int);
                }
                return Err(extra_line_error(line.as_slice(), number, rows));
            }
        } else {
            match parse_row(line.as_slice(), number, cols) {
                Ok(row) => {
                    let mut row = row;
                    let ghost before = cell_views(cells@);
                    let ghost rv = cell_views(row@);
                    assert(rv.len() == cols) by {
                        assert(row_spec(g[index as int], index + 2, cols as int) == Ok::<Seq<CellModel>, Seq<char>>(rv));
                        crate::parse::lemma_row_len(g[index as int], g[index as int].len() as int, index + 2, cols as int);
                    }
                    cells.append(&mut row);
                    assert(cell_views(cells@) =~= before + rv);
                    proof {
                        assert((filled + 1) * cols == filled * cols + cols) by (nonlinear_arith);
                    }
                    filled = filled + 1;
                },
                Err(e) => {
                    proof {
                        lemma_grid_fold_err(g, index + 1, g.len() as int, cols as int, rows as int);
                    }
                    return Err(e);
                },
            }
        }
        index = index + 1;
    }
    proof {
        assert(g.len() == index);
        assert(filled * cols <= rows * cols) by (nonlinear_arith)
            requires filled <= rows;
    }
    proof {
        assert((cols as int) * (rows as int) <= 0xffff * 0xffff) by (nonlinear_arith)
            requires cols <= 0xffff, rows <= 0xffff;
    }
    let total = cols as usize * rows as usize;
    let pad = blank_cells(total - cells.len());
    let mut pad = pad;
    let ghost before = cell_views(cells@);
    cells.append(&mut pad);
    assert(cell_views(cells@) =~= before + Seq::new((cols * rows - before.len()) as nat, |i: int| blank_cell()));
    Ok(cells)
}


/// The value of a hexadecimal digit.
pub open spec fn hex_value(c: char) -> Option<nat> {
    if '0' <= c <= '9' {
        Some((c as nat - 48) as nat)
    } else if 'a' <= c <= 'f' {
        Some((c as nat - 87) as nat)
    } else if 'A' <= c <= 'F' {
        Some((c as nat - 55) as nat)
    } else {
        None
    }
}

/// What `u8::from_str_radix` reads from two characters in base 16: an
/// optional `+` and one digit, or two digits.
pub open spec fn channel(a: char, b: char) -> Option<u8> {
    if a == '+' {
        match hex_value(b) {
            Some(v) => Some(v as u8),
            None => None,
        }
    } else {
        match (hex_value(a), hex_value(b)) {
            (Some(x), Some(y)) => Some((x * 16 + y) as u8),
            _ => None,
        }
    }
}

/// Whether every character of `s` is ASCII.
pub open spec fn is_ascii_text(s: Seq<char>) -> bool {
    forall|i: int| 0 <= i < s.len() ==> (#[trigger] s[i] as u32) < 0x80
}

/// A colour of the `styles:` block: `#rrggbb`, or a palette index.
pub open spec fn colour_text(t: Seq<char>) -> Option<Color> {
    if t.len() > 0 && t[0] == '#' {
        let h = t.drop_first();
        if h.len() == 6 && is_ascii_text(h) {
            match (channel(h[0], h[1]), channel(h[2], h[3]), channel(h[4], h[5])) {
                (Some(r), Some(g), Some(b)) => Some(Color::Rgb(r, g, b)),
                _ => None,
            }
        } else {
            None
        }
    } else {
        match uint_text(t, 255) {
            Some(v) => Some(Color::Indexed(v as u8)),
            None => None,
        }
    }
}

fn hex_digit(c: char) -> (r: Option<u32>)
    ensures
        match hex_value(c) {
            Some(v) => r == Some(v as u32),
            None => r is None,
        },
{
    if '0' <= c && c <= '9' {
        Some(c as u32 - 48)
    } else if 'a' <= c && c <= 'f' {
        Some(c as u32 - 87)
    } else if 'A' <= c && c <= 'F' {
        Some(c as u32 - 55)
    } else {
        None
    }
}

fn parse_channel(a: char, b: char) -> (r: Option<u8>)
    ensures
        r == channel(a, b),
{
    if a == '+' {
        match hex_digit(b) {
            Some(v) => Some(v as u8),
            None => None,
        }
    } else {
        match (hex_digit(a), hex_digit(b)) {
            (Some(x), Some(y)) => Some((x * 16 + y) as u8),
            _ => None,
        }
    }
}

/// `#rrggbb` or a palette index.
pub fn parse_color(t: &[char]) -> (r: Option<Color>)
    ensures
        r == colour_text(t@),
{
    let len = t.len();
    if len > 0 && t[0] == '#' {
        if len != 7 {
            return None;
        }
        let mut i: usize = 1;
        while i < 7
            invariant
                1 <= i <= 7,
                len == 7 == t@.len(),
                forall|j: int| 1 <= j < i ==> (#[trigger] t@[j] as u32) < 0x80,
            decreases 7 - i,
        {
            if t[i] as u32 >= 0x80 {
                proof {
                    assert(t@.drop_first()[i - 1] == t@[i as int]);
                }
                return None;
            }
            i = i + 1;
        }
        proof {
            let h = t@.drop_first();
            assert forall|j: int| 0 <= j < h.len() implies (#[trigger] h[j] as u32) < 0x80 by {
                assert(h[j] == t@[j + 1]);
            }
        }
        let r = parse_channel(t[1], t[2]);
        let g = parse_channel(t[3], t[4]);
        let b = parse_channel(t[5], t[6]);
        match (r, g, b) {
            (Some(r), Some(g), Some(b)) => Some(Color::Rgb(r, g, b)),
            _ => None,
        }
    } else {
        match parse_uint(t, 255) {
            Some(v) => Some(Color::Indexed(v as u8)),
            None => None,
        }
    }
}

/// One token of a span applied to the style built so far.
pub open spec fn style_token(st: Style, tok: Seq<char>) -> Result<Style, Seq<char>> {
    if tok == "bold"@ {
        Ok(Style { bold: true, ..st })
    } else if tok == "dim"@ {
        Ok(Style { dim: true, ..st })
    } else if tok == "italic"@ {
        Ok(Style { italic: true, ..st })
    } else if tok == "underline"@ {
        Ok(Style { underline: true, ..st })
    } else if tok == "blink"@ {
        Ok(Style { blink: true, ..st })
    } else if tok == "reverse"@ {
        Ok(Style { reverse: true, ..st })
    } else if tok == "conceal"@ {
        Ok(Style { conceal: true, ..st })
    } else if tok == "strikethrough"@ {
        Ok(Style { strikethrough: true, ..st })
    } else if starts_with(tok, "fg="@) {
        match colour_text(tok.skip("fg="@.len() as int)) {
            Some(c) => Ok(Style { fg: c, ..st }),
            None => Err("bad colour"@),
        }
    } else if starts_with(tok, "bg="@) {
        match colour_text(tok.skip("bg="@.len() as int)) {
            Some(c) => Ok(Style { bg: c, ..st }),
            None => Err("bad colour"@),
        }
    } else {
        Err("unknown style token"@)
    }
}

/// The style the tokens from index 1 to `n` of a span build from the
/// default; token 0 is the span's range.
pub open spec fn style_fold(toks: Seq<Seq<char>>, n: int) -> Result<Style, Seq<char>>
    decreases n,
{
    if n <= 1 {
        Ok(plain_style())
    } else {
        match style_fold(toks, n - 1) {
            Err(e) => Err(e),
            Ok(st) => style_token(st, toks[n - 1]),
        }
    }
}

fn apply_token(st: Style, tok: &[char]) -> (r: Result<Style, &'static str>)
    ensures
        match (r, style_token(st, tok@)) {
            (Ok(a), Ok(b)) => a == b,
            (Err(a), Err(b)) => a@ == b,
            _ => false,
        },
{
    let mut st = st;
    if is_word(tok, "bold") {
        st.bold = true;
    } else if is_word(tok, "dim") {
        st.dim = true;
    } else if is_word(tok, "italic") {
        st.italic = true;
    } else if is_word(tok, "underline") {
        st.underline = true;
    } else if is_word(tok, "blink") {
        st.blink = true;
    } else if is_word(tok, "reverse") {
        st.reverse = true;
    } else if is_word(tok, "conceal") {
        st.conceal = true;
    } else if is_word(tok, "strikethrough") {
        st.strikethrough = true;
    } else if has_prefix(tok, "fg=") {
        let p = chars_of("fg=");
        let rest = vstd::slice::slice_subrange(tok, p.len(), tok.len());
        assert(rest@ =~= tok@.skip("fg="@.len() as int));
        match parse_color(rest) {
            Some(c) => {
                st.fg = c;
            },
            None => {
                return Err("bad colour");
            },
        }
    } else if has_prefix(tok, "bg=") {
        let p = chars_of("bg=");
        let rest = vstd::slice::slice_subrange(tok, p.len(), tok.len());
        assert(rest@ =~= tok@.skip("bg="@.len() as int));
        match parse_color(rest) {
            Some(c) => {
                st.bg = c;
            },
            None => {
                return Err("bad colour");
            },
        }
    } else {
        return Err("unknown style token");
    }
    Ok(st)
}


/// `cells` with those from `from` up to `end` (exclusive) given `st`.
pub open spec fn restyle(cells: Seq<CellModel>, from: int, end: int, st: Style) -> Seq<CellModel> {
    Seq::new(
        cells.len(),
        |i: int|
            if from <= i < end {
                CellModel { contents: cells[i].contents, style: st, wide: cells[i].wide, continuation: cells[i].continuation }
            } else {
                cells[i]
            },
    )
}

/// One span of a `styles:` line applied to the cells of row `row`: its
/// range `START-END` (or one column), then its style tokens. An error is
/// what was wrong with it.
pub open spec fn span_spec(span: Seq<char>, row: int, cols: int, cells: Seq<CellModel>) -> Result<
    Seq<CellModel>,
    Seq<char>,
> {
    let toks = words_spec(span);
    if toks.len() == 0 {
        Err("empty span"@)
    } else {
        let range = toks[0];
        let h = index_of(range, '-');
        let a = if h < range.len() {
            uint_text(range.take(h), 65535)
        } else {
            uint_text(range, 65535)
        };
        let b = if h < range.len() {
            uint_text(range.skip(h + 1), 65535)
        } else {
            uint_text(range, 65535)
        };
        match (a, b) {
            (Some(a), Some(b)) => if b < a || b >= cols {
                Err("span is outside the grid"@)
            } else {
                match style_fold(toks, toks.len() as int) {
                    Err(e) => Err(e),
                    Ok(st) => Ok(restyle(cells, row * cols + a, row * cols + b + 1, st)),
                }
            },
            _ => Err("bad column"@),
        }
    }
}

/// The first `n` spans of a line applied in order.
pub open spec fn spans_fold(spans: Seq<Seq<char>>, n: int, row: int, cols: int, cells: Seq<CellModel>) -> Result<
    Seq<CellModel>,
    Seq<char>,
>
    decreases n,
{
    if n <= 0 {
        Ok(cells)
    } else {
        match spans_fold(spans, n - 1, row, cols, cells) {
            Err(e) => Err(e),
            Ok(c) => span_spec(spans[n - 1], row, cols, c),
        }
    }
}

/// A diagnostic about a line of the `styles:` block.
pub open spec fn style_bad(number: int, line: Seq<char>, what: Seq<char>) -> Seq<char> {
    line_msg(number, what + " in "@ + debug_text(line))
}

/// One line of the `styles:` block, numbered `number`, applied to the
/// cells: `(none)` and blank lines change nothing, else `ROW: SPANS` with
/// the spans separated by `; `.
#[verifier::opaque]
pub open spec fn style_line(raw: Seq<char>, number: int, cols: int, rows: int, cells: Seq<CellModel>) -> Result<
    Seq<CellModel>,
    Seq<char>,
> {
    let line = trim_end(raw);
    if line.len() == 0 || line == "(none)"@ {
        Ok(cells)
    } else {
        match first_occurrence(line, ": "@) {
            None => Err(style_bad(number, line, "expected `ROW: SPANS`"@)),
            Some(k) => match uint_text(trim(line.take(k)), 65535) {
                None => Err(style_bad(number, line, "bad row number"@)),
                Some(row) => if row >= rows {
                    Err(style_bad(number, line, "row is outside the grid"@))
                } else {
                    let spans = split_on(line.skip(k + ": "@.len()), "; "@);
                    match spans_fold(spans, spans.len() as int, row as int, cols, cells) {
                        Ok(c) => Ok(c),
                        Err(w) => Err(style_bad(number, line, w)),
                    }
                },
            },
        }
    }
}

/// The first `n` lines of the `styles:` block applied in order; the first
/// is numbered `first`.
pub open spec fn styles_fold(
    lines: Seq<Seq<char>>,
    n: int,
    first: int,
    cols: int,
    rows: int,
    cells: Seq<CellModel>,
) -> Result<Seq<CellModel>, Seq<char>>
    decreases n,
{
    if n <= 0 {
        Ok(cells)
    } else {
        match styles_fold(lines, n - 1, first, cols, rows, cells) {
            Err(e) => Err(e),
            Ok(c) => style_line(lines[n - 1], first + n - 1, cols, rows, c),
        }
    }
}

fn restyle_cells(cells: &mut Vec<Cell>, from: usize, end: usize, st: Style)
    requires
        from <= end <= old(cells)@.len(),
    ensures
        final(cells)@.len() == old(cells)@.len(),
        cell_views(final(cells)@) == restyle(cell_views(old(cells)@), from as int, end as int, st),
{
    let ghost start = cell_views(cells@);
    let mut k = from;
    assert(cell_views(cells@) =~= restyle(start, from as int, from as int, st));
    while k < end
        invariant
            from <= k <= end <= cells@.len(),
            start.len() == cells@.len(),
            cell_views(cells@) == restyle(start, from as int, k as int, st),
        decreases end - k,
    {
        let ghost before = cell_views(cells@);
        let mut cell = cells[k].clone();
        assert(cell@ == before[k as int]);
        cell.set_style(st);
        let ghost cv = cell@;
        cells.set(k, cell);
        assert(cell_views(cells@) =~= before.update(k as int, cv));
        k = k + 1;
        assert(cell_views(cells@) =~= restyle(start, from as int, k as int, st));
    }
}

proof fn lemma_style_fold_err(toks: Seq<Seq<char>>, k: int, n: int)
    requires
        1 <= k <= n,
        style_fold(toks, k) is Err,
    ensures
        style_fold(toks, n) == style_fold(toks, k),
    decreases n - k,
{
    if k < n {
        lemma_style_fold_err(toks, k, n - 1);
    }
}

/// Apply one span to row `row`; the error says what was wrong with it.
fn apply_span(span: &[char], row: u16, cols: u16, rows: u16, cells: &mut Vec<Cell>) -> (r: Result<(), &'static str>)
    requires
        row < rows,
        old(cells)@.len() == cols * rows,
    ensures
        final(cells)@.len() == old(cells)@.len(),
        match (r, span_spec(span@, row as int, cols as int, cell_views(old(cells)@))) {
            (Ok(_), Ok(b)) => cell_views(final(cells)@) == b,
            (Err(a), Err(b)) => a@ == b,
            _ => false,
        },
{
    let toks = words(span);
    let ghost tv = texts(toks@);
    if toks.len() == 0 {
        return Err("empty span");
    }
    let range = toks[0].as_slice();
    assert(range@ == tv[0]);
    let rlen = range.len();
    let mut h: usize = 0;
    while h < rlen && range[h] != '-'
        invariant
            h <= rlen == range@.len(),
            forall|j: int| 0 <= j < h ==> range@[j] != '-',
        decreases rlen - h,
    {
        h = h + 1;
    }
    proof {
        crate::screen::lemma_index_of_unique(range@, '-', h as int);
    }
    let (a, b) = if h < rlen {
        let a = parse_uint(vstd::slice::slice_subrange(range, 0, h), 65535);
        let b = parse_uint(vstd::slice::slice_subrange(range, h + 1, rlen), 65535);
        proof {
            assert(range@.subrange(0, h as int) =~= range@.take(h as int));
            assert(range@.subrange(h + 1, rlen as int) =~= range@.skip(h + 1));
        }
        (a, b)
    } else {
        (parse_uint(range, 65535), parse_uint(range, 65535))
    };
    let (a, b) = match (a, b) {
        (Some(a), Some(b)) => (a, b),
        _ => {
            return Err("bad column");
        },
    };
    if b < a || b >= cols as u32 {
        return Err("span is outside the grid");
    }
    let ghost old_cells = cell_views(cells@);
    let ghost lo = row * cols + a;
    let ghost hi = row * cols + b + 1;
    assert(span_spec(span@, row as int, cols as int, old_cells) == match style_fold(tv, tv.len() as int) {
        Err(e) => Err(e),
        Ok(s2) => Ok(restyle(old_cells, lo, hi, s2)),
    });
    let mut st = Style::default();
    let mut i: usize = 1;
    while i < toks.len()
        invariant
            1 <= i <= toks@.len(),
            tv == texts(toks@),
            tv.len() == toks@.len(),
            cells@ == old(cells)@,
            old_cells == cell_views(old(cells)@),
            style_fold(tv, i as int) == Ok::<Style, Seq<char>>(st),
            span_spec(span@, row as int, cols as int, old_cells) == match style_fold(tv, tv.len() as int) {
                Err(e) => Err(e),
                Ok(s2) => Ok(restyle(old_cells, lo, hi, s2)),
            },
        decreases toks@.len() - i,
    {
        assert(toks[i as int]@ == tv[i as int]);
        match apply_token(st, toks[i].as_slice()) {
            Ok(next) => {
                st = next;
            },
            Err(e) => {
                proof {
                    assert(style_fold(tv, i + 1) == style_token(st, tv[i as int]));
                    lemma_style_fold_err(tv, i + 1, tv.len() as int);
                }
                return Err(e);
            },
        }
        i = i + 1;
    }
    let total = cells.len();
    proof {
        assert((row as int) * (cols as int) + (b as int) + 1 <= (cols as int) * (rows as int)) by (nonlinear_arith)
            requires row < rows, b < cols;
        assert(total == (cols as int) * (rows as int));
    }
    let base = row as usize * cols as usize;
    restyle_cells(cells, base + a as usize, base + b as usize + 1, st);
    Ok(())
}

proof fn lemma_spans_fold_err(spans: Seq<Seq<char>>, k: int, n: int, row: int, cols: int, cells: Seq<CellModel>)
    requires
        0 <= k <= n,
        spans_fold(spans, k, row, cols, cells) is Err,
    ensures
        spans_fold(spans, n, row, cols, cells) == spans_fold(spans, k, row, cols, cells),
    decreases n - k,
{
    if k < n {
        lemma_spans_fold_err(spans, k, n - 1, row, cols, cells);
    }
}

fn style_error(number: u128, line: &[char], what: &str) -> (r: Error)
    ensures
        r is Parse,
        r->Parse_0@ == style_bad(number as int, line@, what@),
{
    let mut rest = String::new();
    push_str(&mut rest, what);
    push_str(&mut rest, " in ");
    let q = quoted(line);
    push_str(&mut rest, q.as_str());
    Error::Parse(line_message(number, rest.as_str()))
}

/// Apply the spans of one line to row `row`; the error says what was
/// wrong with the first bad span.
fn apply_spans(spans: &Vec<Vec<char>>, row: u16, cols: u16, rows: u16, cells: &mut Vec<Cell>) -> (r: Result<
    (),
    &'static str,
>)
    requires
        row < rows,
        old(cells)@.len() == cols * rows,
    ensures
        final(cells)@.len() == old(cells)@.len(),
        match (r, spans_fold(texts(spans@), spans@.len() as int, row as int, cols as int, cell_views(old(cells)@))) {
            (Ok(_), Ok(b)) => cell_views(final(cells)@) == b,
            (Err(a), Err(b)) => a@ == b,
            _ => false,
        },
{
    let ghost sv = texts(spans@);
    let ghost start = cell_views(cells@);
    let mut i: usize = 0;
    while i < spans.len()
        invariant
            i <= spans@.len(),
            sv == texts(spans@),
            sv.len() == spans@.len(),
            row < rows,
            cells@.len() == cols * rows,
            old(cells)@.len() == cols * rows,
            start == cell_views(old(cells)@),
            spans_fold(sv, i as int, row as int, cols as int, start) == Ok::<Seq<CellModel>, Seq<char>>(
                cell_views(cells@),
            ),
        decreases spans@.len() - i,
    {
        assert(spans[i as int]@ == sv[i as int]);
        match apply_span(spans[i].as_slice(), row, cols, rows, cells) {
            Ok(()) => {},
            Err(w) => {
                proof {
                    lemma_spans_fold_err(sv, i + 1, sv.len() as int, row as int, cols as int, start);
                }
                return Err(w);
            },
        }
        i = i + 1;
    }
    Ok(())
}

/// Apply one line of the `styles:` block.
fn apply_style_line(raw: &[char], number: u128, cols: u16, rows: u16, cells: &mut Vec<Cell>) -> (r: Result<(), Error>)
    requires
        old(cells)@.len() == cols * rows,
    ensures
        final(cells)@.len() == old(cells)@.len(),
        match (r, style_line(raw@, number as int, cols as int, rows as int, cell_views(old(cells)@))) {
            (Ok(_), Ok(b)) => cell_views(final(cells)@) == b,
            (Err(Error::Parse(m)), Err(b)) => m@ == b,
            _ => false,
        },
{
    let ghost start = cell_views(cells@);
    let n = trimmed_len(raw);
    let line = vstd::slice::slice_subrange(raw, 0, n);
    assert(line@ =~= trim_end(raw@));
    if n == 0 || is_word(line, "(none)") {
        proof {
            reveal(style_line);
        }
        return Ok(());
    }
    let sep = chars_of(": ");
    let k = match find_chars(line, sep.as_slice()) {
        Some(k) => {
            proof {
                lemma_first_occurrence(line@, sep@, k as int);
            }
            k
        },
        None => {
            proof {
                reveal(style_line);
            }
            return Err(style_error(number, line, "expected `ROW: SPANS`"));
        },
    };
    let head = vstd::slice::slice_subrange(line, 0, k);
    assert(head@ =~= line@.take(k as int));
    let (ha, hb) = trim_range(head);
    let row = match parse_uint(vstd::slice::slice_subrange(head, ha, hb), 65535) {
        Some(row) => row,
        None => {
            proof {
                reveal(style_line);
            }
            return Err(style_error(number, line, "bad row number"));
        },
    };
    if row >= rows as u32 {
        proof {
            reveal(style_line);
        }
        return Err(style_error(number, line, "row is outside the grid"));
    }
    let tail = vstd::slice::slice_subrange(line, k + sep.len(), line.len());
    assert(tail@ =~= line@.skip(k + ": "@.len()));
    let semi = chars_of("; ");
    proof {
        reveal_strlit("; ");
    }
    let spans = split_at_each(tail, semi.as_slice());
    let ghost sv = texts(spans@);
    proof {
        reveal(style_line);
        assert(style_line(raw@, number as int, cols as int, rows as int, start) == match spans_fold(
            sv,
            sv.len() as int,
            row as int,
            cols as int,
            start,
        ) {
            Ok(c) => Ok(c),
            Err(w) => Err(style_bad(number as int, line@, w)),
        });
    }
    match apply_spans(&spans, row as u16, cols, rows, cells) {
        Ok(()) => Ok(()),
        Err(w) => Err(style_error(number, line, w)),
    }
}

proof fn lemma_styles_fold_err(
    lines: Seq<Seq<char>>,
    k: int,
    n: int,
    first: int,
    cols: int,
    rows: int,
    cells: Seq<CellModel>,
)
    requires
        0 <= k <= n,
        styles_fold(lines, k, first, cols, rows, cells) is Err,
    ensures
        styles_fold(lines, n, first, cols, rows, cells) == styles_fold(lines, k, first, cols, rows, cells),
    decreases n - k,
{
    if k < n {
        lemma_styles_fold_err(lines, k, n - 1, first, cols, rows, cells);
    }
}

/// Apply the lines of the `styles:` block, the first numbered `first`.
pub fn parse_styles(lines: &[Vec<char>], first: u128, cols: u16, rows: u16, cells: &mut Vec<Cell>) -> (r: Result<
    (),
    Error,
>)
    requires
        old(cells)@.len() == cols * rows,
        first + lines@.len() < u128::MAX,
    ensures
        final(cells)@.len() == old(cells)@.len(),
        match (r, styles_fold(texts(lines@), lines@.len() as int, first as int, cols as int, rows as int, cell_views(old(cells)@))) {
            (Ok(_), Ok(b)) => cell_views(final(cells)@) == b,
            (Err(Error::Parse(m)), Err(b)) => m@ == b,
            _ => false,
        },
{
    let ghost lv = texts(lines@);
    let ghost start = cell_views(cells@);
    let mut i: usize = 0;
    while i < lines.len()
        invariant
            i <= lines@.len(),
            lv == texts(lines@),
            first + lines@.len() < u128::MAX,
            cells@.len() == cols * rows,
            old(cells)@.len() == cols * rows,
            start == cell_views(old(cells)@),
            styles_fold(lv, i as int, first as int, cols as int, rows as int, start) == Ok::<Seq<CellModel>, Seq<char>>(
                cell_views(cells@),
            ),
        decreases lines@.len() - i,
    {
        assert(lines[i as int]@ == lv[i as int]);
        match apply_style_line(lines[i].as_slice(), first + i as u128, cols, rows, cells) {
            Ok(()) => {},
            Err(e) => {
                proof {
                    lemma_styles_fold_err(lv, i + 1, lv.len() as int, first as int, cols as int, rows as int, start);
                }
                return Err(e);
            },
        }
        i = i + 1;
    }
    Ok(())
}


/// A line the `styles:` block may hold: blank, `(none)`, or `ROW: …`.
pub open spec fn span_line(l: Seq<char>) -> bool {
    let t = trim_end(l);
    t.len() == 0 || t == "(none)"@ || match first_occurrence(t, ": "@) {
        Some(k) => k > 0 && all_digits(t.take(k)),
        None => false,
    }
}

/// Whether line `i` of the body is the `styles:` marker: `styles:` after a
/// blank line (or first), followed by nothing but span lines.
pub open spec fn marker_at(body: Seq<Seq<char>>, i: int) -> bool {
    &&& trim_end(body[i]) == "styles:"@
    &&& (i == 0 || is_blank(body[i - 1]))
    &&& forall|j: int| i < j < body.len() ==> span_line(#[trigger] body[j])
}

/// The first marker at or after line `i` of the body.
pub open spec fn marker_from(body: Seq<Seq<char>>, i: int) -> Option<int>
    decreases body.len() - i,
{
    if i < 0 || i >= body.len() {
        None
    } else if marker_at(body, i) {
        Some(i)
    } else {
        marker_from(body, i + 1)
    }
}

/// The saved screen `text` read back: the screen, or the message of the
/// first thing wrong with it.
pub open spec fn parse_spec(text: Seq<char>) -> Result<ScreenModel, Seq<char>> {
    let lines = lines_spec(text);
    if lines.len() == 0 {
        Err("empty input; expected a `size: …` header"@)
    } else {
        match header_spec(lines[0]) {
            Err(e) => Err(e),
            Ok(h) => {
                let cols = h.0;
                let rows = h.1;
                let body = lines.skip(1);
                let m = marker_from(body, 0);
                let grid = match m {
                    Some(at) => body.take(if at > 0 { at - 1 } else { 0 }),
                    None => body,
                };
                let styles = match m {
                    Some(at) => body.skip(at + 1),
                    None => Seq::empty(),
                };
                let first = match m {
                    Some(at) => at + 3,
                    None => body.len() + 2int,
                };
                match grid_spec(grid, cols as int, rows as int) {
                    Err(e) => Err(e),
                    Ok(cells) => match styles_fold(styles, styles.len() as int, first, cols as int, rows as int, cells) {
                        Err(e) => Err(e),
                        Ok(styled) => Ok(
                            ScreenModel {
                                cols,
                                rows,
                                cursor_row: h.2.0,
                                cursor_col: h.2.1,
                                cursor_visible: h.2.2,
                                cells: styled,
                                state: blank_state(),
                            },
                        ),
                    },
                }
            },
        }
    }
}

fn is_span_line(l: &[char]) -> (r: bool)
    ensures
        r == span_line(l@),
{
    let n = trimmed_len(l);
    let t = vstd::slice::slice_subrange(l, 0, n);
    assert(t@ =~= trim_end(l@));
    if n == 0 || is_word(t, "(none)") {
        return true;
    }
    let sep = chars_of(": ");
    match find_chars(t, sep.as_slice()) {
        Some(k) => {
            proof {
                lemma_first_occurrence(t@, sep@, k as int);
            }
            if k == 0 {
                return false;
            }
            assert(span_line(l@) == all_digits(t@.take(k as int)));
            let mut j: usize = 0;
            while j < k
                invariant
                    j <= k <= t@.len(),
                    forall|q: int| 0 <= q < j ==> is_digit(#[trigger] t@[q]),
                    span_line(l@) == all_digits(t@.take(k as int)),
                decreases k - j,
            {
                if t[j] < '0' || t[j] > '9' {
                    assert(t@.take(k as int)[j as int] == t@[j as int]);
                    return false;
                }
                j = j + 1;
            }
            assert forall|q: int| 0 <= q < k implies is_digit(#[trigger] t@.take(k as int)[q]) by {
                assert(t@.take(k as int)[q] == t@[q]);
            }
            true
        },
        None => false,
    }
}

/// Where the `styles:` marker is in the body, if anywhere.
fn find_marker(body: &[Vec<char>]) -> (r: Option<usize>)
    ensures
        match r {
            Some(i) => i < body@.len() && marker_from(texts(body@), 0) == Some(i as int),
            None => marker_from(texts(body@), 0) is None,
        },
{
    let ghost b = texts(body@);
    let n = body.len();
    let mut i: usize = 0;
    while i < n
        invariant
            i <= n == body@.len() == b.len(),
            b == texts(body@),
            marker_from(b, 0) == marker_from(b, i as int),
        decreases n - i,
    {
        assert(body[i as int]@ == b[i as int]);
        let line = body[i].as_slice();
        let t = trimmed_len(line);
        let head = vstd::slice::slice_subrange(line, 0, t);
        assert(head@ =~= trim_end(b[i as int]));
        let mut found = is_word(head, "styles:");
        if found && i > 0 {
            assert(body[i - 1]@ == b[i - 1]);
            found = blank(body[i - 1].as_slice());
        }
        if found {
            let mut j = i + 1;
            while j < n && is_span_line(body[j].as_slice())
                invariant
                    i < j <= n == body@.len() == b.len(),
                    b == texts(body@),
                    forall|q: int| i < q < j ==> span_line(#[trigger] b[q]),
                decreases n - j,
            {
                assert(body[j as int]@ == b[j as int]);
                j = j + 1;
            }
            if j < n {
                assert(body[j as int]@ == b[j as int]);
                found = false;
            }
        }
        if found {
            assert(marker_at(b, i as int));
            return Some(i);
        }
        proof {
            assert(!marker_at(b, i as int));
        }
        i = i + 1;
    }
    None
}

impl Screen {
    /// Read a saved screen back: the header, the grid one row per line with
    /// trailing blanks stripped (missing rows and columns blank), and
    /// optionally a blank line, `styles:` and its span lines (or `(none)`).
    /// Anything else is an [`Error::Parse`] naming the line. The
    /// out-of-band state comes back default.
    pub fn parse(text: &str) -> (r: Result<Screen, Error>)
        ensures
            match (r, parse_spec(text@)) {
                (Ok(s), Ok(m)) => s@ == m,
                (Err(Error::Parse(msg)), Err(m)) => msg@ == m,
                _ => false,
            },
    {
        let t = chars_of(text);
        let lines = text_lines(t.as_slice());
        let ghost lv = texts(lines@);
        if lines.len() == 0 {
            let mut m = String::new();
            push_str(&mut m, "empty input; expected a `size: …` header");
            return Err(Error::Parse(m));
        }
        assert(lines[0]@ == lv[0]);
        let (cols, rows, cursor) = match parse_header(lines[0].as_slice()) {
            Ok(h) => h,
            Err(e) => {
                return Err(e);
            },
        };
        let body = vstd::slice::slice_subrange(lines.as_slice(), 1, lines.len());
        assert(texts(body@) =~= lv.skip(1));
        let marker = find_marker(body);
        let (grid, styles, first) = match marker {
            Some(at) => {
                let g_end = if at > 0 {
                    at - 1
                } else {
                    0
                };
                let grid = vstd::slice::slice_subrange(body, 0, g_end);
                let styles = vstd::slice::slice_subrange(body, at + 1, body.len());
                assert(texts(grid@) =~= lv.skip(1).take(g_end as int));
                assert(texts(styles@) =~= lv.skip(1).skip(at + 1));
                (grid, styles, at as u128 + 3)
            },
            None => {
                let styles = vstd::slice::slice_subrange(body, body.len(), body.len());
                assert(texts(styles@) =~= Seq::<Seq<char>>::empty());
                (body, styles, body.len() as u128 + 2)
            },
        };
        let mut cells = match parse_grid(grid, cols, rows) {
            Ok(c) => c,
            Err(e) => {
                return Err(e);
            },
        };
        proof {
            assert(cells@.len() == cell_views(cells@).len());
            assert(styles@.len() <= body@.len());
        }
        match parse_styles(styles, first, cols, rows, &mut cells) {
            Ok(()) => {},
            Err(e) => {
                return Err(e);
            },
        }
        let state = TermState::default();
        let screen = Screen::from_parts(cols, rows, cursor.0, cursor.1, cursor.2, cells, state);
        Ok(screen)
    }
}

/// What a row built so far keeps: its width, the free columns blank, every
/// wide cell followed by its empty continuation before the next free
/// column, and every continuation empty.
pub open spec fn row_shaped(cells: Seq<CellModel>, col: int, cols: int) -> bool {
    &&& cells.len() == cols
    &&& 0 <= col <= cols
    &&& forall|j: int| col <= j < cols ==> #[trigger] cells[j] == blank_cell()
    &&& forall|j: int|
        0 <= j < cols && (#[trigger] cells[j]).wide ==> j + 1 < col && cells[j + 1].continuation && cells[j
            + 1].contents.len() == 0
    &&& forall|j: int| 0 <= j < cols && (#[trigger] cells[j]).continuation ==> cells[j].contents.len() == 0
}

/// Every row built from a grid line keeps its shape.
proof fn lemma_row_fold_shaped(line: Seq<char>, n: int, number: int, cols: int)
    requires
        0 <= cols,
        n <= line.len(),
    ensures
        row_fold(line, n, number, cols) matches Ok((cells, col)) ==> row_shaped(cells, col, cols),
    decreases n,
{
    if n > 0 {
        lemma_row_fold_shaped(line, n - 1, number, cols);
    }
}

/// In a parsed grid line, every wide cell is followed, inside the row, by
/// its continuation cell, which is empty.
pub proof fn lemma_parsed_wide_cells(line: Seq<char>, number: int, cols: int)
    requires
        0 <= cols,
    ensures
        row_spec(line, number, cols) matches Ok(cells) ==> forall|j: int|
            0 <= j < cols && (#[trigger] cells[j]).wide ==> j + 1 < cols && cells[j + 1].continuation && cells[j
                + 1].contents.len() == 0,
{
    lemma_row_fold_shaped(line, line.len() as int, number, cols);
}

/// Two cell sequences with the same layout: the same length, and each cell
/// the same text, wideness and continuation (styles may differ).
pub open spec fn same_layout(a: Seq<CellModel>, b: Seq<CellModel>) -> bool {
    &&& a.len() == b.len()
    &&& forall|i: int|
        0 <= i < a.len() ==> (#[trigger] b[i]).contents == a[i].contents && b[i].wide == a[i].wide && b[i].continuation
            == a[i].continuation
}

/// Applying spans only restyles cells.
proof fn lemma_spans_keep_layout(spans: Seq<Seq<char>>, n: int, row: int, cols: int, cells: Seq<CellModel>)
    ensures
        spans_fold(spans, n, row, cols, cells) matches Ok(c) ==> same_layout(cells, c),
    decreases n,
{
    if n > 0 {
        lemma_spans_keep_layout(spans, n - 1, row, cols, cells);
    }
}

/// Applying the lines of a `styles:` block only restyles cells.
proof fn lemma_styles_keep_layout(
    lines: Seq<Seq<char>>,
    n: int,
    first: int,
    cols: int,
    rows: int,
    cells: Seq<CellModel>,
)
    ensures
        styles_fold(lines, n, first, cols, rows, cells) matches Ok(c) ==> same_layout(cells, c),
    decreases n,
{
    if n > 0 {
        lemma_styles_keep_layout(lines, n - 1, first, cols, rows, cells);
        if let Ok(c) = styles_fold(lines, n - 1, first, cols, rows, cells) {
            reveal(style_line);
            let raw = lines[n - 1];
            let line = trim_end(raw);
            if !(line.len() == 0 || line == "(none)"@) {
                if let Some(k) = first_occurrence(line, ": "@) {
                    if let Some(row) = uint_text(trim(line.take(k)), 65535) {
                        let spans = split_on(line.skip(k + ": "@.len()), "; "@);
                        lemma_spans_keep_layout(spans, spans.len() as int, row as int, cols, c);
                    }
                }
            }
        }
    }
}

/// The cell at `(r, c)` of cells laid out `cols` to a row.
pub open spec fn laid(cells: Seq<CellModel>, cols: int, r: int, c: int) -> CellModel {
    cells[r * cols + c]
}

/// Positions of a grid laid out row by row.
proof fn lemma_row_offsets(r: int, c: int, k: int, cols: int)
    requires
        0 <= r,
        0 <= c < cols,
        0 <= k,
    ensures
        r < k ==> r * cols + c + 1 <= k * cols,
        r >= k ==> r * cols + c >= k * cols,
        r == k ==> r * cols + c - k * cols == c,
{
    if r < k {
        assert(r * cols + cols <= k * cols) by (nonlinear_arith)
            requires
                r + 1 <= k,
                0 <= cols,
        ;
    }
    if r >= k {
        assert(r * cols >= k * cols) by (nonlinear_arith)
            requires
                r >= k,
                0 <= cols,
        ;
    }
}

/// The grid rows read so far: `cols` cells per row read, and every wide
/// cell followed, inside its row, by its empty continuation.
proof fn lemma_grid_fold_wide(grid: Seq<Seq<char>>, n: int, cols: int, rows: int)
    requires
        0 <= n <= grid.len(),
        0 <= cols,
        0 <= rows,
    ensures
        grid_fold(grid, n, cols, rows) matches Ok(cells) ==> {
            &&& cells.len() == cols * (if n < rows { n } else { rows })
            &&& forall|r: int, c: int|
                0 <= r && 0 <= c < cols && r * cols + c < cells.len() && (#[trigger] laid(cells, cols, r, c)).wide
                    ==> c + 1 < cols && laid(cells, cols, r, c + 1).continuation && laid(
                    cells,
                    cols,
                    r,
                    c + 1,
                ).contents.len() == 0
        },
    decreases n,
{
    if n > 0 {
        lemma_grid_fold_wide(grid, n - 1, cols, rows);
        let index = n - 1;
        if let Ok(prev) = grid_fold(grid, n - 1, cols, rows) {
            if index < rows {
                let line = grid[index];
                lemma_parsed_wide_cells(line, index + 2, cols);
                lemma_row_len(line, line.len() as int, index + 2, cols);
                if let Ok(row) = row_spec(line, index + 2, cols) {
                    let cells = prev + row;
                    assert(prev.len() == cols * index);
                    assert(cols * index + cols == cols * n) by (nonlinear_arith)
                        requires
                            n == index + 1,
                    ;
                    assert forall|r: int, c: int|
                        0 <= r && 0 <= c < cols && r * cols + c < cells.len() && (#[trigger] laid(
                            cells,
                            cols,
                            r,
                            c,
                        )).wide implies c + 1 < cols && laid(cells, cols, r, c + 1).continuation && laid(
                        cells,
                        cols,
                        r,
                        c + 1,
                    ).contents.len() == 0 by {
                        lemma_row_offsets(r, c, index, cols);
                        assert(cols * index == index * cols) by (nonlinear_arith);
                        if r < index {
                            assert(laid(cells, cols, r, c) == laid(prev, cols, r, c));
                            if c + 1 < cols {
                                lemma_row_offsets(r, c + 1, index, cols);
                                assert(laid(cells, cols, r, c + 1) == laid(prev, cols, r, c + 1));
                            }
                        } else if r == index {
                            assert(laid(cells, cols, r, c) == row[c]);
                            if c + 1 < cols {
                                lemma_row_offsets(r, c + 1, index, cols);
                                assert(laid(cells, cols, r, c + 1) == row[c + 1]);
                            }
                        } else {
                            lemma_row_offsets(r, c, index + 1, cols);
                            assert(cols * (index + 1) == (index + 1) * cols) by (nonlinear_arith);
                        }
                    }
                }
            }
        }
    }
}

/// In a parsed screen every wide cell is followed, inside its row, by its
/// continuation cell, which is empty.
pub proof fn lemma_parsed_wide_cell_continues(text: Seq<char>)
    ensures
        parse_spec(text) matches Ok(m) ==> forall|r: int, c: int|
            0 <= r < m.rows && 0 <= c < m.cols && (#[trigger] crate::screen::cell_at(m, r, c)).wide ==> c + 1 < m.cols && crate::screen::cell_at(
                m,
                r,
                c + 1,
            ).continuation && crate::screen::cell_at(m, r, c + 1).contents.len() == 0,
{
    let lines = lines_spec(text);
    if lines.len() > 0 {
        if let Ok(h) = header_spec(lines[0]) {
            let cols = h.0 as int;
            let rows = h.1 as int;
            let body = lines.skip(1);
            let mk = marker_from(body, 0);
            let grid = match mk {
                Some(at) => body.take(if at > 0 { at - 1 } else { 0 }),
                None => body,
            };
            let styles = match mk {
                Some(at) => body.skip(at + 1),
                None => Seq::empty(),
            };
            let first = match mk {
                Some(at) => at + 3,
                None => body.len() + 2int,
            };
            lemma_grid_fold_wide(grid, grid.len() as int, cols, rows);
            if let Ok(folded) = grid_fold(grid, grid.len() as int, cols, rows) {
                let cells = folded + Seq::new((cols * rows - folded.len()) as nat, |i: int| blank_cell());
                let k = if grid.len() < rows { grid.len() as int } else { rows };
                assert(folded.len() == cols * k);
                assert(cols * k <= cols * rows) by (nonlinear_arith)
                    requires
                        0 <= k <= rows,
                        0 <= cols,
                ;
                lemma_styles_keep_layout(styles, styles.len() as int, first, cols, rows, cells);
                if let Ok(m) = parse_spec(text) {
                    assert(styles_fold(styles, styles.len() as int, first, cols, rows, cells) == Ok::<
                        Seq<CellModel>,
                        Seq<char>,
                    >(m.cells));
                    assert forall|r: int, c: int|
                        0 <= r < m.rows && 0 <= c < m.cols && (#[trigger] crate::screen::cell_at(m, r, c)).wide implies c + 1
                        < m.cols && crate::screen::cell_at(m, r, c + 1).continuation && crate::screen::cell_at(m, r, c + 1).contents.len() == 0 by {
                        lemma_row_offsets(r, c, rows, cols);
                        lemma_row_offsets(r, c, k, cols);
                        assert(cols * k == k * cols) by (nonlinear_arith);
                        assert(cols * rows == rows * cols) by (nonlinear_arith);
                        assert(m.cells[r * cols + c] == crate::screen::cell_at(m, r, c));
                        if r < k {
                            assert(laid(cells, cols, r, c) == laid(folded, cols, r, c));
                            if c + 1 < cols {
                                lemma_row_offsets(r, c + 1, k, cols);
                                assert(laid(cells, cols, r, c + 1) == laid(folded, cols, r, c + 1));
                            }
                        } else {
                            assert(laid(cells, cols, r, c) == blank_cell());
                        }
                    }
                }
            }
        }
    }
}

} // verus!
