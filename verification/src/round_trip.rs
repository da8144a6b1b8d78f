//! The snapshot text read back: a screen rendered with its snapshot
//! rendering, plain or with its `styles:` block, and parsed again renders
//! to the same text and shows the same picture, for the screens whose grid
//! that text carries exactly.
use vstd::prelude::*;
use crate::screen::{
    CellModel, ScreenModel, blank_state, cell_at, cell_text, display_spec, first_occurrence, index_of, is_ws, join_lines,
    lemma_first_occurrence, lemma_index_of, lemma_index_of_unique, row_prefix, row_text_spec, screen_lines,
    split_lines, starts_with, text_spec, trim_end,
};
use crate::text::decimal_text;
use crate::words::{all_digits, digits_value, lines_spec, strip_cr, trim, trim_start, uint_text};
use crate::parse::{
    blank_cell, cursor_spec, glyph_width, grid_fold, grid_spec, header_spec, marker_at, marker_from, parse_spec, row_fold,
    row_spec, span_line, styles_fold,
};
use crate::screen::plain_style;
use crate::diff::{blank, diff_spec, lemma_no_changed_cells, overlap, same_cursor, same_picture_spec};
use crate::screen::{any_styled, join_sep, row_spans, runs_upto, styled_spec, styles_block};
use crate::styled::{
    has_char, lemma_decimal_word, lemma_join_sep_last, lemma_span_char_not_ws, lemma_span_texts_chars, span_char,
    style_line_text, style_lines,
};
use crate::words::is_blank;
use crate::styled::{lemma_restored_untouched, lemma_style_lines_read_back, restored, with_row_styles};

verus! {

pub(crate) proof fn lemma_decimal_digits(n: nat)
    ensures
        decimal_text(n).len() >= 1,
        all_digits(decimal_text(n)),
        digits_value(decimal_text(n)) == n,
    decreases n,
{
    if n >= 10 {
        lemma_decimal_digits(n / 10);
        let s = decimal_text(n / 10);
        let t = s.push((48 + n % 10) as char);
        assert(t.drop_last() =~= s);
        assert(n == (n / 10) * 10 + n % 10);
        assert(((48 + n % 10) as char) as nat == 48 + n % 10);
        assert(t.last() == (48 + n % 10) as char);
        assert(decimal_text(n) == t);
        assert(digits_value(t) == digits_value(t.drop_last()) * 10 + (t.last() as nat - 48) as nat);
        assert(digits_value(t) == (n / 10) * 10 + n % 10);
    } else {
        assert(decimal_text(n) =~= seq![(48 + n) as char]);
        assert(((48 + n) as char) as nat == 48 + n);
        assert(decimal_text(n).drop_last() =~= Seq::<char>::empty());
        assert(digits_value(Seq::<char>::empty()) == 0);
        assert(decimal_text(n).last() == (48 + n) as char);
        assert(digits_value(decimal_text(n)) == digits_value(decimal_text(n).drop_last()) * 10 + (decimal_text(
            n,
        ).last() as nat - 48) as nat);
    }
}

pub(crate) proof fn lemma_decimal_reads_back(n: nat, max: nat)
    requires
        n <= max,
    ensures
        uint_text(decimal_text(n), max) == Some(n),
        !is_ws(decimal_text(n)[0]),
        !is_ws(decimal_text(n).last()),
{
    lemma_decimal_digits(n);
    let d = decimal_text(n);
    assert(crate::words::is_digit(d[0]));
    assert(crate::words::is_digit(d.last()));
}

/// `s` followed by whitespace trims back to `s` when `s` does not end in
/// whitespace.
pub(crate) proof fn lemma_trim_end_drops_ws(s: Seq<char>, t: Seq<char>)
    requires
        s.len() == 0 || !is_ws(s.last()),
        forall|i: int| 0 <= i < t.len() ==> is_ws(#[trigger] t[i]),
    ensures
        trim_end(s + t) == s,
    decreases t.len(),
{
    if t.len() == 0 {
        assert(s + t =~= s);
    } else {
        assert((s + t).drop_last() =~= s + t.drop_last());
        assert((s + t).last() == t.last());
        lemma_trim_end_drops_ws(s, t.drop_last());
    }
}

/// The cursor part of the snapshot header.
pub open spec fn cursor_text(m: ScreenModel) -> Seq<char> {
    if m.cursor_visible {
        decimal_text(m.cursor_row as nat) + ","@ + decimal_text(m.cursor_col as nat)
    } else {
        "hidden"@
    }
}

/// The first line of the snapshot rendering.
pub open spec fn header_text(m: ScreenModel) -> Seq<char> {
    "size: "@ + decimal_text(m.cols as nat) + "x"@ + decimal_text(m.rows as nat) + "  cursor: "@ + cursor_text(m)
}

/// What the header of a screen reads back as.
pub open spec fn header_model(m: ScreenModel) -> (u16, u16, (u16, u16, bool)) {
    if m.cursor_visible {
        (m.cols, m.rows, (m.cursor_row, m.cursor_col, true))
    } else {
        (m.cols, m.rows, (0u16, 0u16, false))
    }
}

proof fn lemma_cursor_reads_back(m: ScreenModel, line: Seq<char>)
    requires
        m.cursor_visible ==> m.cursor_row < m.rows && m.cursor_col < m.cols,
    ensures
        cursor_spec(line, cursor_text(m), m.cols as nat, m.rows as nat) == Ok::<(u16, u16, bool), Seq<char>>(
            header_model(m).2,
        ),
        cursor_text(m).len() > 0,
        !is_ws(cursor_text(m)[0]),
        !is_ws(cursor_text(m).last()),
{
    reveal_strlit("hidden");
    reveal_strlit(",");
    let cur = cursor_text(m);
    if m.cursor_visible {
        let a = decimal_text(m.cursor_row as nat);
        let b = decimal_text(m.cursor_col as nat);
        lemma_decimal_reads_back(m.cursor_row as nat, 65535);
        lemma_decimal_reads_back(m.cursor_col as nat, 65535);
        lemma_decimal_digits(m.cursor_row as nat);
        assert(cur[0] == a[0]);
        assert(cur != "hidden"@) by {
            assert(crate::words::is_digit(a[0]));
            assert("hidden"@[0] == 'h');
        }
        assert forall|j: int| 0 <= j < a.len() implies cur[j] != ',' by {
            assert(cur[j] == a[j]);
            assert(crate::words::is_digit(a[j]));
        }
        assert(cur[a.len() as int] == ',');
        lemma_index_of_unique(cur, ',', a.len() as int);
        assert(cur.take(a.len() as int) =~= a);
        assert(cur.skip(a.len() as int + 1) =~= b);
        assert(cur.last() == b.last());
    } else {
        assert(cur[0] == 'h');
        assert(cur.last() == 'n');
    }
}

proof fn lemma_header_no_newline(m: ScreenModel)
    ensures
        forall|i: int| 0 <= i < header_text(m).len() ==> #[trigger] header_text(m)[i] != '\n',
{
    reveal_strlit("size: ");
    reveal_strlit("x");
    reveal_strlit("  cursor: ");
    reveal_strlit("hidden");
    reveal_strlit(",");
    let line = header_text(m);
    let dc = decimal_text(m.cols as nat);
    let dr = decimal_text(m.rows as nat);
    let cur = cursor_text(m);
    lemma_decimal_digits(m.cols as nat);
    lemma_decimal_digits(m.rows as nat);
    lemma_decimal_digits(m.cursor_row as nat);
    assert forall|i: int| 0 <= i < line.len() implies #[trigger] line[i] != '\n' by {
        if i < 6 {
            assert(line[i] == "size: "@[i]);
        } else if i < 6 + dc.len() {
            assert(line[i] == dc[i - 6]);
            assert(crate::words::is_digit(dc[i - 6]));
        } else if i == 6 + dc.len() {
        } else if i < 7 + dc.len() + dr.len() {
            assert(line[i] == dr[i - 7 - dc.len()]);
            assert(crate::words::is_digit(dr[i - 7 - dc.len()]));
        } else if i < 17 + dc.len() + dr.len() {
            assert(line[i] == "  cursor: "@[i - 7 - dc.len() - dr.len()]);
        } else {
            let j = i - 17 - dc.len() - dr.len();
            assert(line[i] == cur[j]);
            if m.cursor_visible {
                let a = decimal_text(m.cursor_row as nat);
                let b = decimal_text(m.cursor_col as nat);
                lemma_decimal_digits(m.cursor_col as nat);
                if j < a.len() {
                    assert(crate::words::is_digit(a[j]));
                } else if j > a.len() {
                    assert(cur[j] == b[j - a.len() - 1]);
                    assert(crate::words::is_digit(b[j - a.len() - 1]));
                }
            } else {
                assert(cur =~= "hidden"@);
            }
        }
    }
}

proof fn lemma_size_part(dc: Seq<char>, dr: Seq<char>)
    requires
        dc.len() >= 1,
        dr.len() >= 1,
        all_digits(dc),
        all_digits(dr),
    ensures
        trim(dc + "x"@ + dr + seq![' ', ' ']) == dc + "x"@ + dr,
        index_of(dc + "x"@ + dr, 'x') == dc.len(),
        (dc + "x"@ + dr).take(dc.len() as int) == dc,
        (dc + "x"@ + dr).skip(dc.len() as int + 1) == dr,
{
    reveal_strlit("x");
    let size = dc + "x"@ + dr;
    assert(crate::words::is_digit(dr.last()));
    assert(size.last() == dr.last());
    lemma_trim_end_drops_ws(size, seq![' ', ' ']);
    assert(crate::words::is_digit(dc[0]));
    assert(size[0] == dc[0]);
    assert(trim_start(size) == size);
    assert forall|j: int| 0 <= j < dc.len() implies size[j] != 'x' by {
        assert(size[j] == dc[j]);
        assert(crate::words::is_digit(dc[j]));
    }
    assert(size[dc.len() as int] == 'x');
    lemma_index_of_unique(size, 'x', dc.len() as int);
    assert(size.take(dc.len() as int) =~= dc);
    assert(size.skip(dc.len() as int + 1) =~= dr);
}

proof fn lemma_cursor_part(cur: Seq<char>)
    requires
        cur.len() > 0,
        !is_ws(cur[0]),
        !is_ws(cur.last()),
    ensures
        trim(seq![' '] + cur) == cur,
{
    lemma_trim_end_drops_ws(seq![' '] + cur, Seq::empty());
    assert((seq![' '] + cur) + Seq::<char>::empty() =~= seq![' '] + cur);
    assert((seq![' '] + cur).drop_first() =~= cur);
    lemma_trim_end_drops_ws(cur, Seq::empty());
    assert(cur + Seq::<char>::empty() =~= cur);
    assert(trim_start(cur) == cur);
}

proof fn lemma_cursor_found(dc: Seq<char>, dr: Seq<char>, cur: Seq<char>)
    requires
        all_digits(dc),
        all_digits(dr),
    ensures
        first_occurrence(dc + "x"@ + dr + "  cursor: "@ + cur, "cursor:"@) == Some(dc.len() as int + 1 + dr.len() + 2),
{
    reveal_strlit("x");
    reveal_strlit("  cursor: ");
    reveal_strlit("cursor:");
    let rest = dc + "x"@ + dr + "  cursor: "@ + cur;
    let k: int = dc.len() as int + 1 + dr.len() + 2;
    assert(rest.subrange(k, k + 7) =~= "cursor:"@);
    assert forall|j: int| 0 <= j < k implies #[trigger] rest.subrange(j, j + "cursor:"@.len()) != "cursor:"@ by {
        assert(rest.subrange(j, j + 7)[0] == rest[j]);
        if j < dc.len() {
            assert(rest[j] == dc[j]);
            assert(crate::words::is_digit(dc[j]));
        } else if j == dc.len() {
            assert(rest[j] == 'x');
        } else if j < dc.len() + 1 + dr.len() {
            assert(rest[j] == dr[j - dc.len() - 1]);
            assert(crate::words::is_digit(dr[j - dc.len() - 1]));
        } else {
            assert(rest[j] == ' ');
        }
    }
    lemma_first_occurrence(rest, "cursor:"@, k);
}

#[verifier::spinoff_prover]
#[verifier::rlimit(100)]
proof fn lemma_header_reads_back(m: ScreenModel)
    requires
        m.cols > 0,
        m.rows > 0,
        m.cursor_visible ==> m.cursor_row < m.rows && m.cursor_col < m.cols,
    ensures
        header_spec(header_text(m)) == Ok::<(u16, u16, (u16, u16, bool)), Seq<char>>(header_model(m)),
        !is_ws(header_text(m).last()),
{
    reveal_strlit("size: ");
    reveal_strlit("x");
    reveal_strlit("  cursor: ");
    reveal_strlit("cursor:");
    let line = header_text(m);
    let dc = decimal_text(m.cols as nat);
    let dr = decimal_text(m.rows as nat);
    let cur = cursor_text(m);
    lemma_decimal_reads_back(m.cols as nat, 65535);
    lemma_decimal_reads_back(m.rows as nat, 65535);
    lemma_decimal_digits(m.cols as nat);
    lemma_decimal_digits(m.rows as nat);
    lemma_cursor_reads_back(m, line);
    assert(starts_with(line, "size: "@)) by {
        assert(line.take(6) =~= "size: "@);
    }
    let rest = line.skip(6);
    assert(rest =~= dc + "x"@ + dr + "  cursor: "@ + cur);
    let k: int = dc.len() as int + 1 + dr.len() + 2;
    lemma_cursor_found(dc, dr, cur);
    assert(rest.take(k) =~= dc + "x"@ + dr + seq![' ', ' ']);
    lemma_size_part(dc, dr);
    assert(rest.skip(k + 7) =~= seq![' '] + cur);
    lemma_cursor_part(cur);
    assert(line.last() == cur.last());
    let size = trim(rest.take(k));
    let cursor = trim(rest.skip(k + "cursor:"@.len()));
    assert(size == dc + "x"@ + dr);
    assert(cursor == cur);
    assert(uint_text(size.take(index_of(size, 'x')), 65535) == Some(m.cols as nat));
    assert(uint_text(size.skip(index_of(size, 'x') + 1), 65535) == Some(m.rows as nat));
}

/// Whether `s` holds a line break.
pub open spec fn has_newline(s: Seq<char>) -> bool {
    exists|i: int| 0 <= i < s.len() && s[i] == '\n'
}

proof fn lemma_split_lines_cons(a: Seq<char>, b: Seq<char>)
    requires
        !has_newline(a),
    ensures
        split_lines(a + seq!['\n'] + b) == seq![a] + split_lines(b),
{
    let s = a + seq!['\n'] + b;
    assert forall|j: int| 0 <= j < a.len() implies s[j] != '\n' by {
        assert(s[j] == a[j]);
    }
    lemma_index_of_unique(s, '\n', a.len() as int);
    assert(s.take(a.len() as int) =~= a);
    assert(s.skip(a.len() as int + 1) =~= b);
}

proof fn lemma_split_lines_single(a: Seq<char>)
    requires
        !has_newline(a),
    ensures
        split_lines(a) == seq![a],
{
    lemma_index_of_unique(a, '\n', a.len() as int);
}

proof fn lemma_join_lines_first(lines: Seq<Seq<char>>)
    requires
        lines.len() >= 2,
    ensures
        join_lines(lines) == lines[0] + seq!['\n'] + join_lines(lines.drop_first()),
    decreases lines.len(),
{
    if lines.len() == 2 {
        assert(lines.drop_last() =~= seq![lines[0]]);
        assert(lines.drop_first() =~= seq![lines[1]]);
        assert(join_lines(lines.drop_last()) == lines[0]);
        assert(join_lines(lines.drop_first()) == lines[1]);
        assert(lines.last() == lines[1]);
    } else {
        lemma_join_lines_first(lines.drop_last());
        assert(lines.drop_last().drop_first() =~= lines.drop_first().drop_last());
        assert(lines.drop_first().last() == lines.last());
        assert(lines.drop_last()[0] == lines[0]);
        assert(join_lines(lines) =~= lines[0] + seq!['\n'] + join_lines(lines.drop_first()));
    }
}

proof fn lemma_split_join(lines: Seq<Seq<char>>)
    requires
        lines.len() >= 1,
        forall|i: int| 0 <= i < lines.len() ==> !has_newline(#[trigger] lines[i]),
    ensures
        split_lines(join_lines(lines)) == lines,
    decreases lines.len(),
{
    if lines.len() == 1 {
        lemma_split_lines_single(lines[0]);
        assert(seq![lines[0]] =~= lines);
    } else {
        lemma_join_lines_first(lines);
        assert(!has_newline(lines[0]));
        lemma_split_lines_cons(lines[0], join_lines(lines.drop_first()));
        assert forall|i: int| 0 <= i < lines.drop_first().len() implies !has_newline(#[trigger] lines.drop_first()[i]) by {
            assert(lines.drop_first()[i] == lines[i + 1]);
        }
        lemma_split_join(lines.drop_first());
        assert(seq![lines[0]] + lines.drop_first() =~= lines);
    }
}

/// The lines `str::lines` finds in a header, a line break and more lines:
/// the header, then those lines, less a last one that is empty.
proof fn lemma_lines_of_rendering(h: Seq<char>, lines: Seq<Seq<char>>)
    requires
        lines.len() >= 1,
        !has_newline(h),
        h.len() > 0 && h.last() != '\r',
        forall|i: int| 0 <= i < lines.len() ==> !has_newline(#[trigger] lines[i]),
        forall|i: int| 0 <= i < lines.len() ==> (#[trigger] lines[i]).len() == 0 || lines[i].last() != '\r',
    ensures
        lines_spec(h + seq!['\n'] + join_lines(lines)) == seq![h] + if lines.last().len() == 0 {
            lines.drop_last()
        } else {
            lines
        },
{
    lemma_split_lines_cons(h, join_lines(lines));
    lemma_split_join(lines);
    let segs = seq![h] + lines;
    assert(split_lines(h + seq!['\n'] + join_lines(lines)) == segs);
    let init = segs.drop_last().map_values(|l: Seq<char>| strip_cr(l));
    assert(init =~= seq![h] + lines.drop_last()) by {
        assert forall|i: int| 0 <= i < init.len() implies init[i] == (seq![h] + lines.drop_last())[i] by {
            if i > 0 {
                assert(segs[i] == lines[i - 1]);
            }
        }
    }
    assert(segs.last() == lines.last());
    if lines.last().len() != 0 {
        assert(init.push(segs.last()) =~= seq![h] + lines);
    }
}

/// What a cell shows in its one column of the plain rendering.
pub open spec fn cell_char(c: CellModel) -> char {
    if c.contents.len() == 0 {
        ' '
    } else {
        c.contents[0]
    }
}

/// A cell that takes one column of the rendering: not half of a wide
/// pair, and blank or a single character.
pub open spec fn single_column(c: CellModel) -> bool {
    !c.wide && !c.continuation && c.contents.len() <= 1
}

proof fn lemma_row_prefix_chars(m: ScreenModel, row: int, n: int)
    requires
        0 <= n,
        forall|j: int| 0 <= j < n ==> single_column(#[trigger] cell_at(m, row, j)),
    ensures
        row_prefix(m, row, n).len() == n,
        forall|j: int| 0 <= j < n ==> #[trigger] row_prefix(m, row, n)[j] == cell_char(cell_at(m, row, j)),
    decreases n,
{
    if n > 0 {
        lemma_row_prefix_chars(m, row, n - 1);
        let c = cell_at(m, row, n - 1);
        assert(single_column(c));
        if c.contents.len() == 0 {
            assert(cell_text(c) == seq![' ']);
        } else {
            assert(cell_text(c) =~= seq![c.contents[0]]);
        }
        assert forall|j: int| 0 <= j < n implies #[trigger] row_prefix(m, row, n)[j] == cell_char(cell_at(m, row, j)) by {
            if j < n - 1 {
                assert(row_prefix(m, row, n)[j] == row_prefix(m, row, n - 1)[j]);
            }
        }
    }
}

/// Trimming keeps a prefix that is empty or ends in a non-blank.
proof fn lemma_trim_end_prefix(s: Seq<char>)
    ensures
        trim_end(s).len() <= s.len(),
        trim_end(s) == s.take(trim_end(s).len() as int),
        trim_end(s).len() == 0 || !is_ws(trim_end(s).last()),
        forall|j: int| trim_end(s).len() <= j < s.len() ==> is_ws(#[trigger] s[j]),
    decreases s.len(),
{
    if s.len() > 0 && is_ws(s.last()) {
        lemma_trim_end_prefix(s.drop_last());
        let t = trim_end(s.drop_last());
        assert(s.drop_last().take(t.len() as int) =~= s.take(t.len() as int));
        assert forall|j: int| t.len() <= j < s.len() implies is_ws(#[trigger] s[j]) by {
            if j < s.len() - 1 {
                assert(s[j] == s.drop_last()[j]);
            }
        }
    } else {
        assert(s.take(s.len() as int) =~= s);
    }
}

/// A cell the parser places for a character of a grid line.
pub open spec fn placed(ch: char) -> CellModel {
    CellModel { contents: seq![ch], style: plain_style(), wide: false, continuation: false }
}

/// A row after the first `n` characters of `line` were placed, one column
/// each.
pub open spec fn placed_row(line: Seq<char>, n: int, cols: int) -> Seq<CellModel> {
    Seq::new(cols as nat, |j: int| if j < n { placed(line[j]) } else { blank_cell() })
}

/// Every character of `s` takes one column.
pub open spec fn all_one_column(s: Seq<char>) -> bool {
    forall|i: int| 0 <= i < s.len() ==> glyph_width(#[trigger] s[i]) == 1
}

proof fn lemma_row_fold_one_column(line: Seq<char>, n: int, number: int, cols: int)
    requires
        0 <= n <= line.len() <= cols,
        all_one_column(line),
    ensures
        row_fold(line, n, number, cols) == Ok::<(Seq<CellModel>, int), Seq<char>>((placed_row(line, n, cols), n)),
    decreases n,
{
    if n == 0 {
        assert(placed_row(line, 0, cols) =~= Seq::new(cols as nat, |i: int| blank_cell()));
    } else {
        lemma_row_fold_one_column(line, n - 1, number, cols);
        let ch = line[n - 1];
        assert(glyph_width(ch) == 1);
        assert(placed_row(line, n - 1, cols).update(n - 1, placed(ch)) =~= placed_row(line, n, cols));
    }
}

/// The cell the parser gives `(r, j)` of a grid of one-column lines.
pub open spec fn parsed_cell(grid: Seq<Seq<char>>, r: int, j: int) -> CellModel {
    if 0 <= r < grid.len() && 0 <= j < grid[r].len() {
        placed(grid[r][j])
    } else {
        blank_cell()
    }
}

proof fn lemma_grid_fold_one_column(grid: Seq<Seq<char>>, n: int, cols: int, rows: int)
    requires
        0 <= n <= grid.len() <= rows,
        cols >= 0,
        forall|i: int| 0 <= i < grid.len() ==> (#[trigger] grid[i]).len() <= cols && all_one_column(grid[i]),
    ensures
        grid_fold(grid, n, cols, rows) is Ok,
        grid_fold(grid, n, cols, rows)->Ok_0.len() == n * cols,
        forall|r: int, j: int|
            0 <= r < n && 0 <= j < cols ==> #[trigger] grid_fold(grid, n, cols, rows)->Ok_0[r * cols + j]
                == parsed_cell(grid, r, j),
    decreases n,
{
    if n > 0 {
        lemma_grid_fold_one_column(grid, n - 1, cols, rows);
        let cs = grid_fold(grid, n - 1, cols, rows)->Ok_0;
        let line = grid[n - 1];
        lemma_row_fold_one_column(line, line.len() as int, n + 1, cols);
        let row = placed_row(line, line.len() as int, cols);
        assert(row_spec(line, n + 1, cols) == Ok::<Seq<CellModel>, Seq<char>>(row));
        let all = cs + row;
        assert(all.len() == n * cols) by (nonlinear_arith)
            requires
                all.len() == cs.len() + cols,
                cs.len() == (n - 1) * cols,
        ;
        assert forall|r: int, j: int| 0 <= r < n && 0 <= j < cols implies #[trigger] all[r * cols + j]
            == parsed_cell(grid, r, j) by {
            if r < n - 1 {
                assert(r * cols + j < (n - 1) * cols) by (nonlinear_arith)
                    requires
                        0 <= r < n - 1,
                        0 <= j < cols,
                ;
                assert(r * cols + j >= 0) by (nonlinear_arith)
                    requires
                        0 <= r,
                        0 <= j,
                        0 <= cols,
                ;
                assert(all[r * cols + j] == cs[r * cols + j]);
            } else {
                assert(r * cols + j - cs.len() == j);
                assert(all[r * cols + j] == row[j]);
            }
        }
    }
}

proof fn lemma_no_marker_without_last(lines: Seq<Seq<char>>, i: int)
    requires
        lines.len() >= 1,
        lines.last().len() == 0,
        0 <= i,
        marker_from(lines, i) is None,
    ensures
        marker_from(lines.drop_last(), i) is None,
    decreases lines.len() - i,
{
    let short = lines.drop_last();
    if i < short.len() {
        if marker_at(short, i) {
            assert(trim_end(lines.last()) =~= Seq::<char>::empty());
            assert(span_line(lines.last()));
            assert forall|j: int| i < j < lines.len() implies span_line(#[trigger] lines[j]) by {
                if j < short.len() {
                    assert(lines[j] == short[j]);
                }
            }
            assert(marker_at(lines, i));
        }
        lemma_no_marker_without_last(lines, i + 1);
    }
}

/// A character the plain rendering carries exactly: printable, and one
/// column wide.
pub open spec fn printable_one_column(c: char) -> bool {
    0x20 <= (c as u32) && !(0x7f <= (c as u32) && (c as u32) < 0xa0) && glyph_width(c) == 1
}

/// A grid the snapshot text carries exactly: at least one column and one
/// row, a whole grid, a visible cursor inside it, and every cell blank or
/// one printable one-column character.
pub open spec fn grid_carried(m: ScreenModel) -> bool {
    &&& m.cols > 0 && m.rows > 0
    &&& m.cells.len() == m.cols * m.rows
    &&& m.cursor_visible ==> m.cursor_row < m.rows && m.cursor_col < m.cols
    &&& forall|i: int|
        0 <= i < m.cells.len() ==> single_column(#[trigger] m.cells[i]) && (m.cells[i].contents.len() == 0
            || printable_one_column(m.cells[i].contents[0]))
}

/// A screen its plain snapshot rendering carries exactly: a carried grid
/// with no row that would read back as the `styles:` marker.
pub open spec fn plain_screen(m: ScreenModel) -> bool {
    &&& grid_carried(m)
    &&& marker_from(screen_lines(m), 0) is None
}

proof fn lemma_cell_index(r: int, j: int, cols: int, rows: int)
    requires
        0 <= r < rows,
        0 <= j < cols,
    ensures
        0 <= r * cols + j < cols * rows,
        r * cols + j < (r + 1) * cols,
        r * cols <= r * cols + j,
{
    assert(0 <= r * cols + j < cols * rows) by (nonlinear_arith)
        requires
            0 <= r < rows,
            0 <= j < cols,
    ;
    assert(r * cols + j < (r + 1) * cols) by (nonlinear_arith)
        requires
            0 <= j < cols,
    ;
}

/// The rows of a plain screen: each is one-column characters, no longer
/// than the screen is wide, with no line break and no trailing blank.
proof fn lemma_plain_rows(m: ScreenModel, r: int)
    requires
        grid_carried(m),
        glyph_width(' ') == 1,
        0 <= r < m.rows,
    ensures
        row_text_spec(m, r).len() == m.cols,
        screen_lines(m)[r] == row_text_spec(m, r).take(screen_lines(m)[r].len() as int),
        screen_lines(m)[r].len() <= m.cols,
        all_one_column(screen_lines(m)[r]),
        !has_newline(screen_lines(m)[r]),
        screen_lines(m)[r].len() == 0 || !is_ws(screen_lines(m)[r].last()),
        forall|j: int|
            0 <= j < m.cols ==> #[trigger] row_text_spec(m, r)[j] == cell_char(cell_at(m, r, j)),
{
    assert forall|j: int| 0 <= j < m.cols implies single_column(#[trigger] cell_at(m, r, j)) by {
        lemma_cell_index(r, j, m.cols as int, m.rows as int);
    }
    lemma_row_prefix_chars(m, r, m.cols as int);
    let t = row_text_spec(m, r);
    let l = screen_lines(m)[r];
    lemma_trim_end_prefix(t);
    assert forall|i: int| 0 <= i < l.len() implies glyph_width(#[trigger] l[i]) == 1 && l[i] != '\n' by {
        assert(l[i] == t[i]);
        lemma_cell_index(r, i, m.cols as int, m.rows as int);
        let c = cell_at(m, r, i);
        if c.contents.len() > 0 {
            assert(printable_one_column(c.contents[0]));
        }
    }
}

/// The cells a screen's plain rendering reads back as.
proof fn lemma_parsed_cells(grid: Seq<Seq<char>>, cols: int, rows: int)
    requires
        cols > 0,
        rows > 0,
        grid.len() <= rows,
        forall|i: int| 0 <= i < grid.len() ==> (#[trigger] grid[i]).len() <= cols && all_one_column(grid[i]),
    ensures
        grid_spec(grid, cols, rows) is Ok,
        grid_spec(grid, cols, rows)->Ok_0.len() == cols * rows,
        forall|r: int, j: int|
            0 <= r < rows && 0 <= j < cols ==> #[trigger] grid_spec(grid, cols, rows)->Ok_0[r * cols + j]
                == parsed_cell(grid, r, j),
{
    lemma_grid_fold_one_column(grid, grid.len() as int, cols, rows);
    let cs = grid_fold(grid, grid.len() as int, cols, rows)->Ok_0;
    assert(cs.len() <= cols * rows) by (nonlinear_arith)
        requires
            cs.len() == grid.len() * cols,
            grid.len() <= rows,
            cols > 0,
    ;
    let all = grid_spec(grid, cols, rows)->Ok_0;
    assert forall|r: int, j: int| 0 <= r < rows && 0 <= j < cols implies #[trigger] all[r * cols + j]
        == parsed_cell(grid, r, j) by {
        lemma_cell_index(r, j, cols, rows);
        if r < grid.len() {
            assert(r * cols + j < grid.len() * cols) by (nonlinear_arith)
                requires
                    r < grid.len(),
                    0 <= j < cols,
                    r * cols + j < (r + 1) * cols,
            ;
            assert(all[r * cols + j] == cs[r * cols + j]);
        } else {
            assert(r * cols + j >= grid.len() * cols) by (nonlinear_arith)
                requires
                    r >= grid.len(),
                    0 <= j,
                    cols > 0,
            ;
        }
    }
}

/// The screen a plain screen's rendering reads back as: the same size and
/// cursor (a hidden one at the origin), the cells of the grid lines, and
/// the out-of-band state at its default.
pub open spec fn read_back(m: ScreenModel, grid: Seq<Seq<char>>) -> ScreenModel {
    ScreenModel {
        cols: m.cols,
        rows: m.rows,
        cursor_row: header_model(m).2.0,
        cursor_col: header_model(m).2.1,
        cursor_visible: m.cursor_visible,
        cells: grid_spec(grid, m.cols as int, m.rows as int)->Ok_0,
        state: blank_state(),
    }
}

/// The grid lines of a plain screen's rendering: its trimmed rows, less a
/// last one that is empty.
pub open spec fn grid_lines(m: ScreenModel) -> Seq<Seq<char>> {
    if screen_lines(m).last().len() == 0 {
        screen_lines(m).drop_last()
    } else {
        screen_lines(m)
    }
}

proof fn lemma_rows_facts(m: ScreenModel)
    requires
        grid_carried(m),
        glyph_width(' ') == 1,
    ensures
        forall|i: int|
            0 <= i < screen_lines(m).len() ==> !has_newline(#[trigger] screen_lines(m)[i]) && (screen_lines(
                m,
            )[i].len() == 0 || !is_ws(screen_lines(m)[i].last())) && screen_lines(m)[i].len() <= m.cols
                && all_one_column(screen_lines(m)[i]),
{
    assert forall|i: int| 0 <= i < screen_lines(m).len() implies !has_newline(#[trigger] screen_lines(m)[i]) && (
    screen_lines(m)[i].len() == 0 || !is_ws(screen_lines(m)[i].last())) && screen_lines(m)[i].len() <= m.cols
        && all_one_column(screen_lines(m)[i]) by {
        lemma_plain_rows(m, i);
    }
}

proof fn lemma_parse_rendering(m: ScreenModel)
    requires
        plain_screen(m),
        glyph_width(' ') == 1,
    ensures
        parse_spec(display_spec(m)) == Ok::<ScreenModel, Seq<char>>(read_back(m, grid_lines(m))),
        grid_spec(grid_lines(m), m.cols as int, m.rows as int) is Ok,
        grid_spec(grid_lines(m), m.cols as int, m.rows as int)->Ok_0.len() == m.cols * m.rows,
        forall|r: int, j: int|
            0 <= r < m.rows && 0 <= j < m.cols ==> #[trigger] grid_spec(
                grid_lines(m),
                m.cols as int,
                m.rows as int,
            )->Ok_0[r * m.cols + j] == parsed_cell(grid_lines(m), r, j),
{
    let l = screen_lines(m);
    let h = header_text(m);
    let g = grid_lines(m);
    lemma_rows_facts(m);
    lemma_header_no_newline(m);
    lemma_header_reads_back(m);
    assert(is_ws('\r'));
    assert(!has_newline(h));
    assert forall|i: int| 0 <= i < l.len() implies (#[trigger] l[i]).len() == 0 || l[i].last() != '\r' by {}
    assert(display_spec(m) =~= h + seq!['\n'] + join_lines(l));
    lemma_lines_of_rendering(h, l);
    let lines = lines_spec(display_spec(m));
    assert(lines == seq![h] + g);
    assert(lines.skip(1) =~= g);
    if l.last().len() == 0 {
        lemma_no_marker_without_last(l, 0);
    }
    assert(marker_from(lines.skip(1), 0) is None);
    assert forall|i: int| 0 <= i < g.len() implies (#[trigger] g[i]).len() <= m.cols && all_one_column(g[i]) by {
        assert(g[i] == l[i]);
    }
    lemma_parsed_cells(g, m.cols as int, m.rows as int);
    let cells = grid_spec(g, m.cols as int, m.rows as int)->Ok_0;
    assert(styles_fold(Seq::<Seq<char>>::empty(), 0, g.len() + 2int, m.cols as int, m.rows as int, cells) == Ok::<
        Seq<CellModel>,
        Seq<char>,
    >(cells));
}

/// `n` spaces.
pub open spec fn spaces(n: int) -> Seq<char> {
    Seq::new(n as nat, |i: int| ' ')
}

proof fn lemma_read_back_rows(m: ScreenModel, r: int)
    requires
        plain_screen(m),
        glyph_width(' ') == 1,
        0 <= r < m.rows,
    ensures
        trim_end(row_text_spec(read_back(m, grid_lines(m)), r)) == screen_lines(m)[r],
{
    let g = grid_lines(m);
    let p = read_back(m, g);
    let l = screen_lines(m);
    lemma_parse_rendering(m);
    lemma_rows_facts(m);
    let cols = m.cols as int;
    assert forall|j: int| 0 <= j < cols implies single_column(#[trigger] cell_at(p, r, j))
        && cell_at(p, r, j) == parsed_cell(g, r, j) by {
        assert(cell_at(p, r, j) == p.cells[r * cols + j]);
    }
    lemma_row_prefix_chars(p, r, cols);
    let t = row_text_spec(p, r);
    let lr = l[r];
    assert(' ' as u32 == 0x20);
    assert forall|i: int| 0 <= i < spaces(cols - lr.len()).len() implies is_ws(#[trigger] spaces(cols - lr.len())[i]) by {}
    if r < g.len() {
        assert(g[r] == lr);
        assert(t =~= lr + spaces(cols - lr.len())) by {
            assert forall|j: int| 0 <= j < cols implies t[j] == (lr + spaces(cols - lr.len()))[j] by {
                assert(t[j] == cell_char(parsed_cell(g, r, j)));
            }
        }
        lemma_trim_end_drops_ws(lr, spaces(cols - lr.len()));
    } else {
        assert(lr.len() == 0);
        assert(t =~= lr + spaces(cols - lr.len())) by {
            assert forall|j: int| 0 <= j < cols implies t[j] == (lr + spaces(cols - lr.len()))[j] by {
                assert(t[j] == cell_char(parsed_cell(g, r, j)));
            }
        }
        lemma_trim_end_drops_ws(lr, spaces(cols - lr.len()));
    }
}

/// A snapshot read back renders to the same snapshot: for a screen its
/// plain rendering carries exactly (see [`plain_screen`]), parsing the
/// rendering succeeds, and the screen it gives renders to the same text.
/// The law is stated given that `unicode-width` gives a space one column,
/// as its source does for all printable ASCII.
pub proof fn lemma_snapshot_reads_back(m: ScreenModel)
    requires
        plain_screen(m),
        glyph_width(' ') == 1,
    ensures
        parse_spec(display_spec(m)) is Ok,
        display_spec(parse_spec(display_spec(m))->Ok_0) == display_spec(m),
{
    lemma_parse_rendering(m);
    let g = grid_lines(m);
    let p = read_back(m, g);
    assert(screen_lines(p) =~= screen_lines(m)) by {
        assert forall|r: int| 0 <= r < m.rows implies screen_lines(p)[r] == screen_lines(m)[r] by {
            lemma_read_back_rows(m, r);
        }
    }
    assert(cursor_text(p) == cursor_text(m));
    assert(display_spec(p) =~= header_text(p) + seq!['\n'] + text_spec(p));
    assert(display_spec(m) =~= header_text(m) + seq!['\n'] + text_spec(m));
}

/// Every cell in the default style, and whitespace only as a written
/// space: what the plain rendering needs besides to give back the same
/// picture, since it carries no styles and drops trailing whitespace.
pub open spec fn unstyled_screen(m: ScreenModel) -> bool {
    forall|i: int|
        0 <= i < m.cells.len() ==> (#[trigger] m.cells[i]).style == plain_style() && (m.cells[i].contents.len() == 0
            || m.cells[i].contents[0] == ' ' || !is_ws(m.cells[i].contents[0]))
}

proof fn lemma_read_back_cell(m: ScreenModel, r: int, j: int)
    requires
        plain_screen(m),
        unstyled_screen(m),
        glyph_width(' ') == 1,
        0 <= r < m.rows,
        0 <= j < m.cols,
    ensures
        same_picture_spec(cell_at(m, r, j), cell_at(read_back(m, grid_lines(m)), r, j)),
{
    let g = grid_lines(m);
    let p = read_back(m, g);
    let l = screen_lines(m);
    lemma_parse_rendering(m);
    lemma_plain_rows(m, r);
    lemma_cell_index(r, j, m.cols as int, m.rows as int);
    lemma_trim_end_prefix(row_text_spec(m, r));
    let c = cell_at(m, r, j);
    let t = row_text_spec(m, r);
    let q = cell_at(p, r, j);
    assert(q == parsed_cell(g, r, j));
    assert(t[j] == cell_char(c));
    assert(c == m.cells[r * m.cols + j]);
    assert(single_column(c));
    assert(c.style == plain_style());
    if j < l[r].len() {
        assert(r < g.len());
        assert(g[r] == l[r]);
        assert(l[r][j] == t[j]);
        assert(q == placed(cell_char(c)));
        if c.contents.len() == 1 {
            assert(c.contents =~= seq![c.contents[0]]);
            assert(q.contents == c.contents);
        } else {
            assert(q.contents == seq![' ']);
            assert(blank(c) && blank(q));
        }
    } else {
        assert(is_ws(t[j]));
        if r < g.len() {
            assert(g[r] == l[r]);
        }
        assert(q == blank_cell());
        if c.contents.len() == 1 {
            assert(c.contents[0] == ' ');
            assert(c.contents =~= seq![' ']);
        }
        assert(blank(c) && blank(q));
    }
}

/// A snapshot read back shows the same picture: for a screen its plain
/// rendering carries exactly, in the default style and with whitespace
/// only as written spaces, the screen parsed from its rendering has the
/// same size, a cursor that looks the same, and no changed cell or row.
pub proof fn lemma_snapshot_diffs_empty(m: ScreenModel)
    requires
        plain_screen(m),
        unstyled_screen(m),
        glyph_width(' ') == 1,
    ensures
        parse_spec(display_spec(m)) is Ok,
        diff_spec(m, parse_spec(display_spec(m))->Ok_0).cells.len() == 0,
        diff_spec(m, parse_spec(display_spec(m))->Ok_0).rows.len() == 0,
        diff_spec(m, parse_spec(display_spec(m))->Ok_0).before_size == diff_spec(
            m,
            parse_spec(display_spec(m))->Ok_0,
        ).after_size,
        same_cursor(
            diff_spec(m, parse_spec(display_spec(m))->Ok_0).before_cursor,
            diff_spec(m, parse_spec(display_spec(m))->Ok_0).after_cursor,
        ),
{
    lemma_parse_rendering(m);
    let p = read_back(m, grid_lines(m));
    assert(overlap(m, p) == (m.cols as int, m.rows as int));
    assert forall|r: int, j: int| 0 <= r < overlap(m, p).1 && 0 <= j < overlap(m, p).0 implies same_picture_spec(
        #[trigger] cell_at(m, r, j),
        cell_at(p, r, j),
    ) by {
        lemma_read_back_cell(m, r, j);
    }
    lemma_no_changed_cells(m, p, overlap(m, p).1);
}

/// Lines, each after a line break.
pub open spec fn concat_nl(ls: Seq<Seq<char>>) -> Seq<char>
    decreases ls.len(),
{
    if ls.len() == 0 {
        Seq::empty()
    } else {
        concat_nl(ls.drop_last()) + seq!['\n'] + ls.last()
    }
}

#[verifier::spinoff_prover]
#[verifier::rlimit(60)]
proof fn lemma_block_is_lines(m: ScreenModel, k: int)
    ensures
        styles_block(m, k) == concat_nl(style_lines(m, k)),
        any_styled(m, k) == (style_lines(m, k).len() > 0),
    decreases k,
{
    if k > 0 {
        lemma_block_is_lines(m, k - 1);
        let prev = style_lines(m, k - 1);
        if row_spans(m, k - 1).len() > 0 {
            let line = style_line_text(m, k - 1);
            let all = prev + seq![line];
            assert(style_lines(m, k) == all);
            assert(all.drop_last() =~= prev);
            assert(all.last() == line);
            assert(concat_nl(all) == concat_nl(prev) + seq!['\n'] + line);
            let piece = seq!['\n'] + decimal_text((k - 1) as nat) + ": "@ + join_sep(row_spans(m, k - 1), "; "@);
            assert(piece =~= seq!['\n'] + line);
            assert(styles_block(m, k) == styles_block(m, k - 1) + piece);
            assert(concat_nl(prev) + seq!['\n'] + line =~= concat_nl(prev) + (seq!['\n'] + line));
        } else {
            assert(style_lines(m, k) =~= prev);
        }
    }
}

proof fn lemma_join_lines_concat(a: Seq<Seq<char>>, b: Seq<Seq<char>>)
    requires
        a.len() >= 1,
        b.len() >= 1,
    ensures
        join_lines(a + b) == join_lines(a) + seq!['\n'] + join_lines(b),
    decreases b.len(),
{
    if b.len() == 1 {
        assert((a + b).drop_last() =~= a);
        assert(join_lines(b) == b[0]);
    } else {
        lemma_join_lines_concat(a, b.drop_last());
        assert((a + b).drop_last() =~= a + b.drop_last());
        assert((a + b).last() == b.last());
        assert(join_lines(a + b) =~= join_lines(a) + seq!['\n'] + join_lines(b));
    }
}

proof fn lemma_block_lines(head: Seq<char>, t: Seq<Seq<char>>)
    ensures
        join_lines(seq![head] + t) == head + concat_nl(t),
    decreases t.len(),
{
    if t.len() == 0 {
        assert(seq![head] + t =~= seq![head]);
        assert(head + Seq::<char>::empty() =~= head);
    } else {
        lemma_block_lines(head, t.drop_last());
        assert((seq![head] + t).drop_last() =~= seq![head] + t.drop_last());
        assert((seq![head] + t).last() == t.last());
        assert(join_lines(seq![head] + t) =~= head + concat_nl(t));
    }
}

/// The lines below the header of the rendering with styles: the rows, a
/// blank line, `styles:`, and a line per styled row or `(none)`.
pub open spec fn styled_lines(m: ScreenModel) -> Seq<Seq<char>> {
    screen_lines(m) + seq![Seq::<char>::empty()] + seq!["styles:"@] + if any_styled(m, m.rows as int) {
        style_lines(m, m.rows as int)
    } else {
        seq!["(none)"@]
    }
}

proof fn lemma_styled_text(m: ScreenModel)
    requires
        m.rows > 0,
    ensures
        styled_spec(m) == header_text(m) + seq!['\n'] + join_lines(styled_lines(m)),
{
    reveal_strlit("styles:");
    reveal_strlit("(none)");
    let l = screen_lines(m);
    let t = if any_styled(m, m.rows as int) {
        style_lines(m, m.rows as int)
    } else {
        seq!["(none)"@]
    };
    lemma_block_is_lines(m, m.rows as int);
    lemma_block_lines("styles:"@, t);
    let tail = seq!["styles:"@] + t;
    lemma_join_lines_concat(l + seq![Seq::<char>::empty()], tail);
    lemma_join_lines_concat(l, seq![Seq::<char>::empty()]);
    assert(styled_lines(m) =~= (l + seq![Seq::<char>::empty()]) + tail);
    if !any_styled(m, m.rows as int) {
        assert(style_lines(m, m.rows as int) =~= Seq::<Seq<char>>::empty());
        assert(concat_nl(t) =~= seq!['\n'] + "(none)"@) by {
            assert(t.drop_last() =~= Seq::<Seq<char>>::empty());
        }
    }
    assert(display_spec(m) =~= header_text(m) + seq!['\n'] + text_spec(m));
    assert(styled_spec(m) =~= header_text(m) + seq!['\n'] + join_lines(styled_lines(m)));
}

proof fn lemma_join_semi_no_newline(parts: Seq<Seq<char>>)
    requires
        forall|i: int| 0 <= i < parts.len() ==> !has_char(#[trigger] parts[i], '\n'),
    ensures
        !has_char(join_sep(parts, "; "@), '\n'),
    decreases parts.len(),
{
    reveal_strlit("; ");
    if parts.len() == 1 {
        assert(!has_char(parts[0], '\n'));
    } else if parts.len() > 1 {
        assert forall|i: int| 0 <= i < parts.drop_last().len() implies !has_char(#[trigger] parts.drop_last()[i], '\n') by {
            assert(parts.drop_last()[i] == parts[i]);
        }
        lemma_join_semi_no_newline(parts.drop_last());
        let a = join_sep(parts.drop_last(), "; "@);
        let j = join_sep(parts, "; "@);
        assert(j == a + "; "@ + parts.last());
        assert(!has_char(parts.last(), '\n'));
        if has_char(j, '\n') {
            let i = choose|i: int| 0 <= i < j.len() && j[i] == '\n';
            if i < a.len() {
                assert(j[i] == a[i]);
            } else if i >= a.len() + 2 {
                assert(j[i] == parts.last()[i - a.len() - 2]);
            }
        }
    }
}

#[verifier::spinoff_prover]
#[verifier::rlimit(60)]
proof fn lemma_style_line_chars(m: ScreenModel, r: int)
    requires
        0 <= r,
        row_spans(m, r).len() > 0,
    ensures
        !has_newline(style_line_text(m, r)),
        style_line_text(m, r).len() > 0,
        span_char(style_line_text(m, r).last()),
{
    reveal_strlit(": ");
    reveal_strlit("; ");
    let cols = m.cols as int;
    let spans = row_spans(m, r);
    let d = decimal_text(r as nat);
    let line = style_line_text(m, r);
    let body = join_sep(spans, "; "@);
    crate::styled::lemma_runs_valid(m, r, cols);
    lemma_span_texts_chars(runs_upto(m, r, cols), '\n');
    lemma_join_sep_last(spans, "; "@);
    assert(span_char(spans.last().last()));
    assert(line.last() == body.last());
    lemma_decimal_word(r as nat);
    lemma_join_semi_no_newline(spans);
    if has_newline(line) {
        let i = choose|i: int| 0 <= i < line.len() && line[i] == '\n';
        if i < d.len() {
            assert(line[i] == d[i]);
            assert(span_char(d[i]));
        } else if i >= d.len() + 2 {
            assert(line[i] == body[i - d.len() - 2]);
            assert(has_char(body, '\n'));
        }
    }
}

/// A row's `styles:` line: one line, ending in a span character, and read
/// as a span line.
#[verifier::spinoff_prover]
#[verifier::rlimit(60)]
proof fn lemma_style_line_facts(m: ScreenModel, r: int)
    requires
        0 <= r,
        row_spans(m, r).len() > 0,
    ensures
        !has_newline(style_line_text(m, r)),
        style_line_text(m, r).len() > 0,
        !is_ws(style_line_text(m, r).last()),
        span_line(style_line_text(m, r)),
{
    reveal_strlit(": ");
    let d = decimal_text(r as nat);
    let line = style_line_text(m, r);
    lemma_style_line_chars(m, r);
    lemma_span_char_not_ws(line.last());
    lemma_decimal_word(r as nat);
    lemma_decimal_digits(r as nat);
    lemma_trim_end_drops_ws(line, Seq::empty());
    assert(line + Seq::<char>::empty() =~= line);
    let k = d.len() as int;
    assert(line.subrange(k, k + 2) =~= ": "@);
    assert forall|j: int| 0 <= j < k implies #[trigger] line.subrange(j, j + ": "@.len()) != ": "@ by {
        assert(line.subrange(j, j + 2)[0] == d[j]);
        assert(span_char(d[j]));
    }
    lemma_first_occurrence(line, ": "@, k);
    assert(line.take(k) =~= d);
}

proof fn lemma_style_lines_facts(m: ScreenModel, k: int)
    requires
        0 <= k,
    ensures
        forall|i: int|
            0 <= i < style_lines(m, k).len() ==> !has_newline(#[trigger] style_lines(m, k)[i]) && style_lines(m, k)[i].len()
                > 0 && !is_ws(style_lines(m, k)[i].last()) && span_line(style_lines(m, k)[i]),
    decreases k,
{
    if k > 0 {
        lemma_style_lines_facts(m, k - 1);
        let prev = style_lines(m, k - 1);
        if row_spans(m, k - 1).len() > 0 {
            lemma_style_line_facts(m, k - 1);
            assert(style_lines(m, k) == prev + seq![style_line_text(m, k - 1)]);
            assert forall|i: int| 0 <= i < style_lines(m, k).len() implies !has_newline(#[trigger] style_lines(m, k)[i])
                && style_lines(m, k)[i].len() > 0 && !is_ws(style_lines(m, k)[i].last()) && span_line(style_lines(m, k)[i]) by {
                if i < prev.len() {
                    assert(style_lines(m, k)[i] == prev[i]);
                }
            }
        } else {
            assert(style_lines(m, k) =~= prev);
        }
    }
}

proof fn lemma_styles_heading_is_not_a_span_line()
    ensures
        !span_line("styles:"@),
        trim_end("styles:"@) == "styles:"@,
        !has_newline("styles:"@),
{
    reveal_strlit("styles:");
    reveal_strlit("(none)");
    reveal_strlit(": ");
    let t = "styles:"@;
    lemma_trim_end_drops_ws(t, Seq::empty());
    assert(t + Seq::<char>::empty() =~= t);
    if crate::screen::occurs(t, ": "@) {
        let i = choose|i: int| 0 <= i && i + ": "@.len() <= t.len() && #[trigger] t.subrange(i, i + ": "@.len()) == ": "@;
        assert(t.subrange(i, i + 2)[0] == t[i]);
        assert(t.subrange(i, i + 2)[1] == t[i + 1]);
    }
}

proof fn lemma_marker_is_first(body: Seq<Seq<char>>, i: int, at: int)
    requires
        0 <= i <= at < body.len(),
        marker_at(body, at),
        forall|j: int| i <= j < at ==> !marker_at(body, j),
    ensures
        marker_from(body, i) == Some(at),
    decreases at - i,
{
    if i < at {
        lemma_marker_is_first(body, i + 1, at);
    }
}

/// The screen a carried screen's rendering with styles reads back as: the
/// same size and cursor (a hidden one at the origin), the cells of its rows
/// with the styles of the `styles:` block, and the out-of-band state at its
/// default.
pub open spec fn styled_read_back(m: ScreenModel) -> ScreenModel {
    ScreenModel {
        cols: m.cols,
        rows: m.rows,
        cursor_row: header_model(m).2.0,
        cursor_col: header_model(m).2.1,
        cursor_visible: m.cursor_visible,
        cells: restored(grid_spec(screen_lines(m), m.cols as int, m.rows as int)->Ok_0, m, m.rows as int),
        state: blank_state(),
    }
}

#[verifier::spinoff_prover]
#[verifier::rlimit(80)]
proof fn lemma_parse_styled(m: ScreenModel)
    requires
        grid_carried(m),
        glyph_width(' ') == 1,
    ensures
        parse_spec(styled_spec(m)) == Ok::<ScreenModel, Seq<char>>(styled_read_back(m)),
{
    reveal_strlit("styles:");
    reveal_strlit("(none)");
    let l = screen_lines(m);
    let h = header_text(m);
    let b = styled_lines(m);
    let rows = m.rows as int;
    let cols = m.cols as int;
    let t = if any_styled(m, rows) {
        style_lines(m, rows)
    } else {
        seq!["(none)"@]
    };
    lemma_styled_text(m);
    lemma_rows_facts(m);
    lemma_header_no_newline(m);
    lemma_header_reads_back(m);
    lemma_style_lines_facts(m, rows);
    lemma_styles_heading_is_not_a_span_line();
    lemma_block_is_lines(m, rows);
    assert(is_ws('\r'));
    assert(!has_newline(h));
    let at: int = l.len() as int + 1;
    assert(b[l.len() as int] == Seq::<char>::empty());
    assert(b[at] == "styles:"@);
    assert forall|j: int| at < j < b.len() implies #[trigger] b[j] == t[j - at - 1] by {}
    assert(trim_end("(none)"@) == "(none)"@) by {
        lemma_trim_end_drops_ws("(none)"@, Seq::empty());
        assert("(none)"@ + Seq::<char>::empty() =~= "(none)"@);
    }
    assert forall|i: int| 0 <= i < b.len() implies !has_newline(#[trigger] b[i]) && (b[i].len() == 0 || b[i].last() != '\r') by {
        if i < l.len() {
            assert(b[i] == l[i]);
        } else if i == l.len() {
        } else if i == at {
        } else {
            assert(b[i] == t[i - at - 1]);
        }
    }
    assert(b.last().len() > 0) by {
        assert(b.last() == t.last());
    }
    lemma_lines_of_rendering(h, b);
    let lines = lines_spec(styled_spec(m));
    assert(lines == seq![h] + b);
    assert(lines.skip(1) =~= b);
    assert(marker_at(b, at)) by {
        assert(trim_end(Seq::<char>::empty()) == Seq::<char>::empty());
        assert(is_blank(b[at - 1]));
        assert forall|j: int| at < j < b.len() implies span_line(#[trigger] b[j]) by {
            assert(b[j] == t[j - at - 1]);
        }
    }
    assert forall|j: int| 0 <= j < at implies !marker_at(b, j) by {
        assert(!span_line(b[at]));
    }
    lemma_marker_is_first(b, 0, at);
    assert(b.take(at - 1) =~= l);
    assert(b.skip(at + 1) =~= t);
    assert forall|i: int| 0 <= i < l.len() implies (#[trigger] l[i]).len() <= m.cols && all_one_column(l[i]) by {}
    lemma_parsed_cells(l, cols, rows);
    let c0 = grid_spec(l, cols, rows)->Ok_0;
    assert forall|i: int| 0 <= i < c0.len() implies (#[trigger] c0[i]).style == plain_style() by {
        let r = i / cols;
        let j = i % cols;
        assert(i == r * cols + j) by (nonlinear_arith)
            requires
                r == i / cols,
                j == i % cols,
                cols > 0,
        ;
        assert(0 <= r < rows) by (nonlinear_arith)
            requires
                r == i / cols,
                0 <= i < cols * rows,
                cols > 0,
        ;
        assert(0 <= j < cols);
        assert(c0[r * cols + j] == parsed_cell(l, r, j));
    }
    lemma_style_lines_read_back(m, rows, at + 3, c0);
    if !any_styled(m, rows) {
        assert(style_lines(m, rows).len() == 0);
        reveal(crate::parse::style_line);
        assert(t.len() == 1);
        assert(styles_fold(t, 0, at + 3, cols, rows, c0) == Ok::<Seq<CellModel>, Seq<char>>(c0));
        assert(styles_fold(t, 1, at + 3, cols, rows, c0) == crate::parse::style_line(t[0], at + 3, cols, rows, c0));
    }
}

proof fn lemma_restored_cells(c: Seq<CellModel>, m: ScreenModel, k: int)
    requires
        0 <= k <= m.rows,
        m.cols > 0,
        c.len() == m.cols * m.rows,
    ensures
        restored(c, m, k).len() == c.len(),
        forall|r: int, j: int|
            0 <= r < k && 0 <= j < m.cols ==> #[trigger] restored(c, m, k)[r * m.cols + j] == (CellModel {
                style: cell_at(m, r, j).style,
                ..c[r * m.cols + j]
            }),
    decreases k,
{
    lemma_restored_untouched(c, m, k);
    if k > 0 {
        lemma_restored_cells(c, m, k - 1);
        lemma_restored_untouched(c, m, k - 1);
        let cols = m.cols as int;
        let prev = restored(c, m, k - 1);
        assert forall|r: int, j: int| 0 <= r < k && 0 <= j < cols implies #[trigger] restored(c, m, k)[r * cols + j] == (
        CellModel { style: cell_at(m, r, j).style, ..c[r * cols + j] }) by {
            lemma_cell_index(r, j, cols, m.rows as int);
            if r < k - 1 {
                assert(r * cols + j < (k - 1) * cols) by (nonlinear_arith)
                    requires
                        r < k - 1,
                        j < cols,
                        cols > 0,
                        r * cols + j < (r + 1) * cols,
                ;
            } else {
                assert(prev[r * cols + j] == c[r * cols + j]);
            }
        }
    }
}

/// The cell the rendering with styles reads back as at `(r, j)`: the
/// parsed character, in the style the screen shows there.
proof fn lemma_styled_cell(m: ScreenModel, r: int, j: int)
    requires
        grid_carried(m),
        glyph_width(' ') == 1,
        0 <= r < m.rows,
        0 <= j < m.cols,
    ensures
        cell_at(styled_read_back(m), r, j) == (CellModel {
            style: cell_at(m, r, j).style,
            ..parsed_cell(screen_lines(m), r, j)
        }),
{
    let l = screen_lines(m);
    lemma_rows_facts(m);
    assert forall|i: int| 0 <= i < l.len() implies (#[trigger] l[i]).len() <= m.cols && all_one_column(l[i]) by {}
    lemma_parsed_cells(l, m.cols as int, m.rows as int);
    let c0 = grid_spec(l, m.cols as int, m.rows as int)->Ok_0;
    lemma_restored_cells(c0, m, m.rows as int);
    assert(restored(c0, m, m.rows as int)[r * m.cols + j] == (CellModel { style: cell_at(m, r, j).style, ..c0[r * m.cols + j] }));
}

proof fn lemma_styled_rows(m: ScreenModel, r: int)
    requires
        grid_carried(m),
        glyph_width(' ') == 1,
        0 <= r < m.rows,
    ensures
        trim_end(row_text_spec(styled_read_back(m), r)) == screen_lines(m)[r],
{
    let p = styled_read_back(m);
    let l = screen_lines(m);
    lemma_rows_facts(m);
    let cols = m.cols as int;
    assert forall|j: int| 0 <= j < cols implies single_column(#[trigger] cell_at(p, r, j)) && cell_char(cell_at(p, r, j))
        == cell_char(parsed_cell(l, r, j)) by {
        lemma_styled_cell(m, r, j);
    }
    lemma_row_prefix_chars(p, r, cols);
    let t = row_text_spec(p, r);
    let lr = l[r];
    assert(' ' as u32 == 0x20);
    assert forall|i: int| 0 <= i < spaces(cols - lr.len()).len() implies is_ws(#[trigger] spaces(cols - lr.len())[i]) by {}
    assert(t =~= lr + spaces(cols - lr.len())) by {
        assert forall|j: int| 0 <= j < cols implies t[j] == (lr + spaces(cols - lr.len()))[j] by {
            assert(t[j] == cell_char(cell_at(p, r, j)));
        }
    }
    lemma_trim_end_drops_ws(lr, spaces(cols - lr.len()));
}

proof fn lemma_same_runs(a: ScreenModel, b: ScreenModel, r: int, n: int)
    requires
        forall|j: int| 0 <= j < n ==> (#[trigger] cell_at(a, r, j)).style == cell_at(b, r, j).style,
    ensures
        runs_upto(a, r, n) == runs_upto(b, r, n),
    decreases n,
{
    if n > 0 {
        lemma_same_runs(a, b, r, n - 1);
        assert(cell_at(a, r, n - 1).style == cell_at(b, r, n - 1).style);
    }
}

proof fn lemma_same_block(a: ScreenModel, b: ScreenModel, k: int)
    requires
        forall|r: int| 0 <= r < k ==> #[trigger] row_spans(a, r) == row_spans(b, r),
    ensures
        styles_block(a, k) == styles_block(b, k),
        any_styled(a, k) == any_styled(b, k),
    decreases k,
{
    if k > 0 {
        lemma_same_block(a, b, k - 1);
        assert(row_spans(a, k - 1) == row_spans(b, k - 1));
    }
}

/// A snapshot with its styles read back renders to the same snapshot: for
/// a screen whose grid the snapshot text carries (see [`grid_carried`]),
/// parsing its rendering with styles succeeds, and the screen it gives
/// renders with styles to the same text. Stated given that
/// `unicode-width` gives a space one column, as its source does for all
/// printable ASCII.
pub proof fn lemma_styled_snapshot_reads_back(m: ScreenModel)
    requires
        grid_carried(m),
        glyph_width(' ') == 1,
    ensures
        parse_spec(styled_spec(m)) is Ok,
        styled_spec(parse_spec(styled_spec(m))->Ok_0) == styled_spec(m),
{
    lemma_parse_styled(m);
    let p = styled_read_back(m);
    let cols = m.cols as int;
    let rows = m.rows as int;
    assert(screen_lines(p) =~= screen_lines(m)) by {
        assert forall|r: int| 0 <= r < rows implies screen_lines(p)[r] == screen_lines(m)[r] by {
            lemma_styled_rows(m, r);
        }
    }
    assert forall|r: int| 0 <= r < rows implies #[trigger] row_spans(p, r) == row_spans(m, r) by {
        assert forall|j: int| 0 <= j < cols implies (#[trigger] cell_at(p, r, j)).style == cell_at(m, r, j).style by {
            lemma_styled_cell(m, r, j);
        }
        lemma_same_runs(p, m, r, cols);
    }
    lemma_same_block(p, m, rows);
    assert(cursor_text(p) == cursor_text(m));
    assert(display_spec(p) =~= header_text(p) + seq!['\n'] + text_spec(p));
    assert(display_spec(m) =~= header_text(m) + seq!['\n'] + text_spec(m));
}

/// Whitespace only as a written space: what the rendering needs besides to
/// give back the same picture, since it drops trailing whitespace.
pub open spec fn spaces_only(m: ScreenModel) -> bool {
    forall|i: int|
        0 <= i < m.cells.len() ==> (#[trigger] m.cells[i]).contents.len() == 0 || m.cells[i].contents[0] == ' '
            || !is_ws(m.cells[i].contents[0])
}

/// A snapshot with its styles read back shows the same picture: for a
/// screen whose grid the snapshot text carries, with whitespace only as
/// written spaces, the screen parsed from its rendering with styles has the
/// same size, a cursor that looks the same, and no changed cell or row.
pub proof fn lemma_styled_snapshot_diffs_empty(m: ScreenModel)
    requires
        grid_carried(m),
        spaces_only(m),
        glyph_width(' ') == 1,
    ensures
        parse_spec(styled_spec(m)) is Ok,
        diff_spec(m, parse_spec(styled_spec(m))->Ok_0).cells.len() == 0,
        diff_spec(m, parse_spec(styled_spec(m))->Ok_0).rows.len() == 0,
        diff_spec(m, parse_spec(styled_spec(m))->Ok_0).before_size == diff_spec(
            m,
            parse_spec(styled_spec(m))->Ok_0,
        ).after_size,
        same_cursor(
            diff_spec(m, parse_spec(styled_spec(m))->Ok_0).before_cursor,
            diff_spec(m, parse_spec(styled_spec(m))->Ok_0).after_cursor,
        ),
{
    lemma_parse_styled(m);
    let p = styled_read_back(m);
    assert(overlap(m, p) == (m.cols as int, m.rows as int));
    assert forall|r: int, j: int| 0 <= r < overlap(m, p).1 && 0 <= j < overlap(m, p).0 implies same_picture_spec(
        #[trigger] cell_at(m, r, j),
        cell_at(p, r, j),
    ) by {
        lemma_styled_picture(m, r, j);
    }
    lemma_no_changed_cells(m, p, overlap(m, p).1);
}

proof fn lemma_styled_picture(m: ScreenModel, r: int, j: int)
    requires
        grid_carried(m),
        spaces_only(m),
        glyph_width(' ') == 1,
        0 <= r < m.rows,
        0 <= j < m.cols,
    ensures
        same_picture_spec(cell_at(m, r, j), cell_at(styled_read_back(m), r, j)),
{
    let l = screen_lines(m);
    lemma_styled_cell(m, r, j);
    lemma_plain_rows(m, r);
    lemma_cell_index(r, j, m.cols as int, m.rows as int);
    lemma_trim_end_prefix(row_text_spec(m, r));
    let c = cell_at(m, r, j);
    let t = row_text_spec(m, r);
    let q = cell_at(styled_read_back(m), r, j);
    assert(t[j] == cell_char(c));
    assert(c == m.cells[r * m.cols + j]);
    assert(single_column(c));
    assert(q.style == c.style);
    if j < l[r].len() {
        assert(l[r][j] == t[j]);
        assert(q.contents == seq![cell_char(c)]);
        if c.contents.len() == 1 {
            assert(c.contents =~= seq![c.contents[0]]);
        } else {
            assert(blank(c) && blank(q));
        }
    } else {
        assert(is_ws(t[j]));
        assert(q.contents == Seq::<char>::empty());
        if c.contents.len() == 1 {
            assert(c.contents[0] == ' ');
            assert(c.contents =~= seq![' ']);
        }
        assert(blank(c) && blank(q));
    }
}

} // verus!
