//! What changed between two screens, rendered as only the rows that
//! changed with the changed columns marked.
use vstd::prelude::*;
use crate::screen::{
    Cell, CellModel, Screen, ScreenModel, cell_at, join_sep, row_spans, row_text_spec, trim_end, trimmed_len,
    append_chars, push_joined,
};
use crate::text::{chars_of, decimal_text, push_char, push_decimal_text, push_str, string_of};

verus! {

/// Whether a cell is blank: erased (`""`) or a written space.
pub open spec fn blank(c: CellModel) -> bool {
    c.contents.len() == 0 || c.contents == seq![' ']
}

/// Whether two cells draw the same thing: equal, or both blank in the
/// same style.
pub open spec fn same_picture_spec(a: CellModel, b: CellModel) -> bool {
    a.style == b.style && a.wide == b.wide && a.continuation == b.continuation && (a.contents == b.contents || (
    blank(a) && blank(b)))
}

/// Whether two cursors look the same: same visibility, and the same
/// position when visible (a hidden cursor draws nothing).
pub open spec fn same_cursor(a: (u16, u16, bool), b: (u16, u16, bool)) -> bool {
    a.2 == b.2 && (!a.2 || (a.0 == b.0 && a.1 == b.1))
}

/// The columns of `row`, among the first `n`, where the two screens differ.
pub open spec fn changed_cols(a: ScreenModel, b: ScreenModel, row: int, n: int) -> Seq<u16>
    decreases n,
{
    if n <= 0 {
        Seq::empty()
    } else {
        changed_cols(a, b, row, n - 1) + if same_picture_spec(cell_at(a, row, n - 1), cell_at(b, row, n - 1)) {
            Seq::<u16>::empty()
        } else {
            seq![(n - 1) as u16]
        }
    }
}

/// The overlap of the two grids: the narrower width and the shorter height.
pub open spec fn overlap(a: ScreenModel, b: ScreenModel) -> (int, int) {
    (if a.cols < b.cols { a.cols as int } else { b.cols as int }, if a.rows < b.rows {
        a.rows as int
    } else {
        b.rows as int
    })
}

/// The changed columns of a row of the overlap.
pub open spec fn row_changes(a: ScreenModel, b: ScreenModel, row: int) -> Seq<u16> {
    changed_cols(a, b, row, overlap(a, b).0)
}

/// One row's `styles:` runs, or `(none)` for an all-default row.
pub open spec fn row_styles_spec(m: ScreenModel, row: int) -> Seq<char> {
    if row_spans(m, row).len() == 0 {
        "(none)"@
    } else {
        join_sep(row_spans(m, row), "; "@)
    }
}

/// A changed cell, as plain values.
pub type CellChange = (u16, u16, CellModel, CellModel);

/// The changed cells of the first `k` rows, in reading order.
pub open spec fn diff_cells(a: ScreenModel, b: ScreenModel, k: int) -> Seq<CellChange>
    decreases k,
{
    if k <= 0 {
        Seq::empty()
    } else {
        let r = k - 1;
        diff_cells(a, b, r) + col_changes(a, b, r as u16, row_changes(a, b, r))
    }
}

/// How many of the first `k` rows have no changed cell.
pub open spec fn unchanged_count(a: ScreenModel, b: ScreenModel, k: int) -> nat
    decreases k,
{
    if k <= 0 {
        0
    } else {
        unchanged_count(a, b, k - 1) + if row_changes(a, b, k - 1).len() == 0 {
            1nat
        } else {
            0nat
        }
    }
}

/// A changed row, as plain values: its index, its trimmed text before and
/// after, and its changed columns.
pub type RowChange = (u16, Seq<char>, Seq<char>, Seq<u16>);

/// The changed rows among the first `k`.
pub open spec fn diff_rows(a: ScreenModel, b: ScreenModel, k: int) -> Seq<RowChange>
    decreases k,
{
    if k <= 0 {
        Seq::empty()
    } else {
        let r = k - 1;
        diff_rows(a, b, r) + if row_changes(a, b, r).len() == 0 {
            Seq::<RowChange>::empty()
        } else {
            seq![(r as u16, trim_end(row_text_spec(a, r)), trim_end(row_text_spec(b, r)), row_changes(a, b, r))]
        }
    }
}

/// A style change, as plain values: the row and its runs before and after.
pub type StyleChange = (u16, Seq<char>, Seq<char>);

/// The changed rows among the first `k` whose style runs differ.
pub open spec fn diff_styles(a: ScreenModel, b: ScreenModel, k: int) -> Seq<StyleChange>
    decreases k,
{
    if k <= 0 {
        Seq::empty()
    } else {
        let r = k - 1;
        diff_styles(a, b, r) + if row_changes(a, b, r).len() > 0 && row_styles_spec(a, r) != row_styles_spec(b, r) {
            seq![(r as u16, row_styles_spec(a, r), row_styles_spec(b, r))]
        } else {
            Seq::<StyleChange>::empty()
        }
    }
}

/// A diff, as plain values.
pub struct DiffModel {
    pub before_size: (u16, u16),
    pub after_size: (u16, u16),
    pub before_cursor: (u16, u16, bool),
    pub after_cursor: (u16, u16, bool),
    pub cells: Seq<CellChange>,
    pub unchanged_rows: u16,
    pub style_changes: Seq<StyleChange>,
    pub rows: Seq<RowChange>,
}

/// What changed from `a` to `b`.
pub open spec fn diff_spec(a: ScreenModel, b: ScreenModel) -> DiffModel {
    let k = overlap(a, b).1;
    DiffModel {
        before_size: (a.cols, a.rows),
        after_size: (b.cols, b.rows),
        before_cursor: (a.cursor_row, a.cursor_col, a.cursor_visible),
        after_cursor: (b.cursor_row, b.cursor_col, b.cursor_visible),
        cells: diff_cells(a, b, k),
        unchanged_rows: unchanged_count(a, b, k) as u16,
        style_changes: diff_styles(a, b, k),
        rows: diff_rows(a, b, k),
    }
}

/// The plain values of changed cells.
pub open spec fn changes_view(v: Seq<(u16, u16, Cell, Cell)>) -> Seq<CellChange> {
    Seq::new(v.len(), |i: int| (v[i].0, v[i].1, v[i].2@, v[i].3@))
}

proof fn lemma_changes_push(v: Seq<(u16, u16, Cell, Cell)>, x: (u16, u16, Cell, Cell))
    ensures
        changes_view(v.push(x)) == changes_view(v).push((x.0, x.1, x.2@, x.3@)),
{
    assert(changes_view(v.push(x)) =~= changes_view(v).push((x.0, x.1, x.2@, x.3@)));
}

proof fn lemma_styles_push(v: Seq<(u16, String, String)>, x: (u16, String, String))
    ensures
        styles_view(v.push(x)) == styles_view(v).push((x.0, x.1@, x.2@)),
{
    assert(styles_view(v.push(x)) =~= styles_view(v).push((x.0, x.1@, x.2@)));
}

proof fn lemma_rows_push(v: Seq<(u16, String, String, Vec<u16>)>, x: (u16, String, String, Vec<u16>))
    ensures
        rows_view(v.push(x)) == rows_view(v).push((x.0, x.1@, x.2@, x.3@)),
{
    assert(rows_view(v.push(x)) =~= rows_view(v).push((x.0, x.1@, x.2@, x.3@)));
}

/// The plain values of style changes.
pub open spec fn styles_view(v: Seq<(u16, String, String)>) -> Seq<StyleChange> {
    Seq::new(v.len(), |i: int| (v[i].0, v[i].1@, v[i].2@))
}

/// The plain values of changed rows.
pub open spec fn rows_view(v: Seq<(u16, String, String, Vec<u16>)>) -> Seq<RowChange> {
    Seq::new(v.len(), |i: int| (v[i].0, v[i].1@, v[i].2@, v[i].3@))
}

/// The changes a row's changed columns stand for.
pub open spec fn col_changes(a: ScreenModel, b: ScreenModel, row: u16, cols: Seq<u16>) -> Seq<CellChange> {
    Seq::new(cols.len(), |i: int| (row, cols[i], cell_at(a, row as int, cols[i] as int), cell_at(b, row as int, cols[i] as int)))
}

/// The difference between two screens. Built by [`Screen::diff`].
pub struct ScreenDiff {
    before_size: (u16, u16),
    after_size: (u16, u16),
    before_cursor: (u16, u16, bool),
    after_cursor: (u16, u16, bool),
    cells: Vec<(u16, u16, Cell, Cell)>,
    unchanged_rows: u16,
    style_changes: Vec<(u16, String, String)>,
    rows: Vec<(u16, String, String, Vec<u16>)>,
}

impl View for ScreenDiff {
    type V = DiffModel;

    closed spec fn view(&self) -> DiffModel {
        DiffModel {
            before_size: self.before_size,
            after_size: self.after_size,
            before_cursor: self.before_cursor,
            after_cursor: self.after_cursor,
            cells: changes_view(self.cells@),
            unchanged_rows: self.unchanged_rows,
            style_changes: styles_view(self.style_changes@),
            rows: rows_view(self.rows@),
        }
    }
}

fn is_blank(c: &Cell) -> (r: bool)
    ensures
        r == blank(c@),
{
    let v = chars_of(c.contents());
    let r = v.len() == 0 || (v.len() == 1 && v[0] == ' ');
    proof {
        if v@.len() == 1 && v@[0] == ' ' {
            assert(v@ =~= seq![' ']);
        }
    }
    r
}

fn same_text(a: &Cell, b: &Cell) -> (r: bool)
    ensures
        r == (a@.contents == b@.contents),
{
    let x = chars_of(a.contents());
    let y = chars_of(b.contents());
    if x.len() != y.len() {
        return false;
    }
    let mut i: usize = 0;
    while i < x.len()
        invariant
            i <= x@.len() == y@.len(),
            x@ == a@.contents,
            y@ == b@.contents,
            forall|j: int| 0 <= j < i ==> x@[j] == y@[j],
        decreases x@.len() - i,
    {
        if x[i] != y[i] {
            assert(x@[i as int] != y@[i as int]);
            return false;
        }
        i = i + 1;
    }
    assert(x@ =~= y@);
    true
}

/// Whether two cells draw the same thing: equal, or both blank in the same
/// style — an erased cell and a written space are one picture.
pub fn same_picture(a: &Cell, b: &Cell) -> (r: bool)
    ensures
        r == same_picture_spec(a@, b@),
{
    *a.style() == *b.style() && a.is_wide() == b.is_wide() && a.is_wide_continuation() == b.is_wide_continuation() && (
    same_text(a, b) || (is_blank(a) && is_blank(b)))
}

/// One row's `styles:` runs, in the tokens the styled rendering writes, or
/// `(none)` for an all-default row.
pub fn row_styles(screen: &Screen, row: u16) -> (r: String)
    requires
        row < screen@.rows,
    ensures
        r@ == row_styles_spec(screen@, row as int),
{
    let spans = screen.row_span_strings(row);
    let mut out = String::new();
    if spans.len() == 0 {
        push_str(&mut out, "(none)");
    } else {
        push_joined(&mut out, &spans, "; ");
    }
    out
}

impl Screen {
    /// What changed from `self` to `other`: every cell whose contents or
    /// style differ within the overlap of the two grids, the rows those
    /// cells are on (their text before and after, and the changed
    /// columns), how many rows are unchanged, the style runs of changed
    /// rows where they differ, and the size and cursor of each side.
    pub fn diff(&self, other: &Screen) -> (r: ScreenDiff)
        ensures
            r@ == diff_spec(self@, other@),
    {
        let cols = if self.cols() < other.cols() { self.cols() } else { other.cols() };
        let rows = if self.rows() < other.rows() { self.rows() } else { other.rows() };
        let mut cells: Vec<(u16, u16, Cell, Cell)> = Vec::new();
        let mut rows_out: Vec<(u16, String, String, Vec<u16>)> = Vec::new();
        let mut style_changes: Vec<(u16, String, String)> = Vec::new();
        let mut unchanged_rows: u16 = 0;
        let mut row: u16 = 0;
        while row < rows
            invariant
                row <= rows,
                cols == overlap(self@, other@).0,
                rows == overlap(self@, other@).1,
                changes_view(cells@) == diff_cells(self@, other@, row as int),
                unchanged_rows == unchanged_count(self@, other@, row as int),
                unchanged_rows <= row,
                styles_view(style_changes@) == diff_styles(self@, other@, row as int),
                rows_view(rows_out@) == diff_rows(self@, other@, row as int),
            decreases rows - row,
        {
            let mut changed: Vec<u16> = Vec::new();
            let ghost cells0 = changes_view(cells@);
            let mut col: u16 = 0;
            while col < cols
                invariant
                    row < rows,
                    col <= cols,
                    cols == overlap(self@, other@).0,
                    rows == overlap(self@, other@).1,
                    changed@ == changed_cols(self@, other@, row as int, col as int),
                    changes_view(cells@) == cells0 + col_changes(self@, other@, row, changed@),
                decreases cols - col,
            {
                let a = self.cell(row, col);
                let b = other.cell(row, col);
                match (a, b) {
                    (Some(a), Some(b)) => {
                        let ghost before = changes_view(cells@);
                        if !same_picture(a, b) {
                            let ca = a.clone();
                            let cb = b.clone();
                            assert(ca@ == cell_at(self@, row as int, col as int));
                            assert(cb@ == cell_at(other@, row as int, col as int));
                            let ghost ch0 = changed@;
                            let ghost c0 = cells@;
                            changed.push(col);
                            let t = (row, col, ca, cb);
                            proof {
                                lemma_changes_push(c0, t);
                            }
                            cells.push(t);
                            assert(col_changes(self@, other@, row, changed@) =~= col_changes(self@, other@, row, ch0).push(
                                (row, col, cell_at(self@, row as int, col as int), cell_at(other@, row as int, col as int)),
                            ));
                            assert(changes_view(cells@) =~= cells0 + col_changes(self@, other@, row, changed@));
                        } else {
                            assert(changed@ =~= changed_cols(self@, other@, row as int, col + 1));
                        }
                    },
                    _ => {},
                }
                col = col + 1;
            }
            if changed.len() == 0 {
                unchanged_rows = unchanged_rows + 1;
                proof {
                    assert(changes_view(cells@) =~= diff_cells(self@, other@, row + 1));
                }
            } else {
                let ta = self.row_chars(row);
                let na = trimmed_len(ta.as_slice());
                let mut trimmed_a: Vec<char> = Vec::new();
                append_chars(&mut trimmed_a, ta.as_slice(), na);
                let tb = other.row_chars(row);
                let nb = trimmed_len(tb.as_slice());
                let mut trimmed_b: Vec<char> = Vec::new();
                append_chars(&mut trimmed_b, tb.as_slice(), nb);
                proof {
                    assert(trimmed_a@ =~= ta@.take(na as int));
                    assert(trimmed_b@ =~= tb@.take(nb as int));
                }
                let ghost rv0 = rows_out@;
                let ghost rv = rows_view(rows_out@);
                let ghost cv = changed@;
                let t = (row, string_of(trimmed_a.as_slice()), string_of(trimmed_b.as_slice()), changed);
                proof {
                    lemma_rows_push(rv0, t);
                }
                rows_out.push(t);
                assert(rows_view(rows_out@) =~= rv.push(
                    (row, trim_end(row_text_spec(self@, row as int)), trim_end(row_text_spec(other@, row as int)), cv),
                ));
                let before = row_styles(self, row);
                let after = row_styles(other, row);
                let bc = chars_of(before.as_str());
                let ac = chars_of(after.as_str());
                let same = bc.len() == ac.len() && crate::screen::chars_equal(bc.as_slice(), ac.as_slice());
                let ghost sv = styles_view(style_changes@);
                if !same {
                    let ghost bv = before@;
                    let ghost av = after@;
                    let ghost s0 = style_changes@;
                    let t = (row, before, after);
                    proof {
                        lemma_styles_push(s0, t);
                    }
                    style_changes.push(t);
                    assert(styles_view(style_changes@) =~= sv.push((row, bv, av)));
                }
                proof {
                    assert(changes_view(cells@) =~= diff_cells(self@, other@, row + 1));
                }
            }
            row = row + 1;
        }
        ScreenDiff {
            before_size: self.size(),
            after_size: other.size(),
            before_cursor: self.cursor(),
            after_cursor: other.cursor(),
            cells,
            unchanged_rows,
            style_changes,
            rows: rows_out,
        }
    }
}

impl ScreenDiff {
    /// True when the two screens show the same picture: same size, a cursor
    /// that looks the same, and no changed cell.
    pub fn is_empty(&self) -> (r: bool)
        ensures
            r == (self@.cells.len() == 0 && self@.before_size == self@.after_size && same_cursor(
                self@.before_cursor,
                self@.after_cursor,
            )),
    {
        let a = self.before_cursor;
        let b = self.after_cursor;
        self.cells.len() == 0 && self.before_size.0 == self.after_size.0 && self.before_size.1 == self.after_size.1
            && a.2 == b.2 && (!a.2 || (a.0 == b.0 && a.1 == b.1))
    }

    /// Every changed cell as `(row, col, before, after)`, in reading order,
    /// within the overlap of the two grids.
    pub fn cells(&self) -> (r: Vec<(u16, u16, Cell, Cell)>)
        ensures
            changes_view(r@) == self@.cells,
    {
        let mut out: Vec<(u16, u16, Cell, Cell)> = Vec::new();
        let mut i: usize = 0;
        while i < self.cells.len()
            invariant
                i <= self.cells@.len(),
                changes_view(out@) == self@.cells.take(i as int),
            decreases self.cells@.len() - i,
        {
            let e = &self.cells[i];
            let ca = e.2.clone();
            let cb = e.3.clone();
            let ghost o = out@;
            let t = (e.0, e.1, ca, cb);
            proof {
                lemma_changes_push(o, t);
                assert(self@.cells[i as int] == (e.0, e.1, e.2@, e.3@));
            }
            out.push(t);
            assert(changes_view(out@) =~= self@.cells.take(i + 1));
            i = i + 1;
        }
        assert(self@.cells.take(self.cells@.len() as int) =~= self@.cells);
        out
    }

    /// The rows with at least one changed cell, ascending, each once.
    pub fn changed_rows(&self) -> (r: Vec<u16>)
        ensures
            r@ == self@.rows.map_values(|x: RowChange| x.0),
    {
        let mut out: Vec<u16> = Vec::new();
        let mut i: usize = 0;
        while i < self.rows.len()
            invariant
                i <= self.rows@.len(),
                out@ == self@.rows.take(i as int).map_values(|x: RowChange| x.0),
            decreases self.rows@.len() - i,
        {
            out.push(self.rows[i].0);
            assert(out@ =~= self@.rows.take(i + 1).map_values(|x: RowChange| x.0));
            i = i + 1;
        }
        assert(self@.rows.take(self.rows@.len() as int) =~= self@.rows);
        out
    }

    /// The style runs of each changed row whose runs differ, as
    /// `(row, before, after)`, ascending by row.
    pub fn style_changes(&self) -> (r: Vec<(u16, String, String)>)
        ensures
            styles_view(r@) == self@.style_changes,
    {
        let mut out: Vec<(u16, String, String)> = Vec::new();
        let mut i: usize = 0;
        while i < self.style_changes.len()
            invariant
                i <= self.style_changes@.len(),
                styles_view(out@) == self@.style_changes.take(i as int),
            decreases self.style_changes@.len() - i,
        {
            let e = &self.style_changes[i];
            let sa = e.1.clone();
            let sb = e.2.clone();
            let ghost o = out@;
            let t = (e.0, sa, sb);
            proof {
                lemma_styles_push(o, t);
                assert(self@.style_changes[i as int] == (e.0, e.1@, e.2@));
            }
            out.push(t);
            assert(styles_view(out@) =~= self@.style_changes.take(i + 1));
            i = i + 1;
        }
        assert(self@.style_changes.take(self.style_changes@.len() as int) =~= self@.style_changes);
        out
    }
}


/// `n` spaces.
pub open spec fn spaces(n: int) -> Seq<char> {
    Seq::new(if n > 0 { n as nat } else { 0 }, |i: int| ' ')
}

/// `s` padded with spaces on the right to `w` characters.
pub open spec fn pad_right(s: Seq<char>, w: int) -> Seq<char> {
    s + spaces(w - s.len())
}

/// `s` padded with spaces on the left to `w` characters.
pub open spec fn pad_left(s: Seq<char>, w: int) -> Seq<char> {
    spaces(w - s.len()) + s
}

/// `a → b` when they differ, `a` alone when they do not.
pub open spec fn arrow(a: Seq<char>, b: Seq<char>) -> Seq<char> {
    if a == b {
        a
    } else {
        a + " → "@ + b
    }
}

/// A size as `<cols>x<rows>`.
pub open spec fn size_text(s: (u16, u16)) -> Seq<char> {
    decimal_text(s.0 as nat) + "x"@ + decimal_text(s.1 as nat)
}

/// A cursor as `<row>,<col>`, or `hidden`.
pub open spec fn cursor_text(c: (u16, u16, bool)) -> Seq<char> {
    if c.2 {
        decimal_text(c.0 as nat) + ","@ + decimal_text(c.1 as nat)
    } else {
        "hidden"@
    }
}

/// The marker line of a changed row: `^` under each changed column, trimmed.
pub open spec fn marks(changed: Seq<u16>, width: int) -> Seq<char> {
    trim_end(Seq::new(if width > 0 { width as nat } else { 0 }, |c: int| if changed.contains(c as u16) { '^' } else { ' ' }))
}

/// The two lines of one changed row.
pub open spec fn row_lines(r: RowChange, width: int) -> Seq<char> {
    pad_left(decimal_text(r.0 as nat), 3) + " │"@ + pad_right(r.1, width) + "│"@ + r.2 + seq!['\n'] + "    │"@
        + pad_right(marks(r.3, width), width) + "│"@ + marks(r.3, width) + seq!['\n']
}

/// The lines of all changed rows.
pub open spec fn rows_text(rows: Seq<RowChange>, width: int) -> Seq<char>
    decreases rows.len(),
{
    if rows.len() == 0 {
        Seq::empty()
    } else {
        rows_text(rows.drop_last(), width) + row_lines(rows.last(), width)
    }
}

/// The lines of all style changes.
pub open spec fn styles_text(st: Seq<StyleChange>) -> Seq<char>
    decreases st.len(),
{
    if st.len() == 0 {
        Seq::empty()
    } else {
        styles_text(st.drop_last()) + "styles: "@ + decimal_text(st.last().0 as nat) + ": "@ + st.last().1 + " → "@
            + st.last().2 + seq!['\n']
    }
}

/// The smaller of two sizes' sides.
pub open spec fn min16(a: u16, b: u16) -> u16 {
    if a < b {
        a
    } else {
        b
    }
}

/// The header of a diff's rendering: the size and cursor deltas, and a
/// note on the overlap when the sizes differ.
pub open spec fn diff_head(d: DiffModel) -> Seq<char> {
    let width = min16(d.before_size.0, d.after_size.0) as int;
    "size: "@ + arrow(size_text(d.before_size), size_text(d.after_size)) + "   cursor: "@ + arrow(
        cursor_text(d.before_cursor),
        cursor_text(d.after_cursor),
    ) + seq!['\n'] + (if d.before_size != d.after_size {
        "compared over the "@ + decimal_text(width as nat) + "x"@ + decimal_text(
            min16(d.before_size.1, d.after_size.1) as nat,
        ) + " overlap; the rest is clipped"@ + seq!['\n']
    } else {
        Seq::empty()
    })
}

/// The count of unchanged rows, when there are any.
pub open spec fn unchanged_text(d: DiffModel) -> Seq<char> {
    if d.unchanged_rows > 0 {
        "… "@ + decimal_text(d.unchanged_rows as nat) + " rows unchanged"@ + seq!['\n']
    } else {
        Seq::empty()
    }
}

/// The plain-text rendering of a diff: `no difference`, or a header with
/// the size and cursor deltas, a note when sizes differ, each changed row
/// before and after over a marker line, a count of unchanged rows, and the
/// style runs that changed.
pub open spec fn diff_text(d: DiffModel) -> Seq<char> {
    if d.cells.len() == 0 && d.before_size == d.after_size && same_cursor(d.before_cursor, d.after_cursor) {
        "no difference"@
    } else {
        diff_head(d) + rows_text(d.rows, min16(d.before_size.0, d.after_size.0) as int) + unchanged_text(d)
            + styles_text(d.style_changes)
    }
}

fn push_spaces(out: &mut Vec<char>, n: usize)
    ensures
        final(out)@ == old(out)@ + spaces(n as int),
{
    let mut i: usize = 0;
    while i < n
        invariant
            i <= n,
            out@ == old(out)@ + spaces(i as int),
        decreases n - i,
    {
        out.push(' ');
        i = i + 1;
        assert(out@ =~= old(out)@ + spaces(i as int));
    }
}

fn push_text(out: &mut Vec<char>, t: &str)
    ensures
        final(out)@ == old(out)@ + t@,
{
    let v = chars_of(t);
    let n = v.len();
    append_chars(out, v.as_slice(), n);
    assert(v@.take(n as int) =~= v@);
}

fn push_padded(out: &mut Vec<char>, s: &[char], w: usize, left: bool)
    ensures
        final(out)@ == old(out)@ + if left {
            pad_left(s@, w as int)
        } else {
            pad_right(s@, w as int)
        },
{
    let n = s.len();
    let gap = if n < w { w - n } else { 0 };
    assert(spaces(gap as int) =~= spaces(w - s@.len()));
    let ghost o = out@;
    if left {
        push_spaces(out, gap);
        append_chars(out, s, n);
    } else {
        append_chars(out, s, n);
        push_spaces(out, gap);
    }
    assert(s@.take(n as int) =~= s@);
    proof {
        if left {
            assert(out@ =~= o + pad_left(s@, w as int));
        } else {
            assert(out@ =~= o + pad_right(s@, w as int));
        }
    }
}

fn decimal_chars(n: u64) -> (r: Vec<char>)
    ensures
        r@ == decimal_text(n as nat),
{
    let mut s = String::new();
    push_decimal_text(&mut s, n);
    let v = chars_of(s.as_str());
    assert(v@ =~= decimal_text(n as nat));
    v
}

fn push_arrow(out: &mut Vec<char>, a: &[char], b: &[char])
    ensures
        final(out)@ == old(out)@ + arrow(a@, b@),
{
    let same = a.len() == b.len() && crate::screen::chars_equal(a, b);
    let na = a.len();
    append_chars(out, a, na);
    assert(a@.take(na as int) =~= a@);
    let ghost mid = out@;
    if !same {
        push_text(out, " → ");
        let nb = b.len();
        append_chars(out, b, nb);
        assert(b@.take(nb as int) =~= b@);
        assert(out@ =~= old(out)@ + (a@ + " → "@ + b@));
    }
}

fn size_chars(s: (u16, u16)) -> (r: Vec<char>)
    ensures
        r@ == size_text(s),
{
    let mut v = decimal_chars(s.0 as u64);
    push_text(&mut v, "x");
    let w = decimal_chars(s.1 as u64);
    let n = w.len();
    append_chars(&mut v, w.as_slice(), n);
    assert(w@.take(n as int) =~= w@);
    v
}

fn cursor_chars(c: (u16, u16, bool)) -> (r: Vec<char>)
    ensures
        r@ == cursor_text(c),
{
    if c.2 {
        let mut v = decimal_chars(c.0 as u64);
        push_text(&mut v, ",");
        let w = decimal_chars(c.1 as u64);
        let n = w.len();
        append_chars(&mut v, w.as_slice(), n);
        assert(w@.take(n as int) =~= w@);
        v
    } else {
        let mut v: Vec<char> = Vec::new();
        push_text(&mut v, "hidden");
        assert(v@ =~= "hidden"@);
        v
    }
}

fn mark_chars(changed: &Vec<u16>, width: u16) -> (r: Vec<char>)
    ensures
        r@ == marks(changed@, width as int),
{
    let mut v: Vec<char> = Vec::new();
    let mut c: u16 = 0;
    while c < width
        invariant
            c <= width,
            v@ == Seq::new(c as nat, |k: int| if changed@.contains(k as u16) { '^' } else { ' ' }),
        decreases width - c,
    {
        let mut hit = false;
        let mut j: usize = 0;
        while j < changed.len()
            invariant
                j <= changed@.len(),
                c < width,
                hit == exists|k: int| 0 <= k < j && changed@[k] == c,
            decreases changed@.len() - j,
        {
            if changed[j] == c {
                hit = true;
            }
            j = j + 1;
        }
        v.push(if hit { '^' } else { ' ' });
        proof {
            if hit {
                let k = choose|k: int| 0 <= k < changed@.len() && changed@[k] == c;
                assert(changed@.contains(c));
            } else {
                if changed@.contains(c) {
                    let k = choose|k: int| 0 <= k < changed@.len() && changed@[k] == c;
                    assert(false);
                }
            }
        }
        c = c + 1;
        assert(v@ =~= Seq::new(c as nat, |k: int| if changed@.contains(k as u16) { '^' } else { ' ' }));
    }
    let n = crate::screen::trimmed_len(v.as_slice());
    let mut out: Vec<char> = Vec::new();
    append_chars(&mut out, v.as_slice(), n);
    assert(out@ =~= v@.take(n as int));
    out
}

impl ScreenDiff {
    fn push_row(&self, out: &mut Vec<char>, k: usize, width: usize)
        requires
            k < self@.rows.len(),
            width <= u16::MAX,
        ensures
            final(out)@ == old(out)@ + row_lines(self@.rows[k as int], width as int),
    {
        let r = &self.rows[k];
        assert(self@.rows[k as int] == (r.0, r.1@, r.2@, r.3@));
        let num = decimal_chars(r.0 as u64);
        let ghost o = out@;
        push_padded(out, num.as_slice(), 3, true);
        push_text(out, " │");
        let before = chars_of(r.1.as_str());
        push_padded(out, before.as_slice(), width, false);
        push_text(out, "│");
        push_text(out, r.2.as_str());
        out.push('\n');
        push_text(out, "    │");
        let m = mark_chars(&r.3, width as u16);
        push_padded(out, m.as_slice(), width, false);
        push_text(out, "│");
        let n = m.len();
        append_chars(out, m.as_slice(), n);
        assert(m@.take(n as int) =~= m@);
        out.push('\n');
        assert(out@ =~= o + row_lines(self@.rows[k as int], width as int));
    }

    fn push_styles(&self, out: &mut Vec<char>)
        ensures
            final(out)@ == old(out)@ + styles_text(self@.style_changes),
    {
        let mut k: usize = 0;
        let ghost o = out@;
        while k < self.style_changes.len()
            invariant
                k <= self@.style_changes.len(),
                self@.style_changes.len() == self.style_changes@.len(),
                out@ == o + styles_text(self@.style_changes.take(k as int)),
            decreases self.style_changes@.len() - k,
        {
            let e = &self.style_changes[k];
            assert(self@.style_changes[k as int] == (e.0, e.1@, e.2@));
            let ghost before = out@;
            push_text(out, "styles: ");
            let num = decimal_chars(e.0 as u64);
            let nn = num.len();
            append_chars(out, num.as_slice(), nn);
            assert(num@.take(nn as int) =~= num@);
            push_text(out, ": ");
            push_text(out, e.1.as_str());
            push_text(out, " → ");
            push_text(out, e.2.as_str());
            out.push('\n');
            proof {
                let st = self@.style_changes.take(k + 1);
                assert(st.drop_last() =~= self@.style_changes.take(k as int));
                assert(out@ =~= o + styles_text(st));
            }
            k = k + 1;
        }
        assert(self@.style_changes.take(self.style_changes@.len() as int) =~= self@.style_changes);
    }

    #[verifier::rlimit(80)]
    fn push_head(&self, out: &mut Vec<char>)
        ensures
            final(out)@ == old(out)@ + diff_head(self@),
    {
        let ghost o = out@;
        push_text(out, "size: ");
        let sa = size_chars(self.before_size);
        let sb = size_chars(self.after_size);
        push_arrow(out, sa.as_slice(), sb.as_slice());
        push_text(out, "   cursor: ");
        let ca = cursor_chars(self.before_cursor);
        let cb = cursor_chars(self.after_cursor);
        push_arrow(out, ca.as_slice(), cb.as_slice());
        out.push('\n');
        let ghost head = out@;
        let width16 = if self.before_size.0 < self.after_size.0 { self.before_size.0 } else { self.after_size.0 };
        let differ = !(self.before_size.0 == self.after_size.0 && self.before_size.1 == self.after_size.1);
        if differ {
            let rows16 = if self.before_size.1 < self.after_size.1 { self.before_size.1 } else { self.after_size.1 };
            push_text(out, "compared over the ");
            let w = decimal_chars(width16 as u64);
            let nw = w.len();
            append_chars(out, w.as_slice(), nw);
            assert(w@.take(nw as int) =~= w@);
            push_text(out, "x");
            let h = decimal_chars(rows16 as u64);
            let nh = h.len();
            append_chars(out, h.as_slice(), nh);
            assert(h@.take(nh as int) =~= h@);
            push_text(out, " overlap; the rest is clipped");
            out.push('\n');
        }
        assert(out@ =~= o + diff_head(self@));
    }

    fn push_unchanged(&self, out: &mut Vec<char>)
        ensures
            final(out)@ == old(out)@ + unchanged_text(self@),
    {
        let ghost o = out@;
        if self.unchanged_rows > 0 {
            push_text(out, "… ");
            let u = decimal_chars(self.unchanged_rows as u64);
            let nu = u.len();
            append_chars(out, u.as_slice(), nu);
            assert(u@.take(nu as int) =~= u@);
            push_text(out, " rows unchanged");
            out.push('\n');
        }
        assert(out@ =~= o + unchanged_text(self@));
    }

    /// The diff as plain text: `no difference`, or the size and cursor
    /// deltas, a note when sizes differ, each changed row before and after
    /// over a marker line under the changed columns, a count of unchanged
    /// rows, and the style runs before and after where they changed.
    pub fn render(&self) -> (r: String)
        ensures
            r@ == diff_text(self@),
    {
        if self.is_empty() {
            let mut s = String::new();
            push_str(&mut s, "no difference");
            return s;
        }
        let mut out: Vec<char> = Vec::new();
        self.push_head(&mut out);
        let width16 = if self.before_size.0 < self.after_size.0 { self.before_size.0 } else { self.after_size.0 };
        let width = width16 as usize;
        let ghost mid = out@;
        let mut k: usize = 0;
        while k < self.rows.len()
            invariant
                k <= self@.rows.len(),
                width <= u16::MAX,
                self@.rows.len() == self.rows@.len(),
                out@ == mid + rows_text(self@.rows.take(k as int), width as int),
            decreases self.rows@.len() - k,
        {
            self.push_row(&mut out, k, width);
            proof {
                let rs = self@.rows.take(k + 1);
                assert(rs.drop_last() =~= self@.rows.take(k as int));
                assert(out@ =~= mid + rows_text(rs, width as int));
            }
            k = k + 1;
        }
        assert(self@.rows.take(self.rows@.len() as int) =~= self@.rows);
        self.push_unchanged(&mut out);
        self.push_styles(&mut out);
        proof {
            assert(out@ =~= diff_text(self@));
        }
        string_of(out.as_slice())
    }
}

/// A row whose first `n` cells look the same on both screens has no
/// changed column among them.
pub proof fn lemma_no_changed_cols(a: ScreenModel, b: ScreenModel, row: int, n: int)
    requires
        forall|j: int| 0 <= j < n ==> same_picture_spec(#[trigger] cell_at(a, row, j), cell_at(b, row, j)),
    ensures
        changed_cols(a, b, row, n).len() == 0,
    decreases n,
{
    if n > 0 {
        lemma_no_changed_cols(a, b, row, n - 1);
    }
}

/// When every cell of the overlap looks the same on both screens, no cell
/// and no row of the first `k` rows is in the diff.
pub proof fn lemma_no_changed_cells(a: ScreenModel, b: ScreenModel, k: int)
    requires
        forall|r: int, j: int|
            0 <= r < k && 0 <= j < overlap(a, b).0 ==> same_picture_spec(#[trigger] cell_at(a, r, j), cell_at(b, r, j)),
    ensures
        diff_cells(a, b, k).len() == 0,
        diff_rows(a, b, k).len() == 0,
    decreases k,
{
    if k > 0 {
        lemma_no_changed_cells(a, b, k - 1);
        assert forall|j: int| 0 <= j < overlap(a, b).0 implies same_picture_spec(
            #[trigger] cell_at(a, k - 1, j),
            cell_at(b, k - 1, j),
        ) by {}
        lemma_no_changed_cols(a, b, k - 1, overlap(a, b).0);
    }
}

/// A screen diffed with itself is empty: both sides have one size, the
/// cursor looks the same, and no cell or row changed.
pub proof fn lemma_diff_with_itself_is_empty(m: ScreenModel)
    ensures
        diff_spec(m, m).cells.len() == 0,
        diff_spec(m, m).rows.len() == 0,
        diff_spec(m, m).before_size == diff_spec(m, m).after_size,
        same_cursor(diff_spec(m, m).before_cursor, diff_spec(m, m).after_cursor),
{
    lemma_no_changed_cells(m, m, overlap(m, m).1);
}

/// Whether a diff is empty: same size, a cursor that looks the same, and
/// no changed cell (what [`ScreenDiff::is_empty`] reports).
pub open spec fn diff_is_empty(d: DiffModel) -> bool {
    d.cells.len() == 0 && d.before_size == d.after_size && same_cursor(d.before_cursor, d.after_cursor)
}

/// The changed columns of a row ascend, each names a cell that differs,
/// and every differing cell among the first `n` is named.
pub proof fn lemma_changed_cols(a: ScreenModel, b: ScreenModel, row: int, n: int)
    requires
        n <= 0x10000,
    ensures
        forall|i: int|
            0 <= i < changed_cols(a, b, row, n).len() ==> #[trigger] changed_cols(a, b, row, n)[i] < n
                && !same_picture_spec(
                cell_at(a, row, changed_cols(a, b, row, n)[i] as int),
                cell_at(b, row, changed_cols(a, b, row, n)[i] as int),
            ),
        forall|i: int, j: int|
            0 <= i < j < changed_cols(a, b, row, n).len() ==> changed_cols(a, b, row, n)[i] < changed_cols(
                a,
                b,
                row,
                n,
            )[j],
        forall|j: int|
            0 <= j < n && !same_picture_spec(#[trigger] cell_at(a, row, j), cell_at(b, row, j)) ==> exists|i: int|
                0 <= i < changed_cols(a, b, row, n).len() && changed_cols(a, b, row, n)[i] == j,
    decreases n,
{
    if n > 0 {
        lemma_changed_cols(a, b, row, n - 1);
        let prev = changed_cols(a, b, row, n - 1);
        let cur = changed_cols(a, b, row, n);
        if !same_picture_spec(cell_at(a, row, n - 1), cell_at(b, row, n - 1)) {
            assert(cur == prev.push((n - 1) as u16));
            assert forall|j: int|
                0 <= j < n && !same_picture_spec(#[trigger] cell_at(a, row, j), cell_at(b, row, j)) implies exists|
                i: int,
            | 0 <= i < cur.len() && cur[i] == j by {
                if j == n - 1 {
                    assert(cur[prev.len() as int] == j);
                } else {
                    let i = choose|i: int| 0 <= i < prev.len() && prev[i] == j;
                    assert(cur[i] == j);
                }
            }
        } else {
            assert(cur =~= prev);
        }
    }
}

/// No changed cell among the first `k` rows exactly when every row of them
/// has no changed column.
proof fn lemma_no_cells_no_cols(a: ScreenModel, b: ScreenModel, k: int)
    ensures
        (diff_cells(a, b, k).len() == 0) <==> forall|r: int| 0 <= r < k ==> #[trigger] row_changes(a, b, r).len() == 0,
    decreases k,
{
    if k > 0 {
        lemma_no_cells_no_cols(a, b, k - 1);
        let r = k - 1;
        assert(col_changes(a, b, r as u16, row_changes(a, b, r)).len() == row_changes(a, b, r).len());
    }
}

/// A row has no changed column exactly when every cell of it in the
/// overlap looks the same on both screens.
proof fn lemma_row_unchanged(a: ScreenModel, b: ScreenModel, r: int)
    ensures
        (row_changes(a, b, r).len() == 0) <==> forall|j: int|
            0 <= j < overlap(a, b).0 ==> same_picture_spec(#[trigger] cell_at(a, r, j), cell_at(b, r, j)),
{
    lemma_changed_cols(a, b, r, overlap(a, b).0);
    let cols = row_changes(a, b, r);
    if cols.len() > 0 {
        assert(cols[0] < overlap(a, b).0);
        assert(!same_picture_spec(cell_at(a, r, cols[0] as int), cell_at(b, r, cols[0] as int)));
    }
}

/// A diff is empty exactly when the two screens have one size, cursors
/// that look the same, and every cell pair draws the same picture: equal
/// style, wideness and contents, or contents both blank (`""` or `" "`).
pub proof fn lemma_empty_diff(a: ScreenModel, b: ScreenModel)
    ensures
        diff_is_empty(diff_spec(a, b)) <==> ((a.cols, a.rows) == (b.cols, b.rows) && same_cursor(
            (a.cursor_row, a.cursor_col, a.cursor_visible),
            (b.cursor_row, b.cursor_col, b.cursor_visible),
        ) && forall|r: int, j: int|
            0 <= r < a.rows && 0 <= j < a.cols ==> same_picture_spec(#[trigger] cell_at(a, r, j), cell_at(b, r, j))),
{
    let k = overlap(a, b).1;
    lemma_no_cells_no_cols(a, b, k);
    if (a.cols, a.rows) == (b.cols, b.rows) {
        assert(overlap(a, b) == (a.cols as int, a.rows as int));
        if diff_spec(a, b).cells.len() == 0 {
            assert forall|r: int, j: int| 0 <= r < a.rows && 0 <= j < a.cols implies same_picture_spec(
                #[trigger] cell_at(a, r, j),
                cell_at(b, r, j),
            ) by {
                assert(row_changes(a, b, r).len() == 0);
                lemma_row_unchanged(a, b, r);
            }
        }
        if forall|r: int, j: int|
            0 <= r < a.rows && 0 <= j < a.cols ==> same_picture_spec(#[trigger] cell_at(a, r, j), cell_at(b, r, j)) {
            assert forall|r: int| 0 <= r < k implies #[trigger] row_changes(a, b, r).len() == 0 by {
                lemma_row_unchanged(a, b, r);
                assert forall|j: int| 0 <= j < overlap(a, b).0 implies same_picture_spec(
                    #[trigger] cell_at(a, r, j),
                    cell_at(b, r, j),
                ) by {}
            }
        }
    }
}

/// Whether a diff is empty does not depend on which screen comes first.
pub proof fn lemma_empty_diff_symmetric(a: ScreenModel, b: ScreenModel)
    ensures
        diff_is_empty(diff_spec(a, b)) == diff_is_empty(diff_spec(b, a)),
{
    lemma_empty_diff(a, b);
    lemma_empty_diff(b, a);
    if diff_is_empty(diff_spec(a, b)) {
        assert forall|r: int, j: int| 0 <= r < b.rows && 0 <= j < b.cols implies same_picture_spec(
            #[trigger] cell_at(b, r, j),
            cell_at(a, r, j),
        ) by {
            assert(same_picture_spec(cell_at(a, r, j), cell_at(b, r, j)));
        }
    }
    if diff_is_empty(diff_spec(b, a)) {
        assert forall|r: int, j: int| 0 <= r < a.rows && 0 <= j < a.cols implies same_picture_spec(
            #[trigger] cell_at(a, r, j),
            cell_at(b, r, j),
        ) by {
            assert(same_picture_spec(cell_at(b, r, j), cell_at(a, r, j)));
        }
    }
}

/// The changed rows among the first `k` ascend, each has a changed
/// column, and every row with one is listed.
proof fn lemma_diff_rows(a: ScreenModel, b: ScreenModel, k: int)
    requires
        k <= 0x10000,
    ensures
        forall|i: int|
            0 <= i < diff_rows(a, b, k).len() ==> #[trigger] diff_rows(a, b, k)[i].0 < k && row_changes(
                a,
                b,
                diff_rows(a, b, k)[i].0 as int,
            ).len() > 0 && diff_rows(a, b, k)[i].1 == trim_end(row_text_spec(a, diff_rows(a, b, k)[i].0 as int))
                && diff_rows(a, b, k)[i].2 == trim_end(row_text_spec(b, diff_rows(a, b, k)[i].0 as int)),
        forall|i: int, j: int| 0 <= i < j < diff_rows(a, b, k).len() ==> diff_rows(a, b, k)[i].0 < diff_rows(a, b, k)[j].0,
        forall|r: int|
            0 <= r < k && #[trigger] row_changes(a, b, r).len() > 0 ==> exists|i: int|
                0 <= i < diff_rows(a, b, k).len() && diff_rows(a, b, k)[i].0 == r,
    decreases k,
{
    if k > 0 {
        lemma_diff_rows(a, b, k - 1);
        let prev = diff_rows(a, b, k - 1);
        let cur = diff_rows(a, b, k);
        let r = k - 1;
        if row_changes(a, b, r).len() == 0 {
            assert(cur =~= prev);
        } else {
            let e = (r as u16, trim_end(row_text_spec(a, r)), trim_end(row_text_spec(b, r)), row_changes(a, b, r));
            assert(cur =~= prev.push(e));
            assert forall|q: int| 0 <= q < k && #[trigger] row_changes(a, b, q).len() > 0 implies exists|i: int|
                0 <= i < cur.len() && cur[i].0 == q by {
                if q == r {
                    assert(cur[prev.len() as int].0 == q);
                } else {
                    let i = choose|i: int| 0 <= i < prev.len() && prev[i].0 == q;
                    assert(cur[i].0 == q);
                }
            }
        }
    }
}

/// The changed cells of the first `k` rows lie in rows with a changed
/// column and inside the overlap, come in reading order, and every row
/// with a changed column has one.
proof fn lemma_diff_cells(a: ScreenModel, b: ScreenModel, k: int)
    requires
        k <= 0x10000,
    ensures
        forall|m: int|
            0 <= m < diff_cells(a, b, k).len() ==> #[trigger] diff_cells(a, b, k)[m].0 < k && diff_cells(a, b, k)[m].1
                < overlap(a, b).0 && row_changes(a, b, diff_cells(a, b, k)[m].0 as int).len() > 0,
        forall|m: int, l: int|
            0 <= m < l < diff_cells(a, b, k).len() ==> diff_cells(a, b, k)[m].0 < diff_cells(a, b, k)[l].0 || (
            diff_cells(a, b, k)[m].0 == diff_cells(a, b, k)[l].0 && diff_cells(a, b, k)[m].1 < diff_cells(
                a,
                b,
                k,
            )[l].1),
        forall|r: int|
            0 <= r < k && #[trigger] row_changes(a, b, r).len() > 0 ==> exists|m: int|
                0 <= m < diff_cells(a, b, k).len() && diff_cells(a, b, k)[m].0 == r,
    decreases k,
{
    if k > 0 {
        lemma_diff_cells(a, b, k - 1);
        let r = k - 1;
        let prev = diff_cells(a, b, r);
        let cols = row_changes(a, b, r);
        let add = col_changes(a, b, r as u16, cols);
        let cur = diff_cells(a, b, k);
        assert(cur == prev + add);
        lemma_changed_cols(a, b, r, overlap(a, b).0);
        assert forall|m: int| 0 <= m < cur.len() implies #[trigger] cur[m].0 < k && cur[m].1 < overlap(a, b).0
            && row_changes(a, b, cur[m].0 as int).len() > 0 by {
            if m >= prev.len() {
                assert(cur[m] == add[m - prev.len()]);
                assert(cols[m - prev.len()] < overlap(a, b).0);
            } else {
                assert(cur[m] == prev[m]);
            }
        }
        assert forall|m: int, l: int| 0 <= m < l < cur.len() implies cur[m].0 < cur[l].0 || (cur[m].0 == cur[l].0
            && cur[m].1 < cur[l].1) by {
            if l >= prev.len() {
                assert(cur[l] == add[l - prev.len()]);
                if m >= prev.len() {
                    assert(cur[m] == add[m - prev.len()]);
                    assert(cols[m - prev.len()] < cols[l - prev.len()]);
                } else {
                    assert(cur[m] == prev[m]);
                }
            } else {
                assert(cur[m] == prev[m]);
                assert(cur[l] == prev[l]);
            }
        }
        assert forall|q: int| 0 <= q < k && #[trigger] row_changes(a, b, q).len() > 0 implies exists|m: int|
            0 <= m < cur.len() && cur[m].0 == q by {
            if q == r {
                assert(cur[prev.len() as int] == add[0]);
            } else {
                let m = choose|m: int| 0 <= m < prev.len() && prev[m].0 == q;
                assert(cur[m] == prev[m]);
            }
        }
    }
}

/// A diff's changed rows ascend, each once, and are exactly the rows of its
/// changed cells; the changed cells come in reading order (row, then
/// column) and lie inside the overlap of the two grids.
pub proof fn lemma_changed_rows_match_cells(a: ScreenModel, b: ScreenModel)
    ensures
        forall|i: int, j: int|
            0 <= i < j < diff_spec(a, b).rows.len() ==> diff_spec(a, b).rows[i].0 < diff_spec(a, b).rows[j].0,
        forall|i: int|
            0 <= i < diff_spec(a, b).rows.len() ==> #[trigger] diff_spec(a, b).rows[i].0 < overlap(a, b).1 && exists|
                m: int,
            | 0 <= m < diff_spec(a, b).cells.len() && diff_spec(a, b).cells[m].0 == diff_spec(a, b).rows[i].0,
        forall|m: int|
            0 <= m < diff_spec(a, b).cells.len() ==> #[trigger] diff_spec(a, b).cells[m].0 < overlap(a, b).1
                && diff_spec(a, b).cells[m].1 < overlap(a, b).0 && exists|i: int|
                0 <= i < diff_spec(a, b).rows.len() && diff_spec(a, b).rows[i].0 == diff_spec(a, b).cells[m].0,
        forall|m: int, l: int|
            0 <= m < l < diff_spec(a, b).cells.len() ==> diff_spec(a, b).cells[m].0 < diff_spec(a, b).cells[l].0 || (
            diff_spec(a, b).cells[m].0 == diff_spec(a, b).cells[l].0 && diff_spec(a, b).cells[m].1 < diff_spec(
                a,
                b,
            ).cells[l].1),
{
    let k = overlap(a, b).1;
    lemma_diff_rows(a, b, k);
    lemma_diff_cells(a, b, k);
    let d = diff_spec(a, b);
    assert forall|i: int| 0 <= i < d.rows.len() implies #[trigger] d.rows[i].0 < k && exists|m: int|
        0 <= m < d.cells.len() && d.cells[m].0 == d.rows[i].0 by {
        assert(row_changes(a, b, d.rows[i].0 as int).len() > 0);
    }
    assert forall|m: int| 0 <= m < d.cells.len() implies #[trigger] d.cells[m].0 < k && d.cells[m].1 < overlap(a, b).0
        && exists|i: int| 0 <= i < d.rows.len() && d.rows[i].0 == d.cells[m].0 by {
        assert(row_changes(a, b, d.cells[m].0 as int).len() > 0);
    }
}

/// The style changes among the first `k` rows ascend, each names a row
/// with a changed column whose runs differ, with its runs before and after,
/// and every such row is listed.
proof fn lemma_diff_styles(a: ScreenModel, b: ScreenModel, k: int)
    requires
        k <= 0x10000,
    ensures
        forall|i: int|
            0 <= i < diff_styles(a, b, k).len() ==> {
                let e = #[trigger] diff_styles(a, b, k)[i];
                &&& e.0 < k
                &&& row_changes(a, b, e.0 as int).len() > 0
                &&& e.1 == row_styles_spec(a, e.0 as int)
                &&& e.2 == row_styles_spec(b, e.0 as int)
                &&& e.1 != e.2
            },
        forall|i: int, j: int|
            0 <= i < j < diff_styles(a, b, k).len() ==> diff_styles(a, b, k)[i].0 < diff_styles(a, b, k)[j].0,
        forall|r: int|
            0 <= r < k && #[trigger] row_changes(a, b, r).len() > 0 && row_styles_spec(a, r) != row_styles_spec(b, r)
                ==> exists|i: int| 0 <= i < diff_styles(a, b, k).len() && diff_styles(a, b, k)[i].0 == r,
    decreases k,
{
    if k > 0 {
        lemma_diff_styles(a, b, k - 1);
        let prev = diff_styles(a, b, k - 1);
        let cur = diff_styles(a, b, k);
        let r = k - 1;
        if row_changes(a, b, r).len() > 0 && row_styles_spec(a, r) != row_styles_spec(b, r) {
            let e = (r as u16, row_styles_spec(a, r), row_styles_spec(b, r));
            assert(cur =~= prev.push(e));
            assert forall|q: int|
                0 <= q < k && #[trigger] row_changes(a, b, q).len() > 0 && row_styles_spec(a, q) != row_styles_spec(
                    b,
                    q,
                ) implies exists|i: int| 0 <= i < cur.len() && cur[i].0 == q by {
                if q == r {
                    assert(cur[prev.len() as int].0 == q);
                } else {
                    let i = choose|i: int| 0 <= i < prev.len() && prev[i].0 == q;
                    assert(cur[i].0 == q);
                }
            }
        } else {
            assert(cur =~= prev);
        }
    }
}

/// A diff's style changes ascend by row; each is a changed row whose style
/// runs differ, with its runs before and after (`(none)` for an all-default
/// row); and every changed row whose runs differ has one, so a row whose
/// text changed under unchanged styles has none.
pub proof fn lemma_style_changes_follow_rows(a: ScreenModel, b: ScreenModel)
    ensures
        forall|i: int, j: int|
            0 <= i < j < diff_spec(a, b).style_changes.len() ==> diff_spec(a, b).style_changes[i].0 < diff_spec(
                a,
                b,
            ).style_changes[j].0,
        forall|i: int|
            0 <= i < diff_spec(a, b).style_changes.len() ==> {
                let e = #[trigger] diff_spec(a, b).style_changes[i];
                &&& e.1 == row_styles_spec(a, e.0 as int)
                &&& e.2 == row_styles_spec(b, e.0 as int)
                &&& e.1 != e.2
                &&& exists|m: int| 0 <= m < diff_spec(a, b).rows.len() && diff_spec(a, b).rows[m].0 == e.0
            },
        forall|m: int|
            0 <= m < diff_spec(a, b).rows.len() && row_styles_spec(a, #[trigger] diff_spec(a, b).rows[m].0 as int)
                != row_styles_spec(b, diff_spec(a, b).rows[m].0 as int) ==> exists|i: int|
                0 <= i < diff_spec(a, b).style_changes.len() && diff_spec(a, b).style_changes[i].0 == diff_spec(
                    a,
                    b,
                ).rows[m].0,
{
    let k = overlap(a, b).1;
    lemma_diff_rows(a, b, k);
    lemma_diff_styles(a, b, k);
    let d = diff_spec(a, b);
    assert forall|i: int| 0 <= i < d.style_changes.len() implies exists|m: int|
        0 <= m < d.rows.len() && d.rows[m].0 == #[trigger] d.style_changes[i].0 by {
        let e = d.style_changes[i];
        assert(row_changes(a, b, e.0 as int).len() > 0);
        assert(0 <= e.0 < k);
    }
    assert forall|m: int|
        0 <= m < d.rows.len() && row_styles_spec(a, #[trigger] d.rows[m].0 as int) != row_styles_spec(
            b,
            d.rows[m].0 as int,
        ) implies exists|i: int| 0 <= i < d.style_changes.len() && d.style_changes[i].0 == d.rows[m].0 by {
        let r = d.rows[m].0 as int;
        assert(row_changes(a, b, r).len() > 0);
        assert(0 <= r < k);
    }
}

/// A changed row's entry carries the row's trimmed text before and after.
#[verifier::spinoff_prover]
proof fn lemma_row_entry_texts(a: ScreenModel, b: ScreenModel, i: int)
    requires
        0 <= i < diff_spec(a, b).rows.len(),
    ensures
        diff_spec(a, b).rows[i].1 == trim_end(row_text_spec(a, diff_spec(a, b).rows[i].0 as int)),
        diff_spec(a, b).rows[i].2 == trim_end(row_text_spec(b, diff_spec(a, b).rows[i].0 as int)),
{
    lemma_diff_rows(a, b, overlap(a, b).1);
    assert(diff_spec(a, b).rows[i] == diff_rows(a, b, overlap(a, b).1)[i]);
}

/// The rendering of a diff shows each changed row as one line: the row's
/// number right-aligned in three columns, `" │"`, the row's trimmed text on
/// the screen before, padded to the overlap's width, `"│"`, and the row's
/// trimmed text on the screen after; the marker line follows it.
#[verifier::spinoff_prover]
pub proof fn lemma_changed_row_shows_before_then_after(a: ScreenModel, b: ScreenModel, i: int)
    requires
        0 <= i < diff_spec(a, b).rows.len(),
    ensures
        ({
            let r = diff_spec(a, b).rows[i].0 as int;
            let w = min16(a.cols, b.cols) as int;
            let line = pad_left(decimal_text(r as nat), 3) + " │"@ + pad_right(trim_end(row_text_spec(a, r)), w) + "│"@
                + trim_end(row_text_spec(b, r)) + seq!['\n'];
            row_lines(diff_spec(a, b).rows[i], w).take(line.len() as int) == line
        }),
{
    lemma_row_entry_texts(a, b, i);
    let e = diff_spec(a, b).rows[i];
    let r = e.0 as int;
    let w = min16(a.cols, b.cols) as int;
    let line = pad_left(decimal_text(r as nat), 3) + " │"@ + pad_right(trim_end(row_text_spec(a, r)), w) + "│"@
        + trim_end(row_text_spec(b, r)) + seq!['\n'];
    let rest = "    │"@ + pad_right(marks(e.3, w), w) + "│"@ + marks(e.3, w) + seq!['\n'];
    assert(row_lines(e, w) =~= line + rest);
    assert((line + rest).take(line.len() as int) =~= line);
}

} // verus!
