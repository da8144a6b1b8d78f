//! A screen diff for a terminal: the plain rendering's header and trailer,
//! and each changed row side by side with its changed cells painted — red
//! for what the first screen showed, green for what the second shows — in
//! place of the marker line, which colour makes redundant.
use vstd::prelude::*;
use crate::cli::{has_prefix, row_line_chars, row_line_spec};
use crate::diff::{CellChange, DiffModel, ScreenDiff, changes_view, diff_text, pad_left, same_cursor, spaces};
use crate::screen::{Cell, CellModel, Screen, ScreenModel, cell_at, starts_with, trim_end, trimmed_len};
use crate::text::{chars_of, decimal_text, push_char, push_chars, push_decimal_text, push_str, string_of};
use crate::words::{lines_spec, text_lines, texts};

verus! {

/// The rows of the changed cells in order, a run of cells on one row
/// giving that row once.
pub open spec fn dedup_rows(cells: Seq<CellChange>) -> Seq<u16>
    decreases cells.len(),
{
    if cells.len() == 0 {
        Seq::empty()
    } else {
        let rest = dedup_rows(cells.drop_last());
        if rest.len() > 0 && rest.last() == cells.last().0 {
            rest
        } else {
            rest.push(cells.last().0)
        }
    }
}

/// Whether `(row, col)` is one of the changed cells.
pub open spec fn is_changed(cells: Seq<CellChange>, row: u16, col: int) -> bool {
    exists|i: int| 0 <= i < cells.len() && cells[i].0 == row && cells[i].1 == col
}

/// What a cell shows: its contents, or a space for a blank.
pub open spec fn shown(c: CellModel) -> Seq<char> {
    if c.contents.len() == 0 {
        seq![' ']
    } else {
        c.contents
    }
}

/// The first `n` columns of `row` of `m`, the changed cells wrapped in the
/// SGR `sgr` and a reset, the right halves of wide characters skipped; empty
/// for a row past the screen.
pub open spec fn painted(m: ScreenModel, cells: Seq<CellChange>, row: u16, sgr: Seq<char>, n: int) -> Seq<char>
    decreases n,
{
    if n <= 0 || row >= m.rows {
        Seq::empty()
    } else {
        let rest = painted(m, cells, row, sgr, n - 1);
        let c = cell_at(m, row as int, n - 1);
        if c.continuation {
            rest
        } else if is_changed(cells, row, n - 1) {
            rest + "\u{1b}["@ + sgr + "m"@ + shown(c) + "\u{1b}[0m"@
        } else {
            rest + shown(c)
        }
    }
}

/// One changed row: its number right-aligned in three columns, the first
/// screen's row at its full width, and the second's trimmed.
pub open spec fn painted_line(a: ScreenModel, b: ScreenModel, cells: Seq<CellChange>, row: u16) -> Seq<char> {
    seq!['\n'] + pad_left(decimal_text(row as nat), 3) + " │"@ + painted(a, cells, row, "31"@, a.cols as int) + "│"@
        + trim_end(painted(b, cells, row, "32"@, b.cols as int))
}

/// The painted lines of `rows`.
pub open spec fn painted_rows(a: ScreenModel, b: ScreenModel, cells: Seq<CellChange>, rows: Seq<u16>) -> Seq<char>
    decreases rows.len(),
{
    if rows.len() == 0 {
        Seq::empty()
    } else {
        painted_rows(a, b, cells, rows.drop_last()) + painted_line(a, b, cells, rows.last())
    }
}

/// The index of the first changed-row line at or after `i`, or the number
/// of lines.
pub open spec fn first_row_line(lines: Seq<Seq<char>>, i: int) -> int
    decreases lines.len() - i,
{
    if i < 0 || i >= lines.len() {
        lines.len() as int
    } else if row_line_spec(lines[i]) {
        i
    } else {
        first_row_line(lines, i + 1)
    }
}

/// The first `n` lines joined, a line break before each line that follows
/// some text.
pub open spec fn header_fold(lines: Seq<Seq<char>>, n: int) -> Seq<char>
    decreases n,
{
    if n <= 0 {
        Seq::empty()
    } else {
        let out = header_fold(lines, n - 1);
        if out.len() == 0 {
            lines[n - 1]
        } else {
            out + seq!['\n'] + lines[n - 1]
        }
    }
}

/// Whether a line belongs to the plain rendering's trailer: the count of
/// unchanged rows or a style change.
pub open spec fn trailer_line(l: Seq<char>) -> bool {
    starts_with(l, "…"@) || starts_with(l, "styles:"@)
}

/// The trailer lines among `lines`, each after a line break.
pub open spec fn trailer_text(lines: Seq<Seq<char>>) -> Seq<char>
    decreases lines.len(),
{
    if lines.len() == 0 {
        Seq::empty()
    } else {
        trailer_text(lines.drop_last()) + if trailer_line(lines.last()) {
            seq!['\n'] + lines.last()
        } else {
            Seq::empty()
        }
    }
}

/// The coloured rendering of the diff `d` from `a` to `b`: the plain one
/// when nothing changed; else the lines of the plain rendering before its
/// first changed-row line, the painted changed rows, and the trailer lines
/// that follow that first row line.
pub open spec fn colored_spec(a: ScreenModel, b: ScreenModel, d: DiffModel) -> Seq<char> {
    let plain = diff_text(d);
    if d.cells.len() == 0 && d.before_size == d.after_size && same_cursor(d.before_cursor, d.after_cursor) {
        plain
    } else {
        let lines = lines_spec(plain);
        let k = first_row_line(lines, 0);
        header_fold(lines, k) + painted_rows(a, b, d.cells, dedup_rows(d.cells)) + trailer_text(
            if k < lines.len() {
                lines.skip(k + 1)
            } else {
                Seq::empty()
            },
        )
    }
}

fn changed_at(cells: &Vec<(u16, u16, Cell, Cell)>, row: u16, col: u16) -> (r: bool)
    ensures
        r == is_changed(changes_view(cells@), row, col as int),
{
    let ghost cv = changes_view(cells@);
    let mut i: usize = 0;
    while i < cells.len()
        invariant
            i <= cells@.len(),
            cv == changes_view(cells@),
            forall|j: int| 0 <= j < i ==> !(#[trigger] cv[j].0 == row && cv[j].1 == col),
        decreases cells@.len() - i,
    {
        if cells[i].0 == row && cells[i].1 == col {
            assert(cv[i as int].0 == row && cv[i as int].1 == col);
            return true;
        }
        i = i + 1;
    }
    proof {
        if is_changed(cv, row, col as int) {
            let j = choose|j: int| 0 <= j < cv.len() && cv[j].0 == row && cv[j].1 == col;
            assert(!(cv[j].0 == row && cv[j].1 == col));
        }
    }
    false
}

/// The row `row` of `screen` with the changed cells wrapped in `sgr`.
fn paint(screen: &Screen, cells: &Vec<(u16, u16, Cell, Cell)>, row: u16, sgr: &str) -> (r: String)
    ensures
        r@ == painted(screen@, changes_view(cells@), row, sgr@, screen@.cols as int),
{
    let ghost cv = changes_view(cells@);
    let mut out = String::new();
    let cols = screen.cols();
    let mut col: u16 = 0;
    while col < cols
        invariant
            col <= cols,
            cols == screen@.cols,
            cv == changes_view(cells@),
            out@ == painted(screen@, cv, row, sgr@, col as int),
        decreases cols - col,
    {
        match screen.cell(row, col) {
            None => {},
            Some(cell) => {
                if !cell.is_wide_continuation() {
                    let changed = changed_at(cells, row, col);
                    if changed {
                        push_str(&mut out, "\u{1b}[");
                        push_str(&mut out, sgr);
                        push_str(&mut out, "m");
                    }
                    let text = chars_of(cell.contents());
                    if text.len() == 0 {
                        push_char(&mut out, ' ');
                    } else {
                        push_chars(&mut out, text.as_slice());
                    }
                    if changed {
                        push_str(&mut out, "\u{1b}[0m");
                    }
                }
            },
        }
        col = col + 1;
    }
    out
}

proof fn lemma_first_row_line(lines: Seq<Seq<char>>, i: int, k: int)
    requires
        0 <= i <= k <= lines.len(),
        forall|j: int| i <= j < k ==> !row_line_spec(#[trigger] lines[j]),
        k < lines.len() ==> row_line_spec(lines[k]),
    ensures
        first_row_line(lines, i) == k,
    decreases k - i,
{
    if i < k {
        lemma_first_row_line(lines, i + 1, k);
    }
}

/// The diff from `before` to `after` for a terminal: the plain rendering
/// when the screens show the same picture; else its header lines, each
/// changed row side by side with the changed cells painted red in
/// `before` and green in `after`, and its trailer lines.
pub fn colored(before: &Screen, after: &Screen, diff: &ScreenDiff) -> (r: String)
    ensures
        r@ == colored_spec(before@, after@, diff@),
{
    let plain = diff.render();
    if diff.is_empty() {
        return plain;
    }
    let pc = chars_of(plain.as_str());
    let lines = text_lines(pc.as_slice());
    let ghost ls = texts(lines@);
    let n = lines.len();
    let mut out: Vec<char> = Vec::new();
    let mut k: usize = 0;
    let mut stop = false;
    while k < n && !stop
        invariant
            k <= n == lines@.len(),
            ls == texts(lines@),
            forall|j: int| 0 <= j < k ==> !row_line_spec(#[trigger] ls[j]),
            stop ==> k < n && row_line_spec(ls[k as int]),
            out@ == header_fold(ls, k as int),
        decreases n - k + if stop { 0int } else { 1int },
    {
        if row_line_chars(lines[k].as_slice()) {
            stop = true;
        } else {
            if out.len() > 0 {
                out.push('\n');
            }
            let m = lines[k].len();
            crate::screen::append_chars(&mut out, lines[k].as_slice(), m);
            proof {
                assert(lines[k as int]@.take(m as int) =~= ls[k as int]);
            }
            k = k + 1;
        }
    }
    proof {
        lemma_first_row_line(ls, 0, k as int);
    }
    let cells = diff.cells();
    let ghost cv = changes_view(cells@);
    let mut rows: Vec<u16> = Vec::new();
    let mut i: usize = 0;
    while i < cells.len()
        invariant
            i <= cells@.len(),
            cv == changes_view(cells@),
            rows@ == dedup_rows(cv.take(i as int)),
        decreases cells@.len() - i,
    {
        let r = cells[i].0;
        proof {
            assert(cv.take(i + 1).drop_last() =~= cv.take(i as int));
        }
        if rows.len() == 0 || rows[rows.len() - 1] != r {
            rows.push(r);
        }
        i = i + 1;
    }
    assert(cv.take(cells@.len() as int) =~= cv);
    let ghost head = out@;
    let mut j: usize = 0;
    while j < rows.len()
        invariant
            j <= rows@.len(),
            cv == changes_view(cells@),
            out@ == head + painted_rows(before@, after@, cv, rows@.take(j as int)),
        decreases rows@.len() - j,
    {
        let row = rows[j];
        let ghost o = out@;
        out.push('\n');
        let mut d = String::new();
        push_decimal_text(&mut d, row as u64);
        let dc = chars_of(d.as_str());
        let mut pad: usize = 0;
        while pad + dc.len() < 3
            invariant
                dc@ == decimal_text(row as nat),
                pad + dc@.len() <= 3 || pad == 0,
                out@ == o.push('\n') + spaces(pad as int),
            decreases 3 - pad,
        {
            out.push(' ');
            pad = pad + 1;
            assert(out@ =~= o.push('\n') + spaces(pad as int));
        }
        assert(spaces(pad as int) =~= spaces(3 - dc@.len()));
        crate::screen::append_chars(&mut out, dc.as_slice(), dc.len());
        assert(dc@.take(dc@.len() as int) =~= dc@);
        out.push(' ');
        out.push('│');
        let p1 = paint(before, &cells, row, "31");
        let c1 = chars_of(p1.as_str());
        crate::screen::append_chars(&mut out, c1.as_slice(), c1.len());
        assert(c1@.take(c1@.len() as int) =~= c1@);
        out.push('│');
        let p2 = paint(after, &cells, row, "32");
        let c2 = chars_of(p2.as_str());
        let t = trimmed_len(c2.as_slice());
        crate::screen::append_chars(&mut out, c2.as_slice(), t);
        proof {
            reveal_strlit(" │");
            reveal_strlit("│");
            assert(rows@.take(j + 1).drop_last() =~= rows@.take(j as int));
            assert(out@ =~= o + painted_line(before@, after@, cv, row));
        }
        j = j + 1;
    }
    assert(rows@.take(rows@.len() as int) =~= rows@);
    let ghost mid = out@;
    if k < n {
        let mut q: usize = k + 1;
        assert(ls.subrange(k + 1, q as int) =~= Seq::<Seq<char>>::empty());
        assert(mid + trailer_text(Seq::<Seq<char>>::empty()) =~= mid);
        while q < n
            invariant
                k < q <= n,
                n == lines@.len(),
                ls == texts(lines@),
                out@ == mid + trailer_text(ls.subrange(k + 1, q as int)),
            decreases n - q,
        {
            let l = lines[q].as_slice();
            proof {
                assert(ls.subrange(k + 1, q + 1).drop_last() =~= ls.subrange(k + 1, q as int));
                assert(ls[q as int] == l@);
            }
            let ghost o = out@;
            if has_prefix(l, "…") || has_prefix(l, "styles:") {
                out.push('\n');
                crate::screen::append_chars(&mut out, l, l.len());
                assert(l@.take(l@.len() as int) =~= l@);
                assert(out@ =~= o + (seq!['\n'] + l@));
            } else {
                assert(out@ =~= o + Seq::<char>::empty());
            }
            q = q + 1;
        }
        assert(ls.subrange(k + 1, n as int) =~= ls.skip(k + 1));
    } else {
        assert(out@ =~= mid + trailer_text(Seq::<Seq<char>>::empty()));
    }
    string_of(out.as_slice())
}

} // verus!
