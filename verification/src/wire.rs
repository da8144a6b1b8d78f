//! A screen as its saved JSON document holds it: the size, the cursor, the
//! grid as rows of cells, and the out-of-band state, under a format number.
//! Reading one back checks what a bare field-by-field read cannot — the
//! format, and a grid that is exactly `rows` rows of `cols` cells — so a
//! hand-edited or truncated file is an error, never a broken screen.
use vstd::prelude::*;
use crate::screen::{Cell, CellModel, Screen, ScreenModel, TermState, cell_at};
use crate::text::{decimal_text, push_decimal_text, push_str};

verus! {

/// The one document format this library writes and reads.
pub const JSON_FORMAT: u32 = 1;

/// The plain values of rows of cells.
pub open spec fn rows_view(v: Seq<Vec<Cell>>) -> Seq<Seq<CellModel>> {
    v.map_values(|r: Vec<Cell>| r@.map_values(|c: Cell| c@))
}

/// The index of the first row from `i` on whose length is not `cols`, or
/// the number of rows.
pub open spec fn first_ragged_row(grid: Seq<Seq<CellModel>>, cols: nat, i: int) -> int
    decreases grid.len() - i,
{
    if i < 0 || i >= grid.len() {
        grid.len() as int
    } else if grid[i].len() != cols {
        i
    } else {
        first_ragged_row(grid, cols, i + 1)
    }
}

/// What is wrong with a saved document, checked in order: a format this
/// library does not read, a grid without `rows` rows, a row without `cols`
/// cells, or a cursor outside the screen (past the last row, or right of
/// the column just past the last); `None` when nothing is.
pub open spec fn wire_problem(format: u32, cols: u16, rows: u16, cursor: (u16, u16), grid: Seq<Seq<CellModel>>) -> Option<
    Seq<char>,
> {
    if format != JSON_FORMAT {
        Some(
            "saved-screen JSON format "@ + decimal_text(format as nat)
                + " is not one this termlens reads (it reads format 1); a newer termlens wrote this file"@,
        )
    } else if grid.len() != rows {
        Some(
            "a "@ + decimal_text(cols as nat) + "x"@ + decimal_text(rows as nat) + " screen needs "@ + decimal_text(
                rows as nat,
            ) + " rows of cells, not "@ + decimal_text(grid.len()),
        )
    } else if first_ragged_row(grid, cols as nat, 0) < grid.len() {
        let r = first_ragged_row(grid, cols as nat, 0);
        Some(
            "row "@ + decimal_text(r as nat) + " of a "@ + decimal_text(cols as nat) + "-column screen holds "@
                + decimal_text(grid[r].len()) + " cells"@,
        )
    } else if cursor.0 >= (if rows > 0 {
        rows
    } else {
        1
    }) || cursor.1 > cols {
        Some(
            "cursor "@ + decimal_text(cursor.0 as nat) + ","@ + decimal_text(cursor.1 as nat) + " is outside a "@
                + decimal_text(cols as nat) + "x"@ + decimal_text(rows as nat) + " screen"@,
        )
    } else {
        None
    }
}

proof fn lemma_flat_len(grid: Seq<Seq<CellModel>>, cols: nat, n: int)
    requires
        0 <= n <= grid.len(),
        forall|i: int| 0 <= i < grid.len() ==> (#[trigger] grid[i]).len() == cols,
    ensures
        grid.take(n).flatten().len() == n * cols,
    decreases n,
{
    if n == 0 {
        assert(grid.take(0).flatten() =~= Seq::<CellModel>::empty());
        assert(n * cols == 0) by (nonlinear_arith)
            requires
                n == 0,
        ;
    } else {
        lemma_flat_len(grid, cols, n - 1);
        assert(grid.take(n) =~= grid.take(n - 1).push(grid[n - 1]));
        grid.take(n - 1).lemma_flatten_push(grid[n - 1]);
        assert(grid[n - 1].len() == cols);
        assert(grid.take(n).flatten().len() == grid.take(n - 1).flatten().len() + cols);
        assert(n * cols == (n - 1) * cols + cols) by (nonlinear_arith);
    }
}

/// The screen a saved document describes, or what is wrong with it.
pub fn screen_from_wire(
    format: u32,
    cols: u16,
    rows: u16,
    cursor: (u16, u16, bool),
    grid: Vec<Vec<Cell>>,
    state: TermState,
) -> (r: Result<Screen, String>)
    requires
        grid@.len() <= u64::MAX,
    ensures
        match r {
            Ok(s) => wire_problem(format, cols, rows, (cursor.0, cursor.1), rows_view(grid@)) is None && s@ == (
            ScreenModel {
                cols,
                rows,
                cursor_row: cursor.0,
                cursor_col: cursor.1,
                cursor_visible: cursor.2,
                cells: rows_view(grid@).flatten(),
                state: state@,
            }),
            Err(m) => wire_problem(format, cols, rows, (cursor.0, cursor.1), rows_view(grid@)) == Some(m@),
        },
{
    let ghost g = rows_view(grid@);
    if format != JSON_FORMAT {
        let mut m = String::new();
        push_str(&mut m, "saved-screen JSON format ");
        push_decimal_text(&mut m, format as u64);
        push_str(&mut m, " is not one this termlens reads (it reads format 1); a newer termlens wrote this file");
        return Err(m);
    }
    if grid.len() != rows as usize {
        let mut m = String::new();
        push_str(&mut m, "a ");
        push_decimal_text(&mut m, cols as u64);
        push_str(&mut m, "x");
        push_decimal_text(&mut m, rows as u64);
        push_str(&mut m, " screen needs ");
        push_decimal_text(&mut m, rows as u64);
        push_str(&mut m, " rows of cells, not ");
        push_decimal_text(&mut m, grid.len() as u64);
        return Err(m);
    }
    let mut i: usize = 0;
    while i < grid.len()
        invariant
            i <= grid@.len(),
            g == rows_view(grid@),
            first_ragged_row(g, cols as nat, 0) == first_ragged_row(g, cols as nat, i as int),
            grid@.len() <= u64::MAX,
            format == JSON_FORMAT,
            grid@.len() == rows,
        decreases grid@.len() - i,
    {
        assert(g[i as int].len() == grid@[i as int]@.len());
        if grid[i].len() != cols as usize {
            assert(first_ragged_row(g, cols as nat, i as int) == i as int);
            let mut m = String::new();
            push_str(&mut m, "row ");
            push_decimal_text(&mut m, i as u64);
            push_str(&mut m, " of a ");
            push_decimal_text(&mut m, cols as u64);
            push_str(&mut m, "-column screen holds ");
            push_decimal_text(&mut m, grid[i].len() as u64);
            push_str(&mut m, " cells");
            return Err(m);
        }
        i = i + 1;
    }
    let last = if rows > 0 {
        rows
    } else {
        1
    };
    if cursor.0 >= last || cursor.1 > cols {
        let mut m = String::new();
        push_str(&mut m, "cursor ");
        push_decimal_text(&mut m, cursor.0 as u64);
        push_str(&mut m, ",");
        push_decimal_text(&mut m, cursor.1 as u64);
        push_str(&mut m, " is outside a ");
        push_decimal_text(&mut m, cols as u64);
        push_str(&mut m, "x");
        push_decimal_text(&mut m, rows as u64);
        push_str(&mut m, " screen");
        return Err(m);
    }
    let mut cells: Vec<Cell> = Vec::new();
    let mut k: usize = 0;
    while k < grid.len()
        invariant
            k <= grid@.len(),
            g == rows_view(grid@),
            cells@.map_values(|c: Cell| c@) == g.take(k as int).flatten(),
        decreases grid@.len() - k,
    {
        let row = &grid[k];
        let ghost before = cells@;
        let mut j: usize = 0;
        while j < row.len()
            invariant
                j <= row@.len(),
                cells@.map_values(|c: Cell| c@) == before.map_values(|c: Cell| c@) + row@.map_values(|c: Cell| c@).take(
                    j as int,
                ),
            decreases row@.len() - j,
        {
            let c = row[j].clone();
            let ghost cv = c@;
            assert(cv == row@[j as int]@);
            let ghost prev = cells@;
            cells.push(c);
            assert(cells@.map_values(|c: Cell| c@) =~= prev.map_values(|c: Cell| c@).push(cv));
            assert(cells@.map_values(|c: Cell| c@) =~= before.map_values(|c: Cell| c@) + row@.map_values(
                |c: Cell| c@,
            ).take(j + 1));
            j = j + 1;
        }
        assert(row@.map_values(|c: Cell| c@) == g[k as int]);
        proof {
            assert(row@.map_values(|c: Cell| c@).take(row@.len() as int) =~= g[k as int]);
            assert(g.take(k + 1) =~= g.take(k as int).push(g[k as int]));
            g.take(k as int).lemma_flatten_push(g[k as int]);
        }
        k = k + 1;
    }
    proof {
        assert(g.take(g.len() as int) =~= g);
        assert forall|q: int| 0 <= q < g.len() implies (#[trigger] g[q]).len() == cols as nat by {
            if g[q].len() != cols as nat {
                lemma_first_ragged(g, cols as nat, 0, q);
            }
        }
        lemma_flat_len(g, cols as nat, g.len() as int);
        assert(cells@.len() == cols * rows) by (nonlinear_arith)
            requires
                cells@.len() == g.len() * cols,
                g.len() == rows,
        ;
    }
    Ok(Screen::from_parts(cols, rows, cursor.0, cursor.1, cursor.2, cells, state))
}

proof fn lemma_first_ragged(grid: Seq<Seq<CellModel>>, cols: nat, i: int, q: int)
    requires
        0 <= i <= q < grid.len(),
        grid[q].len() != cols,
    ensures
        first_ragged_row(grid, cols, i) <= q,
    decreases q - i,
{
    if i < q && grid[i].len() == cols {
        lemma_first_ragged(grid, cols, i + 1, q);
    }
}

/// The grid of a screen as rows of cells, top to bottom; no rows for a
/// screen without columns.
pub open spec fn grid_rows(m: ScreenModel) -> Seq<Seq<CellModel>> {
    Seq::new(
        if m.cols == 0 {
            0
        } else {
            m.rows as nat
        },
        |i: int| Seq::new(m.cols as nat, |j: int| cell_at(m, i, j)),
    )
}

/// The grid of `screen` as rows of cells.
pub fn cell_rows(screen: &Screen) -> (r: Vec<Vec<Cell>>)
    ensures
        rows_view(r@) == grid_rows(screen@),
{
    let cols = screen.cols();
    let rows = screen.rows();
    let n: u16 = if cols == 0 {
        0
    } else {
        rows
    };
    let mut out: Vec<Vec<Cell>> = Vec::new();
    let mut r: u16 = 0;
    while r < n
        invariant
            r <= n,
            n == grid_rows(screen@).len(),
            cols == screen@.cols,
            rows == screen@.rows,
            rows_view(out@) == grid_rows(screen@).take(r as int),
        decreases n - r,
    {
        let mut row: Vec<Cell> = Vec::new();
        let mut c: u16 = 0;
        while c < cols
            invariant
                c <= cols,
                r < n,
                n == grid_rows(screen@).len(),
                cols == screen@.cols,
                rows == screen@.rows,
                row@.map_values(|x: Cell| x@) == grid_rows(screen@)[r as int].take(c as int),
            decreases cols - c,
        {
            match screen.cell(r, c) {
                Some(cell) => {
                    let ghost prev = row@;
                    let d = cell.clone();
                    let ghost dv = d@;
                    row.push(d);
                    assert(row@.map_values(|x: Cell| x@) =~= prev.map_values(|x: Cell| x@).push(dv));
                    assert(row@.map_values(|x: Cell| x@) =~= grid_rows(screen@)[r as int].take(c + 1));
                },
                None => {},
            }
            c = c + 1;
        }
        assert(grid_rows(screen@)[r as int].take(cols as int) =~= grid_rows(screen@)[r as int]);
        let ghost prev = out@;
        let ghost rv = row@.map_values(|x: Cell| x@);
        out.push(row);
        assert(rows_view(out@) =~= rows_view(prev).push(rv));
        assert(rows_view(out@) =~= grid_rows(screen@).take(r + 1));
        r = r + 1;
    }
    assert(grid_rows(screen@).take(n as int) =~= grid_rows(screen@));
    out
}

proof fn lemma_grid_rows_flatten(m: ScreenModel, n: int)
    requires
        m.cols > 0,
        0 <= n <= m.rows,
        m.cells.len() == m.cols * m.rows,
    ensures
        grid_rows(m).take(n).flatten() == m.cells.take(n * m.cols),
    decreases n,
{
    let cols = m.cols as int;
    if n == 0 {
        assert(grid_rows(m).take(0).flatten() =~= Seq::<CellModel>::empty());
        assert(n * cols == 0) by (nonlinear_arith)
            requires
                n == 0,
        ;
        assert(m.cells.take(0) =~= Seq::<CellModel>::empty());
    } else {
        lemma_grid_rows_flatten(m, n - 1);
        let g = grid_rows(m);
        assert(g.take(n) =~= g.take(n - 1).push(g[n - 1]));
        g.take(n - 1).lemma_flatten_push(g[n - 1]);
        assert(n * cols == (n - 1) * cols + cols) by (nonlinear_arith);
        assert(n * cols <= m.rows * cols) by (nonlinear_arith)
            requires
                n <= m.rows,
                cols > 0,
        ;
        let base = (n - 1) * cols;
        assert(base + cols <= m.cells.len()) by (nonlinear_arith)
            requires
                base == (n - 1) * cols,
                n <= m.rows,
                cols > 0,
                m.cells.len() == m.cols * m.rows,
                cols == m.cols,
        ;
        assert(base >= 0) by (nonlinear_arith)
            requires
                base == (n - 1) * cols,
                n >= 1,
                cols > 0,
        ;
        assert(g[n - 1].len() == cols);
        assert forall|j: int| 0 <= j < cols implies #[trigger] g[n - 1][j] == m.cells[base + j] by {
            assert(g[n - 1][j] == cell_at(m, n - 1, j));
        }
        assert(m.cells.take(base + cols) =~= m.cells.take(base) + g[n - 1]);
    }
}

/// A screen's document reads back as the screen: for a screen with at
/// least one column and a cursor inside it, the rows of cells it is written
/// as pass every check of the current format and flatten back to its grid.
pub proof fn lemma_document_reads_back(m: ScreenModel)
    requires
        m.cols > 0,
        m.cells.len() == m.cols * m.rows,
        m.cursor_row < (if m.rows > 0 {
            m.rows
        } else {
            1
        }),
        m.cursor_col <= m.cols,
    ensures
        wire_problem(JSON_FORMAT, m.cols, m.rows, (m.cursor_row, m.cursor_col), grid_rows(m)) is None,
        grid_rows(m).flatten() == m.cells,
{
    let g = grid_rows(m);
    lemma_grid_rows_flatten(m, m.rows as int);
    assert(g.take(m.rows as int) =~= g);
    assert(m.cells.take(m.rows * m.cols) =~= m.cells) by {
        assert(m.rows * m.cols == m.cols * m.rows) by (nonlinear_arith);
    }
    assert forall|q: int| 0 <= q < g.len() implies (#[trigger] g[q]).len() == m.cols as nat by {}
    lemma_no_ragged(g, m.cols as nat, 0);
}

proof fn lemma_no_ragged(grid: Seq<Seq<CellModel>>, cols: nat, i: int)
    requires
        0 <= i <= grid.len(),
        forall|q: int| 0 <= q < grid.len() ==> (#[trigger] grid[q]).len() == cols,
    ensures
        first_ragged_row(grid, cols, i) == grid.len(),
    decreases grid.len() - i,
{
    if i < grid.len() {
        lemma_no_ragged(grid, cols, i + 1);
    }
}

} // verus!
