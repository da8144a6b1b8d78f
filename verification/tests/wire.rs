use termlens::screen::{Cell, Screen, Style, TermState};
use termlens::wire::{cell_rows, screen_from_wire};

fn two_by_two() -> Screen {
    let cells = ["a", "b", "", "d"].iter().map(|t| Cell::new(t.to_string(), Style::default(), false, false)).collect();
    Screen::from_parts(2, 2, 1, 0, true, cells, TermState::default())
}

fn grid(rows: &[usize]) -> Vec<Vec<Cell>> {
    rows.iter()
        .map(|n| (0..*n).map(|_| Cell::new("x".into(), Style::default(), false, false)).collect())
        .collect()
}

fn problem(format: u32, cols: u16, rows: u16, cursor: (u16, u16, bool), cells: Vec<Vec<Cell>>) -> String {
    match screen_from_wire(format, cols, rows, cursor, cells, TermState::default()) {
        Err(e) => e,
        Ok(_) => panic!("read back"),
    }
}

#[test]
fn a_screen_written_as_rows_reads_back() {
    let s = two_by_two();
    let rows = cell_rows(&s);
    assert_eq!(rows.len(), 2);
    assert_eq!(rows[1][1].contents(), "d");
    let back = screen_from_wire(1, 2, 2, s.cursor(), rows, TermState::default()).unwrap();
    assert!(s.diff(&back).is_empty());
    assert_eq!(back.display_text(), s.display_text());
}

#[test]
fn a_document_that_contradicts_itself_is_refused_in_order() {
    assert_eq!(
        problem(2, 1, 1, (0, 0, true), grid(&[1])),
        "saved-screen JSON format 2 is not one this termlens reads (it reads format 1); a newer termlens wrote this file"
    );
    assert_eq!(problem(1, 2, 3, (0, 0, true), grid(&[2, 2])), "a 2x3 screen needs 3 rows of cells, not 2");
    assert_eq!(problem(1, 2, 3, (0, 0, true), grid(&[2, 1, 3])), "row 1 of a 2-column screen holds 1 cells");
    assert_eq!(problem(1, 2, 2, (2, 0, true), grid(&[2, 2])), "cursor 2,0 is outside a 2x2 screen");
    assert_eq!(problem(1, 2, 2, (0, 3, false), grid(&[2, 2])), "cursor 0,3 is outside a 2x2 screen");
    // The column just past the last is where a cursor rests after a full row.
    assert!(screen_from_wire(1, 2, 2, (0, 2, true), grid(&[2, 2]), TermState::default()).is_ok());
}
