use termlens::cli::{color_when, is_row_line, name_of, shows_something, strip_insta_header, strip_inspect_trailer, ColorWhen};
use termlens::screen::{Cell, Screen, Style, TermState};

#[test]
fn the_dash_is_named_as_standard_input() {
    assert_eq!(name_of("-"), "<stdin>");
    assert_eq!(name_of("before.snap"), "before.snap");
}

#[test]
fn an_insta_header_is_dropped_and_nothing_else() {
    assert_eq!(strip_insta_header("---\nsource: x\n---\nsize: 1x1  cursor: 0,0\nx"), "size: 1x1  cursor: 0,0\nx");
    assert_eq!(strip_insta_header("size: 1x1  cursor: 0,0\nx"), "size: 1x1  cursor: 0,0\nx");
    assert_eq!(strip_insta_header("---\nno end"), "---\nno end");
}

#[test]
fn only_the_inspect_trailers_are_dropped() {
    assert_eq!(strip_inspect_trailer("size: 1x1  cursor: 0,0\nx\n--- exited: exit code 0 ---\n"), "size: 1x1  cursor: 0,0\nx\n");
    assert_eq!(
        strip_inspect_trailer("size: 1x1  cursor: 0,0\nx\n--- still running (killed on exit) ---"),
        "size: 1x1  cursor: 0,0\nx\n"
    );
    assert_eq!(strip_inspect_trailer("size: 4x1  cursor: 0,0\n---x"), "size: 4x1  cursor: 0,0\n---x");
    assert_eq!(strip_inspect_trailer("x\n--- other ---"), "x\n--- other ---");
}

#[test]
fn color_takes_three_words() {
    assert_eq!(color_when("auto"), Ok(ColorWhen::Auto));
    assert_eq!(color_when("always"), Ok(ColorWhen::Always));
    assert_eq!(color_when("never"), Ok(ColorWhen::Never));
    assert_eq!(color_when("sometimes"), Err("--color takes auto, always or never, got \"sometimes\"".to_string()));
}

#[test]
fn row_lines_are_recognized_by_their_shape() {
    assert!(is_row_line("  0 │ab│ac"));
    assert!(is_row_line(" 12 │x│y"));
    assert!(!is_row_line("    │x│y"));
    assert!(!is_row_line("a 1 │x│y"));
    assert!(!is_row_line("no bar here"));
    assert!(!is_row_line("1│x"));
}

#[test]
fn a_blank_screen_at_the_origin_shows_nothing() {
    let blank = Screen::parse("size: 3x1  cursor: 0,0").unwrap();
    assert!(!shows_something(&blank));
    let moved = Screen::parse("size: 3x1  cursor: 0,1").unwrap();
    assert!(shows_something(&moved));
    let painted = Screen::parse("size: 3x1  cursor: 0,0\nhi").unwrap();
    assert!(shows_something(&painted));
}

fn rows_screen(rows: &[&str], cols: u16) -> Screen {
    let mut cells = Vec::new();
    for row in rows {
        let mut chars: Vec<char> = row.chars().collect();
        chars.resize(usize::from(cols), '\0');
        for ch in chars {
            let text = if ch == '\0' { String::new() } else { ch.to_string() };
            cells.push(Cell::new(text, Style::default(), false, false));
        }
    }
    Screen::from_parts(cols, rows.len() as u16, 0, 0, true, cells, TermState::default())
}

#[test]
fn the_coloured_diff_paints_changed_cells_in_place_of_the_marker_line() {
    let before = rows_screen(&["ab", "cd"], 3);
    let after = rows_screen(&["ab", "cX"], 3);
    let d = before.diff(&after);
    assert_eq!(
        termlens::painted_diff::colored(&before, &after, &d),
        "size: 3x2   cursor: 0,0\n  1 │c\x1b[31md\x1b[0m │c\x1b[32mX\x1b[0m\n… 1 rows unchanged"
    );
    let same = before.diff(&before);
    assert_eq!(termlens::painted_diff::colored(&before, &before, &same), "no difference");
}
