use termlens::screen::{Bound, Cell, Clipboard, Color, MouseMode, Screen, Style, TermState};
use unicode_width::UnicodeWidthChar;

/// Build a screen from rows of text; `'*'` becomes a styled bold cell,
/// wide characters get a proper continuation cell.
fn screen(cols: u16, rows: u16, lines: &[&str]) -> Screen {
    let mut cells: Vec<Cell> = Vec::new();
    for r in 0..usize::from(rows) {
        let mut row_cells: Vec<Cell> = Vec::new();
        if let Some(line) = lines.get(r) {
            for ch in line.chars() {
                let wide = ch.width().unwrap_or(1) == 2;
                let style = Style { bold: ch == '*', ..Style::default() };
                row_cells.push(Cell::new(ch.to_string(), style, wide, false));
                if wide {
                    row_cells.push(Cell::new(String::new(), Style::default(), false, true));
                }
            }
        }
        assert!(row_cells.len() <= usize::from(cols), "test line too long");
        while row_cells.len() < usize::from(cols) {
            row_cells.push(Cell::new(String::new(), Style::default(), false, false));
        }
        cells.extend(row_cells);
    }
    Screen::from_parts(cols, rows, 1, 2, true, cells, TermState::default())
}

fn range(start: u16, end: u16) -> (Bound, Bound) {
    (Bound::Included(start), Bound::Excluded(end))
}

#[test]
fn row_text_pads_blanks_and_skips_continuations() {
    let s = screen(10, 2, &["ab", "汉x"]);
    assert_eq!(s.row_text(0), "ab        ");
    assert_eq!(s.row_text(1), "汉x       ");
    assert_eq!(s.row_text(9), "");
}

#[test]
fn text_strips_trailing_whitespace_per_line() {
    let s = screen(10, 3, &["ab", "", "c"]);
    assert_eq!(s.text(), "ab\n\nc");
}

#[test]
fn contains_matches_across_rows() {
    let s = screen(10, 2, &["hello", "world"]);
    assert!(s.contains("hello"));
    assert!(s.contains("hello\nworld"));
    assert!(!s.contains("hello world"));
}

#[test]
fn find_reports_wide_aware_columns() {
    let s = screen(10, 2, &["abc", "汉字x"]);
    assert_eq!(s.find("bc"), Some((0, 1)));
    assert_eq!(s.find("x"), Some((1, 4)));
    assert_eq!(s.find("字"), Some((1, 2)));
    assert_eq!(s.find("missing"), None);
}

#[test]
fn find_locates_multi_row_needles_like_contains() {
    let s = screen(10, 3, &["hello", "world", "again"]);
    assert_eq!(s.find("hello\nworld"), Some((0, 0)));
    assert_eq!(s.find("llo\nwor"), Some((0, 2)));
    assert_eq!(s.find("world\nagain"), Some((1, 0)));
    assert_eq!(s.find("o\nworld\nag"), Some((0, 4)));
    assert_eq!(s.find("hello\nagain"), None);
    assert_eq!(s.find("hell\nworld"), None);
    assert_eq!(s.find("hello\nworl\nagain"), None);
    assert_eq!(s.find("again\nmore"), None);
    assert_eq!(s.find("hello \nworld"), None);
    assert_eq!(s.find("\nworld"), Some((1, 0)));
    assert_eq!(s.find("\n"), Some((1, 0)));
    for needle in ["hello\nworld", "llo\nwor", "x\nworld", "\nagain"] {
        assert_eq!(s.find(needle).is_some(), s.contains(needle), "{needle:?}");
    }
}

#[test]
fn multi_row_find_reports_wide_aware_columns() {
    let s = screen(10, 2, &["汉字x", "next"]);
    assert_eq!(s.find("字x\nnext"), Some((0, 2)));
    assert_eq!(s.find("x\nnext"), Some((0, 4)));
}

#[test]
fn rect_text_slices_columns_and_rows() {
    let s = screen(10, 3, &["0123456789", "abcdefghij", "xyz"]);
    assert_eq!(s.rect_text(range(2, 5), range(0, 2)), "234\ncde");
    assert_eq!(
        s.rect_text((Bound::Included(2), Bound::Included(4)), (Bound::Included(0), Bound::Included(1))),
        "234\ncde"
    );
    assert_eq!(s.rect_text((Bound::Unbounded, Bound::Unbounded), (Bound::Included(2), Bound::Unbounded)), "xyz");
    assert_eq!(s.rect_text((Bound::Included(8), Bound::Unbounded), (Bound::Unbounded, Bound::Excluded(2))), "89\nij");
    assert_eq!(s.rect_text(range(0, 3), range(5, 9)), "");
    assert_eq!(s.rect_text(range(20, 30), (Bound::Unbounded, Bound::Excluded(1))), "");
    assert_eq!(s.rect_text((Bound::Unbounded, Bound::Unbounded), (Bound::Unbounded, Bound::Unbounded)), s.text());
}

#[test]
fn out_of_range_bounds_still_clamp() {
    let s = screen(10, 3, &["0123456789", "abcdefghij", "xyz"]);
    assert_eq!(s.rect_text(range(8, 99), (Bound::Unbounded, Bound::Excluded(1))), "89");
    assert_eq!(s.rect_text((Bound::Unbounded, Bound::Unbounded), range(1, 99)), "abcdefghij\nxyz");
    assert_eq!(s.rect_text(range(5, 5), (Bound::Unbounded, Bound::Unbounded)), "\n\n");
}

#[test]
fn rect_text_wide_characters_count_where_they_start() {
    let s = screen(10, 1, &["汉字x"]);
    let all = (Bound::Unbounded, Bound::Unbounded);
    assert_eq!(s.rect_text(range(0, 2), all), "汉");
    assert_eq!(s.rect_text(range(1, 3), all), "字");
    assert_eq!(s.rect_text((Bound::Included(4), Bound::Unbounded), all), "x");
}

#[test]
fn find_by_scans_row_major_and_sees_styles() {
    let s = screen(10, 2, &["ab*", "c"]);
    assert_eq!(s.find_by(|c: &Cell| c.style().bold), Some((0, 2)));
    assert_eq!(s.find_by(|c: &Cell| c.contents() == "c"), Some((1, 0)));
    assert_eq!(s.find_by(|c: &Cell| c.style().reverse), None);
}

#[test]
fn cell_and_cursor_accessors() {
    let s = screen(10, 2, &["a*"]);
    assert_eq!(s.cell(0, 0).unwrap().contents(), "a");
    assert!(s.cell(0, 1).unwrap().style().bold);
    assert!(s.cell(2, 0).is_none());
    assert!(s.cell(0, 10).is_none());
    assert_eq!(s.cursor(), (1, 2, true));
    assert_eq!(s.size(), (10, 2));
    assert_eq!((s.cols(), s.rows()), (10, 2));
}

#[test]
fn with_styles_renders_runs_in_fixed_token_order() {
    let mut cells: Vec<Cell> = Vec::new();
    let styled = Style { fg: Color::Indexed(4), bold: true, ..Style::default() };
    for ch in ['h', 'i'] {
        assert_eq!(ch.width(), Some(1));
        cells.push(Cell::new(ch.to_string(), styled, false, false));
    }
    for _ in 2..6 {
        cells.push(Cell::new(String::new(), Style::default(), false, false));
    }
    for ch in "plain ".chars() {
        cells.push(Cell::new(ch.to_string(), Style::default(), false, false));
    }
    for col in 0..6 {
        let style = if col == 3 { Style { reverse: true, ..Style::default() } } else { Style::default() };
        cells.push(Cell::new(String::new(), style, false, false));
    }
    let screen = Screen::from_parts(6, 3, 0, 0, true, cells, TermState::default());
    let rendered = screen.with_styles().render();
    let styles_block = rendered.split("\n\nstyles:\n").nth(1).unwrap();
    assert_eq!(styles_block, "0: 0-1 fg=4 bold\n2: 3 reverse");
    assert!(rendered.starts_with(&screen.display_text()));
}

#[test]
fn with_styles_on_a_default_screen_says_none() {
    let s = screen(10, 2, &["hello"]);
    let rendered = s.with_styles().render();
    assert!(rendered.ends_with("\n\nstyles:\n(none)"), "{rendered}");
}

#[test]
fn with_styles_renders_rgb_and_merges_adjacent_runs() {
    let style = Style { bg: Color::Rgb(0x1e, 0x1e, 0x2e), ..Style::default() };
    let mut cells: Vec<Cell> = Vec::new();
    for ch in ['a', 'b', 'c'] {
        cells.push(Cell::new(ch.to_string(), style, false, false));
    }
    cells.push(Cell::new(String::new(), Style::default(), false, false));
    let screen = Screen::from_parts(4, 1, 0, 0, true, cells, TermState::default());
    let rendered = screen.with_styles().render();
    assert!(rendered.ends_with("styles:\n0: 0-2 bg=#1e1e2e"), "{rendered}");
}

#[test]
fn display_format_matches_spec() {
    let s = screen(10, 2, &["hi"]);
    assert_eq!(s.display_text(), "size: 10x2  cursor: 1,2\nhi\n");
}

#[test]
fn state_accessors_report_the_captured_state_and_stay_out_of_display() {
    let default = screen(4, 1, &["x"]);
    assert_eq!(default.title(), "");
    assert!(!default.alternate_screen());
    assert!(!default.bracketed_paste());
    assert!(!default.application_cursor());
    assert_eq!(default.mouse_mode(), MouseMode::Disabled);
    assert!(default.clipboard().is_none());

    let state = TermState {
        title: "my app".to_string(),
        alternate_screen: true,
        bracketed_paste: true,
        application_cursor: true,
        mouse: MouseMode::AnyMotion,
        clipboard: Some(Clipboard::new("c".to_string(), Some("copied".into()))),
        scrollback: vec!["scrolled away".to_string()],
    };
    let cells = vec![Cell::new("x".into(), Style::default(), false, false)];
    let s = Screen::from_parts(1, 1, 0, 0, true, cells, state);
    assert_eq!(s.title(), "my app");
    assert!(s.alternate_screen() && s.bracketed_paste() && s.application_cursor());
    assert_eq!(s.mouse_mode(), MouseMode::AnyMotion);
    let clip = s.clipboard().expect("captured");
    assert_eq!((clip.targets(), clip.text()), ("c", Some("copied")));
    assert_eq!(s.scrollback_rows(), 1);
    assert_eq!(s.scrollback_text(), "scrolled away");
    assert_eq!(s.full_text(), "scrolled away\nx");
    assert_eq!(s.display_text(), "size: 1x1  cursor: 0,0\nx");
}

#[test]
fn one_blank_retained_row_still_gets_its_separator() {
    let state = TermState {
        title: String::new(),
        alternate_screen: false,
        bracketed_paste: false,
        application_cursor: false,
        mouse: MouseMode::Disabled,
        clipboard: None,
        scrollback: vec![String::new()],
    };
    let cells = vec![Cell::new("x".into(), Style::default(), false, false)];
    let s = Screen::from_parts(1, 1, 0, 0, true, cells, state);
    assert_eq!(s.scrollback_rows(), 1);
    assert_eq!(s.full_text(), "\nx");
}
