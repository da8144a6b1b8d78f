use std::time::Duration;

use termlens::error::Error;
use termlens::screen::{Cell, Color, Screen, Style, TermState};
use termlens::shadow::SgrRewriter;
use termlens::terminal::{strip_paste_markers, QueryLog};
use termlens::unhandled::Unhandled;

fn screen_of(rows: &[&str], cols: u16, cursor: (u16, u16, bool)) -> Screen {
    let mut cells = Vec::new();
    for row in rows {
        let mut chars: Vec<char> = row.chars().collect();
        chars.resize(usize::from(cols), '\0');
        for ch in chars {
            let text = if ch == '\0' { String::new() } else { ch.to_string() };
            cells.push(Cell::new(text, Style::default(), false, false));
        }
    }
    Screen::from_parts(cols, rows.len() as u16, cursor.0, cursor.1, cursor.2, cells, TermState::default())
}

#[test]
fn a_screen_diffed_with_itself_is_empty() {
    let s = screen_of(&["ab", " c", ""], 4, (1, 3, true));
    let d = s.diff(&s);
    assert!(d.is_empty());
    assert!(d.cells().is_empty());
    assert!(d.changed_rows().is_empty());
}

#[test]
fn a_plain_snapshot_reads_back_to_the_same_text_and_picture() {
    let s = screen_of(&["hi there", "", "  x  y", ""], 10, (2, 4, true));
    let saved = s.display_text();
    let parsed = Screen::parse(&saved).unwrap();
    assert_eq!(parsed.display_text(), saved);
    assert!(s.diff(&parsed).is_empty());
    let hidden = screen_of(&["a b"], 5, (0, 4, false));
    let back = Screen::parse(&hidden.display_text()).unwrap();
    assert_eq!(back.display_text(), hidden.display_text());
    assert!(hidden.diff(&back).is_empty());
}

#[test]
fn a_styled_cell_is_not_carried_by_the_plain_snapshot() {
    let mut cells = vec![Cell::new("x".into(), Style::default(), false, false)];
    let mut red = Style::default();
    red.fg = Color::Indexed(1);
    cells[0] = Cell::new("x".into(), red, false, false);
    let s = Screen::from_parts(1, 1, 0, 0, true, cells, TermState::default());
    let parsed = Screen::parse(&s.display_text()).unwrap();
    assert_eq!(parsed.display_text(), s.display_text());
    assert!(!s.diff(&parsed).is_empty());
}

#[test]
fn stripping_paste_markers_twice_is_stripping_once() {
    let text = "a\x1b[20\x1b[200~0~b\x1b[201~c";
    let once = strip_paste_markers(text);
    assert_eq!(once, "abc");
    assert_eq!(strip_paste_markers(&once), once);
}

#[test]
fn the_unanswered_query_record_stays_bounded_and_distinct() {
    let mut log = QueryLog::new();
    log.count_read();
    for code in 0u16..10 {
        log.note_unanswered(format!("^[[?{code}$p"));
        log.note_unanswered(format!("^[[?{code}$p"));
    }
    assert_eq!(
        log.query_note(),
        " — note: the application queried the terminal (^[[?0$p, ^[[?1$p, ^[[?2$p, ^[[?3$p, ^[[?4$p, ^[[?5$p, ^[[?6$p, ^[[?7$p, and 4 more) and received no answer; if it is blocked waiting for that reply, this is the cause"
    );
}

#[test]
fn filing_an_unhandled_shape_twice_files_it_once() {
    let mut record = Unhandled::new();
    record.record("^[[20h".into());
    record.record("^[[20h".into());
    record.record("^[[4;5r".into());
    assert_eq!(record.shapes(), &["^[[20h".to_string(), "^[[4;5r".to_string()]);
    assert_eq!(record.overflow(), 0);
}

#[test]
fn a_stream_fed_in_pieces_shadows_as_the_whole() {
    let bytes: &[u8] = b"ab\x1b[5mX\x1b[0;9mY\x1b[31mZ";
    let mut whole = SgrRewriter::new();
    let all = whole.rewrite_stream(bytes);
    for cut in 0..=bytes.len() {
        let mut pieces = SgrRewriter::new();
        let mut out = pieces.rewrite_stream(&bytes[..cut]);
        out.extend(pieces.rewrite_stream(&bytes[cut..]));
        assert_eq!(out, all, "cut at {cut}");
        assert_eq!(pieces.pending(), whole.pending());
    }
    let mut plain = SgrRewriter::new();
    assert_eq!(plain.rewrite_stream(b"no escapes here"), b"no escapes here".to_vec());
    assert!(plain.pending().is_empty());
}

#[test]
fn an_error_with_a_screen_prints_the_screen_last() {
    let s = screen_of(&["ok"], 3, (0, 2, true));
    let dump = s.display_text();
    let errors = vec![
        Error::Timeout { waiting_for: "x".into(), timeout: Duration::from_millis(5), screen: screen_of(&["ok"], 3, (0, 2, true)) },
        Error::Eof { waiting_for: "x".into(), screen: screen_of(&["ok"], 3, (0, 2, true)) },
        Error::Emulator { detail: "d".into(), screen: screen_of(&["ok"], 3, (0, 2, true)) },
        Error::Write { what: "w".into(), screen: screen_of(&["ok"], 3, (0, 2, true)) },
    ];
    for e in errors {
        assert!(e.message().ends_with(&dump), "{}", e.message());
    }
}

#[test]
fn a_snapshot_with_styles_reads_back_to_the_same_text_and_picture() {
    let mut red = Style::default();
    red.fg = Color::Rgb(0x1e, 0x1e, 0x2e);
    red.bold = true;
    let mut cells = Vec::new();
    for (i, ch) in ['a', 'b', ' ', 'c', '\0', '\0'].iter().enumerate() {
        let text = if *ch == '\0' { String::new() } else { ch.to_string() };
        let style = if i == 1 || i == 3 { red } else { Style::default() };
        cells.push(Cell::new(text, style, false, false));
    }
    let s = Screen::from_parts(3, 2, 1, 1, true, cells, TermState::default());
    let saved = s.with_styles().render();
    let parsed = Screen::parse(&saved).unwrap();
    assert_eq!(parsed.with_styles().render(), saved);
    assert!(s.diff(&parsed).is_empty());
}

#[test]
fn blank_and_erased_cells_diff_empty_both_ways() {
    let a = screen_of(&["a ", "b"], 3, (0, 0, true));
    let b = screen_of(&["a", "b  "], 3, (0, 0, true));
    assert!(a.diff(&b).is_empty());
    assert!(b.diff(&a).is_empty());
    let c = screen_of(&["a", "x"], 3, (0, 0, true));
    assert!(!a.diff(&c).is_empty());
    assert!(!c.diff(&a).is_empty());
}

#[test]
fn changed_rows_ascend_and_match_the_changed_cells() {
    let a = screen_of(&["abc", "def", "ghi", "jkl"], 3, (0, 0, true));
    let b = screen_of(&["abc", "dXf", "ghi", "YkZ"], 3, (0, 0, true));
    let d = a.diff(&b);
    assert_eq!(d.changed_rows(), vec![1, 3]);
    let cells: Vec<(u16, u16)> = d.cells().iter().map(|c| (c.0, c.1)).collect();
    assert_eq!(cells, vec![(1, 1), (3, 0), (3, 2)]);
}

#[test]
fn style_changes_name_only_rows_whose_runs_differ() {
    let a = screen_of(&["ab", "cd"], 2, (0, 0, true));
    let mut cells = Vec::new();
    let bold = Style { bold: true, ..Style::default() };
    cells.push(Cell::new("a".into(), bold, false, false));
    cells.push(Cell::new("b".into(), Style::default(), false, false));
    cells.push(Cell::new("c".into(), Style::default(), false, false));
    cells.push(Cell::new("X".into(), Style::default(), false, false));
    let b = Screen::from_parts(2, 2, 0, 0, true, cells, TermState::default());
    let d = a.diff(&b);
    assert_eq!(d.changed_rows(), vec![0, 1]);
    let st = d.style_changes();
    assert_eq!(st.len(), 1);
    assert_eq!(st[0].0, 0);
    assert_eq!(st[0].1, "(none)");
    assert_ne!(st[0].1, st[0].2);
}

fn strip_sgr(s: &str) -> String {
    let mut out = String::new();
    let mut chars = s.chars().peekable();
    while let Some(c) = chars.next() {
        if c == '\u{1b}' && chars.peek() == Some(&'[') {
            for d in chars.by_ref() {
                if d == 'm' {
                    break;
                }
            }
        } else {
            out.push(c);
        }
    }
    out
}

#[test]
fn stripping_sgr_from_the_ansi_rendering_leaves_the_row_texts() {
    let mut cells = Vec::new();
    let bold = Style { bold: true, ..Style::default() };
    for (ch, st) in [("a", bold), ("b", Style::default()), ("", bold), ("c", Style::default())] {
        cells.push(Cell::new(ch.into(), st, false, false));
    }
    let s = Screen::from_parts(2, 2, 0, 0, true, cells, TermState::default());
    let ansi = s.to_ansi();
    let expected: String = (0..s.rows()).map(|r| s.row_text(r) + "\n").collect();
    assert_eq!(strip_sgr(&ansi), expected);
}

#[test]
fn a_parsed_wide_cell_is_followed_by_its_continuation() {
    let s = Screen::parse("size: 6x2  cursor: 1,2\nab 東").unwrap();
    for r in 0..s.rows() {
        for c in 0..s.cols() {
            let cell = s.cell(r, c).unwrap();
            if cell.is_wide() {
                assert!(c + 1 < s.cols());
                let next = s.cell(r, c + 1).unwrap();
                assert!(next.is_wide_continuation());
                assert_eq!(next.contents(), "");
            }
        }
    }
    assert!(s.cell(0, 3).unwrap().is_wide());
    assert!(s.cell(0, 4).unwrap().is_wide_continuation());
}

#[test]
fn find_agrees_with_contains_on_one_line_needles() {
    let s = screen_of(&["hello", "wide 東x", "tail"], 8, (0, 0, true));
    for needle in ["hello", "x", "東x", "ail", "lo", "nope", "o w"] {
        let found = s.find(needle);
        assert_eq!(found.is_some(), s.contains(needle), "{needle}");
        if let Some((r, c)) = found {
            assert!(r < s.rows() && c < s.cols());
        }
    }
}
