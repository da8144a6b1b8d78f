use termlens::error::Error;
use termlens::screen::{Color, Screen};

fn parse_error(text: &str) -> String {
    match Screen::parse(text) {
        Err(e) => e.message(),
        Ok(_) => panic!("{text:?} parsed"),
    }
}

#[test]
fn a_grid_with_styles_round_trips() {
    let saved = "size: 6x2  cursor: 1,2\nab 東\n\n\nstyles:\n0: 0-1 fg=1 bold; 3-4 bg=#1e1e2e\n1: 5 reverse";
    let screen = Screen::parse(saved).unwrap();
    assert_eq!(screen.size(), (6, 2));
    assert_eq!(screen.cursor(), (1, 2, true));
    assert!(screen.cell(0, 3).unwrap().is_wide());
    assert!(screen.cell(0, 4).unwrap().is_wide_continuation());
    assert_eq!(screen.cell(0, 0).unwrap().style().fg, Color::Indexed(1));
    assert_eq!(screen.cell(0, 4).unwrap().style().bg, Color::Rgb(0x1e, 0x1e, 0x2e));
    assert!(screen.cell(1, 5).unwrap().style().reverse);
    assert_eq!(screen.with_styles().render(), saved);
}

#[test]
fn a_short_grid_is_padded_and_none_is_accepted() {
    let screen = Screen::parse("size: 4x3  cursor: hidden\nhi\n\nstyles:\n(none)").unwrap();
    assert_eq!(screen.row_text(0), "hi  ");
    assert_eq!(screen.row_text(2), "    ");
    assert_eq!(screen.cursor(), (0, 0, false));
    let plain = Screen::parse("size: 4x3  cursor: hidden\nhi").unwrap();
    assert!(screen.diff(&plain).is_empty());
}

#[test]
fn combining_marks_join_the_cell_before_them() {
    let screen = Screen::parse("size: 3x1  cursor: 0,0\ne\u{301}x").unwrap();
    assert_eq!(screen.cell(0, 0).unwrap().contents(), "e\u{301}");
    assert_eq!(screen.cell(0, 1).unwrap().contents(), "x");
}

#[test]
fn errors_name_the_line() {
    let long = parse_error("size: 2x1  cursor: 0,0\nabc");
    assert!(long.contains("line 2") && long.contains("wider"), "{long}");
    let header = parse_error("80x24");
    assert!(header.contains("line 1"), "{header}");
    let cursor = parse_error("size: 2x1  cursor: 5,0");
    assert!(cursor.contains("outside"), "{cursor}");
    let token = parse_error("size: 2x1  cursor: 0,0\nab\n\nstyles:\n0: 0 shiny");
    assert!(token.contains("line 5") && token.contains("unknown style token"), "{token}");
    let junk = parse_error("size: 2x1  cursor: 0,0\nab\nextra\n");
    assert!(junk.contains("expected `styles:`"), "{junk}");
}

#[test]
fn parse_errors_are_exact() {
    assert_eq!(parse_error(""), "could not parse a saved screen: empty input; expected a `size: …` header");
    assert_eq!(
        parse_error("size: 0x1  cursor: hidden"),
        "could not parse a saved screen: line 1: a screen has at least one column and one row, got 0x1"
    );
    assert_eq!(
        parse_error("size: 3x2  cursor: 2,0"),
        "could not parse a saved screen: line 1: cursor 2,0 is outside the 3x2 grid"
    );
    assert_eq!(
        parse_error("size: 3x1  cursor: 0,0\n\u{301}"),
        "could not parse a saved screen: line 2: '\\u{301}' has no character to combine with"
    );
    assert_eq!(
        parse_error("size: 3x1  cursor: 0,0\nab\n\nstyles:\n0: 0 fg=#12345"),
        "could not parse a saved screen: line 5: bad colour in \"0: 0 fg=#12345\""
    );
    assert_eq!(
        parse_error("size: 3x1  cursor: 0,0\nab\n\nstyles:\n1: 0 bold"),
        "could not parse a saved screen: line 5: row is outside the grid in \"1: 0 bold\""
    );
    assert_eq!(
        parse_error("size: 3x1  cursor: 0,0\nab\n\nstyles:\n0: 2-1 bold"),
        "could not parse a saved screen: line 5: span is outside the grid in \"0: 2-1 bold\""
    );
    assert!(matches!(Screen::parse("size: 3x1"), Err(Error::Parse(_))));
}

#[test]
fn crlf_lines_and_plus_signs_read_as_the_standard_library_reads_them() {
    let screen = Screen::parse("size: +3x1  cursor: +0,2\r\nab\r\n\r\nstyles:\r\n0: +0-1 fg=#+a0B0c; 2 bg=255\r\n").unwrap();
    assert_eq!(screen.size(), (3, 1));
    assert_eq!(screen.cursor(), (0, 2, true));
    assert_eq!(screen.cell(0, 1).unwrap().style().fg, Color::Rgb(0x0a, 0x0b, 0x0c));
    assert_eq!(screen.cell(0, 2).unwrap().style().bg, Color::Indexed(255));
}

#[test]
fn a_grid_line_that_reads_styles_is_a_row_when_junk_follows() {
    let screen = Screen::parse("size: 10x2  cursor: 0,0\nstyles:\nnot a span").unwrap();
    assert_eq!(screen.row_text(0), "styles:   ");
    assert_eq!(screen.row_text(1), "not a span");
}
