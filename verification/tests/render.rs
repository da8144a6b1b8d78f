use termlens::render::{palette, sgr};
use termlens::screen::{Cell, Color, Screen, Style, TermState};

#[test]
fn the_palette_is_xterms() {
    assert_eq!(palette(1), "#cd3131");
    assert_eq!(palette(16), "#000000");
    assert_eq!(palette(21), "#0000ff");
    assert_eq!(palette(196), "#ff0000");
    assert_eq!(palette(232), "#080808");
    assert_eq!(palette(255), "#eeeeee");
}

#[test]
fn sgr_sets_the_style_from_a_reset() {
    let mut style = Style { bold: true, fg: Color::Indexed(1), bg: Color::Rgb(30, 30, 46), ..Style::default() };
    assert_eq!(sgr(&style), "\x1b[0;1;31;48;2;30;30;46m");
    style.fg = Color::Indexed(9);
    assert_eq!(sgr(&style), "\x1b[0;1;91;48;2;30;30;46m");
    style.fg = Color::Indexed(200);
    assert_eq!(sgr(&style), "\x1b[0;1;38;5;200;48;2;30;30;46m");
}

fn styled_screen() -> Screen {
    let red = Style { fg: Color::Indexed(1), bold: true, ..Style::default() };
    let hidden = Style { conceal: true, bg: Color::Indexed(4), ..Style::default() };
    let cells = vec![
        Cell::new("a".into(), red, false, false),
        Cell::new("<".into(), red, false, false),
        Cell::new("汉".into(), Style::default(), true, false),
        Cell::new(String::new(), Style::default(), false, true),
        Cell::new("s".into(), hidden, false, false),
        Cell::new(String::new(), hidden, false, false),
        Cell::new("b".into(), Style::default(), false, false),
        Cell::new(String::new(), Style::default(), false, false),
    ];
    Screen::from_parts(4, 2, 0, 0, true, cells, TermState::default())
}

#[test]
fn ansi_paints_styled_runs_and_leaves_default_ones_bare() {
    let s = styled_screen();
    assert_eq!(s.to_ansi(), "\x1b[0;1;31ma<\x1b[0m汉\n\x1b[0;8;44ms \x1b[0mb \n");
}

#[test]
fn svg_draws_backgrounds_and_glyphs() {
    let s = styled_screen();
    let svg = s.to_svg();
    assert!(svg.starts_with("<svg xmlns=\"http://www.w3.org/2000/svg\" width=\"36\" height=\"36\" viewBox=\"0 0 36 36\""), "{svg}");
    assert!(svg.contains("<rect width=\"36\" height=\"36\" fill=\"#1e1e1e\"/>\n"), "{svg}");
    assert!(svg.contains("<text x=\"0\" y=\"14\" fill=\"#cd3131\" xml:space=\"preserve\" font-weight=\"bold\">a&lt;</text>\n"), "{svg}");
    assert!(svg.contains("<text x=\"18\" y=\"14\" fill=\"#d4d4d4\" xml:space=\"preserve\">汉</text>\n"), "{svg}");
    assert!(svg.contains("<text x=\"18\" y=\"32\" fill=\"#d4d4d4\" xml:space=\"preserve\">b</text>\n"), "{svg}");
    // The concealed run paints its background and no glyphs.
    assert!(svg.contains("<rect x=\"0\" y=\"18\" width=\"18\" height=\"18\" fill=\"#2472c8\"/>\n"), "{svg}");
    assert!(!svg.contains(">s<"), "{svg}");
    assert!(svg.ends_with("</svg>\n"));
}

#[test]
fn html_spans_styled_runs_and_blanks_concealed_text() {
    let s = styled_screen();
    assert_eq!(
        s.to_html(),
        "<pre style=\"background:#1e1e1e;color:#d4d4d4;font-family:monospace;line-height:1.2;padding:8px\">\
<span style=\"color:#cd3131;background:#1e1e1e;font-weight:bold\">a&lt;</span>汉\n\
<span style=\"color:#d4d4d4;background:#2472c8\">  </span>b \n</pre>\n"
    );
}
