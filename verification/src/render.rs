//! Renderings of a [`Screen`] a person can see: ANSI for a terminal, SVG
//! for a bug report, HTML for a pull request. All three derive straight from
//! the cells and styles and treat a wide character as one glyph over two
//! columns.
use vstd::prelude::*;
use crate::screen::{
    Cell, CellModel, Color, Screen, ScreenModel, Style, cell_at, hex_pair, join_sep, plain_style, push_joined,
    trim_end, trimmed_len,
};
use crate::screen::chars_equal;
use crate::text::{chars_of, decimal_text, push_char, push_chars, push_decimal_text, push_str};

verus! {

/// The colour a default foreground renders as where a real colour is needed.
pub open spec fn default_fg() -> Seq<char> {
    "#d4d4d4"@
}

/// The colour a default background renders as where a real colour is needed.
pub open spec fn default_bg() -> Seq<char> {
    "#1e1e1e"@
}

/// The sixteen ANSI colours of the palette.
pub open spec fn ansi16(i: u8) -> Seq<char> {
    if i == 0 { "#000000"@ } else if i == 1 { "#cd3131"@ } else if i == 2 { "#0dbc79"@ } else if i == 3 { "#e5e510"@ }
    else if i == 4 { "#2472c8"@ } else if i == 5 { "#bc3fbc"@ } else if i == 6 { "#11a8cd"@ } else if i == 7 { "#e5e5e5"@ }
    else if i == 8 { "#666666"@ } else if i == 9 { "#f14c4c"@ } else if i == 10 { "#23d18b"@ } else if i == 11 { "#f5f543"@ }
    else if i == 12 { "#3b8eea"@ } else if i == 13 { "#d670d6"@ } else if i == 14 { "#29b8db"@ } else { "#ffffff"@ }
}

/// One axis of the 6x6x6 colour cube.
pub open spec fn cube_level(v: u8) -> u8 {
    if v == 0 {
        0
    } else {
        (55 + 40 * v) as u8
    }
}

/// `#` and three channels in hexadecimal.
pub open spec fn hex_colour(r: u8, g: u8, b: u8) -> Seq<char> {
    seq!['#'] + hex_pair(r) + hex_pair(g) + hex_pair(b)
}

/// The xterm 256-colour palette entry `index` as `#rrggbb`.
pub open spec fn palette_spec(index: u8) -> Seq<char> {
    if index <= 15 {
        ansi16(index)
    } else if index <= 231 {
        let i = (index - 16) as u8;
        hex_colour(cube_level(i / 36), cube_level((i / 6) % 6), cube_level(i % 6))
    } else {
        let grey = (8 + 10 * (index - 232)) as u8;
        hex_colour(grey, grey, grey)
    }
}

fn push_hex(s: &mut String, b: u8)
    ensures
        final(s)@ == old(s)@ + hex_pair(b),
{
    let hi = b / 16;
    let lo = b % 16;
    push_char(s, if hi < 10 { (48 + hi) as char } else { (87 + hi) as char });
    push_char(s, if lo < 10 { (48 + lo) as char } else { (87 + lo) as char });
    assert(s@ =~= old(s)@ + hex_pair(b));
}

fn hex_colour_string(r: u8, g: u8, b: u8) -> (out: String)
    ensures
        out@ == hex_colour(r, g, b),
{
    let mut s = String::new();
    push_char(&mut s, '#');
    push_hex(&mut s, r);
    push_hex(&mut s, g);
    push_hex(&mut s, b);
    assert(s@ =~= hex_colour(r, g, b));
    s
}

fn level(v: u8) -> (r: u8)
    requires
        v <= 5,
    ensures
        r == cube_level(v),
{
    if v == 0 {
        0
    } else {
        55 + 40 * v
    }
}

/// The xterm 256-colour palette entry `index` as `#rrggbb`: the sixteen
/// ANSI colours, the 6x6x6 cube, then the greys.
pub fn palette(index: u8) -> (r: String)
    ensures
        r@ == palette_spec(index),
{
    if index <= 15 {
        let t = if index == 0 { "#000000" } else if index == 1 { "#cd3131" } else if index == 2 { "#0dbc79" }
        else if index == 3 { "#e5e510" } else if index == 4 { "#2472c8" } else if index == 5 { "#bc3fbc" }
        else if index == 6 { "#11a8cd" } else if index == 7 { "#e5e5e5" } else if index == 8 { "#666666" }
        else if index == 9 { "#f14c4c" } else if index == 10 { "#23d18b" } else if index == 11 { "#f5f543" }
        else if index == 12 { "#3b8eea" } else if index == 13 { "#d670d6" } else if index == 14 { "#29b8db" }
        else { "#ffffff" };
        let mut s = String::new();
        push_str(&mut s, t);
        return s;
    }
    if index <= 231 {
        let i = index - 16;
        return hex_colour_string(level(i / 36), level((i / 6) % 6), level(i % 6));
    }
    let grey = 8 + 10 * (index - 232);
    hex_colour_string(grey, grey, grey)
}

/// A colour as CSS, `default` where it is the terminal's default.
pub open spec fn css_spec(c: Color, default: Seq<char>) -> Seq<char> {
    match c {
        Color::Default => default,
        Color::Indexed(i) => palette_spec(i),
        Color::Rgb(r, g, b) => hex_colour(r, g, b),
    }
}

/// A colour as CSS, `default` where it is the terminal's default.
pub fn css_color(c: Color, default: &str) -> (r: String)
    ensures
        r@ == css_spec(c, default@),
{
    match c {
        Color::Default => {
            let mut s = String::new();
            push_str(&mut s, default);
            s
        },
        Color::Indexed(i) => palette(i),
        Color::Rgb(r, g, b) => hex_colour_string(r, g, b),
    }
}

/// The foreground and background a cell is painted with, reverse video
/// applied.
pub open spec fn painted_spec(st: Style) -> (Seq<char>, Seq<char>) {
    let fg = css_spec(st.fg, default_fg());
    let bg = css_spec(st.bg, default_bg());
    if st.reverse {
        (bg, fg)
    } else {
        (fg, bg)
    }
}

/// The foreground and background a cell is painted with, as CSS colours,
/// reverse video applied.
pub fn painted(st: &Style) -> (r: (String, String))
    ensures
        (r.0@, r.1@) == painted_spec(*st),
{
    let fg = css_color(st.fg, "#d4d4d4");
    let bg = css_color(st.bg, "#1e1e1e");
    if st.reverse {
        (bg, fg)
    } else {
        (fg, bg)
    }
}

/// `code` when `on`.
pub open spec fn code_if(on: bool, code: Seq<char>) -> Seq<Seq<char>> {
    if on {
        seq![code]
    } else {
        Seq::empty()
    }
}

/// The SGR parameters of a colour: `base + i` for the eight basic colours,
/// `bright + i` for the next eight, `ext;5;i` for the rest of the palette,
/// `ext;2;r;g;b` for RGB.
pub open spec fn colour_params(c: Color, base: nat, bright: nat, ext: Seq<char>) -> Seq<Seq<char>> {
    match c {
        Color::Default => Seq::empty(),
        Color::Indexed(i) => if i <= 7 {
            seq![decimal_text(base + i as nat)]
        } else if i <= 15 {
            seq![decimal_text(bright + i as nat)]
        } else {
            seq![ext + ";5;"@ + decimal_text(i as nat)]
        },
        Color::Rgb(r, g, b) => seq![
            ext + ";2;"@ + decimal_text(r as nat) + ";"@ + decimal_text(g as nat) + ";"@ + decimal_text(b as nat),
        ],
    }
}

/// The SGR parameters that set a style from a reset terminal.
pub open spec fn sgr_params(st: Style) -> Seq<Seq<char>> {
    seq!["0"@] + code_if(st.bold, "1"@) + code_if(st.dim, "2"@) + code_if(st.italic, "3"@) + code_if(st.underline, "4"@)
        + code_if(st.blink, "5"@) + code_if(st.reverse, "7"@) + code_if(st.conceal, "8"@) + code_if(
        st.strikethrough,
        "9"@,
    ) + colour_params(st.fg, 30, 82, "38"@) + colour_params(st.bg, 40, 92, "48"@)
}

/// The SGR sequence that sets a style from a reset terminal.
pub open spec fn sgr_spec(st: Style) -> Seq<char> {
    seq!['\u{1b}', '['] + join_sep(sgr_params(st), ";"@) + "m"@
}

fn push_code(params: &mut Vec<String>, on: bool, code: &str)
    ensures
        final(params)@.map_values(|p: String| p@) == old(params)@.map_values(|p: String| p@) + code_if(on, code@),
{
    let ghost before = params@.map_values(|p: String| p@);
    if on {
        let mut s = String::new();
        push_str(&mut s, code);
        let ghost sv = s@;
        params.push(s);
        assert(params@.map_values(|p: String| p@) =~= before + seq![sv]);
    } else {
        assert(before + Seq::<Seq<char>>::empty() =~= before);
    }
}

fn push_colour_params(params: &mut Vec<String>, c: Color, base: u16, bright: u16, ext: &str)
    requires
        base <= 100 && bright <= 100,
    ensures
        final(params)@.map_values(|p: String| p@) == old(params)@.map_values(|p: String| p@) + colour_params(
            c,
            base as nat,
            bright as nat,
            ext@,
        ),
{
    let ghost before = params@.map_values(|p: String| p@);
    let mut s = String::new();
    match c {
        Color::Default => {
            assert(before + Seq::<Seq<char>>::empty() =~= before);
            return;
        },
        Color::Indexed(i) => {
            if i <= 7 {
                push_decimal_text(&mut s, (base + i as u16) as u64);
            } else if i <= 15 {
                push_decimal_text(&mut s, (bright + i as u16) as u64);
            } else {
                push_str(&mut s, ext);
                push_str(&mut s, ";5;");
                push_decimal_text(&mut s, i as u64);
            }
        },
        Color::Rgb(r, g, b) => {
            push_str(&mut s, ext);
            push_str(&mut s, ";2;");
            push_decimal_text(&mut s, r as u64);
            push_str(&mut s, ";");
            push_decimal_text(&mut s, g as u64);
            push_str(&mut s, ";");
            push_decimal_text(&mut s, b as u64);
        },
    }
    let ghost sv = s@;
    params.push(s);
    assert(params@.map_values(|p: String| p@) =~= before + seq![sv]);
}

/// The SGR sequence that sets `st` from a reset terminal: `0`, the
/// attributes in SGR order, then the foreground and background.
pub fn sgr(st: &Style) -> (r: String)
    ensures
        r@ == sgr_spec(*st),
{
    let mut params: Vec<String> = Vec::new();
    let mut zero = String::new();
    push_str(&mut zero, "0");
    let ghost zv = zero@;
    params.push(zero);
    assert(params@.map_values(|p: String| p@) =~= seq!["0"@]);
    push_code(&mut params, st.bold, "1");
    push_code(&mut params, st.dim, "2");
    push_code(&mut params, st.italic, "3");
    push_code(&mut params, st.underline, "4");
    push_code(&mut params, st.blink, "5");
    push_code(&mut params, st.reverse, "7");
    push_code(&mut params, st.conceal, "8");
    push_code(&mut params, st.strikethrough, "9");
    push_colour_params(&mut params, st.fg, 30, 82, "38");
    push_colour_params(&mut params, st.bg, 40, 92, "48");
    assert(params@.map_values(|p: String| p@) =~= sgr_params(*st));
    let mut out = String::new();
    push_char(&mut out, '\u{1b}');
    push_char(&mut out, '[');
    push_joined(&mut out, &params, ";");
    push_str(&mut out, "m");
    assert(out@ =~= sgr_spec(*st));
    out
}

/// What a cell shows: its text, or a space for a blank.
pub open spec fn glyph_spec(c: CellModel) -> Seq<char> {
    if c.contents.len() == 0 {
        seq![' ']
    } else {
        c.contents
    }
}

fn glyph(c: &Cell) -> (r: Vec<char>)
    ensures
        r@ == glyph_spec(c@),
{
    let v = chars_of(c.contents());
    if v.len() == 0 {
        let mut w: Vec<char> = Vec::new();
        w.push(' ');
        assert(w@ =~= seq![' ']);
        w
    } else {
        v
    }
}

/// A run of one row: first column, width in columns, style and text.
pub type Run = (u16, u16, Style, Seq<char>);

/// The runs of the first `n` cells of `row`: consecutive cells sharing a
/// style, wide continuations folded into the cell before them.
pub open spec fn runs_spec(m: ScreenModel, row: int, n: int) -> Seq<Run>
    decreases n,
{
    if n <= 0 {
        Seq::empty()
    } else {
        let prev = runs_spec(m, row, n - 1);
        let c = cell_at(m, row, n - 1);
        if c.continuation {
            if prev.len() > 0 {
                prev.update(prev.len() - 1, (prev.last().0, (prev.last().1 + 1) as u16, prev.last().2, prev.last().3))
            } else {
                prev
            }
        } else if prev.len() > 0 && prev.last().2 == c.style {
            prev.update(
                prev.len() - 1,
                (prev.last().0, (prev.last().1 + 1) as u16, prev.last().2, prev.last().3 + glyph_spec(c)),
            )
        } else {
            prev.push(((n - 1) as u16, 1u16, c.style, glyph_spec(c)))
        }
    }
}

/// The runs of a whole row.
pub open spec fn row_runs(m: ScreenModel, row: int) -> Seq<Run> {
    runs_spec(m, row, m.cols as int)
}

/// Characters with `&`, `<`, `>` and `"` escaped for XML.
pub open spec fn escape_xml_spec(t: Seq<char>) -> Seq<char>
    decreases t.len(),
{
    if t.len() == 0 {
        Seq::empty()
    } else {
        escape_xml_spec(t.drop_last()) + {
            let c = t.last();
            if c == '&' {
                "&amp;"@
            } else if c == '<' {
                "&lt;"@
            } else if c == '>' {
                "&gt;"@
            } else if c == '"' {
                "&quot;"@
            } else {
                seq![c]
            }
        }
    }
}

/// Append `t` with `&`, `<`, `>` and `"` escaped for XML.
pub fn escape_xml(t: &[char], out: &mut String)
    ensures
        final(out)@ == old(out)@ + escape_xml_spec(t@),
{
    let mut i: usize = 0;
    while i < t.len()
        invariant
            i <= t@.len(),
            out@ == old(out)@ + escape_xml_spec(t@.take(i as int)),
        decreases t@.len() - i,
    {
        let c = t[i];
        let ghost before = out@;
        if c == '&' {
            push_str(out, "&amp;");
        } else if c == '<' {
            push_str(out, "&lt;");
        } else if c == '>' {
            push_str(out, "&gt;");
        } else if c == '"' {
            push_str(out, "&quot;");
        } else {
            push_char(out, c);
        }
        proof {
            assert(t@.take(i + 1).drop_last() =~= t@.take(i as int));
            assert(out@ =~= old(out)@ + escape_xml_spec(t@.take(i + 1)));
        }
        i = i + 1;
    }
    assert(t@.take(t@.len() as int) =~= t@);
}

/// The plain values of exec runs.
pub open spec fn runs_view(v: Seq<(u16, u16, Style, Vec<char>)>) -> Seq<Run> {
    Seq::new(v.len(), |i: int| (v[i].0, v[i].1, v[i].2, v[i].3@))
}

impl Screen {
    /// One row as runs of consecutive cells sharing a style, wide
    /// continuations folded into the cell before them: `(start column,
    /// width in columns, style, text)`.
    pub fn runs(&self, row: u16) -> (r: Vec<(u16, u16, Style, Vec<char>)>)
        requires
            row < self@.rows,
        ensures
            runs_view(r@) == row_runs(self@, row as int),
            forall|k: int| 0 <= k < r@.len() ==> #[trigger] r@[k].1 <= self@.cols,
    {
        let mut runs: Vec<(u16, u16, Style, Vec<char>)> = Vec::new();
        let mut col: u16 = 0;
        while col < self.cols()
            invariant
                row < self@.rows,
                col <= self@.cols,
                runs_view(runs@) == runs_spec(self@, row as int, col as int),
                forall|k: int| 0 <= k < runs@.len() ==> #[trigger] runs@[k].1 <= col,
            decreases self@.cols - col,
        {
            let cell = self.cell(row, col).unwrap();
            let ghost prev = runs_view(runs@);
            let len = runs.len();
            if cell.is_wide_continuation() {
                if len > 0 {
                    let mut last = runs.pop().unwrap();
                    last.1 = last.1 + 1;
                    runs.push(last);
                    assert(runs_view(runs@) =~= prev.update(
                        prev.len() - 1,
                        (prev.last().0, (prev.last().1 + 1) as u16, prev.last().2, prev.last().3),
                    ));
                }
            } else {
                let st = *cell.style();
                let g = glyph(cell);
                if len > 0 && runs[len - 1].2 == st {
                    let mut last = runs.pop().unwrap();
                    last.1 = last.1 + 1;
                    let n = g.len();
                    crate::screen::append_chars(&mut last.3, g.as_slice(), n);
                    assert(g@.take(n as int) =~= g@);
                    runs.push(last);
                    assert(runs_view(runs@) =~= prev.update(
                        prev.len() - 1,
                        (prev.last().0, (prev.last().1 + 1) as u16, prev.last().2, prev.last().3 + glyph_spec(cell@)),
                    ));
                } else {
                    runs.push((col, 1, st, g));
                    assert(runs_view(runs@) =~= prev.push((col, 1u16, st, glyph_spec(cell@))));
                }
            }
            col = col + 1;
        }
        runs
    }
}


/// The ANSI form of one run: the text, wrapped in its SGR sequence and a
/// reset unless the style is the default.
pub open spec fn ansi_run(run: Run) -> Seq<char> {
    if run.2 == plain_style() {
        run.3
    } else {
        sgr_spec(run.2) + run.3 + "\u{1b}[0m"@
    }
}

/// The ANSI form of a sequence of runs.
pub open spec fn ansi_runs(runs: Seq<Run>) -> Seq<char>
    decreases runs.len(),
{
    if runs.len() == 0 {
        Seq::empty()
    } else {
        ansi_runs(runs.drop_last()) + ansi_run(runs.last())
    }
}

/// The ANSI form of the first `n` rows, each followed by a newline.
pub open spec fn ansi_rows(m: ScreenModel, n: int) -> Seq<char>
    decreases n,
{
    if n <= 0 {
        Seq::empty()
    } else {
        ansi_rows(m, n - 1) + ansi_runs(row_runs(m, n - 1)) + "\n"@
    }
}

/// The whole screen as ANSI.
pub open spec fn ansi_spec(m: ScreenModel) -> Seq<char> {
    ansi_rows(m, m.rows as int)
}

impl Screen {
    /// The screen as ANSI: one line per row, every run of cells painted
    /// through the SGR sequence of its style and reset after it, a newline
    /// after every row. Default styles are left to the terminal.
    pub fn to_ansi(&self) -> (r: String)
        ensures
            r@ == ansi_spec(self@),
    {
        let mut out = String::new();
        let mut row: u16 = 0;
        while row < self.rows()
            invariant
                row <= self@.rows,
                out@ == ansi_rows(self@, row as int),
            decreases self@.rows - row,
        {
            let rs = self.runs(row);
            let ghost rv = runs_view(rs@);
            let mut k: usize = 0;
            while k < rs.len()
                invariant
                    k <= rs@.len(),
                    rv == runs_view(rs@),
                    out@ == ansi_rows(self@, row as int) + ansi_runs(rv.take(k as int)),
                decreases rs@.len() - k,
            {
                let ghost before = out@;
                let st = rs[k].2;
                let plain = st.is_default();
                if !plain {
                    let code = sgr(&st);
                    push_str(&mut out, code.as_str());
                }
                push_chars(&mut out, rs[k].3.as_slice());
                if !plain {
                    push_str(&mut out, "\u{1b}[0m");
                }
                proof {
                    assert(rv.take(k + 1).drop_last() =~= rv.take(k as int));
                    assert(out@ =~= before + ansi_run(rv[k as int]));
                }
                k = k + 1;
            }
            push_str(&mut out, "\n");
            proof {
                assert(rv.take(rv.len() as int) =~= rv);
            }
            row = row + 1;
        }
        out
    }
}


/// A number in decimal.
pub open spec fn dec(n: int) -> Seq<char> {
    decimal_text(n as nat)
}

/// The text decorations of a style, space-separated.
pub open spec fn decoration(st: Style) -> Seq<char> {
    if st.underline && st.strikethrough {
        "underline line-through"@
    } else if st.underline {
        "underline"@
    } else if st.strikethrough {
        "line-through"@
    } else {
        Seq::empty()
    }
}

/// `text` when `on`, nothing otherwise.
pub open spec fn when(on: bool, text: Seq<char>) -> Seq<char> {
    if on {
        text
    } else {
        Seq::empty()
    }
}

/// The attributes a `<text>` element carries for a style.
pub open spec fn svg_attrs(st: Style) -> Seq<char> {
    when(st.bold, " font-weight=\"bold\""@) + when(st.italic, " font-style=\"italic\""@) + when(
        st.dim,
        " opacity=\"0.6\""@,
    ) + when(st.underline || st.strikethrough, " text-decoration=\""@ + decoration(st) + "\""@)
}

/// The background of one run on the row at pixel height `y`: a `<rect>`
/// where it is not the default.
pub open spec fn svg_rect(run: Run, y: int) -> Seq<char> {
    let bg = painted_spec(run.2).1;
    when(
        bg != default_bg(),
        "<rect x=\""@ + dec(run.0 * 9) + "\" y=\""@ + dec(y) + "\" width=\""@ + dec(run.1 * 9) + "\" height=\"18\" fill=\""@
            + bg + "\"/>\n"@,
    )
}

/// What a run shows as text in SVG: nothing when concealed, else its text
/// without trailing blanks.
pub open spec fn svg_shown(run: Run) -> Seq<char> {
    if run.2.conceal {
        Seq::empty()
    } else {
        trim_end(run.3)
    }
}

/// The glyphs of one run on the row at pixel height `y`: a `<text>` where
/// the run shows any.
pub open spec fn svg_text(run: Run, y: int) -> Seq<char> {
    let fg = painted_spec(run.2).0;
    when(
        svg_shown(run).len() > 0,
        "<text x=\""@ + dec(run.0 * 9) + "\" y=\""@ + dec(y + 14) + "\" fill=\""@ + fg + "\" xml:space=\"preserve\""@
            + svg_attrs(run.2) + ">"@ + escape_xml_spec(svg_shown(run)) + "</text>\n"@,
    )
}

/// The SVG elements of one run on the row at pixel height `y`.
pub open spec fn svg_run(run: Run, y: int) -> Seq<char> {
    svg_rect(run, y) + svg_text(run, y)
}

/// The SVG elements of a sequence of runs on one row.
pub open spec fn svg_runs(runs: Seq<Run>, y: int) -> Seq<char>
    decreases runs.len(),
{
    if runs.len() == 0 {
        Seq::empty()
    } else {
        svg_runs(runs.drop_last(), y) + svg_run(runs.last(), y)
    }
}

/// The SVG elements of the first `n` rows, 18 pixels apart.
pub open spec fn svg_rows(m: ScreenModel, n: int) -> Seq<char>
    decreases n,
{
    if n <= 0 {
        Seq::empty()
    } else {
        svg_rows(m, n - 1) + svg_runs(row_runs(m, n - 1), (n - 1) * 18)
    }
}

/// The opening `<svg>` element and the background of a picture `w` by `h`
/// pixels.
pub open spec fn svg_header(w: int, h: int) -> Seq<char> {
    "<svg xmlns=\"http://www.w3.org/2000/svg\" width=\""@ + dec(w) + "\" height=\""@ + dec(h) + "\" viewBox=\"0 0 "@
        + dec(w) + " "@ + dec(h)
        + "\" font-family=\"'JetBrains Mono', 'Fira Code', Menlo, Consolas, 'DejaVu Sans Mono', monospace\" font-size=\"14\">\n"@
        + "<rect width=\""@ + dec(w) + "\" height=\""@ + dec(h) + "\" fill=\"#1e1e1e\"/>\n"@
}

/// The whole screen as SVG, cells 9 by 18 pixels.
pub open spec fn svg_spec(m: ScreenModel) -> Seq<char> {
    svg_header(m.cols * 9, m.rows * 18) + svg_rows(m, m.rows as int) + "</svg>\n"@
}

fn is_default_bg(bg: &String) -> (r: bool)
    ensures
        r == (bg@ == default_bg()),
{
    let a = chars_of(bg.as_str());
    let b = chars_of("#1e1e1e");
    if a.len() != b.len() {
        return false;
    }
    chars_equal(a.as_slice(), b.as_slice())
}

fn push_decoration(out: &mut String, st: &Style)
    ensures
        final(out)@ == old(out)@ + decoration(*st),
{
    if st.underline && st.strikethrough {
        push_str(out, "underline line-through");
    } else if st.underline {
        push_str(out, "underline");
    } else if st.strikethrough {
        push_str(out, "line-through");
    } else {
        assert(out@ =~= old(out)@ + decoration(*st));
    }
}

fn push_when(out: &mut String, on: bool, text: &str)
    ensures
        final(out)@ == old(out)@ + when(on, text@),
{
    if on {
        push_str(out, text);
    } else {
        assert(out@ =~= old(out)@ + when(on, text@));
    }
}

fn push_svg_attrs(out: &mut String, st: &Style)
    ensures
        final(out)@ == old(out)@ + svg_attrs(*st),
{
    let ghost start = out@;
    push_when(out, st.bold, " font-weight=\"bold\"");
    push_when(out, st.italic, " font-style=\"italic\"");
    push_when(out, st.dim, " opacity=\"0.6\"");
    let ghost mid = out@;
    let ghost a = when(st.bold, " font-weight=\"bold\""@) + when(st.italic, " font-style=\"italic\""@) + when(
        st.dim,
        " opacity=\"0.6\""@,
    );
    assert(mid =~= start + a);
    let deco = st.underline || st.strikethrough;
    if deco {
        push_str(out, " text-decoration=\"");
        push_decoration(out, st);
        push_str(out, "\"");
        assert(out@ =~= mid + (" text-decoration=\""@ + decoration(*st) + "\""@));
    } else {
        assert(out@ =~= mid + Seq::<char>::empty());
    }
    let ghost b = when(deco, " text-decoration=\""@ + decoration(*st) + "\""@);
    assert(out@ == mid + b);
    assert(svg_attrs(*st) == a + b);
    assert(out@ =~= start + (a + b));
}

fn push_svg_rect(out: &mut String, col: u16, cols: u16, st: &Style, y: u32)
    ensures
        final(out)@ == old(out)@ + svg_rect((col, cols, *st, Seq::empty()), y as int),
{
    let ghost start = out@;
    let (_, bg) = painted(st);
    if !is_default_bg(&bg) {
        push_str(out, "<rect x=\"");
        push_decimal_text(out, col as u64 * 9);
        push_str(out, "\" y=\"");
        push_decimal_text(out, y as u64);
        push_str(out, "\" width=\"");
        push_decimal_text(out, cols as u64 * 9);
        push_str(out, "\" height=\"18\" fill=\"");
        push_str(out, bg.as_str());
        push_str(out, "\"/>\n");
    }
    assert(out@ =~= start + svg_rect((col, cols, *st, Seq::empty()), y as int));
}

fn push_svg_text(out: &mut String, col: u16, st: &Style, text: &Vec<char>, y: u32)
    requires
        y <= 65535 * 18,
    ensures
        final(out)@ == old(out)@ + svg_text((col, 0u16, *st, text@), y as int),
{
    let ghost start = out@;
    let ghost run: Run = (col, 0u16, *st, text@);
    let mut shown: Vec<char> = Vec::new();
    if !st.conceal {
        let n = trimmed_len(text.as_slice());
        crate::screen::append_chars(&mut shown, text.as_slice(), n);
    }
    assert(shown@ =~= svg_shown(run));
    if shown.len() > 0 {
        let (fg, _) = painted(st);
        push_str(out, "<text x=\"");
        push_decimal_text(out, col as u64 * 9);
        push_str(out, "\" y=\"");
        push_decimal_text(out, y as u64 + 14);
        push_str(out, "\" fill=\"");
        push_str(out, fg.as_str());
        push_str(out, "\" xml:space=\"preserve\"");
        push_svg_attrs(out, st);
        push_str(out, ">");
        escape_xml(shown.as_slice(), out);
        push_str(out, "</text>\n");
    }
    assert(out@ =~= start + svg_text(run, y as int));
}

impl Screen {
    /// The screen as a self-contained SVG: a `<rect>` per run whose
    /// background is not the default, a `<text>` per run that shows glyphs,
    /// cells 9 by 18 pixels, a monospace font stack. Concealed text is drawn
    /// as blanks; dim is opacity.
    pub fn to_svg(&self) -> (r: String)
        ensures
            r@ == svg_spec(self@),
    {
        let width: u32 = self.cols() as u32 * 9;
        let height: u32 = self.rows() as u32 * 18;
        let mut out = String::new();
        push_str(&mut out, "<svg xmlns=\"http://www.w3.org/2000/svg\" width=\"");
        push_decimal_text(&mut out, width as u64);
        push_str(&mut out, "\" height=\"");
        push_decimal_text(&mut out, height as u64);
        push_str(&mut out, "\" viewBox=\"0 0 ");
        push_decimal_text(&mut out, width as u64);
        push_str(&mut out, " ");
        push_decimal_text(&mut out, height as u64);
        push_str(
            &mut out,
            "\" font-family=\"'JetBrains Mono', 'Fira Code', Menlo, Consolas, 'DejaVu Sans Mono', monospace\" font-size=\"14\">\n",
        );
        push_str(&mut out, "<rect width=\"");
        push_decimal_text(&mut out, width as u64);
        push_str(&mut out, "\" height=\"");
        push_decimal_text(&mut out, height as u64);
        push_str(&mut out, "\" fill=\"#1e1e1e\"/>\n");
        let ghost header = out@;
        assert(header =~= svg_header(self@.cols * 9, self@.rows * 18));
        let mut row: u16 = 0;
        while row < self.rows()
            invariant
                row <= self@.rows,
                out@ == header + svg_rows(self@, row as int),
            decreases self@.rows - row,
        {
            let y: u32 = row as u32 * 18;
            let rs = self.runs(row);
            let ghost rv = runs_view(rs@);
            let mut k: usize = 0;
            while k < rs.len()
                invariant
                    k <= rs@.len(),
                    rv == runs_view(rs@),
                    y == row * 18,
                    row < self@.rows,
                    out@ == header + svg_rows(self@, row as int) + svg_runs(rv.take(k as int), y as int),
                decreases rs@.len() - k,
            {
                let ghost before = out@;
                push_svg_rect(&mut out, rs[k].0, rs[k].1, &rs[k].2, y);
                push_svg_text(&mut out, rs[k].0, &rs[k].2, &rs[k].3, y);
                proof {
                    assert(rv.take(k + 1).drop_last() =~= rv.take(k as int));
                    assert(out@ =~= before + svg_run(rv[k as int], y as int));
                }
                k = k + 1;
            }
            proof {
                assert(rv.take(rv.len() as int) =~= rv);
            }
            row = row + 1;
        }
        push_str(&mut out, "</svg>\n");
        out
    }
}


/// What a run shows in HTML: its text, or as many blanks as it spans when
/// concealed.
pub open spec fn html_shown(run: Run) -> Seq<char> {
    if run.2.conceal {
        Seq::new(run.1 as nat, |i: int| ' ')
    } else {
        run.3
    }
}

/// The CSS declarations a run's attributes add after its colours.
pub open spec fn html_flags(st: Style) -> Seq<char> {
    when(st.bold, ";font-weight:bold"@) + when(st.italic, ";font-style:italic"@) + when(st.dim, ";opacity:0.6"@) + when(
        st.underline || st.strikethrough,
        ";text-decoration:"@ + decoration(st),
    )
}

/// The inline CSS of a styled run.
pub open spec fn html_css(st: Style) -> Seq<char> {
    "color:"@ + painted_spec(st).0 + ";background:"@ + painted_spec(st).1 + html_flags(st)
}

/// The HTML of one run: escaped text, inside a styled `<span>` unless the
/// style is the default.
pub open spec fn html_run(run: Run) -> Seq<char> {
    if run.2 == plain_style() {
        escape_xml_spec(html_shown(run))
    } else {
        "<span style=\""@ + html_css(run.2) + "\">"@ + escape_xml_spec(html_shown(run)) + "</span>"@
    }
}

/// The HTML of a sequence of runs.
pub open spec fn html_runs(runs: Seq<Run>) -> Seq<char>
    decreases runs.len(),
{
    if runs.len() == 0 {
        Seq::empty()
    } else {
        html_runs(runs.drop_last()) + html_run(runs.last())
    }
}

/// The HTML of the first `n` rows, each followed by a newline.
pub open spec fn html_rows(m: ScreenModel, n: int) -> Seq<char>
    decreases n,
{
    if n <= 0 {
        Seq::empty()
    } else {
        html_rows(m, n - 1) + html_runs(row_runs(m, n - 1)) + "\n"@
    }
}

/// The whole screen as one `<pre>`.
pub open spec fn html_spec(m: ScreenModel) -> Seq<char> {
    "<pre style=\"background:#1e1e1e;color:#d4d4d4;font-family:monospace;line-height:1.2;padding:8px\">"@ + html_rows(
        m,
        m.rows as int,
    ) + "</pre>\n"@
}

fn push_html_flags(out: &mut String, st: &Style)
    ensures
        final(out)@ == old(out)@ + html_flags(*st),
{
    let ghost start = out@;
    push_when(out, st.bold, ";font-weight:bold");
    push_when(out, st.italic, ";font-style:italic");
    push_when(out, st.dim, ";opacity:0.6");
    let ghost mid = out@;
    let ghost a = when(st.bold, ";font-weight:bold"@) + when(st.italic, ";font-style:italic"@) + when(st.dim, ";opacity:0.6"@);
    assert(mid =~= start + a);
    let deco = st.underline || st.strikethrough;
    if deco {
        push_str(out, ";text-decoration:");
        push_decoration(out, st);
        assert(out@ =~= mid + (";text-decoration:"@ + decoration(*st)));
    } else {
        assert(out@ =~= mid + Seq::<char>::empty());
    }
    let ghost b = when(deco, ";text-decoration:"@ + decoration(*st));
    assert(out@ == mid + b);
    assert(html_flags(*st) == a + b);
    assert(out@ =~= start + (a + b));
}

fn push_html_css(out: &mut String, st: &Style)
    ensures
        final(out)@ == old(out)@ + html_css(*st),
{
    let ghost start = out@;
    let (fg, bg) = painted(st);
    push_str(out, "color:");
    push_str(out, fg.as_str());
    push_str(out, ";background:");
    push_str(out, bg.as_str());
    push_html_flags(out, st);
    assert(out@ =~= start + html_css(*st));
}

fn push_html_run(out: &mut String, cols: u16, st: &Style, text: &Vec<char>)
    ensures
        final(out)@ == old(out)@ + html_run((0u16, cols, *st, text@)),
{
    let ghost start = out@;
    let ghost run: Run = (0u16, cols, *st, text@);
    let mut shown: Vec<char> = Vec::new();
    if st.conceal {
        let mut i: u16 = 0;
        while i < cols
            invariant
                i <= cols,
                shown@ == Seq::new(i as nat, |j: int| ' '),
            decreases cols - i,
        {
            shown.push(' ');
            i = i + 1;
            assert(shown@ =~= Seq::new(i as nat, |j: int| ' '));
        }
    } else {
        let n = text.len();
        crate::screen::append_chars(&mut shown, text.as_slice(), n);
        assert(text@.take(n as int) =~= text@);
    }
    assert(shown@ =~= html_shown(run));
    if st.is_default() {
        escape_xml(shown.as_slice(), out);
    } else {
        push_str(out, "<span style=\"");
        push_html_css(out, st);
        push_str(out, "\">");
        escape_xml(shown.as_slice(), out);
        push_str(out, "</span>");
    }
    assert(out@ =~= start + html_run(run));
}

impl Screen {
    /// The screen as HTML: a `<pre>` with one `<span style>` per styled run
    /// and the text of default runs bare, a newline after every row.
    /// Concealed text is shown as blanks.
    pub fn to_html(&self) -> (r: String)
        ensures
            r@ == html_spec(self@),
    {
        let mut out = String::new();
        push_str(
            &mut out,
            "<pre style=\"background:#1e1e1e;color:#d4d4d4;font-family:monospace;line-height:1.2;padding:8px\">",
        );
        let ghost header = out@;
        let mut row: u16 = 0;
        while row < self.rows()
            invariant
                row <= self@.rows,
                out@ == header + html_rows(self@, row as int),
            decreases self@.rows - row,
        {
            let rs = self.runs(row);
            let ghost rv = runs_view(rs@);
            let mut k: usize = 0;
            while k < rs.len()
                invariant
                    k <= rs@.len(),
                    rv == runs_view(rs@),
                    out@ == header + html_rows(self@, row as int) + html_runs(rv.take(k as int)),
                decreases rs@.len() - k,
            {
                let ghost before = out@;
                push_html_run(&mut out, rs[k].1, &rs[k].2, &rs[k].3);
                proof {
                    assert(rv.take(k + 1).drop_last() =~= rv.take(k as int));
                    assert(html_run(rv[k as int]) == html_run((0u16, rv[k as int].1, rv[k as int].2, rv[k as int].3)));
                    assert(out@ =~= before + html_run(rv[k as int]));
                }
                k = k + 1;
            }
            push_str(&mut out, "\n");
            proof {
                assert(rv.take(rv.len() as int) =~= rv);
            }
            row = row + 1;
        }
        push_str(&mut out, "</pre>\n");
        out
    }
}

/// The texts of a sequence of runs, laid end to end.
pub open spec fn run_texts(runs: Seq<Run>) -> Seq<char>
    decreases runs.len(),
{
    if runs.len() == 0 {
        Seq::empty()
    } else {
        run_texts(runs.drop_last()) + runs.last().3
    }
}

/// The runs of the first `n` cells of a row spell what those cells show.
proof fn lemma_runs_spell_prefix(m: ScreenModel, row: int, n: int)
    ensures
        run_texts(runs_spec(m, row, n)) == crate::screen::row_prefix(m, row, n),
    decreases n,
{
    if n > 0 {
        lemma_runs_spell_prefix(m, row, n - 1);
        let prev = runs_spec(m, row, n - 1);
        let cur = runs_spec(m, row, n);
        let c = cell_at(m, row, n - 1);
        if c.continuation {
            if prev.len() > 0 {
                assert(cur.drop_last() =~= prev.drop_last());
                assert(cur.last().3 == prev.last().3);
            }
            assert(crate::screen::row_prefix(m, row, n) =~= crate::screen::row_prefix(m, row, n - 1));
        } else if prev.len() > 0 && prev.last().2 == c.style {
            assert(cur.drop_last() =~= prev.drop_last());
            assert(run_texts(cur) =~= run_texts(prev) + glyph_spec(c));
        } else {
            assert(cur.drop_last() =~= prev);
        }
    }
}

/// Every rendering of a row (ANSI, SVG, HTML) is made of the row's runs,
/// and the runs' texts, in order, are exactly the row's text: so taking
/// away what a rendering wraps around each run (in ANSI, the run's SGR
/// sequence before it and the reset after it, neither present for the
/// default style) leaves the row's text.
pub proof fn lemma_runs_spell_the_row(m: ScreenModel, row: int)
    requires
        0 <= row < m.rows,
    ensures
        run_texts(row_runs(m, row)) == crate::screen::row_text_spec(m, row),
        forall|i: int|
            0 <= i < row_runs(m, row).len() ==> #[trigger] ansi_run(row_runs(m, row)[i]) == if row_runs(m, row)[i].2
                == plain_style() {
                row_runs(m, row)[i].3
            } else {
                sgr_spec(row_runs(m, row)[i].2) + row_runs(m, row)[i].3 + "\u{1b}[0m"@
            },
{
    lemma_runs_spell_prefix(m, row, m.cols as int);
}

/// Colours in an SGR sequence follow xterm's code ranges. A background,
/// when there is one, is the last parameter: `40 + i` for the eight basic
/// colours, `100 + (i - 8)` for the eight bright ones, `48;5;i` for the rest
/// of the palette, `48;2;r;g;b` for RGB. A foreground with a default
/// background is the last parameter the same way with `30`, `90` and `38`.
/// So a background is never written as a foreground code or the reverse.
pub proof fn lemma_sgr_colour_codes(st: Style)
    ensures
        (st.bg is Indexed && st.bg->Indexed_0 <= 7) ==> sgr_params(st).last() == decimal_text(
            40 + st.bg->Indexed_0 as nat,
        ),
        (st.bg is Indexed && 8 <= st.bg->Indexed_0 <= 15) ==> sgr_params(st).last() == decimal_text(
            100 + (st.bg->Indexed_0 - 8) as nat,
        ),
        (st.bg is Indexed && st.bg->Indexed_0 >= 16) ==> sgr_params(st).last() == "48;5;"@ + decimal_text(
            st.bg->Indexed_0 as nat,
        ),
        st.bg matches Color::Rgb(r, g, b) ==> sgr_params(st).last() == "48;2;"@ + decimal_text(r as nat) + ";"@
            + decimal_text(g as nat) + ";"@ + decimal_text(b as nat),
        st.bg == Color::Default && (st.fg matches Color::Indexed(i) && i <= 7) ==> sgr_params(st).last()
            == decimal_text(30 + st.fg->Indexed_0 as nat),
        st.bg == Color::Default && (st.fg matches Color::Indexed(i) && 8 <= i <= 15) ==> sgr_params(st).last()
            == decimal_text(90 + (st.fg->Indexed_0 - 8) as nat),
        st.bg == Color::Default && (st.fg matches Color::Indexed(i) && i >= 16) ==> sgr_params(st).last() == "38;5;"@
            + decimal_text(st.fg->Indexed_0 as nat),
{
    let p = sgr_params(st);
    let head = seq!["0"@] + code_if(st.bold, "1"@) + code_if(st.dim, "2"@) + code_if(st.italic, "3"@) + code_if(
        st.underline,
        "4"@,
    ) + code_if(st.blink, "5"@) + code_if(st.reverse, "7"@) + code_if(st.conceal, "8"@) + code_if(
        st.strikethrough,
        "9"@,
    );
    let fg = colour_params(st.fg, 30nat, 82nat, "38"@);
    let bg = colour_params(st.bg, 40nat, 92nat, "48"@);
    assert(p == head + fg + bg);
    reveal_strlit("48");
    reveal_strlit("38");
    reveal_strlit(";5;");
    reveal_strlit(";2;");
    reveal_strlit("48;5;");
    reveal_strlit("38;5;");
    reveal_strlit("48;2;");
    assert("48"@ + ";5;"@ =~= "48;5;"@);
    assert("38"@ + ";5;"@ =~= "38;5;"@);
    assert("48"@ + ";2;"@ =~= "48;2;"@);
    if st.bg != Color::Default {
        assert(bg.len() == 1);
        assert(p.last() == bg[0]);
    } else {
        assert(bg =~= Seq::<Seq<char>>::empty());
        assert(p =~= head + fg);
        if st.fg != Color::Default {
            assert(fg.len() == 1);
            assert(p.last() == fg[0]);
        }
    }
}

} // verus!
