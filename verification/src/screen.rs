//! The screen grid a snapshot captures, with the out-of-band state the
//! stream carried alongside it: the clipboard an application wrote and the
//! hyperlinks it emitted.
use vstd::prelude::*;
use crate::text::{chars_of, push_char, push_decimal_text, push_str, string_of, decimal_text};

verus! {

/// A terminal colour, as the emulator reports it.
#[derive(Debug, Clone, Copy, PartialEq, Eq, Hash, Structural)]
pub enum Color {
    /// The terminal's default foreground or background.
    Default,
    /// A palette colour (0–255).
    Indexed(u8),
    /// A 24-bit RGB colour.
    Rgb(u8, u8, u8),
}

impl Default for Color {
    fn default() -> (r: Self)
        ensures
            r == Color::Default,
    {
        Color::Default
    }
}

/// Visual attributes of a [`Cell`].
#[derive(Debug, Clone, Copy, PartialEq, Eq, Hash, Structural)]
pub struct Style {
    /// Foreground colour.
    pub fg: Color,
    /// Background colour.
    pub bg: Color,
    /// Bold / increased intensity.
    pub bold: bool,
    /// Dim / decreased intensity.
    pub dim: bool,
    /// Italic.
    pub italic: bool,
    /// Underline.
    pub underline: bool,
    /// Reverse video.
    pub reverse: bool,
    /// Blinking.
    pub blink: bool,
    /// Concealed: text the terminal holds but does not display (`SGR 8`).
    pub conceal: bool,
    /// Struck through (`SGR 9`).
    pub strikethrough: bool,
}

/// The style with every attribute at its default.
pub open spec fn plain_style() -> Style {
    Style {
        fg: Color::Default,
        bg: Color::Default,
        bold: false,
        dim: false,
        italic: false,
        underline: false,
        reverse: false,
        blink: false,
        conceal: false,
        strikethrough: false,
    }
}

impl Default for Style {
    fn default() -> (r: Self)
        ensures
            r == plain_style(),
    {
        Style {
            fg: Color::Default,
            bg: Color::Default,
            bold: false,
            dim: false,
            italic: false,
            underline: false,
            reverse: false,
            blink: false,
            conceal: false,
            strikethrough: false,
        }
    }
}

impl Style {
    /// True when every attribute is at its default.
    pub fn is_default(&self) -> (r: bool)
        ensures
            r == (*self == plain_style()),
    {
        *self == Style::default()
    }
}

/// Which mouse events the application asked its terminal to report.
#[derive(Debug, Clone, Copy, PartialEq, Eq, Hash, Structural)]
pub enum MouseMode {
    /// No mouse tracking enabled.
    Disabled,
    /// X10 mode (`CSI ?9 h`): presses only.
    Press,
    /// VT200 mode (`CSI ?1000 h`): presses and releases.
    PressRelease,
    /// Button-event tracking (`CSI ?1002 h`).
    ButtonMotion,
    /// Any-event tracking (`CSI ?1003 h`).
    AnyMotion,
}

impl Default for MouseMode {
    fn default() -> (r: Self)
        ensures
            r == MouseMode::Disabled,
    {
        MouseMode::Disabled
    }
}

/// What an application copied with `OSC 52`, as plain values.
pub struct ClipModel {
    pub targets: Seq<char>,
    pub text: Option<Seq<char>>,
}

/// What an application copied with `OSC 52`, as observed at one snapshot.
#[derive(Debug)]
pub struct Clipboard {
    targets: String,
    text: Option<String>,
}

impl View for Clipboard {
    type V = ClipModel;

    closed spec fn view(&self) -> ClipModel {
        ClipModel {
            targets: self.targets@,
            text: match self.text {
                Some(t) => Some(t@),
                None => None,
            },
        }
    }
}

impl Clone for Clipboard {
    fn clone(&self) -> (r: Self)
        ensures
            r@ == self@,
    {
        Clipboard {
            targets: self.targets.clone(),
            text: match &self.text {
                Some(t) => Some(t.clone()),
                None => None,
            },
        }
    }
}

impl Clipboard {
    /// A write to `targets` of `text` (`None` when the payload was not
    /// usable text).
    pub fn new(targets: String, text: Option<String>) -> (r: Self)
        ensures
            r@.targets == targets@,
            r@.text == (match text {
                Some(t) => Some(t@),
                None => None::<Seq<char>>,
            }),
    {
        Clipboard { targets, text }
    }

    /// The copied text, or `None` when the payload was not usable text —
    /// distinct from `Some("")`, a real write of nothing.
    pub fn text(&self) -> (r: Option<&str>)
        ensures
            r matches Some(t) ==> self@.text == Some(t@),
            r is None ==> self@.text is None,
    {
        match &self.text {
            Some(t) => Some(t.as_str()),
            None => None,
        }
    }

    /// The selections written to, exactly as the application named them.
    pub fn targets(&self) -> (r: &str)
        ensures
            r@ == self@.targets,
    {
        self.targets.as_str()
    }
}

/// One `OSC 8` hyperlink span, as plain values.
pub struct LinkModel {
    pub uri: Seq<char>,
    pub id: Option<Seq<char>>,
    pub label: Option<Seq<char>>,
    pub closed: bool,
}

/// One `OSC 8` hyperlink span the application emitted: its target, its
/// `id=` parameter, and — once it closed — the text it wrapped.
#[derive(Debug)]
pub struct Link {
    uri: String,
    id: Option<String>,
    label: Option<String>,
    closed: bool,
}

/// The view of an optional string.
pub open spec fn opt_view(s: Option<String>) -> Option<Seq<char>> {
    match s {
        Some(t) => Some(t@),
        None => None,
    }
}

impl View for Link {
    type V = LinkModel;

    closed spec fn view(&self) -> LinkModel {
        LinkModel { uri: self.uri@, id: opt_view(self.id), label: opt_view(self.label), closed: self.closed }
    }
}

fn clone_opt(s: &Option<String>) -> (r: Option<String>)
    ensures
        opt_view(r) == opt_view(*s),
{
    match s {
        Some(t) => Some(t.clone()),
        None => None,
    }
}

fn opt_str(s: &Option<String>) -> (r: Option<&str>)
    ensures
        r matches Some(t) ==> opt_view(*s) == Some(t@),
        r is None ==> s is None,
{
    match s {
        Some(t) => Some(t.as_str()),
        None => None,
    }
}

impl Clone for Link {
    fn clone(&self) -> (r: Self)
        ensures
            r@ == self@,
    {
        Link { uri: self.uri.clone(), id: clone_opt(&self.id), label: clone_opt(&self.label), closed: self.closed }
    }
}

impl Link {
    /// A span that has opened on `uri` and not closed yet.
    pub fn open(uri: String, id: Option<String>) -> (r: Self)
        ensures
            r@ == (LinkModel { uri: uri@, id: opt_view(id), label: None, closed: false }),
    {
        Link { uri, id, label: None, closed: false }
    }

    /// Close the span with the text it wrapped (`None` when that text is
    /// not known).
    pub fn close(&mut self, label: Option<String>)
        ensures
            final(self)@ == (LinkModel { label: opt_view(label), closed: true, ..old(self)@ }),
    {
        self.label = label;
        self.closed = true;
    }

    /// The target.
    pub fn uri(&self) -> (r: &str)
        ensures
            r@ == self@.uri,
    {
        self.uri.as_str()
    }

    /// The `id=` parameter, if the span named one.
    pub fn id(&self) -> (r: Option<&str>)
        ensures
            r matches Some(t) ==> self@.id == Some(t@),
            r is None ==> self@.id is None,
    {
        opt_str(&self.id)
    }

    /// The text the span wrapped: `None` while it is open, or when that text
    /// was past the bound or not valid UTF-8.
    pub fn label(&self) -> (r: Option<&str>)
        ensures
            r matches Some(t) ==> self@.label == Some(t@),
            r is None ==> self@.label is None,
    {
        opt_str(&self.label)
    }

    /// Whether the application closed the span.
    pub fn closed(&self) -> (r: bool)
        ensures
            r == self@.closed,
    {
        self.closed
    }
}


/// Out-of-band terminal state captured with each snapshot: invisible in the
/// text rendering, exposed through the accessors on [`Screen`].
#[derive(Debug)]
pub struct TermState {
    /// The window title as the application most recently set it.
    pub title: String,
    /// Whether the alternate screen is active.
    pub alternate_screen: bool,
    /// Whether bracketed paste is enabled.
    pub bracketed_paste: bool,
    /// Whether application cursor mode (DECCKM) is set.
    pub application_cursor: bool,
    /// Which mouse events the application asked for.
    pub mouse: MouseMode,
    /// The most recent `OSC 52` clipboard write.
    pub clipboard: Option<Clipboard>,
    /// Rows that have scrolled off the top, oldest first, as text.
    pub scrollback: Vec<String>,
}

/// Out-of-band state, as plain values.
pub struct StateModel {
    pub title: Seq<char>,
    pub alternate_screen: bool,
    pub bracketed_paste: bool,
    pub application_cursor: bool,
    pub mouse: MouseMode,
    pub clipboard: Option<ClipModel>,
    pub scrollback: Seq<Seq<char>>,
}

impl View for TermState {
    type V = StateModel;

    open spec fn view(&self) -> StateModel {
        StateModel {
            title: self.title@,
            alternate_screen: self.alternate_screen,
            bracketed_paste: self.bracketed_paste,
            application_cursor: self.application_cursor,
            mouse: self.mouse,
            clipboard: match self.clipboard {
                Some(c) => Some(c@),
                None => None,
            },
            scrollback: self.scrollback@.map_values(|r: String| r@),
        }
    }
}

/// The out-of-band state of a terminal nothing has touched.
pub open spec fn blank_state() -> StateModel {
    StateModel {
        title: Seq::empty(),
        alternate_screen: false,
        bracketed_paste: false,
        application_cursor: false,
        mouse: MouseMode::Disabled,
        clipboard: None,
        scrollback: Seq::empty(),
    }
}

impl Default for TermState {
    fn default() -> (r: Self)
        ensures
            r@ == blank_state(),
            r@.title.len() == 0,
            !r@.alternate_screen && !r@.bracketed_paste && !r@.application_cursor,
            r@.mouse == MouseMode::Disabled,
            r@.clipboard is None,
            r@.scrollback.len() == 0,
    {
        let r = TermState {
            title: String::new(),
            alternate_screen: false,
            bracketed_paste: false,
            application_cursor: false,
            mouse: MouseMode::Disabled,
            clipboard: None,
            scrollback: Vec::new(),
        };
        assert(r@.scrollback =~= Seq::<Seq<char>>::empty());
        assert(r@.title =~= Seq::<char>::empty());
        r
    }
}

/// One cell, as plain values.
pub struct CellModel {
    pub contents: Seq<char>,
    pub style: Style,
    pub wide: bool,
    pub continuation: bool,
}

/// One cell of the screen grid.
#[derive(Debug)]
pub struct Cell {
    contents: String,
    style: Style,
    wide: bool,
    wide_continuation: bool,
}

impl View for Cell {
    type V = CellModel;

    closed spec fn view(&self) -> CellModel {
        CellModel { contents: self.contents@, style: self.style, wide: self.wide, continuation: self.wide_continuation }
    }
}

impl Clone for Cell {
    fn clone(&self) -> (r: Self)
        ensures
            r@ == self@,
    {
        Cell {
            contents: self.contents.clone(),
            style: self.style,
            wide: self.wide,
            wide_continuation: self.wide_continuation,
        }
    }
}

impl Cell {
    /// Append a combining character to the cell's text.
    pub(crate) fn push_contents(&mut self, c: char)
        ensures
            final(self)@ == (CellModel {
                contents: old(self)@.contents.push(c),
                style: old(self)@.style,
                wide: old(self)@.wide,
                continuation: old(self)@.continuation,
            }),
    {
        crate::text::push_char(&mut self.contents, c);
    }

    /// Give the cell another style.
    pub(crate) fn set_style(&mut self, style: Style)
        ensures
            final(self)@ == (CellModel {
                contents: old(self)@.contents,
                style,
                wide: old(self)@.wide,
                continuation: old(self)@.continuation,
            }),
    {
        self.style = style;
    }

    /// A cell holding `contents` in `style`; `wide` for the leading cell of
    /// a double-width character, `wide_continuation` for the placeholder
    /// after it.
    pub fn new(contents: String, style: Style, wide: bool, wide_continuation: bool) -> (r: Self)
        ensures
            r@ == (CellModel { contents: contents@, style, wide, continuation: wide_continuation }),
    {
        Cell { contents, style, wide, wide_continuation }
    }

    /// The cell's text: usually one grapheme; empty for blank and
    /// wide-continuation cells.
    pub fn contents(&self) -> (r: &str)
        ensures
            r@ == self@.contents,
    {
        self.contents.as_str()
    }

    /// The cell's visual attributes.
    pub fn style(&self) -> (r: &Style)
        ensures
            *r == self@.style,
    {
        &self.style
    }

    /// True if the cell holds a double-width character.
    pub fn is_wide(&self) -> (r: bool)
        ensures
            r == self@.wide,
    {
        self.wide
    }

    /// True if this cell is the placeholder in the second column of a
    /// double-width character.
    pub fn is_wide_continuation(&self) -> (r: bool)
        ensures
            r == self@.continuation,
    {
        self.wide_continuation
    }
}

/// What a cell contributes to its row's text: nothing for a continuation,
/// a space for a blank, else its contents.
pub open spec fn cell_text(c: CellModel) -> Seq<char> {
    if c.continuation {
        Seq::empty()
    } else if c.contents.len() == 0 {
        seq![' ']
    } else {
        c.contents
    }
}

/// A screen, as plain values: its size, cursor, cells in row-major order,
/// and out-of-band state.
pub struct ScreenModel {
    pub cols: u16,
    pub rows: u16,
    pub cursor_row: u16,
    pub cursor_col: u16,
    pub cursor_visible: bool,
    pub cells: Seq<CellModel>,
    pub state: StateModel,
}

/// The cell at `(row, col)`.
pub open spec fn cell_at(m: ScreenModel, row: int, col: int) -> CellModel {
    m.cells[row * m.cols + col]
}

/// The text the first `n` cells of `row` contribute.
pub open spec fn row_prefix(m: ScreenModel, row: int, n: int) -> Seq<char>
    decreases n,
{
    if n <= 0 {
        Seq::empty()
    } else {
        row_prefix(m, row, n - 1) + cell_text(cell_at(m, row, n - 1))
    }
}

/// The text of one row, blanks as spaces, trailing whitespace included;
/// empty for a row past the screen.
pub open spec fn row_text_spec(m: ScreenModel, row: int) -> Seq<char> {
    if 0 <= row < m.rows {
        row_prefix(m, row, m.cols as int)
    } else {
        Seq::empty()
    }
}

/// Unicode `White_Space`, the set `char::is_whitespace` tests.
pub open spec fn is_ws(c: char) -> bool {
    let v = c as u32;
    (0x09 <= v <= 0x0d) || v == 0x20 || v == 0x85 || v == 0xa0 || v == 0x1680 || (0x2000 <= v <= 0x200a) || v == 0x2028
        || v == 0x2029 || v == 0x202f || v == 0x205f || v == 0x3000
}

/// `s` with its trailing whitespace removed.
pub open spec fn trim_end(s: Seq<char>) -> Seq<char>
    decreases s.len(),
{
    if s.len() > 0 && is_ws(s.last()) {
        trim_end(s.drop_last())
    } else {
        s
    }
}

/// Lines joined with `\n`.
pub open spec fn join_lines(lines: Seq<Seq<char>>) -> Seq<char>
    decreases lines.len(),
{
    if lines.len() == 0 {
        Seq::empty()
    } else if lines.len() == 1 {
        lines[0]
    } else {
        join_lines(lines.drop_last()) + seq!['\n'] + lines.last()
    }
}

/// The trimmed text of every row.
pub open spec fn screen_lines(m: ScreenModel) -> Seq<Seq<char>> {
    Seq::new(m.rows as nat, |r: int| trim_end(row_text_spec(m, r)))
}

/// The whole grid as text: rows trimmed and joined with `\n`.
pub open spec fn text_spec(m: ScreenModel) -> Seq<char> {
    join_lines(screen_lines(m))
}

/// Whether `needle` occurs in `hay`.
pub open spec fn occurs(hay: Seq<char>, needle: Seq<char>) -> bool {
    exists|i: int| 0 <= i && i + needle.len() <= hay.len() && #[trigger] hay.subrange(i, i + needle.len()) == needle
}

/// The first place `needle` occurs in `hay`, if any.
pub open spec fn first_occurrence(hay: Seq<char>, needle: Seq<char>) -> Option<int> {
    if occurs(hay, needle) {
        Some(
            choose|i: int|
                #![trigger hay.subrange(i, i + needle.len())]
                0 <= i && i + needle.len() <= hay.len() && hay.subrange(i, i + needle.len()) == needle && forall|j: int|
                    0 <= j < i ==> #[trigger] hay.subrange(j, j + needle.len()) != needle,
        )
    } else {
        None
    }
}

/// An immutable snapshot of the terminal screen. Coordinates are
/// `(row, col)`, zero-based; [`Screen::size`] is `(cols, rows)`.
#[derive(Debug)]
pub struct Screen {
    cols: u16,
    rows: u16,
    cursor_row: u16,
    cursor_col: u16,
    cursor_visible: bool,
    cells: Vec<Cell>,
    state: TermState,
}

impl View for Screen {
    type V = ScreenModel;

    closed spec fn view(&self) -> ScreenModel {
        ScreenModel {
            cols: self.cols,
            rows: self.rows,
            cursor_row: self.cursor_row,
            cursor_col: self.cursor_col,
            cursor_visible: self.cursor_visible,
            cells: self.cells@.map_values(|c: Cell| c@),
            state: self.state@,
        }
    }
}

impl Screen {
    #[verifier::type_invariant]
    spec fn grid_is_whole(self) -> bool {
        self.cells@.len() == self.cols * self.rows
    }

    /// A screen from its parts; `cells` is the grid in row-major order.
    pub fn from_parts(
        cols: u16,
        rows: u16,
        cursor_row: u16,
        cursor_col: u16,
        cursor_visible: bool,
        cells: Vec<Cell>,
        state: TermState,
    ) -> (r: Self)
        requires
            cells@.len() == cols * rows,
        ensures
            r@ == (ScreenModel {
                cols,
                rows,
                cursor_row,
                cursor_col,
                cursor_visible,
                cells: cells@.map_values(|c: Cell| c@),
                state: state@,
            }),
    {
        Screen { cols, rows, cursor_row, cursor_col, cursor_visible, cells, state }
    }

    /// Number of columns.
    pub fn cols(&self) -> (r: u16)
        ensures
            r == self@.cols,
    {
        self.cols
    }

    /// Number of rows.
    pub fn rows(&self) -> (r: u16)
        ensures
            r == self@.rows,
    {
        self.rows
    }

    /// Screen size as `(cols, rows)`.
    pub fn size(&self) -> (r: (u16, u16))
        ensures
            r == (self@.cols, self@.rows),
    {
        (self.cols, self.rows)
    }

    /// Cursor position and visibility: `(row, col, visible)`.
    pub fn cursor(&self) -> (r: (u16, u16, bool))
        ensures
            r == (self@.cursor_row, self@.cursor_col, self@.cursor_visible),
    {
        (self.cursor_row, self.cursor_col, self.cursor_visible)
    }

    /// The window title as the application most recently set it.
    pub fn title(&self) -> (r: &str)
        ensures
            r@ == self@.state.title,
    {
        self.state.title.as_str()
    }

    /// True while the alternate screen is active.
    pub fn alternate_screen(&self) -> (r: bool)
        ensures
            r == self@.state.alternate_screen,
    {
        self.state.alternate_screen
    }

    /// True while bracketed paste is enabled.
    pub fn bracketed_paste(&self) -> (r: bool)
        ensures
            r == self@.state.bracketed_paste,
    {
        self.state.bracketed_paste
    }

    /// True while application cursor mode is set.
    pub fn application_cursor(&self) -> (r: bool)
        ensures
            r == self@.state.application_cursor,
    {
        self.state.application_cursor
    }

    /// Which mouse events the application asked to be reported.
    pub fn mouse_mode(&self) -> (r: MouseMode)
        ensures
            r == self@.state.mouse,
    {
        self.state.mouse
    }

    /// The most recent `OSC 52` clipboard write, if any.
    pub fn clipboard(&self) -> (r: Option<&Clipboard>)
        ensures
            r matches Some(c) ==> self@.state.clipboard == Some(c@),
            r is None ==> self@.state.clipboard is None,
    {
        match &self.state.clipboard {
            Some(c) => Some(c),
            None => None,
        }
    }

    /// The cell at `(row, col)`, or `None` out of bounds.
    pub fn cell(&self, row: u16, col: u16) -> (r: Option<&Cell>)
        ensures
            (row < self@.rows && col < self@.cols) ==> (r matches Some(c) && c@ == cell_at(self@, row as int, col as int)),
            !(row < self@.rows && col < self@.cols) ==> r is None,
    {
        proof {
            use_type_invariant(self);
        }
        if row >= self.rows || col >= self.cols {
            return None;
        }
        proof {
            assert((row as int) * (self.cols as int) + col < (self.cols as int) * (self.rows as int)) by (nonlinear_arith)
                requires row < self.rows, col < self.cols;
        }
        let n = self.cells.len();
        let i = (row as usize) * (self.cols as usize) + (col as usize);
        Some(&self.cells[i])
    }

    /// How many rows have scrolled off the top and are retained.
    pub fn scrollback_rows(&self) -> (r: usize)
        ensures
            r == self@.state.scrollback.len(),
    {
        self.state.scrollback.len()
    }
}


/// Whether `c` is Unicode whitespace.
pub fn is_whitespace(c: char) -> (r: bool)
    ensures
        r == is_ws(c),
{
    let v = c as u32;
    (0x09 <= v && v <= 0x0d) || v == 0x20 || v == 0x85 || v == 0xa0 || v == 0x1680 || (0x2000 <= v && v <= 0x200a)
        || v == 0x2028 || v == 0x2029 || v == 0x202f || v == 0x205f || v == 0x3000
}

/// How many leading characters of `v` remain once trailing whitespace is
/// removed.
pub fn trimmed_len(v: &[char]) -> (n: usize)
    ensures
        n <= v@.len(),
        v@.take(n as int) == trim_end(v@),
{
    let mut k = v.len();
    assert(v@.take(k as int) =~= v@);
    while k > 0 && is_whitespace(v[k - 1])
        invariant
            k <= v@.len(),
            trim_end(v@) == trim_end(v@.take(k as int)),
        decreases k,
    {
        proof {
            assert(v@.take(k as int).drop_last() =~= v@.take(k - 1));
        }
        k = k - 1;
    }
    k
}

/// Append `src` to `dst`.
pub fn append_chars(dst: &mut Vec<char>, src: &[char], n: usize)
    requires
        n <= src@.len(),
    ensures
        final(dst)@ == old(dst)@ + src@.take(n as int),
{
    let mut i: usize = 0;
    while i < n
        invariant
            i <= n <= src@.len(),
            dst@ == old(dst)@ + src@.take(i as int),
        decreases n - i,
    {
        dst.push(src[i]);
        i = i + 1;
        proof {
            assert(src@.take(i as int) =~= src@.take(i - 1).push(src@[i - 1]));
        }
    }
}

/// Whether `needle` occurs in `hay` at `at`.
fn matches_chars(hay: &[char], at: usize, needle: &[char]) -> (r: bool)
    requires
        at + needle@.len() <= hay@.len(),
    ensures
        r == (hay@.subrange(at as int, at + needle@.len()) == needle@),
{
    let mut k: usize = 0;
    let hl = hay.len();
    while k < needle.len()
        invariant
            k <= needle@.len(),
            hl == hay@.len(),
            at + needle@.len() <= hay@.len(),
            forall|j: int| 0 <= j < k ==> hay@[at + j] == needle@[j],
        decreases needle@.len() - k,
    {
        if hay[at + k] != needle[k] {
            proof {
                assert(hay@.subrange(at as int, at + needle@.len())[k as int] != needle@[k as int]);
            }
            return false;
        }
        k = k + 1;
    }
    assert(hay@.subrange(at as int, at + needle@.len()) =~= needle@);
    true
}

/// The first place `needle` occurs in `hay`, if any.
pub fn find_chars(hay: &[char], needle: &[char]) -> (r: Option<usize>)
    ensures
        r matches Some(i) ==> i + needle@.len() <= hay@.len() && hay@.subrange(i as int, i + needle@.len()) == needle@
            && forall|j: int| 0 <= j < i ==> #[trigger] hay@.subrange(j, j + needle@.len()) != needle@,
        r is None ==> !occurs(hay@, needle@),
{
    if needle.len() > hay.len() {
        return None;
    }
    let last = hay.len() - needle.len();
    let mut i: usize = 0;
    loop
        invariant
            last + needle@.len() == hay@.len(),
            i <= last,
            forall|j: int| 0 <= j < i ==> #[trigger] hay@.subrange(j, j + needle@.len()) != needle@,
        decreases last - i,
    {
        if matches_chars(hay, i, needle) {
            return Some(i);
        }
        if i == last {
            return None;
        }
        i = i + 1;
    }
}

pub proof fn lemma_first_occurrence(hay: Seq<char>, needle: Seq<char>, i: int)
    requires
        0 <= i && i + needle.len() <= hay.len(),
        hay.subrange(i, i + needle.len()) == needle,
        forall|j: int| 0 <= j < i ==> #[trigger] hay.subrange(j, j + needle.len()) != needle,
    ensures
        first_occurrence(hay, needle) == Some(i),
{
    assert(occurs(hay, needle));
    let k = choose|k: int|
        #![trigger hay.subrange(k, k + needle.len())]
        0 <= k && k + needle.len() <= hay.len() && hay.subrange(k, k + needle.len()) == needle && forall|j: int|
            0 <= j < k ==> #[trigger] hay.subrange(j, j + needle.len()) != needle;
    if k < i {
        assert(hay.subrange(k, k + needle.len()) != needle);
    }
    if i < k {
        assert(hay.subrange(i, i + needle.len()) != needle);
    }
}

fn cell_chars(c: &Cell) -> (r: Vec<char>)
    ensures
        r@ == cell_text(c@),
{
    if c.wide_continuation {
        return Vec::new();
    }
    let v = chars_of(c.contents.as_str());
    if v.len() == 0 {
        let mut w: Vec<char> = Vec::new();
        w.push(' ');
        assert(w@ =~= seq![' ']);
        w
    } else {
        v
    }
}

proof fn lemma_join_step(lines: Seq<Seq<char>>, r: int)
    requires
        0 <= r < lines.len(),
    ensures
        join_lines(lines.take(r + 1)) == if r == 0 {
            lines[0]
        } else {
            join_lines(lines.take(r)) + seq!['\n'] + lines[r]
        },
{
    assert(lines.take(r + 1).drop_last() =~= lines.take(r));
}

impl Screen {
    /// The characters of one row, blanks as spaces, trailing whitespace
    /// included; none for a row past the screen.
    pub fn row_chars(&self, row: u16) -> (r: Vec<char>)
        ensures
            r@ == row_text_spec(self@, row as int),
    {
        proof {
            use_type_invariant(self);
        }
        let mut out: Vec<char> = Vec::new();
        if row >= self.rows {
            return out;
        }
        let mut col: u16 = 0;
        while col < self.cols
            invariant
                row < self@.rows,
                col <= self@.cols,
                self.cells@.len() == self.cols * self.rows,
                out@ == row_prefix(self@, row as int, col as int),
            decreases self.cols - col,
        {
            proof {
                assert((row as int) * (self.cols as int) + col < (self.cols as int) * (self.rows as int)) by (nonlinear_arith)
                    requires row < self.rows, col < self.cols;
            }
            let n = self.cells.len();
            assert((row as int) * (self.cols as int) + col < n);
            let i = (row as usize) * (self.cols as usize) + (col as usize);
            let piece = cell_chars(&self.cells[i]);
            let k = piece.len();
            append_chars(&mut out, piece.as_slice(), k);
            proof {
                assert(piece@.take(k as int) =~= piece@);
            }
            col = col + 1;
        }
        out
    }

    /// The text of one row, blank cells as spaces, trailing whitespace
    /// included; empty for a row past the screen. A wide character
    /// contributes once; its continuation cell contributes nothing.
    pub fn row_text(&self, row: u16) -> (r: String)
        ensures
            r@ == row_text_spec(self@, row as int),
    {
        let v = self.row_chars(row);
        string_of(v.as_slice())
    }

    /// The whole grid as characters: rows trimmed and joined with `\n`.
    pub fn text_chars(&self) -> (r: Vec<char>)
        ensures
            r@ == text_spec(self@),
    {
        let mut out: Vec<char> = Vec::new();
        let mut row: u16 = 0;
        let ghost lines = screen_lines(self@);
        while row < self.rows
            invariant
                row <= self@.rows,
                lines == screen_lines(self@),
                out@ == join_lines(lines.take(row as int)),
            decreases self.rows - row,
        {
            proof {
                lemma_join_step(lines, row as int);
            }
            if row > 0 {
                out.push('\n');
            }
            let line = self.row_chars(row);
            let n = trimmed_len(line.as_slice());
            append_chars(&mut out, line.as_slice(), n);
            proof {
                assert(lines[row as int] == trim_end(row_text_spec(self@, row as int)));
                if row == 0 {
                    assert(out@ =~= lines[0]);
                } else {
                    assert(out@ =~= join_lines(lines.take(row as int)) + seq!['\n'] + lines[row as int]);
                }
            }
            row = row + 1;
        }
        proof {
            assert(lines.take(self@.rows as int) =~= lines);
        }
        out
    }

    /// The whole grid as text: one line per row, trailing whitespace
    /// stripped per line, rows joined with `\n`.
    pub fn text(&self) -> (r: String)
        ensures
            r@ == text_spec(self@),
    {
        let v = self.text_chars();
        string_of(v.as_slice())
    }

    /// True if `needle` occurs in the rendered text; multi-line needles
    /// match across consecutive rows.
    pub fn contains(&self, needle: &str) -> (r: bool)
        ensures
            r == occurs(text_spec(self@), needle@),
    {
        let hay = self.text_chars();
        let n = chars_of(needle);
        match find_chars(hay.as_slice(), n.as_slice()) {
            Some(_) => true,
            None => false,
        }
    }
}


/// The index of the first `x` in `s`, or `s.len()` when there is none.
pub open spec fn index_of(s: Seq<char>, x: char) -> int
    decreases s.len(),
{
    if s.len() == 0 {
        0
    } else if s[0] == x {
        0
    } else {
        1 + index_of(s.drop_first(), x)
    }
}

pub proof fn lemma_index_of(s: Seq<char>, x: char)
    ensures
        0 <= index_of(s, x) <= s.len(),
        forall|j: int| 0 <= j < index_of(s, x) ==> s[j] != x,
        index_of(s, x) < s.len() ==> s[index_of(s, x)] == x,
    decreases s.len(),
{
    if s.len() > 0 && s[0] != x {
        lemma_index_of(s.drop_first(), x);
        assert forall|j: int| 0 <= j < index_of(s, x) implies s[j] != x by {
            if j > 0 {
                assert(s[j] == s.drop_first()[j - 1]);
            }
        }
    }
}

pub proof fn lemma_index_of_unique(s: Seq<char>, x: char, r: int)
    requires
        0 <= r <= s.len(),
        forall|j: int| 0 <= j < r ==> s[j] != x,
        r < s.len() ==> s[r] == x,
    ensures
        index_of(s, x) == r,
    decreases s.len(),
{
    if s.len() > 0 && s[0] != x {
        assert forall|j: int| 0 <= j < r - 1 implies s.drop_first()[j] != x by {
            assert(s.drop_first()[j] == s[j + 1]);
        }
        lemma_index_of_unique(s.drop_first(), x, r - 1);
    }
}

/// `s` split at every `\n`.
pub open spec fn split_lines(s: Seq<char>) -> Seq<Seq<char>>
    decreases s.len(),
{
    let i = index_of(s, '\n');
    proof {
        lemma_index_of(s, '\n');
    }
    if i >= s.len() {
        seq![s]
    } else {
        seq![s.take(i)] + split_lines(s.skip(i + 1))
    }
}

/// Whether `s` ends with `t`.
pub open spec fn ends_with(s: Seq<char>, t: Seq<char>) -> bool {
    t.len() <= s.len() && s.skip(s.len() - t.len()) == t
}

/// Whether `s` starts with `t`.
pub open spec fn starts_with(s: Seq<char>, t: Seq<char>) -> bool {
    t.len() <= s.len() && s.take(t.len() as int) == t
}

/// The column whose cell contributed character `i` of `row`'s text,
/// scanning from column `col`.
pub open spec fn col_from(m: ScreenModel, row: int, i: int, col: int) -> Option<u16>
    decreases m.cols - col,
{
    if col < 0 || col >= m.cols {
        None
    } else {
        let len = cell_text(cell_at(m, row, col)).len();
        if len > 0 && i < row_prefix(m, row, col).len() + len {
            Some(col as u16)
        } else {
            col_from(m, row, i, col + 1)
        }
    }
}

/// The column whose cell contributed character `i` of `row`'s text.
pub open spec fn col_of_char(m: ScreenModel, row: int, i: int) -> Option<u16> {
    col_from(m, row, i, 0)
}

/// A needle without line breaks, searched from `row` down.
pub open spec fn find_single(m: ScreenModel, needle: Seq<char>, row: int) -> Option<(u16, u16)>
    decreases m.rows - row,
{
    if row < 0 || row >= m.rows {
        None
    } else {
        match first_occurrence(row_text_spec(m, row), needle) {
            Some(i) => match col_of_char(m, row, i) {
                Some(c) => Some((row as u16, c)),
                None => None,
            },
            None => find_single(m, needle, row + 1),
        }
    }
}

/// Whether the segments of a multi-row needle lie across the rows from
/// `row`: the first ends that row, the middle ones are whole rows, the last
/// starts its row (each row trimmed).
pub open spec fn segments_match(m: ScreenModel, segs: Seq<Seq<char>>, row: int) -> bool {
    let extra = segs.len() - 1;
    &&& ends_with(trim_end(row_text_spec(m, row)), segs[0])
    &&& forall|i: int|
        1 <= i <= extra ==> if i == extra {
            starts_with(trim_end(row_text_spec(m, row + i)), #[trigger] segs[i])
        } else {
            trim_end(row_text_spec(m, row + i)) == #[trigger] segs[i]
        }
}

/// The index of the first non-empty segment, if any.
pub open spec fn first_nonempty(segs: Seq<Seq<char>>) -> Option<int> {
    if exists|k: int| 0 <= k < segs.len() && #[trigger] segs[k].len() > 0 {
        Some(choose|k: int| 0 <= k < segs.len() && #[trigger] segs[k].len() > 0 && forall|j: int| 0 <= j < k ==> #[trigger] segs[j].len() == 0)
    } else {
        None
    }
}

/// A multi-row needle, searched from `row` to the last row it can start on.
pub open spec fn find_multi(m: ScreenModel, segs: Seq<Seq<char>>, row: int) -> Option<(u16, u16)>
    decreases m.rows - row,
{
    let extra = segs.len() - 1;
    if row < 0 || row >= m.rows || row + extra >= m.rows {
        None
    } else if segments_match(m, segs, row) {
        match first_nonempty(segs) {
            Some(k) => if k == 0 {
                let first = trim_end(row_text_spec(m, row));
                match col_of_char(m, row, first.len() - segs[0].len()) {
                    Some(c) => Some((row as u16, c)),
                    None => None,
                }
            } else {
                Some(((row + k) as u16, 0u16))
            },
            None => Some(((row + extra) as u16, 0u16)),
        }
    } else {
        find_multi(m, segs, row + 1)
    }
}

/// Where `needle` first occurs, as `(row, col)` of its first character,
/// with columns counted in cells.
pub open spec fn find_spec(m: ScreenModel, needle: Seq<char>) -> Option<(u16, u16)> {
    if needle.len() == 0 {
        Some((0, 0))
    } else if index_of(needle, '\n') >= needle.len() {
        find_single(m, needle, 0)
    } else {
        let segs = split_lines(needle);
        if segs.len() - 1 > u16::MAX {
            None
        } else {
            find_multi(m, segs, 0)
        }
    }
}


/// The first `x` in `s[from..]`, as an index into `s`; `s.len()` when
/// there is none.
fn index_from(s: &[char], from: usize, x: char) -> (r: usize)
    requires
        from <= s@.len(),
    ensures
        from <= r <= s@.len(),
        r - from == index_of(s@.skip(from as int), x),
{
    let mut i = from;
    while i < s.len()
        invariant
            from <= i <= s@.len(),
            forall|j: int| from <= j < i ==> s@[j] != x,
        ensures
            from <= i <= s@.len(),
            forall|j: int| from <= j < i ==> s@[j] != x,
            i < s@.len() ==> s@[i as int] == x,
        decreases s@.len() - i,
    {
        if s[i] == x {
            break;
        }
        i = i + 1;
    }
    proof {
        let t = s@.skip(from as int);
        assert forall|j: int| 0 <= j < i - from implies t[j] != x by {
            assert(t[j] == s@[from + j]);
        }
        lemma_index_of_unique(t, x, i - from);
    }
    i
}

/// A needle split at its line breaks.
pub fn split_needle(s: &[char]) -> (r: Vec<Vec<char>>)
    ensures
        r@.map_values(|v: Vec<char>| v@) == split_lines(s@),
        r@.len() >= 1,
{
    let mut out: Vec<Vec<char>> = Vec::new();
    let mut start: usize = 0;
    let len = s.len();
    assert(s@.skip(0) =~= s@);
    loop
        invariant
            start <= len == s@.len(),
            out@.map_values(|v: Vec<char>| v@) + split_lines(s@.skip(start as int)) == split_lines(s@),
        decreases len - start,
    {
        let i = index_from(s, start, '\n');
        let ghost rest = s@.skip(start as int);
        proof {
            lemma_index_of(rest, '\n');
        }
        let mut seg: Vec<char> = Vec::new();
        append_chars(&mut seg, vstd::slice::slice_subrange(s, start, i), i - start);
        proof {
            assert(seg@ =~= rest.take(i - start));
        }
        let ghost before = out@.map_values(|v: Vec<char>| v@);
        out.push(seg);
        assert(out@.map_values(|v: Vec<char>| v@) =~= before.push(rest.take(i - start)));
        if i == len {
            proof {
                assert(split_lines(rest) == seq![rest]);
                assert(rest.take(i - start) =~= rest);
                assert(before.push(rest) =~= before + seq![rest]);
            }
            return out;
        }
        proof {
            assert(rest.skip(i - start + 1) =~= s@.skip(i + 1));
            assert(split_lines(rest) == seq![rest.take(i - start)] + split_lines(s@.skip(i + 1)));
            assert(before.push(rest.take(i - start)) + split_lines(s@.skip(i + 1)) =~= before + (seq![
                rest.take(i - start),
            ] + split_lines(s@.skip(i + 1))));
        }
        start = i + 1;
    }
}

proof fn lemma_row_prefix_grows(m: ScreenModel, row: int, a: int, b: int)
    requires
        0 <= a <= b,
    ensures
        row_prefix(m, row, a).len() <= row_prefix(m, row, b).len(),
    decreases b - a,
{
    if a < b {
        lemma_row_prefix_grows(m, row, a, b - 1);
    }
}

impl Screen {
    fn col_of_char(&self, row: u16, i: usize) -> (r: Option<u16>)
        requires
            row < self@.rows,
        ensures
            r == col_of_char(self@, row as int, i as int),
    {
        proof {
            use_type_invariant(self);
        }
        let total = self.row_chars(row).len();
        let mut acc: usize = 0;
        let mut col: u16 = 0;
        while col < self.cols
            invariant
                row < self@.rows,
                col <= self@.cols,
                self.cells@.len() == self.cols * self.rows,
                acc == row_prefix(self@, row as int, col as int).len(),
                total == row_prefix(self@, row as int, self@.cols as int).len(),
                col_of_char(self@, row as int, i as int) == col_from(self@, row as int, i as int, col as int),
            decreases self.cols - col,
        {
            proof {
                assert((row as int) * (self.cols as int) + col < (self.cols as int) * (self.rows as int)) by (nonlinear_arith)
                    requires row < self.rows, col < self.cols;
                lemma_row_prefix_grows(self@, row as int, col + 1, self@.cols as int);
            }
            let n = self.cells.len();
            assert((row as int) * (self.cols as int) + col < n);
            let idx = (row as usize) * (self.cols as usize) + (col as usize);
            let len = cell_chars(&self.cells[idx]).len();
            if len > 0 && i < acc + len {
                return Some(col);
            }
            acc = acc + len;
            col = col + 1;
        }
        None
    }

    fn trimmed_row(&self, row: u16) -> (r: Vec<char>)
        ensures
            r@ == trim_end(row_text_spec(self@, row as int)),
    {
        let line = self.row_chars(row);
        let n = trimmed_len(line.as_slice());
        let mut out: Vec<char> = Vec::new();
        append_chars(&mut out, line.as_slice(), n);
        assert(out@ =~= line@.take(n as int));
        out
    }

    fn segments_match(&self, segs: &Vec<Vec<char>>, row: u16) -> (r: bool)
        requires
            segs@.len() >= 1,
            row + segs@.len() - 1 < self@.rows,
        ensures
            r == segments_match(self@, segs@.map_values(|v: Vec<char>| v@), row as int),
    {
        let ghost sv = segs@.map_values(|v: Vec<char>| v@);
        let extra = segs.len() - 1;
        let first = self.trimmed_row(row);
        let s0 = &segs[0];
        if s0.len() > first.len() {
            return false;
        }
        let off = first.len() - s0.len();
        if !matches_chars(first.as_slice(), off, s0.as_slice()) {
            proof {
                assert(first@.subrange(off as int, off + s0@.len()) =~= first@.skip(first@.len() - sv[0].len()));
            }
            return false;
        }
        proof {
            assert(first@.subrange(off as int, off + s0@.len()) =~= first@.skip(first@.len() - sv[0].len()));
        }
        let mut i: usize = 1;
        while i <= extra
            invariant
                1 <= i <= extra + 1,
                extra == segs@.len() - 1,
                row + extra < self@.rows,
                sv == segs@.map_values(|v: Vec<char>| v@),
                ends_with(trim_end(row_text_spec(self@, row as int)), sv[0]),
                forall|k: int|
                    1 <= k < i ==> if k == extra {
                        starts_with(trim_end(row_text_spec(self@, row + k)), #[trigger] sv[k])
                    } else {
                        trim_end(row_text_spec(self@, row + k)) == #[trigger] sv[k]
                    },
            decreases extra + 1 - i,
        {
            let line = self.trimmed_row(row + i as u16);
            let seg = &segs[i];
            let ok = if i == extra {
                seg.len() <= line.len() && matches_chars(line.as_slice(), 0, seg.as_slice())
            } else {
                seg.len() == line.len() && matches_chars(line.as_slice(), 0, seg.as_slice())
            };
            proof {
                if seg@.len() <= line@.len() {
                    assert(line@.subrange(0, seg@.len() as int) =~= line@.take(seg@.len() as int));
                }
                if seg@.len() == line@.len() {
                    assert(line@.take(seg@.len() as int) =~= line@);
                }
            }
            if !ok {
                proof {
                    assert(sv[i as int] == seg@);
                }
                return false;
            }
            i = i + 1;
        }
        true
    }

    /// Where `needle` first occurs, as the `(row, col)` of its first
    /// character, scanning rows top to bottom. A needle with line breaks
    /// matches across consecutive rows exactly as [`Screen::contains`]
    /// does; one that begins with a line break reports its first character
    /// after them. Columns count cells, so a match after a double-width
    /// character reports its real column.
    pub fn find(&self, needle: &str) -> (r: Option<(u16, u16)>)
        ensures
            r == find_spec(self@, needle@),
    {
        let nd = chars_of(needle);
        let len = nd.len();
        if len == 0 {
            return Some((0, 0));
        }
        let nl = index_from(nd.as_slice(), 0, '\n');
        assert(nd@.skip(0) =~= nd@);
        if nl == len {
            let mut row: u16 = 0;
            while row < self.rows
                invariant
                    nd@ == needle@,
                    find_spec(self@, needle@) == find_single(self@, nd@, row as int),
                decreases self@.rows - row,
            {
                let text = self.row_chars(row);
                match find_chars(text.as_slice(), nd.as_slice()) {
                    Some(i) => {
                        proof {
                            lemma_first_occurrence(text@, nd@, i as int);
                        }
                        return match self.col_of_char(row, i) {
                            Some(c) => Some((row, c)),
                            None => None,
                        };
                    },
                    None => {},
                }
                row = row + 1;
            }
            return None;
        }
        let segs = split_needle(nd.as_slice());
        let ghost sv = segs@.map_values(|v: Vec<char>| v@);
        if segs.len() - 1 > 65535 {
            return None;
        }
        let extra = (segs.len() - 1) as u16;
        let mut row: u16 = 0;
        while (row as u32) + (extra as u32) < (self.rows as u32)
            invariant
                sv == segs@.map_values(|v: Vec<char>| v@),
                sv == split_lines(needle@),
                extra == sv.len() - 1,
                segs@.len() >= 1,
                find_spec(self@, needle@) == find_multi(self@, sv, row as int),
            decreases self@.rows - row,
        {
            if self.segments_match(&segs, row) {
                let mut k: usize = 0;
                while k < segs.len() && segs[k].len() == 0
                    invariant
                        k <= segs@.len(),
                        sv == segs@.map_values(|v: Vec<char>| v@),
                        forall|j: int| 0 <= j < k ==> #[trigger] sv[j].len() == 0,
                    decreases segs@.len() - k,
                {
                    k = k + 1;
                }
                proof {
                    if k < segs@.len() {
                        assert(sv[k as int].len() > 0);
                        let c = choose|c: int| 0 <= c < sv.len() && #[trigger] sv[c].len() > 0 && forall|j: int| 0 <= j < c ==> #[trigger] sv[j].len() == 0;
                        if c < k {
                            assert(sv[c].len() == 0);
                        }
                        if k < c {
                            assert(sv[k as int].len() == 0);
                        }
                        assert(first_nonempty(sv) == Some(k as int));
                    } else {
                        if exists|c: int| 0 <= c < sv.len() && #[trigger] sv[c].len() > 0 {
                            let c = choose|c: int| 0 <= c < sv.len() && #[trigger] sv[c].len() > 0;
                            assert(sv[c].len() == 0);
                        }
                        assert(first_nonempty(sv) is None);
                    }
                }
                if k == 0 {
                    let first = self.trimmed_row(row);
                    let off = first.len() - segs[0].len();
                    return match self.col_of_char(row, off) {
                        Some(c) => Some((row, c)),
                        None => None,
                    };
                } else if k < segs.len() {
                    return Some((row + k as u16, 0));
                } else {
                    return Some((row + extra, 0));
                }
            }
            row = row + 1;
        }
        None
    }
}


/// Parts joined with `sep` between them.
pub open spec fn join_sep(parts: Seq<Seq<char>>, sep: Seq<char>) -> Seq<char>
    decreases parts.len(),
{
    if parts.len() == 0 {
        Seq::empty()
    } else if parts.len() == 1 {
        parts[0]
    } else {
        join_sep(parts.drop_last(), sep) + sep + parts.last()
    }
}

proof fn lemma_join_sep_step(parts: Seq<Seq<char>>, sep: Seq<char>, r: int)
    requires
        0 <= r < parts.len(),
    ensures
        join_sep(parts.take(r + 1), sep) == if r == 0 {
            parts[0]
        } else {
            join_sep(parts.take(r), sep) + sep + parts[r]
        },
{
    assert(parts.take(r + 1).drop_last() =~= parts.take(r));
}

/// Append `parts` joined with `sep`.
pub fn push_joined(out: &mut String, parts: &Vec<String>, sep: &str)
    ensures
        final(out)@ == old(out)@ + join_sep(parts@.map_values(|p: String| p@), sep@),
{
    let ghost pv = parts@.map_values(|p: String| p@);
    let ghost start = out@;
    let mut i: usize = 0;
    while i < parts.len()
        invariant
            i <= parts@.len(),
            pv == parts@.map_values(|p: String| p@),
            out@ == start + join_sep(pv.take(i as int), sep@),
        decreases parts@.len() - i,
    {
        proof {
            lemma_join_sep_step(pv, sep@, i as int);
        }
        let ghost before = out@;
        if i > 0 {
            push_str(out, sep);
        }
        push_str(out, parts[i].as_str());
        proof {
            if i == 0 {
                assert(out@ =~= start + pv[0]);
            } else {
                assert(out@ =~= start + (join_sep(pv.take(i as int), sep@) + sep@ + pv[i as int]));
            }
        }
        i = i + 1;
    }
    assert(pv.take(parts@.len() as int) =~= pv);
}

/// The retained history as one text: rows oldest first, joined with `\n`.
pub open spec fn scrollback_spec(m: ScreenModel) -> Seq<char> {
    join_sep(m.state.scrollback, seq!['\n'])
}

/// History and visible screen as one text.
pub open spec fn full_text_spec(m: ScreenModel) -> Seq<char> {
    let sb = scrollback_spec(m);
    if m.state.scrollback.len() > 0 {
        sb + seq!['\n'] + text_spec(m)
    } else {
        text_spec(m)
    }
}

/// The snapshot rendering: `size: <cols>x<rows>  cursor: <row>,<col>` (or
/// `cursor: hidden`), a line break, then the text.
pub open spec fn display_spec(m: ScreenModel) -> Seq<char> {
    "size: "@ + decimal_text(m.cols as nat) + "x"@ + decimal_text(m.rows as nat) + "  cursor: "@ + if m.cursor_visible {
        decimal_text(m.cursor_row as nat) + ","@ + decimal_text(m.cursor_col as nat)
    } else {
        "hidden"@
    } + seq!['\n'] + text_spec(m)
}

proof fn lemma_join_lines_is_join_sep(lines: Seq<Seq<char>>)
    ensures
        join_lines(lines) == join_sep(lines, seq!['\n']),
    decreases lines.len(),
{
    if lines.len() > 1 {
        lemma_join_lines_is_join_sep(lines.drop_last());
    }
}

impl Screen {
    /// The retained history as text: one line per scrolled-off row, oldest
    /// first, joined with `\n`; empty when nothing has scrolled.
    pub fn scrollback_text(&self) -> (r: String)
        ensures
            r@ == scrollback_spec(self@),
    {
        let mut out = String::new();
        push_joined(&mut out, &self.state.scrollback, "\n");
        proof {
            reveal_strlit("\n");
            assert("\n"@ =~= seq!['\n']);
            assert(out@ =~= scrollback_spec(self@));
        }
        out
    }

    /// History and visible screen as one text block: the retained rows,
    /// then the text.
    pub fn full_text(&self) -> (r: String)
        ensures
            r@ == full_text_spec(self@),
    {
        let mut out = self.scrollback_text();
        if self.state.scrollback.len() > 0 {
            push_char(&mut out, '\n');
        }
        let t = self.text();
        push_str(&mut out, t.as_str());
        out
    }

    /// The snapshot rendering: a header line with the size and cursor, then
    /// the grid with trailing whitespace stripped per line.
    pub fn display_text(&self) -> (r: String)
        ensures
            r@ == display_spec(self@),
    {
        let mut out = String::new();
        push_str(&mut out, "size: ");
        push_decimal_text(&mut out, self.cols as u64);
        push_str(&mut out, "x");
        push_decimal_text(&mut out, self.rows as u64);
        push_str(&mut out, "  cursor: ");
        if self.cursor_visible {
            push_decimal_text(&mut out, self.cursor_row as u64);
            push_str(&mut out, ",");
            push_decimal_text(&mut out, self.cursor_col as u64);
        } else {
            push_str(&mut out, "hidden");
        }
        push_char(&mut out, '\n');
        let t = self.text();
        push_str(&mut out, t.as_str());
        proof {
            assert(out@ =~= display_spec(self@));
        }
        out
    }
}


/// One end of a range of rows or columns.
#[derive(Debug, Clone, Copy, PartialEq, Eq, Structural)]
pub enum Bound {
    /// Up to and including this index.
    Included(u16),
    /// Up to but excluding this index.
    Excluded(u16),
    /// No limit on this side.
    Unbounded,
}

/// Where a range starts, before clamping.
pub open spec fn range_start(b: Bound) -> u16 {
    match b {
        Bound::Included(s) => s,
        Bound::Excluded(s) => if s == u16::MAX {
            u16::MAX
        } else {
            (s + 1) as u16
        },
        Bound::Unbounded => 0,
    }
}

/// Where a range ends (exclusive), before clamping.
pub open spec fn range_end(b: Bound, len: u16) -> u16 {
    match b {
        Bound::Included(e) => if e == u16::MAX {
            u16::MAX
        } else {
            (e + 1) as u16
        },
        Bound::Excluded(e) => e,
        Bound::Unbounded => len,
    }
}

/// `a` or `b`, whichever is smaller.
pub open spec fn min_u16(a: u16, b: u16) -> u16 {
    if a < b {
        a
    } else {
        b
    }
}

/// The text cells `from..to` of `row` contribute.
pub open spec fn cells_text(m: ScreenModel, row: int, from: int, to: int) -> Seq<char>
    decreases to - from,
{
    if to <= from {
        Seq::empty()
    } else {
        cells_text(m, row, from, to - 1) + cell_text(cell_at(m, row, to - 1))
    }
}

/// The text within a rectangle, each line trimmed, lines joined with `\n`.
pub open spec fn rect_spec(m: ScreenModel, cs: u16, ce: u16, rs: u16, re: u16) -> Seq<char> {
    join_sep(Seq::new((re - rs) as nat, |k: int| trim_end(cells_text(m, rs + k, cs as int, ce as int))), seq!['\n'])
}

fn clamp(start: Bound, end: Bound, len: u16) -> (r: (u16, u16))
    requires
        range_start(start) <= range_end(end, len),
    ensures
        r == (min_u16(range_start(start), len), min_u16(range_end(end, len), len)),
{
    let s = match start {
        Bound::Included(s) => s,
        Bound::Excluded(s) => s.saturating_add(1),
        Bound::Unbounded => 0,
    };
    let e = match end {
        Bound::Included(e) => e.saturating_add(1),
        Bound::Excluded(e) => e,
        Bound::Unbounded => len,
    };
    (if s < len { s } else { len }, if e < len { e } else { len })
}

impl Screen {
    fn cells_chars(&self, row: u16, from: u16, to: u16) -> (r: Vec<char>)
        requires
            row < self@.rows,
            from <= to <= self@.cols,
        ensures
            r@ == cells_text(self@, row as int, from as int, to as int),
    {
        proof {
            use_type_invariant(self);
        }
        let mut out: Vec<char> = Vec::new();
        let mut col = from;
        while col < to
            invariant
                row < self@.rows,
                from <= col <= to <= self@.cols,
                self.cells@.len() == self.cols * self.rows,
                out@ == cells_text(self@, row as int, from as int, col as int),
            decreases to - col,
        {
            proof {
                assert((row as int) * (self.cols as int) + col < (self.cols as int) * (self.rows as int)) by (nonlinear_arith)
                    requires row < self.rows, col < self.cols;
            }
            let n = self.cells.len();
            assert((row as int) * (self.cols as int) + col < n);
            let i = (row as usize) * (self.cols as usize) + (col as usize);
            let piece = cell_chars(&self.cells[i]);
            let k = piece.len();
            append_chars(&mut out, piece.as_slice(), k);
            proof {
                assert(piece@.take(k as int) =~= piece@);
            }
            col = col + 1;
        }
        out
    }

    /// The text within a rectangle: columns `cols` of rows `rows`, one line
    /// per row, trailing whitespace stripped per line. Bounds past the
    /// screen are clamped; a range that runs backwards is not accepted.
    /// Cells contribute as in [`Screen::row_text`], so a wide character
    /// contributes where its leading cell sits.
    pub fn rect_text(&self, cols: (Bound, Bound), rows: (Bound, Bound)) -> (r: String)
        requires
            range_start(cols.0) <= range_end(cols.1, self@.cols),
            range_start(rows.0) <= range_end(rows.1, self@.rows),
        ensures
            ({
                let cs = min_u16(range_start(cols.0), self@.cols);
                let ce = min_u16(range_end(cols.1, self@.cols), self@.cols);
                let rs = min_u16(range_start(rows.0), self@.rows);
                let re = min_u16(range_end(rows.1, self@.rows), self@.rows);
                r@ == rect_spec(self@, cs, ce, rs, re)
            }),
    {
        let (cs, ce) = clamp(cols.0, cols.1, self.cols);
        let (rs, re) = clamp(rows.0, rows.1, self.rows);
        let ghost lines = Seq::new((re - rs) as nat, |k: int| trim_end(cells_text(self@, rs + k, cs as int, ce as int)));
        let mut out: Vec<char> = Vec::new();
        let mut row = rs;
        while row < re
            invariant
                rs <= row <= re <= self@.rows,
                cs <= ce <= self@.cols,
                lines == Seq::new((re - rs) as nat, |k: int| trim_end(cells_text(self@, rs + k, cs as int, ce as int))),
                out@ == join_sep(lines.take(row - rs), seq!['\n']),
            decreases re - row,
        {
            proof {
                lemma_join_sep_step(lines, seq!['\n'], row - rs);
            }
            if row > rs {
                out.push('\n');
            }
            let line = self.cells_chars(row, cs, ce);
            let n = trimmed_len(line.as_slice());
            append_chars(&mut out, line.as_slice(), n);
            proof {
                assert(lines[row - rs] == trim_end(cells_text(self@, row as int, cs as int, ce as int)));
                if row == rs {
                    assert(out@ =~= lines[0]);
                } else {
                    assert(out@ =~= join_sep(lines.take(row - rs), seq!['\n']) + seq!['\n'] + lines[row - rs]);
                }
            }
            row = row + 1;
        }
        assert(lines.take(re - rs) =~= lines);
        string_of(out.as_slice())
    }

    /// The cell value at `(row, col)`.
    pub closed spec fn cell_value(&self, row: int, col: int) -> Cell {
        self.cells@[row * self.cols + col]
    }

    /// The first cell, scanning rows top to bottom and columns left to
    /// right, for which `predicate` holds, as `(row, col)`. Every cell is
    /// offered, blanks and wide-character continuations included.
    pub fn find_by<F: Fn(&Cell) -> bool>(&self, predicate: F) -> (r: Option<(u16, u16)>)
        requires
            forall|c: &Cell| #[trigger] predicate.requires((c,)),
        ensures
            r matches Some((row, col)) ==> row < self@.rows && col < self@.cols && predicate.ensures(
                (&self.cell_value(row as int, col as int),),
                true,
            ) && forall|r2: int, c2: int|
                0 <= r2 < self@.rows && 0 <= c2 < self@.cols && (r2 < row || (r2 == row && c2 < col))
                    ==> #[trigger] predicate.ensures((&self.cell_value(r2, c2),), false),
            r is None ==> forall|r2: int, c2: int|
                0 <= r2 < self@.rows && 0 <= c2 < self@.cols ==> #[trigger] predicate.ensures(
                    (&self.cell_value(r2, c2),),
                    false,
                ),
    {
        proof {
            use_type_invariant(self);
        }
        let mut row: u16 = 0;
        while row < self.rows
            invariant
                row <= self@.rows,
                self.cells@.len() == self.cols * self.rows,
                forall|c: &Cell| #[trigger] predicate.requires((c,)),
                forall|r2: int, c2: int|
                    0 <= r2 < row && 0 <= c2 < self@.cols ==> #[trigger] predicate.ensures(
                        (&self.cell_value(r2, c2),),
                        false,
                    ),
            decreases self.rows - row,
        {
            let mut col: u16 = 0;
            while col < self.cols
                invariant
                    row < self@.rows,
                    col <= self@.cols,
                    self.cells@.len() == self.cols * self.rows,
                    forall|c: &Cell| #[trigger] predicate.requires((c,)),
                    forall|r2: int, c2: int|
                        0 <= r2 < self@.rows && 0 <= c2 < self@.cols && (r2 < row || (r2 == row && c2 < col))
                            ==> #[trigger] predicate.ensures((&self.cell_value(r2, c2),), false),
                decreases self.cols - col,
            {
                proof {
                    assert((row as int) * (self.cols as int) + col < (self.cols as int) * (self.rows as int)) by (nonlinear_arith)
                        requires row < self.rows, col < self.cols;
                }
                let n = self.cells.len();
                assert((row as int) * (self.cols as int) + col < n);
                let i = (row as usize) * (self.cols as usize) + (col as usize);
                let hit = predicate(&self.cells[i]);
                if hit {
                    return Some((row, col));
                }
                col = col + 1;
            }
            row = row + 1;
        }
        None
    }
}


/// A lowercase hexadecimal digit.
pub open spec fn hex_char(d: u8) -> char {
    if d < 10 {
        (48 + d) as char
    } else {
        (87 + d) as char
    }
}

/// A byte as two lowercase hexadecimal digits.
pub open spec fn hex_pair(b: u8) -> Seq<char> {
    seq![hex_char(b / 16), hex_char(b % 16)]
}

/// The token a colour contributes under `prefix`: none for the default,
/// `prefix=N` for a palette index, `prefix=#rrggbb` for RGB.
pub open spec fn colour_token(prefix: Seq<char>, c: Color) -> Seq<Seq<char>> {
    match c {
        Color::Default => Seq::empty(),
        Color::Indexed(i) => seq![prefix + "="@ + decimal_text(i as nat)],
        Color::Rgb(r, g, b) => seq![prefix + "=#"@ + hex_pair(r) + hex_pair(g) + hex_pair(b)],
    }
}

/// `name` when `on`.
pub open spec fn flag_token(on: bool, name: Seq<char>) -> Seq<Seq<char>> {
    if on {
        seq![name]
    } else {
        Seq::empty()
    }
}

/// A style's tokens in their fixed order: colours, then the attributes in
/// SGR order.
pub open spec fn style_tokens(st: Style) -> Seq<Seq<char>> {
    colour_token("fg"@, st.fg) + colour_token("bg"@, st.bg) + flag_token(st.bold, "bold"@) + flag_token(st.dim, "dim"@)
        + flag_token(st.italic, "italic"@) + flag_token(st.underline, "underline"@) + flag_token(st.blink, "blink"@)
        + flag_token(st.reverse, "reverse"@) + flag_token(st.conceal, "conceal"@) + flag_token(
        st.strikethrough,
        "strikethrough"@,
    )
}

fn push_hex_pair(s: &mut String, b: u8)
    ensures
        final(s)@ == old(s)@ + hex_pair(b),
{
    let hi = b / 16;
    let lo = b % 16;
    push_char(s, if hi < 10 { (48 + hi) as char } else { (87 + hi) as char });
    push_char(s, if lo < 10 { (48 + lo) as char } else { (87 + lo) as char });
    assert(s@ =~= old(s)@ + hex_pair(b));
}

fn push_colour_token(tokens: &mut Vec<String>, prefix: &str, c: Color)
    ensures
        final(tokens)@.map_values(|t: String| t@) == old(tokens)@.map_values(|t: String| t@) + colour_token(prefix@, c),
{
    let ghost before = tokens@.map_values(|t: String| t@);
    match c {
        Color::Default => {
            assert(before + Seq::<Seq<char>>::empty() =~= before);
        },
        Color::Indexed(i) => {
            let mut t = String::new();
            push_str(&mut t, prefix);
            push_str(&mut t, "=");
            push_decimal_text(&mut t, i as u64);
            let ghost tv = t@;
            tokens.push(t);
            assert(tv =~= prefix@ + "="@ + decimal_text(i as nat));
            assert(tokens@.map_values(|t: String| t@) =~= before + seq![tv]);
        },
        Color::Rgb(r, g, b) => {
            let mut t = String::new();
            push_str(&mut t, prefix);
            push_str(&mut t, "=#");
            push_hex_pair(&mut t, r);
            push_hex_pair(&mut t, g);
            push_hex_pair(&mut t, b);
            let ghost tv = t@;
            tokens.push(t);
            assert(tv =~= prefix@ + "=#"@ + hex_pair(r) + hex_pair(g) + hex_pair(b));
            assert(tokens@.map_values(|t: String| t@) =~= before + seq![tv]);
        },
    }
}

fn push_flag_token(tokens: &mut Vec<String>, on: bool, name: &str)
    ensures
        final(tokens)@.map_values(|t: String| t@) == old(tokens)@.map_values(|t: String| t@) + flag_token(on, name@),
{
    let ghost before = tokens@.map_values(|t: String| t@);
    if on {
        let mut t = String::new();
        push_str(&mut t, name);
        let ghost tv = t@;
        tokens.push(t);
        assert(tv =~= name@);
        assert(tokens@.map_values(|t: String| t@) =~= before + seq![tv]);
    } else {
        assert(before + Seq::<Seq<char>>::empty() =~= before);
    }
}

impl Style {
    /// The style's tokens, space-separated, in their fixed order: `fg=` and
    /// `bg=` colours, then `bold dim italic underline blink reverse conceal
    /// strikethrough` as set.
    pub fn tokens(&self) -> (r: String)
        ensures
            r@ == join_sep(style_tokens(*self), seq![' ']),
    {
        let mut tokens: Vec<String> = Vec::new();
        assert(tokens@.map_values(|t: String| t@) =~= Seq::<Seq<char>>::empty());
        push_colour_token(&mut tokens, "fg", self.fg);
        push_colour_token(&mut tokens, "bg", self.bg);
        push_flag_token(&mut tokens, self.bold, "bold");
        push_flag_token(&mut tokens, self.dim, "dim");
        push_flag_token(&mut tokens, self.italic, "italic");
        push_flag_token(&mut tokens, self.underline, "underline");
        push_flag_token(&mut tokens, self.blink, "blink");
        push_flag_token(&mut tokens, self.reverse, "reverse");
        push_flag_token(&mut tokens, self.conceal, "conceal");
        push_flag_token(&mut tokens, self.strikethrough, "strikethrough");
        assert(tokens@.map_values(|t: String| t@) =~= style_tokens(*self));
        let mut out = String::new();
        push_joined(&mut out, &tokens, " ");
        proof {
            reveal_strlit(" ");
            assert(" "@ =~= seq![' ']);
            assert(out@ =~= join_sep(style_tokens(*self), seq![' ']));
        }
        out
    }
}


/// The runs of equal style among the first `n` cells of `row`, as
/// `(first column, last column, style)`, left to right.
pub open spec fn runs_upto(m: ScreenModel, row: int, n: int) -> Seq<(int, int, Style)>
    decreases n,
{
    if n <= 0 {
        Seq::empty()
    } else {
        let prev = runs_upto(m, row, n - 1);
        let st = cell_at(m, row, n - 1).style;
        if prev.len() > 0 && prev.last().2 == st {
            prev.update(prev.len() - 1, (prev.last().0, n - 1, st))
        } else {
            prev.push((n - 1, n - 1, st))
        }
    }
}

/// One run rendered: `start` or `start-end`, a space, then its tokens.
pub open spec fn run_text(run: (int, int, Style)) -> Seq<char> {
    (if run.0 == run.1 {
        decimal_text(run.0 as nat)
    } else {
        decimal_text(run.0 as nat) + "-"@ + decimal_text(run.1 as nat)
    }) + " "@ + join_sep(style_tokens(run.2), seq![' '])
}

/// The runs with a non-default style, rendered.
pub open spec fn span_texts(runs: Seq<(int, int, Style)>) -> Seq<Seq<char>>
    decreases runs.len(),
{
    if runs.len() == 0 {
        Seq::empty()
    } else {
        span_texts(runs.drop_last()) + if runs.last().2 == plain_style() {
            Seq::<Seq<char>>::empty()
        } else {
            seq![run_text(runs.last())]
        }
    }
}

/// The spans of one row.
pub open spec fn row_spans(m: ScreenModel, row: int) -> Seq<Seq<char>> {
    span_texts(runs_upto(m, row, m.cols as int))
}

/// The styles lines of the first `k` rows: a line for each row that has a
/// styled span.
pub open spec fn styles_block(m: ScreenModel, k: int) -> Seq<char>
    decreases k,
{
    if k <= 0 {
        Seq::empty()
    } else {
        styles_block(m, k - 1) + if row_spans(m, k - 1).len() == 0 {
            Seq::<char>::empty()
        } else {
            seq!['\n'] + decimal_text((k - 1) as nat) + ": "@ + join_sep(row_spans(m, k - 1), "; "@)
        }
    }
}

/// Whether any of the first `k` rows has a styled span.
pub open spec fn any_styled(m: ScreenModel, k: int) -> bool
    decreases k,
{
    if k <= 0 {
        false
    } else {
        any_styled(m, k - 1) || row_spans(m, k - 1).len() > 0
    }
}

/// The rendering with styles: the snapshot rendering, then a `styles:`
/// block listing every non-default span, or `(none)`.
pub open spec fn styled_spec(m: ScreenModel) -> Seq<char> {
    display_spec(m) + seq!['\n', '\n'] + "styles:"@ + styles_block(m, m.rows as int) + if any_styled(m, m.rows as int) {
        Seq::<char>::empty()
    } else {
        seq!['\n'] + "(none)"@
    }
}

/// A [`Screen`] rendered with its styles — see [`Screen::with_styles`].
pub struct ScreenWithStyles<'a> {
    screen: &'a Screen,
}

fn run_string(start: u16, end: u16, st: Style) -> (r: String)
    ensures
        r@ == run_text((start as int, end as int, st)),
{
    let mut out = String::new();
    push_decimal_text(&mut out, start as u64);
    if start != end {
        push_str(&mut out, "-");
        push_decimal_text(&mut out, end as u64);
    }
    push_str(&mut out, " ");
    let t = st.tokens();
    push_str(&mut out, t.as_str());
    proof {
        assert(out@ =~= run_text((start as int, end as int, st)));
    }
    out
}

impl Screen {
    /// The rendered styled spans of one row.
    pub fn row_span_strings(&self, row: u16) -> (r: Vec<String>)
        requires
            row < self@.rows,
        ensures
            r@.map_values(|t: String| t@) == row_spans(self@, row as int),
    {
        proof {
            use_type_invariant(self);
        }
        let mut runs: Vec<(u16, u16, Style)> = Vec::new();
        let mut col: u16 = 0;
        while col < self.cols
            invariant
                row < self@.rows,
                col <= self@.cols,
                self.cells@.len() == self.cols * self.rows,
                runs@.map_values(|x: (u16, u16, Style)| (x.0 as int, x.1 as int, x.2)) == runs_upto(self@, row as int, col as int),
                forall|k: int| 0 <= k < runs@.len() ==> #[trigger] runs@[k].1 < col,
            decreases self.cols - col,
        {
            proof {
                assert((row as int) * (self.cols as int) + col < (self.cols as int) * (self.rows as int)) by (nonlinear_arith)
                    requires row < self.rows, col < self.cols;
            }
            let n = self.cells.len();
            assert((row as int) * (self.cols as int) + col < n);
            let i = (row as usize) * (self.cols as usize) + (col as usize);
            let st = self.cells[i].style;
            let ghost prev = runs@.map_values(|x: (u16, u16, Style)| (x.0 as int, x.1 as int, x.2));
            let len = runs.len();
            if len > 0 && runs[len - 1].2 == st {
                let first = runs[len - 1].0;
                runs.set(len - 1, (first, col, st));
                assert(runs@.map_values(|x: (u16, u16, Style)| (x.0 as int, x.1 as int, x.2)) =~= prev.update(
                    prev.len() - 1,
                    (prev.last().0, col as int, st),
                ));
            } else {
                runs.push((col, col, st));
                assert(runs@.map_values(|x: (u16, u16, Style)| (x.0 as int, x.1 as int, x.2)) =~= prev.push(
                    (col as int, col as int, st),
                ));
            }
            col = col + 1;
        }
        let ghost rv = runs@.map_values(|x: (u16, u16, Style)| (x.0 as int, x.1 as int, x.2));
        let mut out: Vec<String> = Vec::new();
        let mut k: usize = 0;
        while k < runs.len()
            invariant
                k <= runs@.len(),
                rv == runs@.map_values(|x: (u16, u16, Style)| (x.0 as int, x.1 as int, x.2)),
                out@.map_values(|t: String| t@) == span_texts(rv.take(k as int)),
            decreases runs@.len() - k,
        {
            let (a, b, st) = runs[k];
            let ghost before = out@.map_values(|t: String| t@);
            proof {
                assert(rv.take(k + 1).drop_last() =~= rv.take(k as int));
            }
            if !st.is_default() {
                let t = run_string(a, b, st);
                let ghost tv = t@;
                out.push(t);
                assert(out@.map_values(|t: String| t@) =~= before + seq![tv]);
            } else {
                assert(before + Seq::<Seq<char>>::empty() =~= before);
            }
            k = k + 1;
        }
        assert(rv.take(runs@.len() as int) =~= rv);
        out
    }

    /// This screen rendered with its styles: the snapshot rendering
    /// followed by a `styles:` block listing every non-default span.
    pub fn with_styles(&self) -> (r: ScreenWithStyles<'_>)
        ensures
            r.screen() == self,
    {
        ScreenWithStyles { screen: self }
    }
}

impl<'a> ScreenWithStyles<'a> {
    /// The screen being rendered.
    pub closed spec fn screen(&self) -> &'a Screen {
        self.screen
    }

    /// The rendering: the screen's snapshot text, a blank line, `styles:`,
    /// then one line per row with styled spans (`<row>: <span>; <span>`,
    /// each span `<start>[-<end>] <tokens>`), or `(none)`.
    pub fn render(&self) -> (r: String)
        ensures
            r@ == styled_spec(self.screen()@),
    {
        let screen = self.screen;
        let mut out = screen.display_text();
        push_str(&mut out, "\n\nstyles:");
        proof {
            reveal_strlit("\n\nstyles:");
            reveal_strlit("styles:");
            assert("\n\nstyles:"@ =~= seq!['\n', '\n'] + "styles:"@);
        }
        let ghost head = out@;
        let mut any = false;
        let mut row: u16 = 0;
        while row < screen.rows
            invariant
                row <= screen@.rows,
                out@ == head + styles_block(screen@, row as int),
                any == any_styled(screen@, row as int),
            decreases screen@.rows - row,
        {
            let spans = screen.row_span_strings(row);
            let ghost before = out@;
            if spans.len() > 0 {
                any = true;
                push_char(&mut out, '\n');
                push_decimal_text(&mut out, row as u64);
                push_str(&mut out, ": ");
                push_joined(&mut out, &spans, "; ");
                assert(out@ =~= head + styles_block(screen@, row + 1));
            } else {
                assert(out@ =~= head + styles_block(screen@, row + 1));
            }
            row = row + 1;
        }
        if !any {
            push_str(&mut out, "\n(none)");
            proof {
                reveal_strlit("\n(none)");
                reveal_strlit("(none)");
                assert("\n(none)"@ =~= seq!['\n'] + "(none)"@);
            }
        }
        proof {
            assert(out@ =~= styled_spec(screen@));
        }
        out
    }
}


/// Whether two character sequences of equal length are equal.
pub fn chars_equal(a: &[char], b: &[char]) -> (r: bool)
    requires
        a@.len() == b@.len(),
    ensures
        r == (a@ == b@),
{
    let mut i: usize = 0;
    while i < a.len()
        invariant
            i <= a@.len() == b@.len(),
            forall|j: int| 0 <= j < i ==> a@[j] == b@[j],
        decreases a@.len() - i,
    {
        if a[i] != b[i] {
            return false;
        }
        i = i + 1;
    }
    assert(a@ =~= b@);
    true
}

/// A trimmed text is a prefix of the text, and what was cut is whitespace.
proof fn lemma_trim_shape(s: Seq<char>)
    ensures
        trim_end(s).len() <= s.len(),
        trim_end(s) =~= s.take(trim_end(s).len() as int),
        forall|j: int| trim_end(s).len() <= j < s.len() ==> is_ws(#[trigger] s[j]),
    decreases s.len(),
{
    if s.len() > 0 && is_ws(s.last()) {
        lemma_trim_shape(s.drop_last());
        assert forall|j: int| trim_end(s).len() <= j < s.len() implies is_ws(#[trigger] s[j]) by {
            if j < s.len() - 1 {
                assert(s[j] == s.drop_last()[j]);
            }
        }
    }
}

/// A needle that ends in a non-space occurs in a text exactly when it
/// occurs in the text trimmed.
proof fn lemma_occurs_trimmed(s: Seq<char>, nd: Seq<char>)
    requires
        nd.len() > 0,
        !is_ws(nd.last()),
    ensures
        occurs(s, nd) == occurs(trim_end(s), nd),
{
    lemma_trim_shape(s);
    let t = trim_end(s);
    if occurs(s, nd) {
        let i = choose|i: int| 0 <= i && i + nd.len() <= s.len() && #[trigger] s.subrange(i, i + nd.len()) == nd;
        assert(s[i + nd.len() - 1] == s.subrange(i, i + nd.len())[nd.len() - 1]);
        assert(i + nd.len() <= t.len());
        assert(t.subrange(i, i + nd.len()) =~= s.subrange(i, i + nd.len()));
    }
    if occurs(t, nd) {
        let i = choose|i: int| 0 <= i && i + nd.len() <= t.len() && #[trigger] t.subrange(i, i + nd.len()) == nd;
        assert(t.subrange(i, i + nd.len()) =~= s.subrange(i, i + nd.len()));
    }
}

/// A needle without line breaks occurs in lines joined with `\n` exactly
/// when it occurs in one of the lines.
proof fn lemma_occurs_joined(lines: Seq<Seq<char>>, nd: Seq<char>)
    requires
        nd.len() > 0,
        forall|k: int| 0 <= k < nd.len() ==> nd[k] != '\n',
    ensures
        occurs(join_lines(lines), nd) <==> exists|r: int| 0 <= r < lines.len() && occurs(#[trigger] lines[r], nd),
    decreases lines.len(),
{
    if lines.len() == 1 {
        if occurs(lines[0], nd) {
            assert(occurs(lines[0], nd));
        }
    } else if lines.len() >= 2 {
        let init = lines.drop_last();
        lemma_occurs_joined(init, nd);
        let a = join_lines(init);
        let b = lines.last();
        let j = join_lines(lines);
        assert(j == a + seq!['\n'] + b);
        let l = nd.len();
        if occurs(j, nd) {
            let i = choose|i: int| 0 <= i && i + l <= j.len() && #[trigger] j.subrange(i, i + l) == nd;
            if i + l <= a.len() {
                assert(a.subrange(i, i + l) =~= j.subrange(i, i + l));
                let r = choose|r: int| 0 <= r < init.len() && occurs(#[trigger] init[r], nd);
                assert(lines[r] == init[r]);
            } else if i > a.len() {
                assert(b.subrange(i - a.len() - 1, i - a.len() - 1 + l) =~= j.subrange(i, i + l));
                assert(occurs(b, nd));
                assert(lines[lines.len() - 1] == b);
            } else {
                assert(j[a.len() as int] == '\n');
                assert(nd[a.len() - i] == j.subrange(i, i + l)[a.len() - i]);
            }
        }
        if exists|r: int| 0 <= r < lines.len() && occurs(#[trigger] lines[r], nd) {
            let r = choose|r: int| 0 <= r < lines.len() && occurs(#[trigger] lines[r], nd);
            if r < lines.len() - 1 {
                assert(init[r] == lines[r]);
                assert(occurs(a, nd));
                let i = choose|i: int| 0 <= i && i + l <= a.len() && #[trigger] a.subrange(i, i + l) == nd;
                assert(j.subrange(i, i + l) =~= a.subrange(i, i + l));
            } else {
                let i = choose|i: int| 0 <= i && i + l <= b.len() && #[trigger] b.subrange(i, i + l) == nd;
                let p = a.len() + 1 + i;
                assert(j.subrange(p, p + l) =~= b.subrange(i, i + l));
            }
        }
    }
}

/// An occurrence has a first one.
proof fn lemma_first_exists(hay: Seq<char>, nd: Seq<char>, k: int)
    requires
        0 <= k && k + nd.len() <= hay.len(),
        hay.subrange(k, k + nd.len()) == nd,
    ensures
        first_occurrence(hay, nd) matches Some(i) && 0 <= i && i + nd.len() <= hay.len(),
    decreases k,
{
    if exists|j: int| 0 <= j < k && #[trigger] hay.subrange(j, j + nd.len()) == nd {
        let j = choose|j: int| 0 <= j < k && #[trigger] hay.subrange(j, j + nd.len()) == nd;
        lemma_first_exists(hay, nd, j);
    } else {
        lemma_first_occurrence(hay, nd, k);
    }
}

/// A character of a row's text belongs to some column's cell.
proof fn lemma_col_from_some(m: ScreenModel, row: int, i: int, col: int)
    requires
        0 <= col <= m.cols,
        row_prefix(m, row, col).len() <= i < row_prefix(m, row, m.cols as int).len(),
    ensures
        col_from(m, row, i, col) matches Some(c) && c < m.cols,
    decreases m.cols - col,
{
    if col < m.cols {
        let len = cell_text(cell_at(m, row, col)).len();
        assert(row_prefix(m, row, col + 1) == row_prefix(m, row, col) + cell_text(cell_at(m, row, col)));
        if !(len > 0 && i < row_prefix(m, row, col).len() + len) {
            lemma_col_from_some(m, row, i, col + 1);
        }
    }
}

/// Searching from `row` down finds a needle without line breaks exactly
/// when some row from there holds it, at a position inside the grid.
#[verifier::rlimit(40)]
proof fn lemma_find_single(m: ScreenModel, nd: Seq<char>, row: int)
    requires
        0 <= row,
        nd.len() > 0,
    ensures
        find_single(m, nd, row) is Some <==> exists|r: int| row <= r < m.rows && occurs(#[trigger] row_text_spec(m, r), nd),
        find_single(m, nd, row) matches Some((r, c)) ==> r < m.rows && c < m.cols,
    decreases m.rows - row,
{
    if row < m.rows {
        lemma_find_single(m, nd, row + 1);
        let t = row_text_spec(m, row);
        if occurs(t, nd) {
            let k = choose|k: int| 0 <= k && k + nd.len() <= t.len() && #[trigger] t.subrange(k, k + nd.len()) == nd;
            lemma_first_exists(t, nd, k);
            let i = first_occurrence(t, nd).unwrap();
            assert(row_text_spec(m, row) == row_prefix(m, row, m.cols as int));
            assert(row_prefix(m, row, 0).len() == 0);
            lemma_col_from_some(m, row, i, 0);
            let c = col_of_char(m, row, i).unwrap();
            assert(find_single(m, nd, row) == Some((row as u16, c)));
        } else {
            assert(first_occurrence(t, nd) is None);
            assert(find_single(m, nd, row) == find_single(m, nd, row + 1));
            assert forall|r: int| row <= r < m.rows && occurs(#[trigger] row_text_spec(m, r), nd) implies row + 1 <= r by {}
        }
    }
}

/// For a needle on one line that ends in a non-space, `find` finds it
/// exactly when `contains` says the screen holds it, and a place it gives
/// is a cell of the grid.
pub proof fn lemma_find_agrees_with_contains(m: ScreenModel, nd: Seq<char>)
    requires
        nd.len() > 0,
        forall|k: int| 0 <= k < nd.len() ==> nd[k] != '\n',
        !is_ws(nd.last()),
    ensures
        find_spec(m, nd) is Some <==> occurs(text_spec(m), nd),
        find_spec(m, nd) matches Some((r, c)) ==> r < m.rows && c < m.cols,
{
    lemma_index_of(nd, '\n');
    assert(index_of(nd, '\n') >= nd.len());
    lemma_find_single(m, nd, 0);
    let lines = screen_lines(m);
    lemma_occurs_joined(lines, nd);
    assert forall|r: int| 0 <= r < m.rows implies occurs(#[trigger] row_text_spec(m, r), nd) == occurs(lines[r], nd) by {
        lemma_occurs_trimmed(row_text_spec(m, r), nd);
    }
    if occurs(text_spec(m), nd) {
        let r = choose|r: int| 0 <= r < lines.len() && occurs(#[trigger] lines[r], nd);
        assert(occurs(row_text_spec(m, r), nd));
    }
    if find_spec(m, nd) is Some {
        let r = choose|r: int| 0 <= r < m.rows && occurs(#[trigger] row_text_spec(m, r), nd);
        assert(occurs(lines[r], nd));
    }
}

} // verus!
