//! The decisions a terminal session makes that do not need the terminal:
//! mouse buttons and chords, the mouse report for the encoding the
//! application chose, sizes, the shapes and replies of queries, pasted
//! text, and exit statuses.
use vstd::prelude::*;
use crate::emulator::{InputModes, Stop, Vt100Emulator, consumed_spec, newest, stop_from, stops};
use crate::error::Error;
use crate::keys::{csi, mouse_legacy, mouse_sgr, mouse_sgr_bytes, mouse_utf8};
use crate::render::dec;
use crate::screen::{Screen, find_chars, first_occurrence, lemma_first_occurrence};
use crate::text::{chars_of, decimal, push_bytes, push_chars, push_decimal, push_decimal_text, push_str, string_of};
use crate::tracker::{EventModel, Query, QueryModel, TrackerModel, feed_spec, query_view, step_spec};
use crate::vt::MouseEncoding;
use crate::words::split_on;
use vstd::utf8::encode_utf8;

verus! {

/// Scroll-wheel direction.
#[non_exhaustive]
#[derive(Debug, Clone, Copy, PartialEq, Eq, Structural)]
pub enum Scroll {
    /// Wheel up (away from the user).
    Up,
    /// Wheel down (toward the user).
    Down,
    /// Horizontal wheel left.
    Left,
    /// Horizontal wheel right.
    Right,
}

/// A mouse button.
#[non_exhaustive]
#[derive(Debug, Clone, Copy, PartialEq, Eq, Hash, Structural)]
pub enum MouseButton {
    /// The primary button.
    Left,
    /// The middle button (wheel click).
    Middle,
    /// The secondary button.
    Right,
}

/// The xterm code of a button.
pub open spec fn button_code(b: MouseButton) -> u8 {
    match b {
        MouseButton::Left => 0,
        MouseButton::Middle => 1,
        MouseButton::Right => 2,
    }
}

/// A mouse button plus modifier keys.
#[derive(Debug, Clone, Copy, PartialEq, Eq, Hash, Structural)]
pub struct MouseChord {
    pub button: MouseButton,
    pub ctrl: bool,
    pub alt: bool,
    pub shift: bool,
}

/// The xterm button code of a chord: the button, plus 4 for shift, 8 for
/// alt and 16 for control.
pub open spec fn chord_code(c: MouseChord) -> u8 {
    (button_code(c.button) + (if c.shift { 4u8 } else { 0u8 }) + (if c.alt { 8u8 } else { 0u8 }) + (if c.ctrl {
        16u8
    } else {
        0u8
    })) as u8
}

impl MouseButton {
    /// The xterm code of the button.
    pub fn code(self) -> (r: u8)
        ensures
            r == button_code(self),
    {
        match self {
            MouseButton::Left => 0,
            MouseButton::Middle => 1,
            MouseButton::Right => 2,
        }
    }

    /// This button held with `Ctrl`.
    pub fn ctrl(self) -> (r: MouseChord)
        ensures
            r == (MouseChord { button: self, ctrl: true, alt: false, shift: false }),
    {
        MouseChord::plain(self).ctrl()
    }

    /// This button held with `Alt`.
    pub fn alt(self) -> (r: MouseChord)
        ensures
            r == (MouseChord { button: self, ctrl: false, alt: true, shift: false }),
    {
        MouseChord::plain(self).alt()
    }

    /// This button held with `Shift`.
    pub fn shift(self) -> (r: MouseChord)
        ensures
            r == (MouseChord { button: self, ctrl: false, alt: false, shift: true }),
    {
        MouseChord::plain(self).shift()
    }
}

impl MouseChord {
    /// The bare button, no modifier held.
    pub fn plain(button: MouseButton) -> (r: MouseChord)
        ensures
            r == (MouseChord { button, ctrl: false, alt: false, shift: false }),
    {
        MouseChord { button, ctrl: false, alt: false, shift: false }
    }

    /// Add `Ctrl`.
    pub fn ctrl(self) -> (r: Self)
        ensures
            r == (MouseChord { ctrl: true, ..self }),
    {
        MouseChord { ctrl: true, ..self }
    }

    /// Add `Alt`.
    pub fn alt(self) -> (r: Self)
        ensures
            r == (MouseChord { alt: true, ..self }),
    {
        MouseChord { alt: true, ..self }
    }

    /// Add `Shift`.
    pub fn shift(self) -> (r: Self)
        ensures
            r == (MouseChord { shift: true, ..self }),
    {
        MouseChord { shift: true, ..self }
    }

    /// The xterm button code.
    pub fn code(self) -> (r: u8)
        ensures
            r == chord_code(self),
            r <= 30,
    {
        let b = self.button.code();
        b + if self.shift { 4 } else { 0 } + if self.alt { 8 } else { 0 } + if self.ctrl { 16 } else { 0 }
    }
}

impl From<MouseButton> for MouseChord {
    fn from(button: MouseButton) -> (r: Self) {
        MouseChord { button, ctrl: false, alt: false, shift: false }
    }
}

impl vstd::std_specs::convert::FromSpecImpl<MouseButton> for MouseChord {
    open spec fn obeys_from_spec() -> bool {
        true
    }

    open spec fn from_spec(button: MouseButton) -> Self {
        MouseChord { button, ctrl: false, alt: false, shift: false }
    }
}

/// A POSIX signal: the graceful-shutdown set.
#[derive(Debug, Clone, Copy, PartialEq, Eq, Hash, Structural)]
pub enum Signal {
    /// `SIGINT`.
    Int,
    /// `SIGTERM`.
    Term,
    /// `SIGHUP`.
    Hup,
    /// `SIGQUIT`.
    Quit,
    /// `SIGUSR1`.
    Usr1,
    /// `SIGUSR2`.
    Usr2,
    /// `SIGKILL`.
    Kill,
}


/// Exit status of the child process.
#[derive(Debug, Clone, PartialEq, Eq)]
pub struct ExitStatus {
    code: u32,
    success: bool,
    signal: Option<String>,
}

/// The plain value of an optional text.
pub open spec fn opt_text(s: Option<String>) -> Option<Seq<char>> {
    match s {
        Some(t) => Some(t@),
        None => None,
    }
}

/// An exit status as a person reads it.
pub open spec fn status_text(code: u32, signal: Option<Seq<char>>) -> Seq<char> {
    match signal {
        Some(s) => "killed by signal: "@ + s + " (code "@ + dec(code as int) + ")"@,
        None => "exit code "@ + dec(code as int),
    }
}

impl ExitStatus {
    /// A status from what the operating system reported.
    pub fn new(code: u32, success: bool, signal: Option<String>) -> (r: Self)
        ensures
            r.code_spec() == code,
            r.success_spec() == success,
            r.signal_spec() == opt_text(signal),
    {
        ExitStatus { code, success, signal }
    }

    /// The raw exit code.
    pub closed spec fn code_spec(&self) -> u32 {
        self.code
    }

    /// Whether the child exited successfully.
    pub closed spec fn success_spec(&self) -> bool {
        self.success
    }

    /// The name of the fatal signal, if any.
    pub closed spec fn signal_spec(&self) -> Option<Seq<char>> {
        opt_text(self.signal)
    }

    /// True if the child exited successfully (code 0, no fatal signal).
    pub fn success(&self) -> (r: bool)
        ensures
            r == self.success_spec(),
    {
        self.success
    }

    /// The raw exit code; a placeholder when a signal killed the child.
    pub fn code(&self) -> (r: u32)
        ensures
            r == self.code_spec(),
    {
        self.code
    }

    /// The name of the signal that terminated the child; `None` for a
    /// normal exit.
    pub fn signal(&self) -> (r: Option<&str>)
        ensures
            match r {
                Some(s) => self.signal_spec() == Some(s@),
                None => self.signal_spec() is None,
            },
    {
        match &self.signal {
            Some(s) => Some(s.as_str()),
            None => None,
        }
    }

    /// `exit code N`, or `killed by signal: NAME (code N)`.
    pub fn describe(&self) -> (r: String)
        ensures
            r@ == status_text(self.code_spec(), self.signal_spec()),
    {
        let mut out = String::new();
        match &self.signal {
            Some(s) => {
                push_str(&mut out, "killed by signal: ");
                push_str(&mut out, s.as_str());
                push_str(&mut out, " (code ");
                push_decimal_text(&mut out, self.code as u64);
                push_str(&mut out, ")");
            },
            None => {
                push_str(&mut out, "exit code ");
                push_decimal_text(&mut out, self.code as u64);
            },
        }
        out
    }
}

/// The message every mouse action shares when the application never asked
/// for mouse reports.
pub open spec fn no_tracking_text() -> Seq<char> {
    "the application has not enabled mouse tracking (no CSI ?9/?1000/?1002/?1003 h was seen)"@
}

/// The error every mouse action shares: bytes the application never asked
/// for would be misparsed as keys.
pub fn no_mouse_tracking() -> (r: Error)
    ensures
        r is Input,
        r->Input_0@ == no_tracking_text(),
{
    let mut m = String::new();
    push_str(&mut m, "the application has not enabled mouse tracking (no CSI ?9/?1000/?1002/?1003 h was seen)");
    Error::Input(m)
}

/// Reject a zero terminal dimension: a terminal has at least one row and
/// one column.
pub fn check_size(cols: u16, rows: u16) -> (r: Result<(), Error>)
    ensures
        r is Ok <==> (cols > 0 && rows > 0),
        r matches Err(e) ==> e is Input && e->Input_0@ == "a terminal needs at least one column and one row, got "@
            + dec(cols as int) + "x"@ + dec(rows as int) + " (columns x rows)"@,
{
    if cols == 0 || rows == 0 {
        let mut m = String::new();
        push_str(&mut m, "a terminal needs at least one column and one row, got ");
        push_decimal_text(&mut m, cols as u64);
        push_str(&mut m, "x");
        push_decimal_text(&mut m, rows as u64);
        push_str(&mut m, " (columns x rows)");
        return Err(Error::Input(m));
    }
    Ok(())
}

/// The command line a spawn reports: the program, then each argument,
/// separated by single spaces.
pub open spec fn command_line_spec(program: Seq<char>, args: Seq<Seq<char>>) -> Seq<char>
    decreases args.len(),
{
    if args.len() == 0 {
        program
    } else {
        command_line_spec(program, args.drop_last()) + seq![' '] + args.last()
    }
}

/// The command line a spawn reports.
pub fn command_line(program: &str, args: &[String]) -> (r: String)
    ensures
        r@ == command_line_spec(program@, args@.map_values(|a: String| a@)),
{
    let mut out = String::new();
    push_str(&mut out, program);
    let mut i: usize = 0;
    while i < args.len()
        invariant
            i <= args@.len(),
            out@ == command_line_spec(program@, args@.take(i as int).map_values(|a: String| a@)),
        decreases args@.len() - i,
    {
        let ghost before = out@;
        push_str(&mut out, " ");
        push_str(&mut out, args[i].as_str());
        proof {
            reveal_strlit(" ");
            assert(out@ =~= before + seq![' '] + args@[i as int]@);
            let next = args@.take(i + 1).map_values(|a: String| a@);
            assert(next.drop_last() =~= args@.take(i as int).map_values(|a: String| a@));
            assert(next.last() == args@[i as int]@);
            assert(out@ == command_line_spec(program@, next));
        }
        i = i + 1;
    }
    assert(args@.take(i as int) =~= args@);
    out
}

/// Why a spawn without a program name is refused.
pub open spec fn empty_program_reason() -> Seq<char> {
    "no program name given (the program argument was empty)"@
}

/// Why a spawn into a missing working directory is refused.
pub open spec fn missing_dir_reason(dir: Seq<char>) -> Seq<char> {
    "current_dir("@ + dir + ") is not an existing directory"@
}

/// What a spawn's configuration check decides, in its order: an empty
/// program name, then a zero dimension, then a working directory that is
/// not an existing directory (`cwd` carries the directory and whether it is
/// one); `None` when the configuration can produce a terminal.
pub open spec fn spawn_refusal(program: Seq<char>, cols: u16, rows: u16, cwd: Option<(Seq<char>, bool)>) -> Option<
    int,
> {
    if program.len() == 0 {
        Some(0)
    } else if cols == 0 || rows == 0 {
        Some(1)
    } else if cwd matches Some((_, false)) {
        Some(2)
    } else {
        None
    }
}

/// Check a spawn's configuration before anything is opened: an empty
/// program name, then the size, then the working directory (`cwd` carries
/// the directory's name and whether it is an existing directory). The
/// errors name `command`, the command line.
pub fn spawn_check(command: &str, program: &str, cols: u16, rows: u16, cwd: Option<(&str, bool)>) -> (r: Result<
    (),
    Error,
>)
    ensures
        r is Ok <==> spawn_refusal(program@, cols, rows, opt_dir(cwd)) is None,
        spawn_refusal(program@, cols, rows, opt_dir(cwd)) == Some(0int) ==> (r matches Err(
            Error::Spawn { command: c, reason: m },
        ) && c@ == command@ && m@ == empty_program_reason()),
        spawn_refusal(program@, cols, rows, opt_dir(cwd)) == Some(1int) ==> (r matches Err(Error::Input(m)) && m@
            == "a terminal needs at least one column and one row, got "@ + dec(cols as int) + "x"@ + dec(rows as int)
            + " (columns x rows)"@),
        spawn_refusal(program@, cols, rows, opt_dir(cwd)) == Some(2int) ==> (r matches Err(
            Error::Spawn { command: c, reason: m },
        ) && c@ == command@ && m@ == missing_dir_reason(opt_dir(cwd).unwrap().0)),
{
    let program_chars = chars_of(program);
    if program_chars.len() == 0 {
        let mut reason = String::new();
        push_str(&mut reason, "no program name given (the program argument was empty)");
        let mut c = String::new();
        push_str(&mut c, command);
        return Err(Error::Spawn { command: c, reason });
    }
    let sized = check_size(cols, rows);
    if let Err(e) = sized {
        return Err(e);
    }
    if let Some((dir, is_dir)) = cwd {
        if !is_dir {
            let mut reason = String::new();
            push_str(&mut reason, "current_dir(");
            push_str(&mut reason, dir);
            push_str(&mut reason, ") is not an existing directory");
            let mut c = String::new();
            push_str(&mut c, command);
            return Err(Error::Spawn { command: c, reason });
        }
    }
    Ok(())
}

/// The directory part of a spawn's working-directory check, by its text.
pub open spec fn opt_dir(cwd: Option<(&str, bool)>) -> Option<(Seq<char>, bool)> {
    match cwd {
        Some((d, b)) => Some((d@, b)),
        None => None,
    }
}

/// The `TERM` a child gets when none was set.
pub open spec fn default_term() -> (Seq<char>, Seq<char>) {
    ("TERM"@, "xterm-256color"@)
}

/// The environment pairs by their text.
pub open spec fn env_views(envs: Seq<(String, String)>) -> Seq<(Seq<char>, Seq<char>)> {
    envs.map_values(|e: (String, String)| (e.0@, e.1@))
}

/// Whether some variable is named `TERM`.
pub open spec fn sets_term(envs: Seq<(Seq<char>, Seq<char>)>) -> bool {
    exists|i: int| 0 <= i < envs.len() && #[trigger] envs[i].0 == "TERM"@
}

/// The environment a child is given: `TERM=xterm-256color` first unless a
/// `TERM` was set explicitly, then the variables as configured.
pub fn child_env(envs: &[(String, String)]) -> (r: Vec<(String, String)>)
    ensures
        env_views(r@) == if sets_term(env_views(envs@)) {
            env_views(envs@)
        } else {
            seq![default_term()] + env_views(envs@)
        },
{
    let mut found = false;
    let mut i: usize = 0;
    while i < envs.len()
        invariant
            i <= envs@.len(),
            found <==> exists|j: int| 0 <= j < i && #[trigger] env_views(envs@)[j].0 == "TERM"@,
        decreases envs@.len() - i,
    {
        let is_term = same_chars(envs[i].0.as_str(), "TERM");
        proof {
            assert(env_views(envs@)[i as int].0 == envs@[i as int].0@);
        }
        found = found || is_term;
        i = i + 1;
    }
    let mut out: Vec<(String, String)> = Vec::new();
    if !found {
        let mut k = String::new();
        push_str(&mut k, "TERM");
        let mut v = String::new();
        push_str(&mut v, "xterm-256color");
        out.push((k, v));
    }
    let ghost start = env_views(out@);
    let mut j: usize = 0;
    while j < envs.len()
        invariant
            j <= envs@.len(),
            start == env_views(out@.take(out@.len() - j)),
            out@.len() >= j,
            env_views(out@) == start + env_views(envs@).take(j as int),
        decreases envs@.len() - j,
    {
        let key = envs[j].0.clone();
        let value = envs[j].1.clone();
        let ghost before = out@;
        out.push((key, value));
        proof {
            assert(env_views(out@) =~= env_views(before).push((envs@[j as int].0@, envs@[j as int].1@)));
            assert(env_views(envs@).take(j + 1) =~= env_views(envs@).take(j as int).push(env_views(envs@)[j as int]));
            assert(out@.take(out@.len() - (j + 1)) =~= before.take(before.len() - j));
        }
        j = j + 1;
    }
    proof {
        assert(env_views(envs@).take(j as int) =~= env_views(envs@));
        if !found {
            assert(start =~= seq![default_term()]);
        } else {
            assert(start =~= Seq::<(Seq<char>, Seq<char>)>::empty());
        }
    }
    out
}

/// The printable shape of a query, for diagnostics when it goes
/// unanswered.
pub open spec fn query_shape_spec(q: QueryModel) -> Seq<char> {
    match q {
        QueryModel::CursorPosition { private } => if private {
            "^[[?6n"@
        } else {
            "^[[6n"@
        },
        QueryModel::OperatingStatus => "^[[5n"@,
        QueryModel::PrimaryDa => "^[[c"@,
        QueryModel::SecondaryDa => "^[[>c"@,
        QueryModel::TextAreaSize => "^[[18t"@,
        QueryModel::OscColor { code, .. } => "^[]"@ + dec(code as int) + ";?"@,
        QueryModel::RequestMode(mode) => "^[[?"@ + dec(mode as int) + "$p"@,
        QueryModel::WindowSizePixels => "^[[14t"@,
        QueryModel::CellSizePixels => "^[[16t"@,
        QueryModel::KittyGraphics { shape, .. } => shape,
        QueryModel::RequestTermcap { shape, .. } => shape,
        QueryModel::Unanswerable(shape) => shape,
    }
}

/// The printable shape of a query.
pub fn query_shape(query: &Query) -> (r: String)
    ensures
        r@ == query_shape_spec(query_view(*query)),
{
    let mut out = String::new();
    match query {
        Query::CursorPosition { private } => {
            if *private {
                push_str(&mut out, "^[[?6n");
            } else {
                push_str(&mut out, "^[[6n");
            }
        },
        Query::OperatingStatus => push_str(&mut out, "^[[5n"),
        Query::PrimaryDa => push_str(&mut out, "^[[c"),
        Query::SecondaryDa => push_str(&mut out, "^[[>c"),
        Query::TextAreaSize => push_str(&mut out, "^[[18t"),
        Query::OscColor { code, .. } => {
            push_str(&mut out, "^[]");
            push_decimal_text(&mut out, *code as u64);
            push_str(&mut out, ";?");
        },
        Query::RequestMode(mode) => {
            push_str(&mut out, "^[[?");
            push_decimal_text(&mut out, *mode as u64);
            push_str(&mut out, "$p");
        },
        Query::WindowSizePixels => push_str(&mut out, "^[[14t"),
        Query::CellSizePixels => push_str(&mut out, "^[[16t"),
        Query::KittyGraphics { shape, .. } => push_str(&mut out, shape.as_str()),
        Query::RequestTermcap { shape, .. } => push_str(&mut out, shape.as_str()),
        Query::Unanswerable(shape) => push_str(&mut out, shape.as_str()),
    }
    out
}


/// The mouse report for the encoding the application chose: SGR reports
/// any position; the byte-valued forms stop at 222 and send release as
/// button 3.
pub open spec fn mouse_report_spec(enc: MouseEncoding, button: u8, col: u16, row: u16, press: bool) -> Result<
    Seq<u8>,
    Seq<char>,
> {
    if enc == MouseEncoding::Sgr {
        Ok(mouse_sgr_bytes(button, col, row, press))
    } else if col > 222 || row > 222 {
        Err(
            "("@ + dec(col as int) + ", "@ + dec(row as int)
                + ") is unrepresentable in the legacy mouse encoding the application selected (max 222)"@,
        )
    } else {
        let b = if press {
            button
        } else {
            3u8
        };
        if enc == MouseEncoding::Utf8 {
            Ok(
                csi(seq![0x4du8, (32 + b) as u8]) + encode_utf8(seq![((33 + col) as u32) as char]) + encode_utf8(
                    seq![((33 + row) as u32) as char],
                ),
            )
        } else {
            Ok(csi(seq![0x4du8, (32 + b) as u8, (33 + col) as u8, (33 + row) as u8]))
        }
    }
}

/// The bytes that report a mouse event at `(col, row)` in the encoding the
/// application selected, or the error for a position that encoding cannot
/// carry.
pub fn mouse_report(modes: &InputModes, button: u8, col: u16, row: u16, press: bool) -> (r: Result<Vec<u8>, Error>)
    requires
        button <= 223,
    ensures
        match (r, mouse_report_spec(modes.mouse_encoding, button, col, row, press)) {
            (Ok(a), Ok(b)) => a@ == b,
            (Err(Error::Input(m)), Err(b)) => m@ == b,
            _ => false,
        },
{
    if modes.mouse_encoding == MouseEncoding::Sgr {
        return Ok(mouse_sgr(button, col, row, press));
    }
    if col > 222 || row > 222 {
        let mut m = String::new();
        push_str(&mut m, "(");
        push_decimal_text(&mut m, col as u64);
        push_str(&mut m, ", ");
        push_decimal_text(&mut m, row as u64);
        push_str(&mut m, ") is unrepresentable in the legacy mouse encoding the application selected (max 222)");
        return Err(Error::Input(m));
    }
    let b = if press {
        button
    } else {
        3
    };
    if modes.mouse_encoding == MouseEncoding::Utf8 {
        Ok(mouse_utf8(b, col, row))
    } else {
        Ok(mouse_legacy(b, col, row))
    }
}

/// `s` with every occurrence of the non-empty `pat` removed, left to
/// right, as `str::replace` with an empty replacement does.
#[verifier::opaque]
pub open spec fn remove_all(s: Seq<char>, pat: Seq<char>) -> Seq<char>
    decreases s.len(),
{
    match first_occurrence(s, pat) {
        Some(k) => if pat.len() > 0 && 0 <= k && k + pat.len() <= s.len() {
            s.take(k) + remove_all(s.skip(k + pat.len()), pat)
        } else {
            s
        },
        None => s,
    }
}

/// Removing never lengthens, and shortens whenever it changes anything.
pub proof fn lemma_remove_all_len(s: Seq<char>, pat: Seq<char>)
    requires
        pat.len() > 0,
    ensures
        remove_all(s, pat).len() <= s.len(),
        remove_all(s, pat) != s ==> remove_all(s, pat).len() < s.len(),
    decreases s.len(),
{
    reveal(remove_all);
    match first_occurrence(s, pat) {
        Some(k) => {
            if 0 <= k && k + pat.len() <= s.len() {
                lemma_remove_all_len(s.skip(k + pat.len()), pat);
            }
        },
        None => {},
    }
}

/// The opening bracketed-paste marker.
pub open spec fn paste_open() -> Seq<char> {
    seq!['\u{1b}', '[', '2', '0', '0', '~']
}

/// The closing bracketed-paste marker.
pub open spec fn paste_close() -> Seq<char> {
    seq!['\u{1b}', '[', '2', '0', '1', '~']
}

/// One pass of marker removal: every opening marker, then every closing one.
pub open spec fn strip_once(s: Seq<char>) -> Seq<char> {
    remove_all(remove_all(s, paste_open()), paste_close())
}

/// `s` with bracketed-paste markers removed to a fixed point, so a marker
/// that reassembles from the remains of another is removed too.
pub open spec fn strip_spec(s: Seq<char>) -> Seq<char>
    decreases s.len(),
{
    let t = strip_once(s);
    proof {
        lemma_remove_all_len(s, paste_open());
        lemma_remove_all_len(remove_all(s, paste_open()), paste_close());
    }
    if t == s {
        s
    } else {
        strip_spec(t)
    }
}

/// Stripping leaves nothing to strip: another pass over the result finds
/// no marker, and stripping it again gives it back unchanged.
pub proof fn lemma_strip_is_idempotent(s: Seq<char>)
    ensures
        strip_once(strip_spec(s)) == strip_spec(s),
        strip_spec(strip_spec(s)) == strip_spec(s),
    decreases s.len(),
{
    lemma_remove_all_len(s, paste_open());
    lemma_remove_all_len(remove_all(s, paste_open()), paste_close());
    if strip_once(s) != s {
        lemma_strip_is_idempotent(strip_once(s));
    }
}

/// Append `s` with every occurrence of the non-empty `pat` removed.
fn remove_into(out: &mut Vec<char>, s: &[char], pat: &[char])
    requires
        pat@.len() > 0,
    ensures
        final(out)@ == old(out)@ + remove_all(s@, pat@),
{
    let mut start: usize = 0;
    let len = s.len();
    assert(s@.skip(0) =~= s@);
    loop
        invariant
            start <= len == s@.len(),
            pat@.len() > 0,
            out@ + remove_all(s@.skip(start as int), pat@) == old(out)@ + remove_all(s@, pat@),
        decreases len - start,
    {
        let rest = vstd::slice::slice_subrange(s, start, len);
        assert(rest@ =~= s@.skip(start as int));
        let ghost before = out@;
        match find_chars(rest, pat) {
            Some(k) => {
                proof {
                    lemma_first_occurrence(rest@, pat@, k as int);
                    assert(remove_all(rest@, pat@) == rest@.take(k as int) + remove_all(rest@.skip(k + pat@.len()), pat@))
                        by {
                        reveal(remove_all);
                    }
                }
                crate::screen::append_chars(out, rest, k);
                proof {
                    assert(rest@.skip(k + pat@.len()) =~= s@.skip(start + k + pat@.len()));
                    assert(out@ + remove_all(s@.skip(start + k + pat@.len()), pat@) =~= before + (rest@.take(k as int)
                        + remove_all(s@.skip(start + k + pat@.len()), pat@)));
                }
                start = start + k + pat.len();
            },
            None => {
                crate::screen::append_chars(out, rest, rest.len());
                proof {
                    assert(first_occurrence(rest@, pat@) is None);
                    assert(remove_all(rest@, pat@) == rest@) by {
                        reveal(remove_all);
                    }
                    assert(rest@.take(rest@.len() as int) =~= rest@);
                }
                return;
            },
        }
    }
}

/// Remove bracketed-paste markers from pasted text, repeating to a fixed
/// point so a marker reassembled from the remains of another goes too.
pub fn strip_paste_markers(text: &str) -> (r: String)
    ensures
        r@ == strip_spec(text@),
{
    let open: Vec<char> = vec!['\u{1b}', '[', '2', '0', '0', '~'];
    let close: Vec<char> = vec!['\u{1b}', '[', '2', '0', '1', '~'];
    assert(open@ =~= paste_open());
    assert(close@ =~= paste_close());
    let mut cur = chars_of(text);
    loop
        invariant
            open@ == paste_open(),
            close@ == paste_close(),
            strip_spec(cur@) == strip_spec(text@),
        decreases cur@.len(),
    {
        let mut once: Vec<char> = Vec::new();
        remove_into(&mut once, cur.as_slice(), open.as_slice());
        let mut twice: Vec<char> = Vec::new();
        remove_into(&mut twice, once.as_slice(), close.as_slice());
        proof {
            assert(once@ =~= remove_all(cur@, paste_open()));
            assert(twice@ =~= strip_once(cur@));
            lemma_remove_all_len(cur@, paste_open());
            lemma_remove_all_len(once@, paste_close());
        }
        if twice.len() == cur.len() && crate::screen::chars_equal(twice.as_slice(), cur.as_slice()) {
            return string_of(cur.as_slice());
        }
        proof {
            assert(twice@ != cur@);
        }
        cur = twice;
    }
}


/// Two lower-case hexadecimal digits as bytes.
pub open spec fn hex2_bytes(v: u8) -> Seq<u8> {
    seq![hex_byte(v / 16), hex_byte(v % 16)]
}

/// One lower-case hexadecimal digit as a byte.
pub open spec fn hex_byte(d: u8) -> u8 {
    if d < 10 {
        (48 + d) as u8
    } else {
        (87 + d) as u8
    }
}

/// An OSC colour reply: `ESC ] code ; rgb: RRRR / GGGG / BBBB`, each channel
/// widened to sixteen bits by repeating it, closed the way the query was.
pub open spec fn osc_color_bytes(code: u8, rgb: (u8, u8, u8), st: bool) -> Seq<u8> {
    seq![0x1bu8, 0x5du8] + decimal(code as nat) + seq![0x3bu8, 0x72u8, 0x67u8, 0x62u8, 0x3au8] + hex2_bytes(rgb.0)
        + hex2_bytes(rgb.0) + seq![0x2fu8] + hex2_bytes(rgb.1) + hex2_bytes(rgb.1) + seq![0x2fu8] + hex2_bytes(rgb.2)
        + hex2_bytes(rgb.2) + if st {
        seq![0x1bu8, 0x5cu8]
    } else {
        seq![0x07u8]
    }
}

/// The reply to a query, given whether queries are answered, the cursor
/// `(row, col)` and size `(rows, cols)` as of the query, the colours
/// reported, and the `DECRPM` value of a requested mode; `None` when the
/// query goes unanswered.
pub open spec fn reply_spec(
    q: QueryModel,
    respond: bool,
    cursor: (u16, u16),
    size: (u16, u16),
    background: (u8, u8, u8),
    foreground: (u8, u8, u8),
    mode_value: u32,
) -> Option<Seq<u8>> {
    if !respond {
        None
    } else {
        match q {
            QueryModel::CursorPosition { private } => Some(
                seq![0x1bu8, 0x5bu8] + (if private {
                    seq![0x3fu8]
                } else {
                    Seq::empty()
                }) + decimal(cursor.0 as nat + 1) + seq![0x3bu8] + decimal(cursor.1 as nat + 1) + seq![0x52u8],
            ),
            QueryModel::OperatingStatus => Some(seq![0x1bu8, 0x5bu8, 0x30u8, 0x6eu8]),
            QueryModel::PrimaryDa => Some(seq![0x1bu8, 0x5bu8, 0x3fu8, 0x36u8, 0x32u8, 0x3bu8, 0x32u8, 0x32u8, 0x63u8]),
            QueryModel::SecondaryDa => Some(
                seq![0x1bu8, 0x5bu8, 0x3eu8, 0x31u8, 0x3bu8, 0x31u8, 0x30u8, 0x3bu8, 0x30u8, 0x63u8],
            ),
            QueryModel::TextAreaSize => Some(
                seq![0x1bu8, 0x5bu8, 0x38u8, 0x3bu8] + decimal(size.0 as nat) + seq![0x3bu8] + decimal(size.1 as nat)
                    + seq![0x74u8],
            ),
            QueryModel::OscColor { code, st_terminated } => Some(
                if code == 11 {
                    osc_color_bytes(11, background, st_terminated)
                } else {
                    osc_color_bytes(code, foreground, st_terminated)
                },
            ),
            QueryModel::RequestMode(mode) => Some(
                seq![0x1bu8, 0x5bu8, 0x3fu8] + decimal(mode as nat) + seq![0x3bu8] + decimal(mode_value as nat) + seq![
                    0x24u8,
                    0x79u8,
                ],
            ),
            _ => None,
        }
    }
}

fn push_hex2_bytes(out: &mut Vec<u8>, v: u8)
    ensures
        final(out)@ == old(out)@ + hex2_bytes(v),
{
    let hi = v / 16;
    let lo = v % 16;
    out.push(if hi < 10 { 48 + hi } else { 87 + hi });
    out.push(if lo < 10 { 48 + lo } else { 87 + lo });
    assert(out@ =~= old(out)@ + hex2_bytes(v));
}

/// An OSC colour reply.
pub fn osc_color(code: u8, rgb: (u8, u8, u8), st: bool) -> (r: Vec<u8>)
    ensures
        r@ == osc_color_bytes(code, rgb, st),
{
    let mut out: Vec<u8> = vec![0x1b, 0x5d];
    push_decimal(&mut out, code as u64);
    push_bytes(&mut out, &[0x3b, 0x72, 0x67, 0x62, 0x3a]);
    push_hex2_bytes(&mut out, rgb.0);
    push_hex2_bytes(&mut out, rgb.0);
    out.push(0x2f);
    push_hex2_bytes(&mut out, rgb.1);
    push_hex2_bytes(&mut out, rgb.1);
    out.push(0x2f);
    push_hex2_bytes(&mut out, rgb.2);
    push_hex2_bytes(&mut out, rgb.2);
    if st {
        out.push(0x1b);
        out.push(0x5c);
    } else {
        out.push(0x07);
    }
    assert(out@ =~= osc_color_bytes(code, rgb, st));
    out
}

/// The reply to a query, or `None` when it goes unanswered: queries are
/// not answered at all, or nothing here answers that one.
pub fn query_reply(
    query: &Query,
    respond: bool,
    cursor: (u16, u16),
    size: (u16, u16),
    background: (u8, u8, u8),
    foreground: (u8, u8, u8),
    mode_value: u32,
) -> (r: Option<Vec<u8>>)
    ensures
        match (r, reply_spec(query_view(*query), respond, cursor, size, background, foreground, mode_value)) {
            (Some(a), Some(b)) => a@ == b,
            (None, None) => true,
            _ => false,
        },
{
    if !respond {
        return None;
    }
    match query {
        Query::CursorPosition { private } => {
            let mut out: Vec<u8> = vec![0x1b, 0x5b];
            if *private {
                out.push(0x3f);
            }
            push_decimal(&mut out, cursor.0 as u64 + 1);
            out.push(0x3b);
            push_decimal(&mut out, cursor.1 as u64 + 1);
            out.push(0x52);
            assert(out@ =~= reply_spec(query_view(*query), respond, cursor, size, background, foreground, mode_value)->0);
            Some(out)
        },
        Query::OperatingStatus => {
            let out: Vec<u8> = vec![0x1b, 0x5b, 0x30, 0x6e];
            assert(out@ =~= seq![0x1bu8, 0x5bu8, 0x30u8, 0x6eu8]);
            Some(out)
        },
        Query::PrimaryDa => {
            let out: Vec<u8> = vec![0x1b, 0x5b, 0x3f, 0x36, 0x32, 0x3b, 0x32, 0x32, 0x63];
            assert(out@ =~= seq![0x1bu8, 0x5bu8, 0x3fu8, 0x36u8, 0x32u8, 0x3bu8, 0x32u8, 0x32u8, 0x63u8]);
            Some(out)
        },
        Query::SecondaryDa => {
            let out: Vec<u8> = vec![0x1b, 0x5b, 0x3e, 0x31, 0x3b, 0x31, 0x30, 0x3b, 0x30, 0x63];
            assert(out@ =~= seq![0x1bu8, 0x5bu8, 0x3eu8, 0x31u8, 0x3bu8, 0x31u8, 0x30u8, 0x3bu8, 0x30u8, 0x63u8]);
            Some(out)
        },
        Query::TextAreaSize => {
            let mut out: Vec<u8> = vec![0x1b, 0x5b, 0x38, 0x3b];
            push_decimal(&mut out, size.0 as u64);
            out.push(0x3b);
            push_decimal(&mut out, size.1 as u64);
            out.push(0x74);
            assert(out@ =~= reply_spec(query_view(*query), respond, cursor, size, background, foreground, mode_value)->0);
            Some(out)
        },
        Query::OscColor { code, st_terminated } => {
            if *code == 11 {
                Some(osc_color(11, background, *st_terminated))
            } else {
                Some(osc_color(*code, foreground, *st_terminated))
            }
        },
        Query::RequestMode(mode) => {
            let mut out: Vec<u8> = vec![0x1b, 0x5b, 0x3f];
            push_decimal(&mut out, *mode as u64);
            out.push(0x3b);
            push_decimal(&mut out, mode_value as u64);
            out.push(0x24);
            out.push(0x79);
            assert(out@ =~= reply_spec(query_view(*query), respond, cursor, size, background, foreground, mode_value)->0);
            Some(out)
        },
        _ => None,
    }
}


/// Distinct unanswered queries kept before the record only counts.
pub const MAX_UNANSWERED: usize = 8;

/// The record of unanswered queries, as plain values.
pub struct QueryLogModel {
    pub entries: Seq<(Seq<char>, u64)>,
    pub overflow: usize,
    pub dropped: usize,
    pub reads: u64,
}

/// The index of the entry for `shape`, or the number of entries.
pub open spec fn entry_index(entries: Seq<(Seq<char>, u64)>, shape: Seq<char>) -> int
    decreases entries.len(),
{
    if entries.len() == 0 {
        0
    } else if entries[0].0 == shape {
        0
    } else {
        1 + entry_index(entries.drop_first(), shape)
    }
}

/// Any index with the first-match property is `entry_index`.
pub proof fn lemma_entry_index_unique(entries: Seq<(Seq<char>, u64)>, shape: Seq<char>, r: int)
    requires
        0 <= r <= entries.len(),
        forall|j: int| 0 <= j < r ==> (#[trigger] entries[j]).0 != shape,
        r < entries.len() ==> entries[r].0 == shape,
    ensures
        entry_index(entries, shape) == r,
    decreases entries.len(),
{
    if entries.len() > 0 && entries[0].0 != shape {
        assert forall|j: int| 0 <= j < r - 1 implies (#[trigger] entries.drop_first()[j]).0 != shape by {
            assert(entries.drop_first()[j] == entries[j + 1]);
        }
        lemma_entry_index_unique(entries.drop_first(), shape, r - 1);
    }
}

/// `entry_index` finds the first entry for `shape`, or passes every entry
/// when none is for it.
pub proof fn lemma_entry_index_finds(entries: Seq<(Seq<char>, u64)>, shape: Seq<char>)
    ensures
        0 <= entry_index(entries, shape) <= entries.len(),
        entry_index(entries, shape) < entries.len() ==> entries[entry_index(entries, shape)].0 == shape,
        entry_index(entries, shape) == entries.len() ==> forall|j: int|
            0 <= j < entries.len() ==> (#[trigger] entries[j]).0 != shape,
    decreases entries.len(),
{
    if entries.len() > 0 && entries[0].0 != shape {
        lemma_entry_index_finds(entries.drop_first(), shape);
        assert forall|j: int| 0 <= j < entries.len() && entry_index(entries, shape) == entries.len()
            implies (#[trigger] entries[j]).0 != shape by {
            if j > 0 {
                assert(entries[j] == entries.drop_first()[j - 1]);
            }
        }
    }
}

/// Each shape appears once among the entries.
pub open spec fn shapes_distinct(entries: Seq<(Seq<char>, u64)>) -> bool {
    forall|i: int, j: int| 0 <= i < j < entries.len() ==> (#[trigger] entries[i]).0 != (#[trigger] entries[j]).0
}

/// A query noted as unanswered in the current read: asked again, it is
/// judged by its latest read; new, it is added while there is room, and
/// counted past that.
pub open spec fn note_spec(m: QueryLogModel, shape: Seq<char>) -> QueryLogModel {
    let i = entry_index(m.entries, shape);
    if i < m.entries.len() {
        QueryLogModel { entries: m.entries.update(i, (shape, m.reads)), ..m }
    } else if m.entries.len() < MAX_UNANSWERED {
        QueryLogModel { entries: m.entries.push((shape, m.reads)), ..m }
    } else {
        QueryLogModel {
            overflow: if m.overflow == usize::MAX {
                usize::MAX
            } else {
                (m.overflow + 1) as usize
            },
            ..m
        }
    }
}

/// Noting an unanswered query keeps the record bounded: never more than
/// `MAX_UNANSWERED` entries, each shape once, the latest read recorded for
/// the shape while there is room for it.
pub proof fn lemma_note_keeps_record_bounded(m: QueryLogModel, shape: Seq<char>)
    requires
        m.entries.len() <= MAX_UNANSWERED,
        shapes_distinct(m.entries),
    ensures
        note_spec(m, shape).entries.len() <= MAX_UNANSWERED,
        shapes_distinct(note_spec(m, shape).entries),
        (exists|i: int| 0 <= i < m.entries.len() && (#[trigger] m.entries[i]).0 == shape)
            || m.entries.len() < MAX_UNANSWERED ==> note_spec(m, shape).entries.contains((shape, m.reads)),
{
    lemma_entry_index_finds(m.entries, shape);
    let i = entry_index(m.entries, shape);
    let n = note_spec(m, shape).entries;
    if i < m.entries.len() {
        assert(n[i] == (shape, m.reads));
        assert forall|a: int, b: int| 0 <= a < b < n.len() implies (#[trigger] n[a]).0 != (#[trigger] n[b]).0 by {
            assert(m.entries[a].0 != m.entries[b].0);
        }
    } else if m.entries.len() < MAX_UNANSWERED {
        assert(n[m.entries.len() as int] == (shape, m.reads));
        assert forall|a: int, b: int| 0 <= a < b < n.len() implies (#[trigger] n[a]).0 != (#[trigger] n[b]).0 by {
            if b < m.entries.len() {
                assert(m.entries[a].0 != m.entries[b].0);
            } else {
                assert(m.entries[a].0 != shape);
            }
        }
    }
}

/// The shapes of the entries last seen in read `reads` (`current`) or in
/// an earlier one (`!current`), in order.
pub open spec fn shapes_when(entries: Seq<(Seq<char>, u64)>, reads: u64, current: bool) -> Seq<Seq<char>>
    decreases entries.len(),
{
    if entries.len() == 0 {
        Seq::empty()
    } else {
        let rest = shapes_when(entries.drop_last(), reads, current);
        if (entries.last().1 == reads) == current {
            rest.push(entries.last().0)
        } else {
            rest
        }
    }
}

/// The one-line diagnosis a failed wait carries: replies that could not be
/// delivered, then the unanswered queries, blamed only when the application
/// produced no output after asking.
pub open spec fn query_note_spec(m: QueryLogModel) -> Seq<char> {
    let backlog = if m.dropped > 0 {
        " — note: the application is not reading its input ("@ + dec(m.dropped as int)
            + " terminal replies could not be delivered)"@
    } else {
        Seq::empty()
    };
    let more = if m.overflow > 0 {
        ", and "@ + dec(m.overflow as int) + " more"@
    } else {
        Seq::empty()
    };
    let blocking = shapes_when(m.entries, m.reads, true);
    if m.entries.len() == 0 {
        backlog
    } else if blocking.len() == 0 {
        backlog + " — note: the application queried the terminal ("@ + crate::screen::join_sep(
            shapes_when(m.entries, m.reads, false),
            ", "@,
        ) + more
            + ") and received no answer, but produced output afterwards, so that is probably not why this wait failed"@
    } else {
        backlog + " — note: the application queried the terminal ("@ + crate::screen::join_sep(blocking, ", "@) + more
            + ") and received no answer; if it is blocked waiting for that reply, this is the cause"@
    }
}

/// The unanswered queries of a terminal session and the replies it could
/// not deliver.
pub struct QueryLog {
    entries: Vec<(String, u64)>,
    overflow: usize,
    dropped: usize,
    reads: u64,
}

/// The plain values of the entries.
pub open spec fn entry_views(v: Seq<(String, u64)>) -> Seq<(Seq<char>, u64)> {
    v.map_values(|e: (String, u64)| (e.0@, e.1))
}

impl View for QueryLog {
    type V = QueryLogModel;

    closed spec fn view(&self) -> QueryLogModel {
        QueryLogModel { entries: entry_views(self.entries@), overflow: self.overflow, dropped: self.dropped, reads: self.reads }
    }
}

fn same_chars(a: &str, b: &str) -> (r: bool)
    ensures
        r == (a@ == b@),
{
    let x = chars_of(a);
    let y = chars_of(b);
    if x.len() != y.len() {
        return false;
    }
    crate::screen::chars_equal(x.as_slice(), y.as_slice())
}

impl QueryLog {
    /// An empty record at read zero.
    pub fn new() -> (r: Self)
        ensures
            r@.entries.len() == 0,
            r@.overflow == 0,
            r@.dropped == 0,
            r@.reads == 0,
    {
        let r = QueryLog { entries: Vec::new(), overflow: 0, dropped: 0, reads: 0 };
        assert(entry_views(r.entries@) =~= Seq::<(Seq<char>, u64)>::empty());
        r
    }

    /// A read arrived from the terminal.
    pub fn count_read(&mut self)
        ensures
            final(self)@ == (QueryLogModel {
                reads: if old(self)@.reads == u64::MAX {
                    u64::MAX
                } else {
                    (old(self)@.reads + 1) as u64
                },
                ..old(self)@
            }),
    {
        if self.reads < u64::MAX {
            self.reads = self.reads + 1;
        }
    }

    /// A reply could not be delivered because the child was not reading.
    pub fn reply_dropped(&mut self)
        ensures
            final(self)@ == (QueryLogModel {
                dropped: if old(self)@.dropped == usize::MAX {
                    usize::MAX
                } else {
                    (old(self)@.dropped + 1) as usize
                },
                ..old(self)@
            }),
    {
        if self.dropped < usize::MAX {
            self.dropped = self.dropped + 1;
        }
    }

    /// Note a query that went unanswered in the current read.
    pub fn note_unanswered(&mut self, shape: String)
        ensures
            final(self)@ == note_spec(old(self)@, shape@),
    {
        let ghost ev = entry_views(self.entries@);
        let n = self.entries.len();
        let mut i: usize = 0;
        let mut found: usize = n;
        let mut k: usize = 0;
        while k < n
            invariant_except_break
                found == n,
            invariant
                k <= n == self.entries@.len() == ev.len(),
                ev == entry_views(self.entries@),
                forall|j: int| 0 <= j < k ==> (#[trigger] ev[j]).0 != shape@,
            ensures
                found <= n,
                n == ev.len(),
                found == n ==> forall|j: int| 0 <= j < n ==> (#[trigger] ev[j]).0 != shape@,
                found < n ==> ev[found as int].0 == shape@ && forall|j: int| 0 <= j < found ==> (#[trigger] ev[j]).0
                    != shape@,
            decreases n - k,
        {
            assert(ev[k as int].0 == self.entries@[k as int].0@);
            if same_chars(self.entries[k].0.as_str(), shape.as_str()) {
                found = k;
                assert(found < n && ev[found as int].0 == shape@);
                break;
            }
            k = k + 1;
        }
        proof {
            lemma_entry_index_unique(ev, shape@, found as int);
        }
        i = found;
        if i < n {
            let reads = self.reads;
            let ghost sv = shape@;
            self.entries.set(i, (shape, reads));
            assert(entry_views(self.entries@) =~= ev.update(i as int, (sv, reads)));
        } else if n < MAX_UNANSWERED {
            let reads = self.reads;
            let ghost sv = shape@;
            self.entries.push((shape, reads));
            assert(entry_views(self.entries@) =~= ev.push((sv, reads)));
        } else if self.overflow < usize::MAX {
            self.overflow = self.overflow + 1;
        }
    }
}


impl QueryLog {
    /// The shapes last seen in the current read (`current`) or an earlier
    /// one.
    fn shapes(&self, current: bool) -> (r: Vec<String>)
        ensures
            r@.map_values(|t: String| t@) == shapes_when(self@.entries, self@.reads, current),
    {
        let ghost ev = entry_views(self.entries@);
        let mut out: Vec<String> = Vec::new();
        let mut k: usize = 0;
        while k < self.entries.len()
            invariant
                k <= self.entries@.len(),
                ev == entry_views(self.entries@),
                out@.map_values(|t: String| t@) == shapes_when(ev.take(k as int), self.reads, current),
            decreases self.entries@.len() - k,
        {
            proof {
                assert(ev.take(k + 1).drop_last() =~= ev.take(k as int));
                assert(ev.take(k + 1).last() == ev[k as int]);
            }
            let seen_at = self.entries[k].1;
            if (seen_at == self.reads) == current {
                let t = self.entries[k].0.clone();
                let ghost before = out@;
                out.push(t);
                assert(out@.map_values(|t: String| t@) =~= before.map_values(|t: String| t@).push(ev[k as int].0));
            }
            k = k + 1;
        }
        assert(ev.take(k as int) =~= ev);
        out
    }

    /// The diagnosis a failed wait carries: undelivered replies, then the
    /// unanswered queries, named as the likely cause only when nothing
    /// arrived after them.
    pub fn query_note(&self) -> (r: String)
        ensures
            r@ == query_note_spec(self@),
    {
        let mut out = String::new();
        if self.dropped > 0 {
            push_str(&mut out, " — note: the application is not reading its input (");
            push_decimal_text(&mut out, self.dropped as u64);
            push_str(&mut out, " terminal replies could not be delivered)");
        }
        let ghost backlog = out@;
        if self.entries.len() == 0 {
            return out;
        }
        let mut more = String::new();
        if self.overflow > 0 {
            push_str(&mut more, ", and ");
            push_decimal_text(&mut more, self.overflow as u64);
            push_str(&mut more, " more");
        }
        let blocking = self.shapes(true);
        push_str(&mut out, " — note: the application queried the terminal (");
        if blocking.len() == 0 {
            let moved = self.shapes(false);
            crate::screen::push_joined(&mut out, &moved, ", ");
            push_str(&mut out, more.as_str());
            push_str(
                &mut out,
                ") and received no answer, but produced output afterwards, so that is probably not why this wait failed",
            );
        } else {
            crate::screen::push_joined(&mut out, &blocking, ", ");
            push_str(&mut out, more.as_str());
            push_str(&mut out, ") and received no answer; if it is blocked waiting for that reply, this is the cause");
        }
        out
    }

    /// Answer a query, or note it as unanswered: the reply when one is
    /// owed, else `None` and the query's shape recorded.
    pub fn answer(
        &mut self,
        query: &Query,
        respond: bool,
        cursor: (u16, u16),
        size: (u16, u16),
        background: (u8, u8, u8),
        foreground: (u8, u8, u8),
        mode_value: u32,
    ) -> (r: Option<Vec<u8>>)
        ensures
            match (r, reply_spec(query_view(*query), respond, cursor, size, background, foreground, mode_value)) {
                (Some(a), Some(b)) => a@ == b && final(self)@ == old(self)@,
                (None, None) => final(self)@ == note_spec(old(self)@, query_shape_spec(query_view(*query))),
                _ => false,
            },
    {
        let reply = query_reply(query, respond, cursor, size, background, foreground, mode_value);
        if reply.is_none() {
            let shape = query_shape(query);
            self.note_unanswered(shape);
        }
        reply
    }
}

/// Completed frames kept for inspection before the oldest is dropped.
pub const FRAME_HISTORY: usize = 8;

/// The stopping events a read raises, in order, as the emulator consumes
/// it: each query and each frame end, with the tracker going on from where
/// the stop left it (a frame end starts a new frame count).
pub open spec fn read_events(t: TrackerModel, bytes: Seq<u8>) -> Seq<EventModel>
    decreases bytes.len(),
{
    match stop_from(t, bytes, 0) {
        Some(i) => if 0 <= i < bytes.len() {
            let e = step_spec(feed_spec(t, bytes.take(i)), bytes[i]).1;
            let after = feed_spec(t, bytes.take(i + 1));
            let next = if e is SyncEnd {
                TrackerModel { frame_printable: 0, ..after }
            } else {
                after
            };
            seq![e] + read_events(next, bytes.skip(i + 1))
        } else {
            Seq::empty()
        },
        None => Seq::empty(),
    }
}

/// How many frames a list of events completes.
pub open spec fn frames_in(evs: Seq<EventModel>) -> nat
    decreases evs.len(),
{
    if evs.len() == 0 {
        0
    } else {
        frames_in(evs.drop_last()) + if evs.last() is SyncEnd {
            1nat
        } else {
            0nat
        }
    }
}

/// The record with one more read counted.
pub open spec fn counted(m: QueryLogModel) -> QueryLogModel {
    QueryLogModel {
        reads: if m.reads == u64::MAX {
            u64::MAX
        } else {
            (m.reads + 1) as u64
        },
        ..m
    }
}

/// The record and the replies after answering the queries among `evs` in
/// order, the `k`-th event in the context `ctx[k]` (cursor, size as rows
/// and columns, and the state of the mode a `DECRQM` asks about): a reply
/// where one is owed, else the query's shape noted.
pub open spec fn answer_all(
    log: QueryLogModel,
    evs: Seq<EventModel>,
    ctx: Seq<((u16, u16), (u16, u16), u32)>,
    respond: bool,
    background: (u8, u8, u8),
    foreground: (u8, u8, u8),
) -> (QueryLogModel, Seq<Seq<u8>>)
    decreases evs.len(),
{
    if evs.len() == 0 {
        (log, Seq::empty())
    } else {
        let prev = answer_all(log, evs.drop_last(), ctx.drop_last(), respond, background, foreground);
        match evs.last() {
            EventModel::Query(q) => match reply_spec(
                q,
                respond,
                ctx.last().0,
                ctx.last().1,
                background,
                foreground,
                ctx.last().2,
            ) {
                Some(r) => (prev.0, prev.1.push(r)),
                None => (note_spec(prev.0, query_shape_spec(q)), prev.1),
            },
            _ => prev,
        }
    }
}

/// Where the stopping rule leaves a read: a stop lies inside it, and no
/// stop at all means no byte of it stops.
proof fn lemma_stop_from_range(t: TrackerModel, bytes: Seq<u8>, j: int)
    requires
        0 <= j,
    ensures
        stop_from(t, bytes, j) matches Some(i) ==> j <= i < bytes.len(),
        stop_from(t, bytes, j) is None ==> forall|k: int|
            j <= k < bytes.len() ==> !stops(#[trigger] step_spec(feed_spec(t, bytes.take(k)), bytes[k]).1),
    decreases bytes.len() - j,
{
    if j < bytes.len() && !stops(step_spec(feed_spec(t, bytes.take(j)), bytes[j]).1) {
        lemma_stop_from_range(t, bytes, j + 1);
    }
}

/// Take in one read from the terminal: count it, hand it all to the
/// emulator, answer each query as it completes (the replies to send, in
/// order; an unanswered query is noted), and keep a snapshot of each
/// completed frame, at most [`FRAME_HISTORY`] of them, the oldest dropped
/// first.
pub fn take_read(
    emu: &mut Vt100Emulator,
    log: &mut QueryLog,
    frames: &mut Vec<Screen>,
    bytes: &[u8],
    respond: bool,
    background: (u8, u8, u8),
    foreground: (u8, u8, u8),
) -> (replies: Vec<Vec<u8>>)
    requires
        old(emu).wf(),
        old(frames)@.len() <= FRAME_HISTORY,
    ensures
        final(emu).wf(),
        final(emu).fed() == old(emu).fed() + bytes@,
        final(emu).history_bound() == old(emu).history_bound(),
        final(emu).capture_bound() == old(emu).capture_bound(),
        final(frames)@.len() <= FRAME_HISTORY,
        exists|ctx: Seq<((u16, u16), (u16, u16), u32)>|
            ctx.len() == read_events(old(emu).tracker_model(), bytes@).len() && #[trigger] answer_all(
                counted(old(log)@),
                read_events(old(emu).tracker_model(), bytes@),
                ctx,
                respond,
                background,
                foreground,
            ) == (final(log)@, replies@.map_values(|r: Vec<u8>| r@)),
        exists|news: Seq<Screen>|
            news.len() == frames_in(read_events(old(emu).tracker_model(), bytes@)) && #[trigger] newest(
                old(frames)@ + news,
                FRAME_HISTORY as nat,
            ) == final(frames)@,
{
    let ghost evs = read_events(emu.tracker_model(), bytes@);
    let ghost f0 = emu.fed();
    let ghost frames0 = frames@;
    log.count_read();
    let ghost log0 = log@;
    let mut replies: Vec<Vec<u8>> = Vec::new();
    let ghost mut done: Seq<EventModel> = Seq::empty();
    let ghost mut ctx: Seq<((u16, u16), (u16, u16), u32)> = Seq::empty();
    let ghost mut news: Seq<Screen> = Seq::empty();
    let mut off: usize = 0;
    assert(bytes@.skip(0) =~= bytes@);
    assert(bytes@.take(0) =~= Seq::<u8>::empty());
    assert(f0 + Seq::<u8>::empty() =~= f0);
    assert(frames0 + news =~= frames0);
    assert(done + evs =~= evs);
    while off < bytes.len()
        invariant
            off <= bytes@.len(),
            emu.wf(),
            emu.fed() == f0 + bytes@.take(off as int),
            emu.history_bound() == old(emu).history_bound(),
            emu.capture_bound() == old(emu).capture_bound(),
            f0 == old(emu).fed(),
            frames0 == old(frames)@,
            log0 == counted(old(log)@),
            evs == read_events(old(emu).tracker_model(), bytes@),
            done + read_events(emu.tracker_model(), bytes@.skip(off as int)) == evs,
            ctx.len() == done.len(),
            answer_all(log0, done, ctx, respond, background, foreground) == (log@, replies@.map_values(
                |r: Vec<u8>| r@,
            )),
            news.len() == frames_in(done),
            frames@ == newest(frames0 + news, FRAME_HISTORY as nat),
            frames@.len() <= FRAME_HISTORY,
        decreases bytes@.len() - off,
    {
        let rest = vstd::slice::slice_subrange(bytes, off, bytes.len());
        let ghost t = emu.tracker_model();
        assert(rest@ =~= bytes@.skip(off as int));
        let processed = emu.process(rest);
        let c = processed.consumed;
        proof {
            lemma_stop_from_range(t, rest@, 0);
            assert(rest@.take(c as int) =~= bytes@.subrange(off as int, off + c));
            assert(bytes@.take(off as int) + bytes@.subrange(off as int, off + c) =~= bytes@.take(off + c));
            assert(rest@.skip(c as int) =~= bytes@.skip(off + c));
        }
        match processed.stop {
            Some(Stop::Query(q)) => {
                proof {
                    let i = c - 1;
                    assert(stops(step_spec(feed_spec(t, rest@.take(i)), rest@[i]).1));
                    assert(stop_from(t, rest@, 0) == Some(i));
                    assert(read_events(t, rest@) == seq![EventModel::Query(query_view(q))] + read_events(
                        emu.tracker_model(),
                        rest@.skip(c as int),
                    ));
                }
                let screen = emu.snapshot();
                let (row, col, _) = screen.cursor();
                let size = (screen.rows(), screen.cols());
                let mode_value: u32 = match q {
                    Query::RequestMode(m) => emu.mode_state(m).report_value(),
                    _ => 0,
                };
                let ghost before = replies@;
                let reply = log.answer(&q, respond, (row, col), size, background, foreground, mode_value);
                match reply {
                    Some(r) => {
                        replies.push(r);
                    },
                    None => {},
                }
                proof {
                    let e = EventModel::Query(query_view(q));
                    let done1 = done.push(e);
                    let ctx1 = ctx.push(((row, col), size, mode_value));
                    assert(done1.drop_last() =~= done);
                    assert(ctx1.drop_last() =~= ctx);
                    assert(replies@.map_values(|r: Vec<u8>| r@) =~= match reply {
                        Some(r) => before.map_values(|r: Vec<u8>| r@).push(r@),
                        None => before.map_values(|r: Vec<u8>| r@),
                    });
                    assert(done1 + read_events(emu.tracker_model(), bytes@.skip(off + c)) =~= done + (seq![e]
                        + read_events(emu.tracker_model(), bytes@.skip(off + c))));
                    done = done1;
                    ctx = ctx1;
                }
            },
            Some(Stop::FrameComplete(_)) => {
                proof {
                    let i = c - 1;
                    assert(stops(step_spec(feed_spec(t, rest@.take(i)), rest@[i]).1));
                    assert(stop_from(t, rest@, 0) == Some(i));
                    assert(read_events(t, rest@) == seq![EventModel::SyncEnd] + read_events(
                        emu.tracker_model(),
                        rest@.skip(c as int),
                    ));
                }
                let ghost kept = frames@;
                if frames.len() == FRAME_HISTORY {
                    frames.remove(0);
                }
                let shot = emu.snapshot();
                frames.push(shot);
                proof {
                    let x = frames0 + news;
                    let news1 = news.push(shot);
                    assert(frames0 + news1 =~= x.push(shot));
                    if x.len() >= FRAME_HISTORY {
                        assert(frames@ =~= x.push(shot).skip(x.len() + 1 - FRAME_HISTORY));
                    } else {
                        assert(frames@ =~= x.push(shot));
                    }
                    let done1 = done.push(EventModel::SyncEnd);
                    let ctx1 = ctx.push(((0u16, 0u16), (0u16, 0u16), 0u32));
                    assert(done1.drop_last() =~= done);
                    assert(ctx1.drop_last() =~= ctx);
                    assert(answer_all(log0, done1, ctx1, respond, background, foreground) == answer_all(
                        log0,
                        done,
                        ctx,
                        respond,
                        background,
                        foreground,
                    ));
                    ctx = ctx1;
                    assert(done1 + read_events(emu.tracker_model(), bytes@.skip(off + c)) =~= done + (seq![
                        EventModel::SyncEnd,
                    ] + read_events(emu.tracker_model(), bytes@.skip(off + c))));
                    done = done1;
                    news = news1;
                }
            },
            None => {
                proof {
                    assert(read_events(t, rest@) =~= Seq::<EventModel>::empty());
                    assert(bytes@.skip(off + c).len() == 0);
                    assert(read_events(emu.tracker_model(), bytes@.skip(off + c)) =~= Seq::<EventModel>::empty());
                    assert(done + Seq::<EventModel>::empty() =~= done);
                }
            },
        }
        off = off + c;
    }
    assert(bytes@.take(off as int) =~= bytes@);
    proof {
        assert(bytes@.skip(off as int).len() == 0);
        assert(read_events(emu.tracker_model(), bytes@.skip(off as int)) =~= Seq::<EventModel>::empty());
        assert(done + Seq::<EventModel>::empty() =~= done);
    }
    replies
}

} // verus!
