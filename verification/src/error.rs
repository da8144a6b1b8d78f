//! Errors of terminal operations. When a wait fails the message must show
//! what the terminal looked like, so the errors that end a wait or a write
//! carry the [`Screen`] of that moment and print it.
use vstd::prelude::*;
use std::time::Duration;
use crate::screen::{Screen, ScreenModel, display_spec, ends_with};
use crate::text::{chars_of, decimal_text, push_char, push_decimal_text, push_str};

verus! {

/// Errors returned by terminal operations.
#[derive(Debug)]
#[non_exhaustive]
pub enum Error {
    /// A wait ran past its deadline; the screen of that moment is embedded.
    Timeout {
        /// What was awaited.
        waiting_for: String,
        /// The deadline that expired.
        timeout: Duration,
        /// The screen when the deadline expired.
        screen: Screen,
    },
    /// The terminal reached end-of-file while a wait's condition was unmet.
    Eof {
        /// What was awaited.
        waiting_for: String,
        /// The final screen.
        screen: Screen,
    },
    /// Spawning the child process failed.
    Spawn {
        /// The command line that failed to spawn.
        command: String,
        /// The underlying reason.
        reason: String,
    },
    /// A terminal control operation failed.
    Pty(String),
    /// An operating-system I/O error, by its message.
    Io(String),
    /// A terminal size was rejected before anything was spawned or sent.
    Size(String),
    /// The emulator failed and the screen stopped advancing at the one
    /// embedded here.
    Emulator {
        /// What the emulator reported.
        detail: String,
        /// The last screen before the failure.
        screen: Screen,
    },
    /// Input or control the child cannot receive.
    Input(String),
    /// A saved screen could not be read back; the message names the line.
    Parse(String),
    /// Input could not be delivered; the screen of that moment is embedded.
    Write {
        /// What was being sent and why the write failed.
        what: String,
        /// The screen when the write failed.
        screen: Screen,
    },
}

/// The screen an error carries, if any.
pub open spec fn screen_of(e: Error) -> Option<Screen> {
    match e {
        Error::Timeout { screen, .. } => Some(screen),
        Error::Eof { screen, .. } => Some(screen),
        Error::Emulator { screen, .. } => Some(screen),
        Error::Write { screen, .. } => Some(screen),
        _ => None,
    }
}

/// The message of an error, `duration` standing for the printed deadline of
/// a timeout.
pub open spec fn message_spec(e: Error, duration: Seq<char>) -> Seq<char> {
    match e {
        Error::Timeout { waiting_for, screen, .. } => "timed out after "@ + duration + " while waiting for "@
            + waiting_for@ + "\n--- screen at timeout ---\n"@ + display_spec(screen@),
        Error::Eof { waiting_for, screen } => "terminal closed (EOF) while waiting for "@ + waiting_for@
            + "\n--- final screen ---\n"@ + display_spec(screen@),
        Error::Spawn { command, reason } => "failed to spawn `"@ + command@ + "`: "@ + reason@,
        Error::Pty(s) => "PTY error: "@ + s@,
        Error::Io(s) => "i/o error: "@ + s@,
        Error::Size(s) => "invalid terminal size: "@ + s@,
        Error::Emulator { detail, screen } => "the terminal emulator failed and the screen stopped advancing: "@
            + detail@ + "\n--- last screen before the failure ---\n"@ + display_spec(screen@),
        Error::Input(s) => "input not receivable: "@ + s@,
        Error::Parse(s) => "could not parse a saved screen: "@ + s@,
        Error::Write { what, screen } => "failed to send "@ + what@ + "\n--- screen at the failed write ---\n"@
            + display_spec(screen@),
    }
}

proof fn lemma_ends_with_concat(p: Seq<char>, t: Seq<char>)
    ensures
        ends_with(p + t, t),
{
    assert((p + t).skip((p + t).len() - t.len()) =~= t);
}

/// An error that carries a screen prints it last: whatever the printed
/// deadline, its message ends with the screen's snapshot rendering.
pub proof fn lemma_message_ends_with_screen(e: Error, duration: Seq<char>)
    requires
        screen_of(e) is Some,
    ensures
        ends_with(message_spec(e, duration), display_spec(screen_of(e)->0@)),
{
    match e {
        Error::Timeout { waiting_for, screen, .. } => {
            lemma_ends_with_concat(
                "timed out after "@ + duration + " while waiting for "@ + waiting_for@ + "\n--- screen at timeout ---\n"@,
                display_spec(screen@),
            );
        },
        Error::Eof { waiting_for, screen } => {
            lemma_ends_with_concat(
                "terminal closed (EOF) while waiting for "@ + waiting_for@ + "\n--- final screen ---\n"@,
                display_spec(screen@),
            );
        },
        Error::Emulator { detail, screen } => {
            lemma_ends_with_concat(
                "the terminal emulator failed and the screen stopped advancing: "@ + detail@
                    + "\n--- last screen before the failure ---\n"@,
                display_spec(screen@),
            );
        },
        Error::Write { what, screen } => {
            lemma_ends_with_concat(
                "failed to send "@ + what@ + "\n--- screen at the failed write ---\n"@,
                display_spec(screen@),
            );
        },
        _ => {},
    }
}

/// A duration as `Duration`'s `Debug` prints it (`250ms`, `1.5s`).
pub uninterp spec fn duration_debug(d: Duration) -> Seq<char>;

/// `<Duration as Debug>::fmt`: a deadline as `Debug` prints it. Claimed:
/// the text is [`duration_debug`] of the duration (a function of the
/// duration alone); what that text is, is not stated here.
#[verifier::external_body]
fn duration_text(d: &Duration) -> (r: String)
    ensures
        r@ == duration_debug(*d),
{
    format!("{d:?}")
}

impl Error {
    /// The screen embedded in a timeout, an end-of-file, an emulator
    /// failure or a failed write; `None` for the other errors.
    pub fn screen(&self) -> (r: Option<&Screen>)
        ensures
            match r {
                Some(s) => screen_of(*self) == Some(*s),
                None => screen_of(*self) is None,
            },
    {
        match self {
            Error::Timeout { screen, .. } => Some(screen),
            Error::Eof { screen, .. } => Some(screen),
            Error::Emulator { screen, .. } => Some(screen),
            Error::Write { screen, .. } => Some(screen),
            _ => None,
        }
    }

    /// The error's message. Those that carry a screen end with a marker
    /// line and the screen's snapshot rendering, so a log alone shows what
    /// the application displayed.
    pub fn message(&self) -> (r: String)
        ensures
            !(*self is Timeout) ==> r@ == message_spec(*self, Seq::empty()),
            *self matches Error::Timeout { timeout, .. } ==> r@ == message_spec(*self, duration_debug(timeout)),
    {
        let mut out = String::new();
        match self {
            Error::Timeout { waiting_for, timeout, screen } => {
                push_str(&mut out, "timed out after ");
                let d = duration_text(timeout);
                push_str(&mut out, d.as_str());
                push_str(&mut out, " while waiting for ");
                push_str(&mut out, waiting_for.as_str());
                push_str(&mut out, "\n--- screen at timeout ---\n");
                let dump = screen.display_text();
                push_str(&mut out, dump.as_str());
                assert(out@ =~= message_spec(*self, d@));
            },
            Error::Eof { waiting_for, screen } => {
                push_str(&mut out, "terminal closed (EOF) while waiting for ");
                push_str(&mut out, waiting_for.as_str());
                push_str(&mut out, "\n--- final screen ---\n");
                let dump = screen.display_text();
                push_str(&mut out, dump.as_str());
                assert(out@ =~= message_spec(*self, Seq::empty()));
            },
            Error::Spawn { command, reason } => {
                push_str(&mut out, "failed to spawn `");
                push_str(&mut out, command.as_str());
                push_str(&mut out, "`: ");
                push_str(&mut out, reason.as_str());
                assert(out@ =~= message_spec(*self, Seq::empty()));
            },
            Error::Pty(s) => {
                push_str(&mut out, "PTY error: ");
                push_str(&mut out, s.as_str());
            },
            Error::Io(s) => {
                push_str(&mut out, "i/o error: ");
                push_str(&mut out, s.as_str());
            },
            Error::Size(s) => {
                push_str(&mut out, "invalid terminal size: ");
                push_str(&mut out, s.as_str());
            },
            Error::Emulator { detail, screen } => {
                push_str(&mut out, "the terminal emulator failed and the screen stopped advancing: ");
                push_str(&mut out, detail.as_str());
                push_str(&mut out, "\n--- last screen before the failure ---\n");
                let dump = screen.display_text();
                push_str(&mut out, dump.as_str());
                assert(out@ =~= message_spec(*self, Seq::empty()));
            },
            Error::Input(s) => {
                push_str(&mut out, "input not receivable: ");
                push_str(&mut out, s.as_str());
            },
            Error::Parse(s) => {
                push_str(&mut out, "could not parse a saved screen: ");
                push_str(&mut out, s.as_str());
            },
            Error::Write { what, screen } => {
                push_str(&mut out, "failed to send ");
                push_str(&mut out, what.as_str());
                push_str(&mut out, "\n--- screen at the failed write ---\n");
                let dump = screen.display_text();
                push_str(&mut out, dump.as_str());
                assert(out@ =~= message_spec(*self, Seq::empty()));
            },
        }
        out
    }
}

/// The environment variable naming the directory failing screens are
/// written to; unset or empty means off.
pub const ARTIFACT_VAR: &'static str = "TERMLENS_ARTIFACT_DIR";

/// A character of a test's name as it stands in an artifact's file name:
/// ASCII letters, digits, `-` and `_` kept, anything else `_`.
pub open spec fn artifact_char(c: char) -> char {
    if ('a' <= c <= 'z') || ('A' <= c <= 'Z') || ('0' <= c <= '9') || c == '-' || c == '_' {
        c
    } else {
        '_'
    }
}

/// The file name of the `n`-th screen written for the test named `test`:
/// `<test>-<n>.screen.json`, or `.screen.txt` for the styled text form.
pub open spec fn artifact_name_spec(test: Seq<char>, n: nat, json: bool) -> Seq<char> {
    test.map_values(|c: char| artifact_char(c)) + "-"@ + decimal_text(n) + if json {
        ".screen.json"@
    } else {
        ".screen.txt"@
    }
}

/// The file name of the `n`-th screen written for the test named `test`.
pub fn artifact_name(test: &str, n: u64, json: bool) -> (r: String)
    ensures
        r@ == artifact_name_spec(test@, n as nat, json),
{
    let cs = chars_of(test);
    let mut out = String::new();
    let mut i: usize = 0;
    while i < cs.len()
        invariant
            i <= cs@.len(),
            cs@ == test@,
            out@ == test@.take(i as int).map_values(|c: char| artifact_char(c)),
        decreases cs@.len() - i,
    {
        let c = cs[i];
        let keep = ('a' <= c && c <= 'z') || ('A' <= c && c <= 'Z') || ('0' <= c && c <= '9') || c == '-' || c == '_';
        let ghost before = out@;
        push_char(&mut out, if keep { c } else { '_' });
        assert(test@.take(i + 1).map_values(|c: char| artifact_char(c)) =~= before.push(artifact_char(c)));
        i = i + 1;
    }
    assert(test@.take(i as int) =~= test@);
    push_str(&mut out, "-");
    push_decimal_text(&mut out, n);
    if json {
        push_str(&mut out, ".screen.json");
    } else {
        push_str(&mut out, ".screen.txt");
    }
    out
}

} // verus!
