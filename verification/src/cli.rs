//! The decisions of the command-line tool that need no file or terminal:
//! how an operand is named, which wrappers around a saved screen are
//! dropped, how `--color` is read, and whether a program has shown
//! anything yet.
use vstd::prelude::*;
use crate::parse::{debug_text, quoted};
use crate::screen::{Screen, find_chars, first_occurrence, lemma_first_occurrence, starts_with, text_spec, ends_with};
use crate::text::{chars_of, push_str, string_of};
use crate::words::{all_digits, is_blank, is_digit, trim};

verus! {

/// The operand that stands for standard input (or output).
pub open spec fn dash() -> Seq<char> {
    seq!['-']
}

/// How a diagnostic names a file operand: standard input by a name that
/// does not read as a stray flag.
pub open spec fn name_of_spec(path: Seq<char>) -> Seq<char> {
    if path == dash() {
        "<stdin>"@
    } else {
        path
    }
}

/// How a diagnostic names a file operand.
pub fn name_of(path: &str) -> (r: String)
    ensures
        r@ == name_of_spec(path@),
{
    let cs = chars_of(path);
    if cs.len() == 1 && cs[0] == '-' {
        assert(cs@ =~= dash());
        let mut s = String::new();
        push_str(&mut s, "<stdin>");
        return s;
    }
    proof {
        if path@ == dash() {
            assert(cs@.len() == 1 && cs@[0] == '-');
        }
    }
    string_of(cs.as_slice())
}

/// The text an insta snapshot file holds below its `---` header: after the
/// first `\n---\n` that follows an opening `---\n`; the whole text when
/// there is no such header.
pub open spec fn insta_body(text: Seq<char>) -> Seq<char> {
    let open = seq!['-', '-', '-', '\n'];
    let close = seq!['\n', '-', '-', '-', '\n'];
    if starts_with(text, open) {
        let rest = text.skip(4);
        match first_occurrence(rest, close) {
            Some(end) => rest.skip(end + 5),
            None => text,
        }
    } else {
        text
    }
}

/// Drop the `---` header insta writes above a snapshot.
pub fn strip_insta_header(text: &str) -> (r: String)
    ensures
        r@ == insta_body(text@),
{
    let cs = chars_of(text);
    let open: Vec<char> = vec!['-', '-', '-', '\n'];
    let close: Vec<char> = vec!['\n', '-', '-', '-', '\n'];
    assert(open@ =~= seq!['-', '-', '-', '\n']);
    assert(close@ =~= seq!['\n', '-', '-', '-', '\n']);
    if cs.len() < 4 || !crate::screen::chars_equal(vstd::slice::slice_subrange(cs.as_slice(), 0, 4), open.as_slice()) {
        proof {
            if cs@.len() >= 4 {
                assert(cs@.subrange(0, 4) =~= cs@.take(4));
            }
        }
        return string_of(cs.as_slice());
    }
    assert(cs@.subrange(0, 4) =~= cs@.take(4));
    let rest = vstd::slice::slice_subrange(cs.as_slice(), 4, cs.len());
    assert(rest@ =~= cs@.skip(4));
    match find_chars(rest, close.as_slice()) {
        Some(end) => {
            proof {
                lemma_first_occurrence(rest@, close@, end as int);
            }
            let body = vstd::slice::slice_subrange(rest, end + 5, rest.len());
            assert(body@ =~= rest@.skip(end + 5));
            string_of(body)
        },
        None => string_of(cs.as_slice()),
    }
}

/// `text` without its trailing line feeds.
pub open spec fn trim_newlines(text: Seq<char>) -> Seq<char>
    decreases text.len(),
{
    if text.len() > 0 && text.last() == '\n' {
        trim_newlines(text.drop_last())
    } else {
        text
    }
}

/// The index just after the last line feed of `s`, or zero.
pub open spec fn last_line_start(s: Seq<char>) -> int
    decreases s.len(),
{
    if s.len() == 0 {
        0
    } else if s.last() == '\n' {
        s.len() as int
    } else {
        last_line_start(s.drop_last())
    }
}

/// Whether `line` is one of the trailers `inspect` once wrote under a saved
/// screen: `--- exited: … ---`, `--- still running… ---` or `--- waiting for
/// the program failed: … ---`.
pub open spec fn is_trailer(line: Seq<char>) -> bool {
    ends_with(line, " ---"@) && (starts_with(line, "--- exited: "@) || starts_with(line, "--- still running"@)
        || starts_with(line, "--- waiting for the program failed: "@))
}

/// A saved screen without the trailer an old `inspect` wrote under it: the
/// last non-blank line is dropped when it is exactly such a trailer.
pub open spec fn without_trailer(text: Seq<char>) -> Seq<char> {
    let trimmed = trim_newlines(text);
    let start = last_line_start(trimmed);
    if is_trailer(trimmed.skip(start)) {
        trimmed.take(start)
    } else {
        text
    }
}

/// Whether `v` ends with `t`.
fn has_suffix(v: &[char], t: &str) -> (r: bool)
    ensures
        r == ends_with(v@, t@),
{
    let b = chars_of(t);
    if b.len() > v.len() {
        return false;
    }
    let tail = vstd::slice::slice_subrange(v, v.len() - b.len(), v.len());
    assert(tail@ =~= v@.skip(v@.len() - b@.len()));
    crate::screen::chars_equal(tail, b.as_slice())
}

/// Whether `v` starts with `p`.
pub(crate) fn has_prefix(v: &[char], p: &str) -> (r: bool)
    ensures
        r == starts_with(v@, p@),
{
    let b = chars_of(p);
    if b.len() > v.len() {
        return false;
    }
    let head = vstd::slice::slice_subrange(v, 0, b.len());
    assert(head@ =~= v@.take(b@.len() as int));
    crate::screen::chars_equal(head, b.as_slice())
}

/// Drop the `--- exited: … ---` trailer an old `inspect` wrote under a
/// saved screen; anything else, a grid row starting with `---` included, is
/// left alone.
pub fn strip_inspect_trailer(text: &str) -> (r: String)
    ensures
        r@ == without_trailer(text@),
{
    let cs = chars_of(text);
    let mut n = cs.len();
    assert(cs@.take(n as int) =~= cs@);
    while n > 0 && cs[n - 1] == '\n'
        invariant
            n <= cs@.len(),
            trim_newlines(cs@) == trim_newlines(cs@.take(n as int)),
        decreases n,
    {
        assert(cs@.take(n as int).drop_last() =~= cs@.take(n - 1));
        n = n - 1;
    }
    let trimmed = vstd::slice::slice_subrange(cs.as_slice(), 0, n);
    assert(trimmed@ =~= cs@.take(n as int));
    assert(trim_newlines(trimmed@) == trimmed@);
    let mut start = n;
    assert(trimmed@.take(start as int) =~= trimmed@);
    while start > 0 && trimmed[start - 1] != '\n'
        invariant
            start <= n == trimmed@.len(),
            last_line_start(trimmed@) == last_line_start(trimmed@.take(start as int)),
        decreases start,
    {
        assert(trimmed@.take(start as int).drop_last() =~= trimmed@.take(start - 1));
        start = start - 1;
    }
    let last = vstd::slice::slice_subrange(trimmed, start, n);
    assert(last@ =~= trimmed@.skip(start as int));
    let trailer = has_suffix(last, " ---") && (has_prefix(last, "--- exited: ") || has_prefix(last, "--- still running")
        || has_prefix(last, "--- waiting for the program failed: "));
    if trailer {
        let head = vstd::slice::slice_subrange(trimmed, 0, start);
        assert(head@ =~= trimmed@.take(start as int));
        string_of(head)
    } else {
        string_of(cs.as_slice())
    }
}

/// When `diff` colours its output.
#[derive(Debug, Clone, Copy, PartialEq, Eq, Structural)]
pub enum ColorWhen {
    /// On a terminal, unless `NO_COLOR` is set.
    Auto,
    /// Always.
    Always,
    /// Never.
    Never,
}

/// The WHEN word `--color` takes, or the diagnostic naming anything else.
pub open spec fn color_when_spec(word: Seq<char>) -> Result<ColorWhen, Seq<char>> {
    if word == "auto"@ {
        Ok(ColorWhen::Auto)
    } else if word == "always"@ {
        Ok(ColorWhen::Always)
    } else if word == "never"@ {
        Ok(ColorWhen::Never)
    } else {
        Err("--color takes auto, always or never, got "@ + debug_text(word))
    }
}

fn is_text(v: &[char], w: &str) -> (r: bool)
    ensures
        r == (v@ == w@),
{
    let b = chars_of(w);
    if v.len() != b.len() {
        return false;
    }
    crate::screen::chars_equal(v, b.as_slice())
}

/// The WHEN word `--color` takes, in either spelling of the flag.
pub fn color_when(word: &str) -> (r: Result<ColorWhen, String>)
    ensures
        match (r, color_when_spec(word@)) {
            (Ok(a), Ok(b)) => a == b,
            (Err(a), Err(b)) => a@ == b,
            _ => false,
        },
{
    let cs = chars_of(word);
    if is_text(cs.as_slice(), "auto") {
        Ok(ColorWhen::Auto)
    } else if is_text(cs.as_slice(), "always") {
        Ok(ColorWhen::Always)
    } else if is_text(cs.as_slice(), "never") {
        Ok(ColorWhen::Never)
    } else {
        let mut m = String::new();
        push_str(&mut m, "--color takes auto, always or never, got ");
        let q = quoted(cs.as_slice());
        push_str(&mut m, q.as_str());
        Err(m)
    }
}

/// Whether `line` is one of the changed-row lines of a screen diff's plain
/// rendering: before its first `│`, a space-terminated run of digits and
/// spaces holding at least one digit.
pub open spec fn row_line_spec(line: Seq<char>) -> bool {
    let bar = crate::screen::index_of(line, '│');
    bar < line.len() && bar > 0 && line[bar - 1] == ' ' && (exists|j: int| 0 <= j < bar - 1 && is_digit(line[j]))
        && (forall|j: int| 0 <= j < bar - 1 ==> is_digit(#[trigger] line[j]) || line[j] == ' ')
}

/// Whether `line` is a changed-row line of a screen diff's plain rendering.
pub fn is_row_line(line: &str) -> (r: bool)
    ensures
        r == row_line_spec(line@),
{
    let cs = chars_of(line);
    row_line_chars(cs.as_slice())
}

/// Whether the characters `cs` are a changed-row line.
pub(crate) fn row_line_chars(cs: &[char]) -> (r: bool)
    ensures
        r == row_line_spec(cs@),
{
    let n = cs.len();
    let mut bar: usize = 0;
    while bar < n && cs[bar] != '│'
        invariant
            bar <= n == cs@.len(),
            forall|j: int| 0 <= j < bar ==> cs@[j] != '│',
        decreases n - bar,
    {
        bar = bar + 1;
    }
    proof {
        crate::screen::lemma_index_of_unique(cs@, '│', bar as int);
    }
    if bar == n || bar == 0 || cs[bar - 1] != ' ' {
        return false;
    }
    let mut any = false;
    let mut j: usize = 0;
    while j < bar - 1
        invariant
            j <= bar - 1,
            bar < n == cs@.len(),
            bar > 0,
            bar as int == crate::screen::index_of(cs@, '│'),
            cs@[bar - 1] == ' ',
            forall|q: int| 0 <= q < j ==> is_digit(#[trigger] cs@[q]) || cs@[q] == ' ',
            any <==> exists|q: int| 0 <= q < j && is_digit(cs@[q]),
        decreases bar - 1 - j,
    {
        let c = cs[j];
        if '0' <= c && c <= '9' {
            any = true;
        } else if c != ' ' {
            assert(!(is_digit(cs@[j as int]) || cs@[j as int] == ' '));
            return false;
        }
        j = j + 1;
    }
    any
}

/// Whether a program has put anything on the grid yet: a cursor that has
/// moved, or a visible character.
pub open spec fn shows_something_spec(cursor: (u16, u16), text: Seq<char>) -> bool {
    cursor != (0u16, 0u16) || !is_blank(text)
}

/// Whether the program has shown anything yet.
pub fn shows_something(screen: &Screen) -> (r: bool)
    ensures
        r == shows_something_spec((screen@.cursor_row, screen@.cursor_col), text_spec(screen@)),
{
    let (row, col, _) = screen.cursor();
    if row != 0 || col != 0 {
        return true;
    }
    let t = screen.text();
    let cs = chars_of(t.as_str());
    !crate::words::blank(cs.as_slice())
}

} // verus!
