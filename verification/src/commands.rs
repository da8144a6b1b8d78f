//! What the `diff` and `render` commands were asked to do, read from their
//! arguments: the files, the options, or the diagnostic that stops them.
use vstd::prelude::*;
use crate::cli::{ColorWhen, color_when, color_when_spec, dash};
use crate::parse::{debug_text, quoted};
use crate::screen::{index_of, lemma_index_of_unique, starts_with};
use crate::words::{parse_u64, uint_text};
use crate::text::{chars_of, push_str, string_of};

verus! {

/// What `termlens diff` was asked to do.
pub enum DiffCommand {
    /// Print the usage text.
    Help,
    /// Print the version.
    Version,
    /// Print the usage text to standard error and fail: not two operands.
    Usage,
    /// Fail with this diagnostic.
    Fail(String),
    /// Compare the screen in `before` with the one in `after`.
    Compare { color: ColorWhen, before: String, after: String },
}

/// A `diff` decision, as plain values.
pub enum DiffPlan {
    Help,
    Version,
    Usage,
    Fail(Seq<char>),
    Compare(ColorWhen, Seq<char>, Seq<char>),
}

impl DiffCommand {
    /// The decision as plain values.
    pub open spec fn plan(self) -> DiffPlan {
        match self {
            DiffCommand::Help => DiffPlan::Help,
            DiffCommand::Version => DiffPlan::Version,
            DiffCommand::Usage => DiffPlan::Usage,
            DiffCommand::Fail(m) => DiffPlan::Fail(m@),
            DiffCommand::Compare { color, before, after } => DiffPlan::Compare(color, before@, after@),
        }
    }
}

/// Whether an argument is an option: it starts with `-` and is not the
/// lone `-` that names standard input.
pub open spec fn is_option(a: Seq<char>) -> bool {
    a.len() > 0 && a[0] == '-' && a != dash()
}

/// The decision once every argument is read: two operands, not both `-`.
pub open spec fn diff_finish(color: ColorWhen, files: Seq<Seq<char>>) -> DiffPlan {
    if files.len() != 2 {
        DiffPlan::Usage
    } else if files[0] == dash() && files[1] == dash() {
        DiffPlan::Fail("only one of the two screens can be `-`: stdin is read once"@)
    } else {
        DiffPlan::Compare(color, files[0], files[1])
    }
}

/// `diff`'s arguments from `i` on, with the `--color` choice and the
/// operands read so far. `--help` and `--version` answer at once; `--color`
/// takes the next argument or the text after `=`; any other option is
/// refused; everything else is an operand.
pub open spec fn diff_scan(args: Seq<Seq<char>>, i: int, color: ColorWhen, files: Seq<Seq<char>>) -> DiffPlan
    decreases args.len() - i,
{
    if i < 0 || i >= args.len() {
        diff_finish(color, files)
    } else {
        let a = args[i];
        if a == "-h"@ || a == "--help"@ {
            DiffPlan::Help
        } else if a == "--version"@ {
            DiffPlan::Version
        } else if a == "--color"@ {
            if i + 1 >= args.len() {
                DiffPlan::Fail("--color needs a WHEN argument"@)
            } else {
                match color_when_spec(args[i + 1]) {
                    Ok(w) => diff_scan(args, i + 2, w, files),
                    Err(e) => DiffPlan::Fail(e),
                }
            }
        } else if starts_with(a, "--color="@) {
            match color_when_spec(a.skip(8)) {
                Ok(w) => diff_scan(args, i + 1, w, files),
                Err(e) => DiffPlan::Fail(e),
            }
        } else if is_option(a) {
            DiffPlan::Fail("unknown option "@ + debug_text(a) + " (try `termlens diff --help`)"@)
        } else {
            diff_scan(args, i + 1, color, files.push(a))
        }
    }
}

/// The plain values of the arguments.
pub open spec fn arg_views(args: Seq<String>) -> Seq<Seq<char>> {
    args.map_values(|a: String| a@)
}

fn is_text(v: &[char], w: &str) -> (r: bool)
    ensures
        r == (v@ == w@),
{
    let b = chars_of(w);
    if v.len() != b.len() {
        return false;
    }
    crate::screen::chars_equal(v, b.as_slice())
}

fn has_prefix(v: &[char], p: &str) -> (r: bool)
    ensures
        r == starts_with(v@, p@),
{
    crate::cli::has_prefix(v, p)
}

fn option_like(v: &[char]) -> (r: bool)
    ensures
        r == is_option(v@),
{
    let r = v.len() > 0 && v[0] == '-' && v.len() != 1;
    proof {
        if v@.len() == 1 && v@[0] == '-' {
            assert(v@ =~= dash());
        }
    }
    r
}

fn message(text: &str) -> (r: String)
    ensures
        r@ == text@,
{
    let mut m = String::new();
    push_str(&mut m, text);
    m
}

fn unknown_option(v: &[char], hint: &str) -> (r: String)
    ensures
        r@ == "unknown option "@ + debug_text(v@) + hint@,
{
    let mut m = String::new();
    push_str(&mut m, "unknown option ");
    let q = quoted(v);
    push_str(&mut m, q.as_str());
    push_str(&mut m, hint);
    m
}

/// What `termlens diff` was asked to do: help, the version, a comparison
/// of two operands (one of them at most `-`) with a `--color` choice that
/// is `auto` unless given, the usage when there are not two operands, or
/// the diagnostic for a bad option.
pub fn diff_command(args: &[String]) -> (r: DiffCommand)
    ensures
        r.plan() == diff_scan(arg_views(args@), 0, ColorWhen::Auto, Seq::empty()),
{
    let ghost all = arg_views(args@);
    let mut color = ColorWhen::Auto;
    let mut files: Vec<String> = Vec::new();
    let mut i: usize = 0;
    assert(arg_views(files@) =~= Seq::<Seq<char>>::empty());
    while i < args.len()
        invariant
            i <= args@.len(),
            all == arg_views(args@),
            diff_scan(all, i as int, color, arg_views(files@)) == diff_scan(all, 0, ColorWhen::Auto, Seq::empty()),
        decreases args@.len() - i,
    {
        let a = chars_of(args[i].as_str());
        assert(all[i as int] == a@);
        if is_text(a.as_slice(), "-h") || is_text(a.as_slice(), "--help") {
            return DiffCommand::Help;
        } else if is_text(a.as_slice(), "--version") {
            return DiffCommand::Version;
        } else if is_text(a.as_slice(), "--color") {
            if i + 1 >= args.len() {
                return DiffCommand::Fail(message("--color needs a WHEN argument"));
            }
            assert(all[i + 1] == args@[i + 1]@);
            match color_when(args[i + 1].as_str()) {
                Ok(w) => {
                    color = w;
                },
                Err(e) => {
                    return DiffCommand::Fail(e);
                },
            }
            i = i + 2;
        } else if has_prefix(a.as_slice(), "--color=") {
            proof {
                reveal_strlit("--color=");
            }
            let rest = string_of(vstd::slice::slice_subrange(a.as_slice(), 8, a.len()));
            assert(rest@ =~= a@.skip(8));
            match color_when(rest.as_str()) {
                Ok(w) => {
                    color = w;
                },
                Err(e) => {
                    return DiffCommand::Fail(e);
                },
            }
            i = i + 1;
        } else if option_like(a.as_slice()) {
            return DiffCommand::Fail(unknown_option(a.as_slice(), " (try `termlens diff --help`)"));
        } else {
            let ghost before = files@;
            files.push(string_of(a.as_slice()));
            assert(arg_views(files@) =~= arg_views(before).push(a@));
            i = i + 1;
        }
    }
    proof {
        reveal_strlit("-");
    }
    if files.len() != 2 {
        return DiffCommand::Usage;
    }
    let fa = chars_of(files[0].as_str());
    let fb = chars_of(files[1].as_str());
    assert(arg_views(files@)[0] == fa@);
    assert(arg_views(files@)[1] == fb@);
    assert("-"@ =~= dash());
    if is_text(fa.as_slice(), "-") && is_text(fb.as_slice(), "-") {
        return DiffCommand::Fail(message("only one of the two screens can be `-`: stdin is read once"));
    }
    let ghost fv = arg_views(files@);
    let after = files.pop().unwrap();
    let before = files.pop().unwrap();
    assert(before@ == fv[0] && after@ == fv[1]);
    DiffCommand::Compare { color, before, after }
}

/// The rendering `termlens render` was asked for.
#[derive(Debug, Clone, Copy, PartialEq, Eq, Structural)]
pub enum RenderFormat {
    /// `--svg`: an SVG image.
    Svg,
    /// `--html`: an HTML fragment.
    Html,
    /// `--ansi`: the screen in colour for a terminal.
    Ansi,
    /// `--text`: the text format with its `styles:` block.
    Text,
    /// `--json`: the JSON document.
    Json,
}

/// What `termlens render` was asked to do.
pub enum RenderCommand {
    /// Print the usage text.
    Help,
    /// Print the version.
    Version,
    /// Print the usage text to standard error and fail: no format, or not
    /// exactly one operand.
    Usage,
    /// Fail with this diagnostic.
    Fail(String),
    /// Render the screen in `file` as `format`, to `out` when given.
    Render { format: RenderFormat, out: Option<String>, file: String },
}

/// A `render` decision, as plain values.
pub enum RenderPlan {
    Help,
    Version,
    Usage,
    Fail(Seq<char>),
    Render(RenderFormat, Option<Seq<char>>, Seq<char>),
}

impl RenderCommand {
    /// The decision as plain values.
    pub open spec fn plan(self) -> RenderPlan {
        match self {
            RenderCommand::Help => RenderPlan::Help,
            RenderCommand::Version => RenderPlan::Version,
            RenderCommand::Usage => RenderPlan::Usage,
            RenderCommand::Fail(m) => RenderPlan::Fail(m@),
            RenderCommand::Render { format, out, file } => RenderPlan::Render(
                format,
                match out {
                    Some(o) => Some(o@),
                    None => None,
                },
                file@,
            ),
        }
    }
}

/// The format a flag names, if it names one.
pub open spec fn format_flag(a: Seq<char>) -> Option<RenderFormat> {
    if a == "--svg"@ {
        Some(RenderFormat::Svg)
    } else if a == "--html"@ {
        Some(RenderFormat::Html)
    } else if a == "--ansi"@ {
        Some(RenderFormat::Ansi)
    } else if a == "--text"@ {
        Some(RenderFormat::Text)
    } else if a == "--json"@ {
        Some(RenderFormat::Json)
    } else {
        None
    }
}

/// `render`'s arguments from `i` on, with the format (the last one named
/// wins), the output path and the operands read so far.
pub open spec fn render_scan(
    args: Seq<Seq<char>>,
    i: int,
    format: Option<RenderFormat>,
    out: Option<Seq<char>>,
    files: Seq<Seq<char>>,
) -> RenderPlan
    decreases args.len() - i,
{
    if i < 0 || i >= args.len() {
        match format {
            Some(f) => if files.len() == 1 {
                RenderPlan::Render(f, out, files[0])
            } else {
                RenderPlan::Usage
            },
            None => RenderPlan::Usage,
        }
    } else {
        let a = args[i];
        if a == "-h"@ || a == "--help"@ {
            RenderPlan::Help
        } else if a == "--version"@ {
            RenderPlan::Version
        } else if format_flag(a) is Some {
            render_scan(args, i + 1, format_flag(a), out, files)
        } else if a == "--out"@ {
            if i + 1 >= args.len() {
                RenderPlan::Fail("--out needs a PATH argument"@)
            } else {
                render_scan(args, i + 2, format, Some(args[i + 1]), files)
            }
        } else if starts_with(a, "--out="@) {
            if a.len() == 6 {
                RenderPlan::Fail("--out needs a PATH argument"@)
            } else {
                render_scan(args, i + 1, format, Some(a.skip(6)), files)
            }
        } else if is_option(a) {
            RenderPlan::Fail("unknown option "@ + debug_text(a) + " (try `termlens render --help`)"@)
        } else {
            render_scan(args, i + 1, format, out, files.push(a))
        }
    }
}

fn format_of(v: &[char]) -> (r: Option<RenderFormat>)
    ensures
        r == format_flag(v@),
{
    if is_text(v, "--svg") {
        Some(RenderFormat::Svg)
    } else if is_text(v, "--html") {
        Some(RenderFormat::Html)
    } else if is_text(v, "--ansi") {
        Some(RenderFormat::Ansi)
    } else if is_text(v, "--text") {
        Some(RenderFormat::Text)
    } else if is_text(v, "--json") {
        Some(RenderFormat::Json)
    } else {
        None
    }
}

/// What `termlens render` was asked to do: help, the version, a rendering
/// of the one operand in the last format named, to the `--out` path when
/// one is given, the usage when there is no format or not exactly one
/// operand, or the diagnostic for a bad option or a missing path.
pub fn render_command(args: &[String]) -> (r: RenderCommand)
    ensures
        r.plan() == render_scan(arg_views(args@), 0, None, None, Seq::empty()),
{
    let ghost all = arg_views(args@);
    let mut format: Option<RenderFormat> = None;
    let mut out: Option<String> = None;
    let mut files: Vec<String> = Vec::new();
    let mut i: usize = 0;
    assert(arg_views(files@) =~= Seq::<Seq<char>>::empty());
    while i < args.len()
        invariant
            i <= args@.len(),
            all == arg_views(args@),
            render_scan(
                all,
                i as int,
                format,
                match out {
                    Some(o) => Some(o@),
                    None => None,
                },
                arg_views(files@),
            ) == render_scan(all, 0, None, None, Seq::empty()),
        decreases args@.len() - i,
    {
        let a = chars_of(args[i].as_str());
        assert(all[i as int] == a@);
        let f = format_of(a.as_slice());
        if is_text(a.as_slice(), "-h") || is_text(a.as_slice(), "--help") {
            return RenderCommand::Help;
        } else if is_text(a.as_slice(), "--version") {
            return RenderCommand::Version;
        } else if f.is_some() {
            format = f;
            i = i + 1;
        } else if is_text(a.as_slice(), "--out") {
            if i + 1 >= args.len() {
                return RenderCommand::Fail(message("--out needs a PATH argument"));
            }
            assert(all[i + 1] == args@[i + 1]@);
            out = Some(string_of(chars_of(args[i + 1].as_str()).as_slice()));
            i = i + 2;
        } else if has_prefix(a.as_slice(), "--out=") {
            proof {
                reveal_strlit("--out=");
            }
            if a.len() == 6 {
                return RenderCommand::Fail(message("--out needs a PATH argument"));
            }
            let rest = string_of(vstd::slice::slice_subrange(a.as_slice(), 6, a.len()));
            assert(rest@ =~= a@.skip(6));
            out = Some(rest);
            i = i + 1;
        } else if option_like(a.as_slice()) {
            return RenderCommand::Fail(unknown_option(a.as_slice(), " (try `termlens render --help`)"));
        } else {
            let ghost before = files@;
            files.push(string_of(a.as_slice()));
            assert(arg_views(files@) =~= arg_views(before).push(a@));
            i = i + 1;
        }
    }
    match format {
        None => RenderCommand::Usage,
        Some(format) => {
            if files.len() != 1 {
                return RenderCommand::Usage;
            }
            let ghost fv = arg_views(files@);
            let file = files.pop().unwrap();
            assert(file@ == fv[0]);
            RenderCommand::Render { format, out, file }
        },
    }
}

/// The options `inspect` has read, as plain values.
pub struct InspectModel {
    pub size: (u16, u16),
    pub timeout_secs: u64,
    pub idle_millis: u64,
    pub inherit_env: bool,
    pub ansi: bool,
    pub env: Seq<(Seq<char>, Seq<char>)>,
    pub cwd: Option<Seq<char>>,
}

/// The options before any is read: an 80x24 terminal, a five-second
/// deadline, 300 ms of silence, a cleared environment, no colour.
pub open spec fn default_inspect() -> InspectModel {
    InspectModel {
        size: (80, 24),
        timeout_secs: 5,
        idle_millis: 300,
        inherit_env: false,
        ansi: false,
        env: Seq::empty(),
        cwd: None,
    }
}

/// An `inspect` decision, as plain values.
pub enum InspectPlan {
    Help,
    Version,
    Usage,
    Fail(Seq<char>),
    Run(InspectModel, Seq<char>, Seq<Seq<char>>),
}

/// The flags that take a value, which `--flag=value` may give inline.
pub open spec fn takes_value(name: Seq<char>) -> bool {
    name == "--size"@ || name == "--timeout"@ || name == "--idle"@ || name == "--cwd"@ || name == "--env"@
}

/// A flag split into its name and the value written after `=`, for the
/// flags that take one; any other flag whole.
pub open spec fn split_flag(flag: Seq<char>) -> (Seq<char>, Option<Seq<char>>) {
    let eq = index_of(flag, '=');
    if eq < flag.len() && takes_value(flag.take(eq)) {
        (flag.take(eq), Some(flag.skip(eq + 1)))
    } else {
        (flag, None)
    }
}

/// The value of the flag at `i`: the inline one, else the next argument;
/// and the index after what was read.
pub open spec fn flag_value(args: Seq<Seq<char>>, i: int, inline: Option<Seq<char>>) -> (Option<Seq<char>>, int) {
    match inline {
        Some(v) => (Some(v), i + 1),
        None => if i + 1 < args.len() {
            (Some(args[i + 1]), i + 2)
        } else {
            (None, i + 1)
        },
    }
}

/// The diagnostic of a flag without its value.
pub open spec fn needs(flag: Seq<char>, kind: Seq<char>) -> Seq<char> {
    flag + " needs a "@ + kind + " argument"@
}

/// The diagnostic of a value a flag cannot read.
pub open spec fn bad_value(flag: Seq<char>, raw: Seq<char>, example: Seq<char>) -> Seq<char> {
    "bad "@ + flag + " "@ + debug_text(raw) + ", expected e.g. "@ + example
}

/// `COLSxROWS` read as two `u16`s.
pub open spec fn size_value(v: Seq<char>) -> Option<(u16, u16)> {
    let xi = index_of(v, 'x');
    if xi < v.len() {
        match (uint_text(v.take(xi), 65535), uint_text(v.skip(xi + 1), 65535)) {
            (Some(c), Some(r)) => Some((c as u16, r as u16)),
            _ => None,
        }
    } else {
        None
    }
}

/// `KEY=VALUE` with a key that is not empty.
pub open spec fn env_value(v: Seq<char>) -> Option<(Seq<char>, Seq<char>)> {
    let ei = index_of(v, '=');
    if 0 < ei < v.len() {
        Some((v.take(ei), v.skip(ei + 1)))
    } else {
        None
    }
}

/// `inspect`'s arguments from `i` on, with the options read so far:
/// options come before the program, `--` ends them, and everything after
/// the program is its own.
pub open spec fn inspect_scan(args: Seq<Seq<char>>, i: int, st: InspectModel) -> InspectPlan
    decreases args.len() - i,
{
    if i < 0 || i >= args.len() {
        InspectPlan::Usage
    } else if !is_option(args[i]) {
        InspectPlan::Run(st, args[i], args.skip(i + 1))
    } else {
        let flag = args[i];
        let name = split_flag(flag).0;
        let raw = flag_value(args, i, split_flag(flag).1).0;
        let next = flag_value(args, i, split_flag(flag).1).1;
        if name == "-h"@ || name == "--help"@ {
            InspectPlan::Help
        } else if name == "--version"@ {
            InspectPlan::Version
        } else if name == "--"@ {
            if i + 1 < args.len() {
                InspectPlan::Run(st, args[i + 1], args.skip(i + 2))
            } else {
                InspectPlan::Usage
            }
        } else if name == "--size"@ {
            match raw {
                None => InspectPlan::Fail(needs(name, "COLSxROWS"@)),
                Some(v) => match size_value(v) {
                    Some(sz) => inspect_scan(args, next, InspectModel { size: sz, ..st }),
                    None => InspectPlan::Fail(bad_value(name, v, "120x40"@)),
                },
            }
        } else if name == "--timeout"@ {
            match raw {
                None => InspectPlan::Fail(needs(name, "SECONDS"@)),
                Some(v) => match uint_text(v, u64::MAX as nat) {
                    Some(n) => inspect_scan(args, next, InspectModel { timeout_secs: n as u64, ..st }),
                    None => InspectPlan::Fail(bad_value(name, v, "30"@)),
                },
            }
        } else if name == "--idle"@ {
            match raw {
                None => InspectPlan::Fail(needs(name, "MILLIS"@)),
                Some(v) => match uint_text(v, u64::MAX as nat) {
                    Some(n) => inspect_scan(args, next, InspectModel { idle_millis: n as u64, ..st }),
                    None => InspectPlan::Fail(bad_value(name, v, "1000"@)),
                },
            }
        } else if name == "--inherit-env"@ {
            inspect_scan(args, i + 1, InspectModel { inherit_env: true, ..st })
        } else if name == "--ansi"@ {
            inspect_scan(args, i + 1, InspectModel { ansi: true, ..st })
        } else if name == "--cwd"@ {
            match raw {
                None => InspectPlan::Fail(needs(name, "PATH"@)),
                Some(v) => inspect_scan(args, next, InspectModel { cwd: Some(v), ..st }),
            }
        } else if name == "--env"@ {
            match raw {
                None => InspectPlan::Fail(needs(name, "KEY=VALUE"@)),
                Some(v) => match env_value(v) {
                    Some(pair) => inspect_scan(args, next, InspectModel { env: st.env.push(pair), ..st }),
                    None => InspectPlan::Fail(bad_value(name, v, "NO_COLOR=1"@)),
                },
            }
        } else {
            InspectPlan::Fail("unknown option "@ + debug_text(flag) + " (try `termlens inspect --help`)"@)
        }
    }
}

/// The options of `termlens inspect`.
pub struct InspectOptions {
    /// The terminal's size as `(cols, rows)`.
    pub size: (u16, u16),
    /// The deadline of the whole wait, in seconds.
    pub timeout_secs: u64,
    /// The silence that ends the wait, in milliseconds.
    pub idle_millis: u64,
    /// Keep the caller's environment rather than clearing it.
    pub inherit_env: bool,
    /// Paint the screen in colour on a terminal.
    pub ansi: bool,
    /// Environment variables to set, in order.
    pub env: Vec<(String, String)>,
    /// The directory to run the program in; whether it exists is for the
    /// caller to check before spawning.
    pub cwd: Option<String>,
}

impl View for InspectOptions {
    type V = InspectModel;

    open spec fn view(&self) -> InspectModel {
        InspectModel {
            size: self.size,
            timeout_secs: self.timeout_secs,
            idle_millis: self.idle_millis,
            inherit_env: self.inherit_env,
            ansi: self.ansi,
            env: self.env@.map_values(|p: (String, String)| (p.0@, p.1@)),
            cwd: match self.cwd {
                Some(c) => Some(c@),
                None => None,
            },
        }
    }
}

/// What `termlens inspect` was asked to do.
pub enum InspectCommand {
    /// Print the usage text.
    Help,
    /// Print the version.
    Version,
    /// Print the usage text to standard error and fail: no program.
    Usage,
    /// Fail with this diagnostic.
    Fail(String),
    /// Run `program` with `args` under `options`.
    Run { options: InspectOptions, program: String, args: Vec<String> },
}

impl InspectCommand {
    /// The decision as plain values.
    pub open spec fn plan(self) -> InspectPlan {
        match self {
            InspectCommand::Help => InspectPlan::Help,
            InspectCommand::Version => InspectPlan::Version,
            InspectCommand::Usage => InspectPlan::Usage,
            InspectCommand::Fail(m) => InspectPlan::Fail(m@),
            InspectCommand::Run { options, program, args } => InspectPlan::Run(
                options@,
                program@,
                arg_views(args@),
            ),
        }
    }
}

fn index_in(v: &[char], c: char) -> (r: usize)
    ensures
        r == index_of(v@, c),
{
    let mut i: usize = 0;
    while i < v.len() && v[i] != c
        invariant
            i <= v@.len(),
            forall|j: int| 0 <= j < i ==> v@[j] != c,
        decreases v@.len() - i,
    {
        i = i + 1;
    }
    proof {
        lemma_index_of_unique(v@, c, i as int);
    }
    i
}

fn slice_text(v: &[char], from: usize, to: usize) -> (r: String)
    requires
        from <= to <= v@.len(),
    ensures
        r@ == v@.subrange(from as int, to as int),
{
    string_of(vstd::slice::slice_subrange(v, from, to))
}

fn needs_message(flag: &str, kind: &str) -> (r: String)
    ensures
        r@ == needs(flag@, kind@),
{
    let mut m = String::new();
    push_str(&mut m, flag);
    push_str(&mut m, " needs a ");
    push_str(&mut m, kind);
    push_str(&mut m, " argument");
    m
}

fn bad_message(flag: &str, raw: &[char], example: &str) -> (r: String)
    ensures
        r@ == bad_value(flag@, raw@, example@),
{
    let mut m = String::new();
    push_str(&mut m, "bad ");
    push_str(&mut m, flag);
    push_str(&mut m, " ");
    let q = quoted(raw);
    push_str(&mut m, q.as_str());
    push_str(&mut m, ", expected e.g. ");
    push_str(&mut m, example);
    m
}

fn rest_of(args: &[String], from: usize) -> (r: Vec<String>)
    requires
        from <= args@.len(),
    ensures
        arg_views(r@) == arg_views(args@).skip(from as int),
{
    let mut out: Vec<String> = Vec::new();
    let mut i = from;
    while i < args.len()
        invariant
            from <= i <= args@.len(),
            arg_views(out@) == arg_views(args@).subrange(from as int, i as int),
        decreases args@.len() - i,
    {
        let ghost before = out@;
        let a = string_of(chars_of(args[i].as_str()).as_slice());
        assert(a@ == arg_views(args@)[i as int]);
        let ghost av = a@;
        out.push(a);
        assert(arg_views(out@) =~= arg_views(before).push(av));
        assert(arg_views(out@) =~= arg_views(args@).subrange(from as int, i + 1));
        i = i + 1;
    }
    assert(arg_views(args@).subrange(from as int, args@.len() as int) =~= arg_views(args@).skip(from as int));
    out
}

/// What `termlens inspect` was asked to do: help, the version, the program
/// to run with its own arguments and the options read before it, the usage
/// when there is no program, or the diagnostic of the first option that
/// cannot be read.
pub fn inspect_command(args: &[String]) -> (r: InspectCommand)
    ensures
        r.plan() == inspect_scan(arg_views(args@), 0, default_inspect()),
{
    let ghost all = arg_views(args@);
    let mut opts = InspectOptions {
        size: (80, 24),
        timeout_secs: 5,
        idle_millis: 300,
        inherit_env: false,
        ansi: false,
        env: Vec::new(),
        cwd: None,
    };
    assert(opts@.env =~= Seq::<(Seq<char>, Seq<char>)>::empty());
    assert(opts@ == default_inspect());
    let mut i: usize = 0;
    while i < args.len()
        invariant
            i <= args@.len(),
            all == arg_views(args@),
            inspect_scan(all, i as int, opts@) == inspect_scan(all, 0, default_inspect()),
        decreases args@.len() - i,
    {
        let flag = chars_of(args[i].as_str());
        assert(all[i as int] == flag@);
        if !option_like(flag.as_slice()) {
            let program = string_of(flag.as_slice());
            let rest = rest_of(args, i + 1);
            return InspectCommand::Run { options: opts, program, args: rest };
        }
        let n = flag.len();
        let eq = index_in(flag.as_slice(), '=');
        let head = slice_text(flag.as_slice(), 0, if eq < n { eq } else { n });
        let hc = chars_of(head.as_str());
        let split = eq < n && (is_text(hc.as_slice(), "--size") || is_text(hc.as_slice(), "--timeout") || is_text(
            hc.as_slice(),
            "--idle",
        ) || is_text(hc.as_slice(), "--cwd") || is_text(hc.as_slice(), "--env"));
        let name: Vec<char> = if split {
            hc
        } else {
            flag.clone()
        };
        proof {
            assert(head@ =~= flag@.take(eq as int) || eq >= n);
            assert(name@ == split_flag(flag@).0);
        }
        let inline: Option<String> = if split {
            Some(slice_text(flag.as_slice(), eq + 1, n))
        } else {
            None
        };
        proof {
            if split {
                assert(flag@.subrange(eq + 1, n as int) =~= flag@.skip(eq + 1));
            }
        }
        let (raw, next): (Option<String>, usize) = match inline {
            Some(v) => (Some(v), i + 1),
            None => if i + 1 < args.len() {
                (Some(string_of(chars_of(args[i + 1].as_str()).as_slice())), i + 2)
            } else {
                (None, i + 1)
            },
        };
        proof {
            if split_flag(flag@).1 is None && i + 1 < args@.len() {
                assert(all[i + 1] == args@[i + 1]@);
            }
            assert(match raw {
                Some(v) => flag_value(all, i as int, split_flag(flag@).1).0 == Some(v@),
                None => flag_value(all, i as int, split_flag(flag@).1).0 is None,
            });
            assert(flag_value(all, i as int, split_flag(flag@).1).1 == next);
        }
        let nm = name.as_slice();
        if is_text(nm, "-h") || is_text(nm, "--help") {
            return InspectCommand::Help;
        } else if is_text(nm, "--version") {
            return InspectCommand::Version;
        } else if is_text(nm, "--") {
            if i + 1 < args.len() {
                let program = string_of(chars_of(args[i + 1].as_str()).as_slice());
                assert(all[i + 1] == program@);
                let rest = rest_of(args, i + 2);
                return InspectCommand::Run { options: opts, program, args: rest };
            }
            return InspectCommand::Usage;
        } else if is_text(nm, "--size") {
            match raw {
                None => {
                    return InspectCommand::Fail(needs_message("--size", "COLSxROWS"));
                },
                Some(v) => {
                    let vc = chars_of(v.as_str());
                    let vn = vc.len();
                    let xi = index_in(vc.as_slice(), 'x');
                    if xi < vn {
                        let c = crate::words::parse_uint(vstd::slice::slice_subrange(vc.as_slice(), 0, xi), 65535);
                        let r = crate::words::parse_uint(vstd::slice::slice_subrange(vc.as_slice(), xi + 1, vn), 65535);
                        proof {
                            assert(vc@.subrange(0, xi as int) =~= vc@.take(xi as int));
                            assert(vc@.subrange(xi + 1, vn as int) =~= vc@.skip(xi + 1));
                        }
                        match (c, r) {
                            (Some(c), Some(r)) => {
                                opts.size = (c as u16, r as u16);
                                i = next;
                                continue;
                            },
                            _ => {},
                        }
                    }
                    return InspectCommand::Fail(bad_message("--size", vc.as_slice(), "120x40"));
                },
            }
        } else if is_text(nm, "--timeout") || is_text(nm, "--idle") {
            let timeout = is_text(nm, "--timeout");
            match raw {
                None => {
                    return InspectCommand::Fail(
                        if timeout {
                            needs_message("--timeout", "SECONDS")
                        } else {
                            needs_message("--idle", "MILLIS")
                        },
                    );
                },
                Some(v) => {
                    let vc = chars_of(v.as_str());
                    match parse_u64(vc.as_slice(), u64::MAX) {
                        Some(n) => {
                            if timeout {
                                opts.timeout_secs = n;
                            } else {
                                opts.idle_millis = n;
                            }
                            i = next;
                        },
                        None => {
                            return InspectCommand::Fail(
                                if timeout {
                                    bad_message("--timeout", vc.as_slice(), "30")
                                } else {
                                    bad_message("--idle", vc.as_slice(), "1000")
                                },
                            );
                        },
                    }
                },
            }
        } else if is_text(nm, "--inherit-env") {
            opts.inherit_env = true;
            i = i + 1;
        } else if is_text(nm, "--ansi") {
            opts.ansi = true;
            i = i + 1;
        } else if is_text(nm, "--cwd") {
            match raw {
                None => {
                    return InspectCommand::Fail(needs_message("--cwd", "PATH"));
                },
                Some(v) => {
                    opts.cwd = Some(v);
                    i = next;
                },
            }
        } else if is_text(nm, "--env") {
            match raw {
                None => {
                    return InspectCommand::Fail(needs_message("--env", "KEY=VALUE"));
                },
                Some(v) => {
                    let vc = chars_of(v.as_str());
                    let vn = vc.len();
                    let ei = index_in(vc.as_slice(), '=');
                    if 0 < ei && ei < vn {
                        let key = slice_text(vc.as_slice(), 0, ei);
                        let value = slice_text(vc.as_slice(), ei + 1, vn);
                        proof {
                            assert(vc@.subrange(0, ei as int) =~= vc@.take(ei as int));
                            assert(vc@.subrange(ei + 1, vn as int) =~= vc@.skip(ei + 1));
                        }
                        let ghost before = opts@;
                        opts.env.push((key, value));
                        assert(opts@.env =~= before.env.push((vc@.take(ei as int), vc@.skip(ei + 1))));
                        i = next;
                    } else {
                        return InspectCommand::Fail(bad_message("--env", vc.as_slice(), "NO_COLOR=1"));
                    }
                },
            }
        } else {
            return InspectCommand::Fail(unknown_option(flag.as_slice(), " (try `termlens inspect --help`)"));
        }
    }
    InspectCommand::Usage
}

} // verus!
