use termlens::cli::ColorWhen;
use termlens::commands::{diff_command, inspect_command, render_command, DiffCommand, InspectCommand, RenderCommand, RenderFormat};

fn args(words: &[&str]) -> Vec<String> {
    words.iter().map(|w| w.to_string()).collect()
}

#[test]
fn diff_reads_two_operands_and_a_color_word_in_either_spelling() {
    match diff_command(&args(&["--color", "never", "a.snap", "-"])) {
        DiffCommand::Compare { color, before, after } => {
            assert_eq!(color, ColorWhen::Never);
            assert_eq!((before.as_str(), after.as_str()), ("a.snap", "-"));
        }
        _ => panic!("not a comparison"),
    }
    match diff_command(&args(&["a", "--color=always", "b"])) {
        DiffCommand::Compare { color, .. } => assert_eq!(color, ColorWhen::Always),
        _ => panic!("not a comparison"),
    }
    match diff_command(&args(&["a", "b"])) {
        DiffCommand::Compare { color, .. } => assert_eq!(color, ColorWhen::Auto),
        _ => panic!("not a comparison"),
    }
}

#[test]
fn diff_refuses_what_it_cannot_run() {
    let fail = |words: &[&str]| match diff_command(&args(words)) {
        DiffCommand::Fail(m) => m,
        _ => panic!("{words:?} did not fail"),
    };
    assert_eq!(fail(&["a", "b", "--color"]), "--color needs a WHEN argument");
    assert_eq!(fail(&["--color", "sometimes", "a", "b"]), "--color takes auto, always or never, got \"sometimes\"");
    assert_eq!(fail(&["--verbose", "a", "b"]), "unknown option \"--verbose\" (try `termlens diff --help`)");
    assert_eq!(fail(&["-", "-"]), "only one of the two screens can be `-`: stdin is read once");
    assert!(matches!(diff_command(&args(&["a"])), DiffCommand::Usage));
    assert!(matches!(diff_command(&args(&["a", "b", "c"])), DiffCommand::Usage));
    assert!(matches!(diff_command(&args(&["a", "-h"])), DiffCommand::Help));
    assert!(matches!(diff_command(&args(&["--version", "--nonsense"])), DiffCommand::Version));
}

#[test]
fn render_takes_the_last_format_and_an_out_path() {
    match render_command(&args(&["--svg", "--html", "--out", "x.html", "a.snap"])) {
        RenderCommand::Render { format, out, file } => {
            assert_eq!(format, RenderFormat::Html);
            assert_eq!(out.as_deref(), Some("x.html"));
            assert_eq!(file, "a.snap");
        }
        _ => panic!("not a render"),
    }
    match render_command(&args(&["-", "--out=-", "--json"])) {
        RenderCommand::Render { format, out, file } => {
            assert_eq!(format, RenderFormat::Json);
            assert_eq!(out.as_deref(), Some("-"));
            assert_eq!(file, "-");
        }
        _ => panic!("not a render"),
    }
}

#[test]
fn render_refuses_what_it_cannot_run() {
    let fail = |words: &[&str]| match render_command(&args(words)) {
        RenderCommand::Fail(m) => m,
        _ => panic!("{words:?} did not fail"),
    };
    assert_eq!(fail(&["--svg", "a", "--out"]), "--out needs a PATH argument");
    assert_eq!(fail(&["--svg", "--out=", "a"]), "--out needs a PATH argument");
    assert_eq!(fail(&["--svg=1", "a"]), "unknown option \"--svg=1\" (try `termlens render --help`)");
    assert!(matches!(render_command(&args(&["a"])), RenderCommand::Usage));
    assert!(matches!(render_command(&args(&["--text", "a", "b"])), RenderCommand::Usage));
    assert!(matches!(render_command(&args(&["--text", "--help"])), RenderCommand::Help));
}

#[test]
fn inspect_reads_options_before_the_program_in_both_spellings() {
    match inspect_command(&args(&["--size=120x40", "--timeout", "30", "--idle=1000", "--ansi", "--env", "A=b=c", "--cwd", "/tmp", "vim", "--size", "x"])) {
        InspectCommand::Run { options, program, args } => {
            assert_eq!(options.size, (120, 40));
            assert_eq!(options.timeout_secs, 30);
            assert_eq!(options.idle_millis, 1000);
            assert!(options.ansi && !options.inherit_env);
            assert_eq!(options.env, vec![("A".to_string(), "b=c".to_string())]);
            assert_eq!(options.cwd.as_deref(), Some("/tmp"));
            assert_eq!(program, "vim");
            assert_eq!(args, vec!["--size".to_string(), "x".to_string()]);
        }
        _ => panic!("not a run"),
    }
    match inspect_command(&args(&["--", "-weird", "a"])) {
        InspectCommand::Run { options, program, args } => {
            assert_eq!(options.size, (80, 24));
            assert_eq!((options.timeout_secs, options.idle_millis), (5, 300));
            assert_eq!(program, "-weird");
            assert_eq!(args, vec!["a".to_string()]);
        }
        _ => panic!("not a run"),
    }
}

#[test]
fn inspect_refuses_what_it_cannot_read() {
    let fail = |words: &[&str]| match inspect_command(&args(words)) {
        InspectCommand::Fail(m) => m,
        _ => panic!("{words:?} did not fail"),
    };
    assert_eq!(fail(&["--size"]), "--size needs a COLSxROWS argument");
    assert_eq!(fail(&["--size", "80by24", "sh"]), "bad --size \"80by24\", expected e.g. 120x40");
    assert_eq!(fail(&["--timeout=", "sh"]), "bad --timeout \"\", expected e.g. 30");
    assert_eq!(fail(&["--idle", "-1", "sh"]), "bad --idle \"-1\", expected e.g. 1000");
    assert_eq!(fail(&["--env", "=x", "sh"]), "bad --env \"=x\", expected e.g. NO_COLOR=1");
    assert_eq!(fail(&["--inherit-env=nonsense", "sh"]), "unknown option \"--inherit-env=nonsense\" (try `termlens inspect --help`)");
    assert!(matches!(inspect_command(&args(&["--ansi"])), InspectCommand::Usage));
    assert!(matches!(inspect_command(&args(&["--"])), InspectCommand::Usage));
    assert!(matches!(inspect_command(&args(&["--ansi", "-h", "sh"])), InspectCommand::Help));
    assert!(matches!(inspect_command(&args(&["--version"])), InspectCommand::Version));
}
