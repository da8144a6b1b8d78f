use termlens::emulator::{InputModes, Vt100Emulator};
use termlens::graphics::DEFAULT_CAPTURE;
use termlens::screen::Screen;
use termlens::error::Error;
use termlens::screen::MouseMode;
use termlens::terminal::{
    check_size, child_env, command_line, mouse_report, spawn_check, take_read, osc_color, query_reply, query_shape, strip_paste_markers, ExitStatus, MouseButton,
    MouseChord, QueryLog,
};
use termlens::tracker::Query;
use termlens::vt::MouseEncoding;

fn modes(encoding: MouseEncoding) -> InputModes {
    InputModes {
        mouse: MouseMode::PressRelease,
        mouse_encoding: encoding,
        bracketed_paste: false,
        application_cursor: false,
        focus_events: false,
    }
}

#[test]
fn chord_codes_add_the_modifier_bits() {
    assert_eq!(MouseChord::from(MouseButton::Left).code(), 0);
    assert_eq!(MouseButton::Right.ctrl().code(), 18);
    assert_eq!(MouseButton::Middle.alt().shift().code(), 13);
    assert_eq!(MouseButton::Left.ctrl().alt().shift().code(), 28);
}

#[test]
fn mouse_reports_follow_the_selected_encoding() {
    assert_eq!(mouse_report(&modes(MouseEncoding::Sgr), 0, 4, 2, true).unwrap(), b"\x1b[<0;5;3M".to_vec());
    assert_eq!(mouse_report(&modes(MouseEncoding::Sgr), 0, 4, 2, false).unwrap(), b"\x1b[<0;5;3m".to_vec());
    assert_eq!(mouse_report(&modes(MouseEncoding::Legacy), 0, 4, 2, true).unwrap(), b"\x1b[M %#".to_vec());
    // Release is button 3 in the byte-valued forms.
    assert_eq!(mouse_report(&modes(MouseEncoding::Legacy), 0, 4, 2, false).unwrap(), b"\x1b[M#%#".to_vec());
    assert_eq!(mouse_report(&modes(MouseEncoding::Utf8), 0, 200, 2, true).unwrap(), "\x1b[M \u{e9}#".as_bytes().to_vec());
    match mouse_report(&modes(MouseEncoding::Legacy), 0, 223, 2, true) {
        Err(Error::Input(m)) => {
            assert_eq!(m, "(223, 2) is unrepresentable in the legacy mouse encoding the application selected (max 222)")
        },
        other => panic!("{other:?}"),
    }
    assert!(mouse_report(&modes(MouseEncoding::Sgr), 0, 500, 300, true).is_ok());
}

#[test]
fn a_zero_size_is_refused() {
    assert!(check_size(80, 24).is_ok());
    match check_size(0, 24) {
        Err(Error::Input(m)) => assert_eq!(m, "a terminal needs at least one column and one row, got 0x24 (columns x rows)"),
        other => panic!("{other:?}"),
    }
    assert!(check_size(80, 0).is_err());
}

#[test]
fn paste_markers_are_stripped_to_a_fixed_point() {
    assert_eq!(strip_paste_markers("plain"), "plain");
    assert_eq!(strip_paste_markers("a\x1b[200~b\x1b[201~c"), "abc");
    assert_eq!(strip_paste_markers("\x1b[2\x1b[200~01~x"), "x");
}

#[test]
fn queries_are_answered_or_named() {
    let cpr = query_reply(&Query::CursorPosition { private: true }, true, (2, 4), (24, 80), (0, 0, 0), (255, 255, 255), 0);
    assert_eq!(cpr.unwrap(), b"\x1b[?3;5R".to_vec());
    let size = query_reply(&Query::TextAreaSize, true, (0, 0), (24, 80), (0, 0, 0), (0, 0, 0), 0);
    assert_eq!(size.unwrap(), b"\x1b[8;24;80t".to_vec());
    assert_eq!(osc_color(11, (0x1e, 0x1e, 0x2e), true), b"\x1b]11;rgb:1e1e/1e1e/2e2e\x1b\\".to_vec());
    let mode = query_reply(&Query::RequestMode(2026), true, (0, 0), (24, 80), (0, 0, 0), (0, 0, 0), 2);
    assert_eq!(mode.unwrap(), b"\x1b[?2026;2$y".to_vec());
    assert!(query_reply(&Query::PrimaryDa, false, (0, 0), (24, 80), (0, 0, 0), (0, 0, 0), 0).is_none());
    assert_eq!(query_shape(&Query::OscColor { code: 10, st_terminated: false }), "^[]10;?");
    assert_eq!(query_shape(&Query::RequestMode(25)), "^[[?25$p");
}

#[test]
fn the_query_note_blames_only_what_nothing_followed() {
    let mut log = QueryLog::new();
    assert_eq!(log.query_note(), "");
    log.count_read();
    assert!(log.answer(&Query::PrimaryDa, false, (0, 0), (24, 80), (0, 0, 0), (0, 0, 0), 0).is_none());
    assert_eq!(
        log.query_note(),
        " — note: the application queried the terminal (^[[c) and received no answer; if it is blocked waiting for that reply, this is the cause"
    );
    log.count_read();
    assert_eq!(
        log.query_note(),
        " — note: the application queried the terminal (^[[c) and received no answer, but produced output afterwards, so that is probably not why this wait failed"
    );
    log.reply_dropped();
    assert!(log.query_note().starts_with(" — note: the application is not reading its input (1 terminal replies could not be delivered)"));
}

#[test]
fn exit_statuses_describe_themselves() {
    let ok = ExitStatus::new(0, true, None);
    assert!(ok.success());
    assert_eq!(ok.describe(), "exit code 0");
    let killed = ExitStatus::new(1, false, Some("Killed: 9".into()));
    assert_eq!(killed.signal(), Some("Killed: 9"));
    assert_eq!(killed.describe(), "killed by signal: Killed: 9 (code 1)");
}

#[test]
fn spawn_checks_the_program_then_the_size_then_the_directory() {
    assert_eq!(command_line("ls", &["-l".to_string(), "/tmp".to_string()]), "ls -l /tmp");
    match spawn_check("", "", 0, 0, Some(("/nope", false))) {
        Err(Error::Spawn { command, reason }) => {
            assert_eq!(command, "");
            assert_eq!(reason, "no program name given (the program argument was empty)");
        }
        other => panic!("{other:?}"),
    }
    match spawn_check("sh", "sh", 0, 24, Some(("/nope", false))) {
        Err(Error::Input(m)) => assert_eq!(m, "a terminal needs at least one column and one row, got 0x24 (columns x rows)"),
        other => panic!("{other:?}"),
    }
    match spawn_check("sh -c x", "sh", 80, 24, Some(("/nope", false))) {
        Err(Error::Spawn { command, reason }) => {
            assert_eq!(command, "sh -c x");
            assert_eq!(reason, "current_dir(/nope) is not an existing directory");
        }
        other => panic!("{other:?}"),
    }
    assert!(spawn_check("sh", "sh", 80, 24, Some(("/tmp", true))).is_ok());
    assert!(spawn_check("sh", "sh", 80, 24, None).is_ok());
}

#[test]
fn the_child_gets_a_term_unless_one_was_set() {
    let pair = |k: &str, v: &str| (k.to_string(), v.to_string());
    assert_eq!(
        child_env(&[pair("A", "1")]),
        vec![pair("TERM", "xterm-256color"), pair("A", "1")]
    );
    assert_eq!(child_env(&[pair("TERM", "dumb")]), vec![pair("TERM", "dumb")]);
    assert_eq!(child_env(&[]), vec![pair("TERM", "xterm-256color")]);
}

#[test]
fn a_space_is_one_column_wide() {
    assert_eq!(termlens::parse::space_width(), 1);
}

#[test]
fn a_read_is_answered_and_its_frames_kept() {
    let mut emu = Vt100Emulator::new(4, 10, 0, DEFAULT_CAPTURE);
    let mut log = QueryLog::new();
    let mut frames: Vec<Screen> = Vec::new();
    let replies = take_read(
        &mut emu,
        &mut log,
        &mut frames,
        b"ab\x1b[6n\x1b[?2026hX\x1b[?2026lY",
        true,
        (0, 0, 0),
        (255, 255, 255),
    );
    assert_eq!(replies, vec![b"\x1b[1;3R".to_vec()]);
    assert_eq!(frames.len(), 1);
    assert_eq!(frames[0].text(), "abX\n\n\n");
    assert_eq!(emu.snapshot().text(), "abXY\n\n\n");
    assert_eq!(log.query_note(), "");
}

#[test]
fn an_unanswered_query_is_noted_and_only_eight_frames_are_kept() {
    let mut emu = Vt100Emulator::new(2, 10, 0, DEFAULT_CAPTURE);
    let mut log = QueryLog::new();
    let mut frames: Vec<Screen> = Vec::new();
    let mut stream: Vec<u8> = b"\x1b[c".to_vec();
    for k in 0..10u8 {
        stream.extend_from_slice(b"\x1b[?2026h\r");
        stream.push(b'0' + k);
        stream.extend_from_slice(b"\x1b[?2026l");
    }
    let replies = take_read(&mut emu, &mut log, &mut frames, &stream, false, (0, 0, 0), (0, 0, 0));
    assert!(replies.is_empty());
    assert_eq!(frames.len(), 8);
    assert_eq!(frames[0].text(), "2\n");
    assert_eq!(frames[7].text(), "9\n");
    assert_eq!(
        log.query_note(),
        " — note: the application queried the terminal (^[[c) and received no answer; if it is blocked waiting for that reply, this is the cause"
    );
}
