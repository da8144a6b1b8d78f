use termlens::emulator::InputModes;
use termlens::error::Error;
use termlens::gestures::{click_bytes, drag_bytes, paste_bytes, scroll_bytes};
use termlens::screen::MouseMode;
use termlens::terminal::{MouseButton, MouseChord, Scroll};
use termlens::vt::MouseEncoding;

fn modes(mouse: MouseMode, encoding: MouseEncoding) -> InputModes {
    InputModes {
        mouse,
        mouse_encoding: encoding,
        bracketed_paste: false,
        application_cursor: false,
        focus_events: false,
    }
}

fn refused(r: Result<Vec<u8>, Error>) -> String {
    match r {
        Err(Error::Input(m)) => m,
        _ => panic!("not refused"),
    }
}

#[test]
fn a_click_is_a_press_and_a_release_when_releases_are_reported() {
    let left = MouseChord::plain(MouseButton::Left);
    let sgr = modes(MouseMode::PressRelease, MouseEncoding::Sgr);
    assert_eq!(click_bytes(&sgr, left, 10, 4).unwrap(), b"\x1b[<0;11;5M\x1b[<0;11;5m".to_vec());
    let x10 = modes(MouseMode::Press, MouseEncoding::Legacy);
    assert_eq!(click_bytes(&x10, left, 10, 4).unwrap(), vec![0x1b, b'[', b'M', 32, 43, 37]);
    assert_eq!(
        refused(click_bytes(&modes(MouseMode::Disabled, MouseEncoding::Sgr), left, 0, 0)),
        "the application has not enabled mouse tracking (no CSI ?9/?1000/?1002/?1003 h was seen)"
    );
    assert_eq!(
        refused(click_bytes(&modes(MouseMode::PressRelease, MouseEncoding::Legacy), left, 300, 0)),
        "(300, 0) is unrepresentable in the legacy mouse encoding the application selected (max 222)"
    );
}

#[test]
fn a_drag_reports_motion_only_when_asked_and_never_under_x10() {
    let left = MouseChord::plain(MouseButton::Left);
    let motion = modes(MouseMode::ButtonMotion, MouseEncoding::Sgr);
    assert_eq!(
        drag_bytes(&motion, left, (1, 1), (3, 2)).unwrap(),
        b"\x1b[<0;2;2M\x1b[<32;4;3M\x1b[<0;4;3m".to_vec()
    );
    let plain = modes(MouseMode::PressRelease, MouseEncoding::Sgr);
    assert_eq!(drag_bytes(&plain, left, (1, 1), (3, 2)).unwrap(), b"\x1b[<0;2;2M\x1b[<0;4;3m".to_vec());
    assert_eq!(
        refused(drag_bytes(&modes(MouseMode::Press, MouseEncoding::Sgr), left, (1, 1), (3, 2))),
        "the application enabled X10 mouse tracking (CSI ?9 h), which reports presses only — a drag has no release to report"
    );
}

#[test]
fn a_wheel_notch_is_a_press_of_the_wheel_button() {
    let sgr = modes(MouseMode::AnyMotion, MouseEncoding::Sgr);
    assert_eq!(scroll_bytes(&sgr, Scroll::Down, 0, 0).unwrap(), b"\x1b[<65;1;1M".to_vec());
    assert_eq!(scroll_bytes(&sgr, Scroll::Up, 4, 2).unwrap(), b"\x1b[<64;5;3M".to_vec());
    assert!(scroll_bytes(&modes(MouseMode::Disabled, MouseEncoding::Sgr), Scroll::Up, 0, 0).is_err());
}

#[test]
fn a_paste_sends_enter_for_line_breaks_and_cannot_end_itself_early() {
    assert_eq!(paste_bytes(false, "a\r\nb\nc"), b"a\rb\rc".to_vec());
    assert_eq!(paste_bytes(true, "a\r\nb"), b"\x1b[200~a\rb\x1b[201~".to_vec());
    assert_eq!(paste_bytes(true, "x\x1b[201~rm -rf"), b"\x1b[200~xrm -rf\x1b[201~".to_vec());
    assert_eq!(paste_bytes(false, "é\r\r\n"), "é\r\r".as_bytes().to_vec());
}
