use termlens::keys::{mouse_legacy, mouse_sgr, Chord, Input, Key};

#[test]
fn xterm_encodings() {
    let table: &[(Key, &[u8])] = &[
        (Key::Char('j'), b"j"),
        (Key::Char('é'), "é".as_bytes()),
        (Key::Enter, b"\r"),
        (Key::Esc, b"\x1b"),
        (Key::Tab, b"\t"),
        (Key::BackTab, b"\x1b[Z"),
        (Key::Backspace, b"\x7f"),
        (Key::Delete, b"\x1b[3~"),
        (Key::Up, b"\x1b[A"),
        (Key::Down, b"\x1b[B"),
        (Key::Right, b"\x1b[C"),
        (Key::Left, b"\x1b[D"),
        (Key::Home, b"\x1b[H"),
        (Key::End, b"\x1b[F"),
        (Key::PageUp, b"\x1b[5~"),
        (Key::PageDown, b"\x1b[6~"),
        (Key::F(1), b"\x1bOP"),
        (Key::F(4), b"\x1bOS"),
        (Key::F(5), b"\x1b[15~"),
        (Key::F(10), b"\x1b[21~"),
        (Key::F(12), b"\x1b[24~"),
        (Key::Ctrl('c'), b"\x03"),
        (Key::Ctrl('C'), b"\x03"),
        (Key::Ctrl('['), b"\x1b"),
        (Key::Ctrl(' '), b"\x00"),
        (Key::Ctrl('?'), b"\x7f"),
        (Key::Alt('x'), b"\x1bx"),
    ];
    for (key, bytes) in table {
        assert_eq!(key.encode(), *bytes, "wrong encoding for {key:?}");
    }
}

#[test]
fn chord_encodings() {
    let table: &[(Chord, &[u8])] = &[
        (Key::Right.ctrl(), b"\x1b[1;5C"),
        (Key::Up.shift(), b"\x1b[1;2A"),
        (Key::Left.alt(), b"\x1b[1;3D"),
        (Key::Home.ctrl(), b"\x1b[1;5H"),
        (Key::End.ctrl().shift(), b"\x1b[1;6F"),
        (Key::PageDown.alt(), b"\x1b[6;3~"),
        (Key::Delete.ctrl(), b"\x1b[3;5~"),
        (Key::F(1).ctrl(), b"\x1b[1;5P"),
        (Key::F(5).ctrl().shift(), b"\x1b[15;6~"),
        (Key::F(10).alt(), b"\x1b[21;3~"),
        (Key::F(12).ctrl().alt().shift(), b"\x1b[24;8~"),
    ];
    for (chord, bytes) in table {
        assert_eq!(chord.encode(), *bytes, "wrong encoding for {chord:?}");
    }
}

#[test]
fn mouse_encodings() {
    assert_eq!(mouse_sgr(0, 9, 6, true), b"\x1b[<0;10;7M");
    assert_eq!(mouse_sgr(0, 9, 6, false), b"\x1b[<0;10;7m");
    assert_eq!(mouse_sgr(64, 0, 0, true), b"\x1b[<64;1;1M");
    assert_eq!(mouse_legacy(0, 0, 0), b"\x1b[M\x20\x21\x21");
    assert_eq!(mouse_legacy(3, 9, 6,), b"\x1b[M\x23\x2a\x27");
}

#[test]
fn application_cursor_mode_selects_the_ss3_form() {
    assert_eq!(Key::Up.encode_modal(true), b"\x1bOA".to_vec());
    assert_eq!(Key::Left.encode_modal(true), b"\x1bOD".to_vec());
    assert_eq!(Key::Home.encode_modal(true), b"\x1bOH".to_vec());
    assert_eq!(Key::End.encode_modal(true), b"\x1bOF".to_vec());
    assert_eq!(Key::Up.encode_modal(false), b"\x1b[A".to_vec());
    assert_eq!(Key::PageUp.encode_modal(true), b"\x1b[5~".to_vec());
    assert_eq!(Key::Char('x').encode_modal(true), b"x".to_vec());
}
