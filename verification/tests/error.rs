use std::time::Duration;

use termlens::error::Error;
use termlens::screen::{Cell, Screen, Style, TermState};

fn tiny_screen() -> Screen {
    let mut cells = Vec::new();
    for ch in ['o', 'k'] {
        cells.push(Cell::new(ch.to_string(), Style::default(), false, false));
    }
    cells.push(Cell::new(String::new(), Style::default(), false, false));
    Screen::from_parts(3, 1, 0, 2, true, cells, TermState::default())
}

#[test]
fn timeout_display_embeds_screen_dump() {
    let err = Error::Timeout {
        waiting_for: "text \"ready\"".into(),
        timeout: Duration::from_millis(250),
        screen: tiny_screen(),
    };
    let msg = err.message();
    assert!(msg.contains("timed out after 250ms"), "{msg}");
    assert!(msg.contains("--- screen at timeout ---"), "{msg}");
    assert!(msg.contains("size: 3x1  cursor: 0,2"), "{msg}");
    assert!(msg.contains("\nok"), "{msg}");
    assert_eq!(err.screen().unwrap().size(), (3, 1));
}

#[test]
fn errors_without_a_screen_carry_none() {
    let err = Error::Parse("line 2: no header".into());
    assert!(err.screen().is_none());
    assert_eq!(err.message(), "could not parse a saved screen: line 2: no header");
    let err = Error::Spawn { command: "nope".into(), reason: "not found".into() };
    assert_eq!(err.message(), "failed to spawn `nope`: not found");
    assert!(err.screen().is_none());
}

#[test]
fn eof_and_write_errors_print_their_screen() {
    let err = Error::Eof { waiting_for: "prompt".into(), screen: tiny_screen() };
    assert_eq!(
        err.message(),
        "terminal closed (EOF) while waiting for prompt\n--- final screen ---\nsize: 3x1  cursor: 0,2\nok"
    );
    let err = Error::Write { what: "keys".into(), screen: tiny_screen() };
    assert_eq!(
        err.message(),
        "failed to send keys\n--- screen at the failed write ---\nsize: 3x1  cursor: 0,2\nok"
    );
    assert_eq!(err.screen().unwrap().cols(), 3);
}

#[test]
fn artifact_names_keep_only_safe_characters() {
    assert_eq!(
        termlens::error::artifact_name("tests::a b/c-d_e", 3, false),
        "tests__a_b_c-d_e-3.screen.txt"
    );
    assert_eq!(termlens::error::artifact_name("t", 12, true), "t-12.screen.json");
}
