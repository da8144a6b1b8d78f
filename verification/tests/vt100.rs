use termlens::emulator::{AttrShadow, ModeState, Stop, Vt100Emulator};
use termlens::graphics::DEFAULT_CAPTURE;
use termlens::screen::{Color, MouseMode, Style};

/// Feed a whole stream, looping across frame-boundary stops.
fn feed_all(emu: &mut Vt100Emulator, bytes: &[u8]) {
    let mut off = 0;
    while off < bytes.len() {
        off += emu.process(&bytes[off..]).consumed;
    }
}

fn emu_with(bytes: &[u8]) -> Vt100Emulator {
    let mut emu = Vt100Emulator::new(4, 10, 0, DEFAULT_CAPTURE);
    feed_all(&mut emu, bytes);
    emu
}

#[test]
fn renders_plain_text_into_the_grid() {
    let emu = emu_with(b"hi\r\nthere");
    let screen = emu.snapshot();
    assert_eq!(screen.size(), (10, 4));
    assert_eq!(screen.text(), "hi\nthere\n\n");
    assert_eq!(screen.cursor(), (1, 5, true));
}

#[test]
fn positions_wide_characters_with_continuations() {
    let emu = emu_with("汉x".as_bytes());
    let screen = emu.snapshot();
    let wide = screen.cell(0, 0).unwrap();
    assert!(wide.is_wide());
    assert_eq!(wide.contents(), "汉");
    assert!(screen.cell(0, 1).unwrap().is_wide_continuation());
    assert_eq!(screen.find("x"), Some((0, 2)));
}

#[test]
fn captures_sgr_styles() {
    let emu = emu_with(b"\x1b[1;3;4;7;31mX\x1b[0m");
    let screen = emu.snapshot();
    let style = *screen.cell(0, 0).unwrap().style();
    assert!(style.bold && style.italic && style.underline && style.reverse);
    assert_eq!(style.fg, Color::Indexed(1));
    assert_eq!(screen.cell(0, 1).unwrap().style(), &Style::default());
}

#[test]
fn blink_conceal_and_strikethrough_reach_the_cells() {
    let emu = emu_with(b"\x1b[5mB\x1b[0m\x1b[8mC\x1b[0m\x1b[9mS\x1b[0mp");
    let s = emu.snapshot();
    let style = |col| *s.cell(0, col).unwrap().style();
    assert!(style(0).blink && !style(0).conceal && !style(0).strikethrough);
    assert!(style(1).conceal && !style(1).blink && !style(1).strikethrough);
    assert!(style(2).strikethrough && !style(2).blink && !style(2).conceal);
    assert_eq!(style(3), Style::default());
}

#[test]
fn the_new_attributes_coexist_with_the_old_ones() {
    let emu = emu_with(b"\x1b[1;31mA\x1b[0m\x1b[5mB\x1b[0m\x1b[1;5;4mC");
    let s = emu.snapshot();
    let a = *s.cell(0, 0).unwrap().style();
    assert!(a.bold && !a.blink);
    assert_eq!(a.fg, Color::Indexed(1));
    let b = *s.cell(0, 1).unwrap().style();
    assert!(b.blink && !b.bold);
    let c = *s.cell(0, 2).unwrap().style();
    assert!(c.bold && c.blink && c.underline && !c.strikethrough);
}

#[test]
fn each_attribute_has_its_own_reset() {
    let emu = emu_with(b"\x1b[5;8;9mX\x1b[25mY\x1b[28mZ\x1b[29mW");
    let s = emu.snapshot();
    let style = |col| *s.cell(0, col).unwrap().style();
    let x = style(0);
    assert!(x.blink && x.conceal && x.strikethrough);
    let y = style(1);
    assert!(!y.blink && y.conceal && y.strikethrough);
    let z = style(2);
    assert!(!z.blink && !z.conceal && z.strikethrough);
    assert_eq!(style(3), Style::default());
}

#[test]
fn a_palette_colour_is_never_mistaken_for_an_attribute() {
    let emu = emu_with(b"\x1b[38;5;196mX\x1b[0m\x1b[38;2;0;8;9mY");
    let s = emu.snapshot();
    let x = *s.cell(0, 0).unwrap().style();
    assert_eq!(x.fg, Color::Indexed(196));
    assert!(!x.blink && !x.conceal && !x.strikethrough);
    let y = *s.cell(0, 1).unwrap().style();
    assert_eq!(y.fg, Color::Rgb(0, 8, 9));
    assert!(!y.conceal && !y.strikethrough);
}

#[test]
fn attributes_survive_the_geometry_the_shadow_must_track() {
    let emu = emu_with(b"\x1b[8mmasked\r\nrow2\r\nrow3\r\nrow4\r\nrow5");
    let s = emu.snapshot();
    assert!(s.cell(0, 0).unwrap().style().conceal, "{}", s.display_text());
    assert!(s.cell(3, 0).unwrap().style().conceal, "{}", s.display_text());
    let emu = emu_with(b"\x1b[9mstruck\x1b[?1049hALT");
    let s = emu.snapshot();
    assert!(s.cell(0, 0).unwrap().style().strikethrough, "{}", s.display_text());
}

#[test]
fn hidden_cursor_is_reported() {
    let emu = emu_with(b"\x1b[?25l");
    assert_eq!(emu.snapshot().cursor(), (0, 0, false));
}

#[test]
fn mid_sequence_tracks_partial_escape() {
    let mut emu = Vt100Emulator::new(4, 10, 0, DEFAULT_CAPTURE);
    feed_all(&mut emu, b"text\x1b[3");
    assert!(emu.mid_sequence());
    feed_all(&mut emu, b"1m");
    assert!(!emu.mid_sequence());
}

#[test]
fn process_stops_at_the_end_of_a_synchronized_update() {
    let mut emu = Vt100Emulator::new(4, 10, 0, DEFAULT_CAPTURE);
    let stream = b"\x1b[?2026hframe1\x1b[?2026lnext";
    let first = emu.process(stream);
    assert!(matches!(first.stop, Some(Stop::FrameComplete(_))), "stop: {:?}", first.stop);
    assert_eq!(&stream[..first.consumed], b"\x1b[?2026hframe1\x1b[?2026l" as &[u8]);
    assert_eq!(emu.snapshot().text(), "frame1\n\n\n");
    assert!(!emu.in_sync_update());
    let rest = emu.process(&stream[first.consumed..]);
    assert!(rest.stop.is_none());
    assert!(emu.snapshot().contains("frame1next"));
}

#[test]
fn in_sync_update_is_true_between_bsu_and_esu() {
    let mut emu = Vt100Emulator::new(4, 10, 0, DEFAULT_CAPTURE);
    feed_all(&mut emu, b"\x1b[?2026hpartial");
    assert!(emu.in_sync_update());
    assert!(!emu.mid_sequence());
    feed_all(&mut emu, b"\x1b[?2026l");
    assert!(!emu.in_sync_update());
}

#[test]
fn snapshot_carries_out_of_band_terminal_state() {
    let emu = emu_with(b"\x1b]0;my app\x07\x1b[?1049h\x1b[?2004h\x1b[?1h\x1b[?1002h");
    let s = emu.snapshot();
    assert_eq!(s.title(), "my app");
    assert!(s.alternate_screen());
    assert!(s.bracketed_paste());
    assert!(s.application_cursor());
    assert_eq!(s.mouse_mode(), MouseMode::ButtonMotion);
}

#[test]
fn snapshot_state_defaults_until_the_app_sets_it() {
    let emu = emu_with(b"plain");
    let s = emu.snapshot();
    assert_eq!(s.title(), "");
    assert!(!s.alternate_screen());
    assert!(!s.bracketed_paste());
    assert!(!s.application_cursor());
    assert_eq!(s.mouse_mode(), MouseMode::Disabled);
}

fn emu_with_history(scrollback: usize, bytes: &[u8]) -> Vt100Emulator {
    let mut emu = Vt100Emulator::new(4, 10, scrollback, DEFAULT_CAPTURE);
    feed_all(&mut emu, bytes);
    emu
}

#[test]
fn rows_scrolled_off_the_top_are_retained_in_order() {
    let emu = emu_with_history(100, b"one\r\ntwo\r\nthree\r\nfour\r\nfive\r\nsix\r\nseven");
    let s = emu.snapshot();
    assert_eq!(s.scrollback_rows(), 3);
    assert_eq!(s.scrollback_text(), "one\ntwo\nthree");
    assert_eq!(s.text(), "four\nfive\nsix\nseven");
    assert_eq!(s.full_text(), "one\ntwo\nthree\nfour\nfive\nsix\nseven");
    assert!(!s.contains("one"));
    assert!(s.contains("seven"));
}

#[test]
fn history_is_bounded_and_drops_its_oldest_rows() {
    let mut emu = Vt100Emulator::new(4, 10, 3, DEFAULT_CAPTURE);
    for n in 1..=10 {
        feed_all(&mut emu, format!("row{n}\r\n").as_bytes());
    }
    let s = emu.snapshot();
    assert_eq!(s.scrollback_rows(), 3);
    assert_eq!(s.scrollback_text(), "row5\nrow6\nrow7");
    assert_eq!(s.text(), "row8\nrow9\nrow10\n");
    assert!(!s.full_text().contains("row4"));
    assert!(s.full_text().contains("row5"));
}

#[test]
fn a_history_kept_at_the_cap_keeps_advancing() {
    let mut emu = Vt100Emulator::new(4, 10, 2, DEFAULT_CAPTURE);
    feed_all(&mut emu, b"a\r\nb\r\nc\r\nd\r\ne\r\nf\r\n");
    assert_eq!(emu.snapshot().scrollback_text(), "b\nc");
    feed_all(&mut emu, b"g\r\nh\r\n");
    assert_eq!(emu.snapshot().scrollback_text(), "d\ne");
}

#[test]
fn retention_off_keeps_nothing() {
    let emu = emu_with_history(0, b"one\r\ntwo\r\nthree\r\nfour\r\nfive");
    let s = emu.snapshot();
    assert_eq!(s.scrollback_rows(), 0);
    assert_eq!(s.scrollback_text(), "");
    assert_eq!(s.full_text(), s.text());
}

#[test]
fn the_alternate_screen_accumulates_no_history() {
    let emu = emu_with_history(100, b"\x1b[?1049h one\r\ntwo\r\nthree\r\nfour\r\nfive\r\nsix");
    assert_eq!(emu.snapshot().scrollback_rows(), 0);
}

#[test]
fn history_rows_keep_the_width_they_were_captured_at() {
    let mut emu = Vt100Emulator::new(2, 10, 100, DEFAULT_CAPTURE);
    feed_all(&mut emu, b"0123456789\r\nabcdefghij\r\nnext");
    assert_eq!(emu.snapshot().scrollback_text(), "0123456789");
    emu.set_size(2, 4);
    assert_eq!(
        emu.snapshot().scrollback_text(),
        "0123456789",
        "a captured row keeps its width; narrowing the screen must not retroactively rewrite history"
    );
}

#[test]
fn mouse_tracking_modes_are_reset_until_one_is_enabled() {
    let emu = emu_with(b"plain");
    for mode in [9, 1000, 1002, 1003] {
        assert_eq!(emu.mode_state(mode), ModeState::Disabled, "mode {mode}");
    }
}

#[test]
fn an_active_tracking_mode_reports_itself_and_stays_silent_on_the_rest() {
    let emu = emu_with(b"\x1b[?1002h");
    assert_eq!(emu.mode_state(1002), ModeState::Enabled);
    for mode in [9, 1000, 1003] {
        assert_eq!(emu.mode_state(mode), ModeState::NotRecognized, "mode {mode}");
    }
}

#[test]
fn turning_tracking_off_returns_every_mode_to_reset() {
    let emu = emu_with(b"\x1b[?1002h\x1b[?1002l");
    for mode in [9, 1000, 1002, 1003] {
        assert_eq!(emu.mode_state(mode), ModeState::Disabled, "mode {mode}");
    }
}

#[test]
fn set_size_resizes_the_grid() {
    let mut emu = emu_with(b"hello");
    emu.set_size(2, 5);
    let screen = emu.snapshot();
    assert_eq!(screen.size(), (5, 2));
    assert_eq!(screen.text(), "hello\n");
}

#[test]
fn a_sequence_split_across_feeds_is_not_lost() {
    let mut shadow = AttrShadow::new(2, 10);
    shadow.feed(b"\x1b[8");
    assert!(!shadow.carriers(0, 0).is_some_and(|c| c.1));
    shadow.feed(b"mX");
    assert!(shadow.carriers(0, 0).is_some_and(|c| c.1), "the conceal carrier must survive a chunk boundary");
}

#[test]
fn a_query_stops_the_read_where_it_completes() {
    let mut emu = Vt100Emulator::new(4, 10, 0, DEFAULT_CAPTURE);
    let stream = b"ab\x1b[6ncd";
    let first = emu.process(stream);
    assert!(matches!(first.stop, Some(Stop::Query(_))), "stop: {:?}", first.stop);
    assert_eq!(first.consumed, 6);
    assert_eq!(emu.snapshot().text(), "ab\n\n\n");
}

#[test]
fn carriers_report_blink_conceal_and_strikethrough_in_order() {
    let mut shadow = AttrShadow::new(2, 10);
    shadow.feed(b"\x1b[5;9mX\x1b[0mY");
    assert_eq!(shadow.carriers(0, 0), Some((true, false, true)));
    assert_eq!(shadow.carriers(0, 1), Some((false, false, false)));
    assert_eq!(shadow.carriers(5, 0), None, "a cell outside the grid has no carriers");
    shadow.set_size(6, 10);
    assert_eq!(shadow.carriers(5, 0), Some((false, false, false)), "a resize reaches the shadow grid");
}

#[test]
fn shrinking_the_grid_moves_the_top_rows_into_the_history() {
    let mut emu = Vt100Emulator::new(4, 10, 100, DEFAULT_CAPTURE);
    feed_all(&mut emu, b"a\r\nb\r\nc\r\nd");
    assert_eq!(emu.snapshot().scrollback_rows(), 0);
    emu.set_size(2, 10);
    let screen = emu.snapshot();
    assert_eq!(screen.scrollback_text(), "a\nb");
    assert_eq!(screen.text(), "c\nd");
}

#[test]
fn the_emulator_logs_a_chunked_kitty_transmission_as_one_payload() {
    let emu = emu_with(b"\x1b_Ga=T,f=32,s=2,v=2,i=1,m=1;AAAA\x1b\\\x1b_Gm=1;BBBB\x1b\\\x1b_Gm=0;CCCC\x1b\\");
    let g = emu.graphics();
    assert_eq!(g.kitty(), 1);
    assert_eq!(g.payloads().len(), 1);
    let p = &g.payloads()[0];
    assert_eq!(p.chunks(), 3);
    assert_eq!(p.data(), Some(&b"AAAABBBBCCCC"[..]));
    assert_eq!(p.size(), Some((2, 2)));
    assert_eq!(p.id(), Some(1));
    assert_eq!(g.bytes(), p.bytes());
}
