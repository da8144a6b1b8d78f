use termlens::base64::decode_base64;
use termlens::graphics::{GraphicsFormat, GraphicsPayload, DEFAULT_CAPTURE};
use termlens::tracker::{Query, SeqEvent, SeqTracker, LINK_HISTORY, LINK_LABEL_MAX, OSC_CAPTURE_MAX};

fn fed(bytes: &[u8]) -> SeqTracker {
    let mut t = SeqTracker::new(DEFAULT_CAPTURE);
    t.feed(bytes);
    t
}

/// Every event a `BEL` byte can be, and only one of them is a bell.
#[test]
fn only_a_bel_in_ground_state_is_a_bell() {
    assert_eq!(fed(b"a\x07b").bells(), 1);
    assert_eq!(fed(b"\x07\x07\x07").bells(), 3, "a count, not a flag");
    assert_eq!(fed(b"plain").bells(), 0);

    // Terminating an OSC string: punctuation, not a bell. And the title
    // must still arrive, which is the thing that would break if the BEL
    // were intercepted before the state machine saw it.
    let t = fed(b"\x1b]0;my app\x07");
    assert_eq!(t.bells(), 0);
    assert_eq!(t.title().as_str(), "my app");

    // Payload inside a DCS-class string.
    assert_eq!(fed(b"\x1bPq\x07\x07\x1b\\").bells(), 0);
    // A bell after a sequence closes still counts.
    assert_eq!(fed(b"\x1b]0;t\x07\x07").bells(), 1);
}

/// The capture bound is a bound on the *payload*, not on each escape.
///
/// kitty sends one escape per 4096 bytes, so a bound applied per escape
/// would let a thousand-chunk image retain a thousand times the budget —
/// which is the whole of what the knob is for.
#[test]
fn the_capture_bound_holds_across_a_chunked_transmission() {
    let mut tracker = SeqTracker::new(40);
    // Ten chunks of eight data bytes: every escape fits the bound
    // comfortably, and the ten together do not.
    let mut wire: Vec<u8> = b"\x1b_Ga=T,f=32,s=4,v=4,m=1;AAAAAAAA\x1b\\".to_vec();
    for _ in 0..8 {
        wire.extend_from_slice(b"\x1b_Gm=1;BBBBBBBB\x1b\\");
    }
    wire.extend_from_slice(b"\x1b_Gm=0;CCCCCCCC\x1b\\");

    let mut seen = None;
    for &byte in &wire {
        if let SeqEvent::Graphics(payload) = tracker.step(byte) {
            seen = Some(*payload);
        }
    }
    let payload = seen.expect("a payload");
    assert_eq!(payload.chunks(), 10);
    assert_eq!(
        payload.data(),
        None,
        "80 bytes must not be kept under a 40-byte bound"
    );
    assert_eq!(tracker.graphics().kitty, 1, "and it is still one image");
}

/// Every payload a feed produced, in order.
fn payloads(bytes: &[u8]) -> Vec<GraphicsPayload> {
    let mut tracker = SeqTracker::new(DEFAULT_CAPTURE);
    let mut out = Vec::new();
    for &byte in bytes {
        if let SeqEvent::Graphics(payload) = tracker.step(byte) {
            out.push(*payload);
        }
    }
    out
}

/// Kitty and sixel payloads, and the two DCS *questions* that share
/// sixel's `q` final byte and must not be counted as pictures.
#[test]
fn graphics_payloads_are_counted_by_protocol() {
    let kitty = fed(b"\x1b_Gf=24,s=1,v=1,a=T;AAAABBBB\x1b\\");
    assert_eq!(kitty.graphics().kitty, 1);
    assert_eq!(kitty.graphics().sixel, 0);
    // Everything between the introducer and the terminator.
    assert_eq!(kitty.graphics().bytes, 26);
    assert_eq!(fed(b"\x1bPq~~\x1b\\").graphics().bytes, 3, "q~~");

    let sixel = fed(b"\x1bPq#0;2;0;0;0#0~~-~~\x1b\\");
    assert_eq!(sixel.graphics().sixel, 1);
    assert_eq!(sixel.graphics().kitty, 0);

    // Sixel with parameters before the `q`.
    assert_eq!(fed(b"\x1bP0;1;0q~~\x1b\\").graphics().sixel, 1);

    // Neither of these is a picture: both reach `q` through an
    // intermediate byte, which is the whole distinction.
    let termcap = fed(b"\x1bP+q544e\x1b\\").graphics();
    assert_eq!((termcap.kitty, termcap.sixel), (0, 0), "XTGETTCAP");
    let decrqss = fed(b"\x1bP$qm\x1b\\").graphics();
    assert_eq!((decrqss.kitty, decrqss.sixel), (0, 0), "DECRQSS");

    // Two of each accumulate.
    let both = fed(b"\x1b_Ga=T;AA\x1b\\\x1bPq~\x1b\\\x1b_Ga=T;BB\x1b\\");
    assert_eq!((both.graphics().kitty, both.graphics().sixel), (2, 1));
}

/// The protocol caps a payload at 4096 bytes and continues with `m=1`,
/// so every image of consequence arrives in several escapes. Counting
/// each of them reported one 4.9 KB chart as two pictures — and the
/// second "picture" had no control block, so nothing could be said
/// about it either.
#[test]
fn a_chunked_kitty_transmission_is_one_image() {
    let wire = b"\x1b_Ga=T,f=32,s=2,v=2,i=1,m=1;AAAA\x1b\\                     \x1b_Gm=1;BBBB\x1b\\\x1b_Gm=0;CCCC\x1b\\";
    let counts = fed(wire).graphics();
    assert_eq!(counts.kitty, 1, "one image, three escapes");

    let payloads = payloads(wire);
    assert_eq!(payloads.len(), 1);
    assert_eq!(payloads[0].chunks(), 3);
    assert_eq!(payloads[0].data(), Some(&b"AAAABBBBCCCC"[..]));
    // The facts come off the first escape; the continuations carry none.
    assert_eq!(payloads[0].size(), Some((2, 2)));
    assert_eq!(payloads[0].id(), Some(1));
    // And the cost is the whole transmission, not the last escape.
    assert_eq!(counts.bytes, payloads[0].bytes());
}

/// A delete takes an image *off* the screen. Counting it as one
/// transmitted made an application that tears down what it drew
/// indistinguishable from one that drew twice as much.
#[test]
fn a_delete_is_counted_apart_from_the_images() {
    let counts = fed(b"\x1b_Ga=T,f=32,s=1,v=1;AA\x1b\\\x1b_Ga=d,d=I,i=1,q=2\x1b\\").graphics();
    assert_eq!(counts.kitty, 1, "one image");
    assert_eq!(counts.deletes, 1, "and one teardown");
    // The wire cost of both is still counted: a delete is traffic.
    assert!(counts.bytes > 22);
}

/// A payload past the capture bound keeps every count and drops the
/// data, rather than handing back a prefix that would decode into a
/// plausible-looking wrong picture.
#[test]
fn a_payload_past_the_capture_bound_is_counted_and_not_kept() {
    let mut tracker = SeqTracker::new(8);
    let mut seen = None;
    for &byte in b"\x1b_Ga=T,f=32,s=4,v=4;AAAABBBBCCCCDDDD\x1b\\" {
        if let SeqEvent::Graphics(payload) = tracker.step(byte) {
            seen = Some(*payload);
        }
    }
    let payload = seen.expect("a payload");
    assert_eq!(payload.data(), None, "not kept");
    assert_eq!(payload.size(), Some((4, 4)), "but still described");
    assert_eq!(tracker.graphics().kitty, 1, "and still counted");
}

/// The control block is metadata; the data is what a decoder wants.
#[test]
fn a_payload_carries_the_data_and_not_the_framing() {
    let kitty = payloads(b"\x1b_Ga=T,f=24,s=1,v=1;QUJD\x1b\\");
    assert_eq!(kitty[0].data(), Some(&b"QUJD"[..]));
    assert_eq!(kitty[0].format(), GraphicsFormat::Rgb);

    // Sixel's header ends at the `q`; everything after it is the image.
    let sixel = payloads(b"\x1bP0;1;0q\"1;1;2;6#0;2;100;0;0~~\x1b\\");
    assert_eq!(sixel[0].data(), Some(&b"\"1;1;2;6#0;2;100;0;0~~"[..]));
    assert_eq!(sixel[0].size(), Some((2, 6)));
}

/// The kitty graphics *query* was the one probe of the startup set that
/// got neither an answer nor a diagnosis: `string_final` looked only at
/// `+q`/`$q`, which an APC never matches, so `note_unanswered` never saw
/// it and the timeout said nothing.
#[test]
fn the_kitty_graphics_query_is_classified() {
    let mut t = SeqTracker::new(DEFAULT_CAPTURE);
    let mut events = Vec::new();
    for &b in b"\x1b_Gi=1,a=q;\x1b\\" {
        events.push(t.step(b));
    }
    assert!(
        events.iter().any(|e| matches!(
            e,
            SeqEvent::Query(Query::KittyGraphics { id: Some(1), shape })
                if shape.contains("_G")
        )),
        "the query must be classified, with its id, for a reply or a \
         timeout note: {events:?}"
    );
    // A query carries no picture, so it is not counted as one.
    assert_eq!(t.graphics().kitty, 0);
}

/// A transmission is an instruction, not a question. Classifying one as
/// a query would put "the application queried the terminal" into the
/// next timeout of every application that draws.
#[test]
fn a_kitty_transmission_is_not_treated_as_a_query() {
    let mut t = SeqTracker::new(DEFAULT_CAPTURE);
    let mut events = Vec::new();
    for &b in b"\x1b_Gf=24,a=T;QUJD\x1b\\" {
        events.push(t.step(b));
    }
    assert!(
        !events.iter().any(|e| matches!(e, SeqEvent::Query(_))),
        "a transmit is not a question: {events:?}"
    );
    assert_eq!(t.graphics().kitty, 1);
}

/// The links a fed tracker holds, as `(uri, id, label, closed)`.
fn links(bytes: &[u8]) -> Vec<(String, Option<String>, Option<String>, bool)> {
    fed(bytes)
        .links()
        .iter()
        .map(|l| {
            (
                l.uri().to_string(),
                l.id().map(str::to_string),
                l.label().map(str::to_string),
                l.closed(),
            )
        })
        .collect()
}

/// The reproduction from the issue: the label renders as ordinary text
/// and the URL has to be somewhere a test can reach.
#[test]
fn an_osc8_span_records_its_uri_and_the_text_it_wrapped() {
    let seen = links(b"see \x1b]8;;https://example.invalid/a\x1b\\docs\x1b]8;;\x1b\\ here");
    assert_eq!(
        seen,
        vec![(
            "https://example.invalid/a".to_string(),
            None,
            Some("docs".to_string()),
            true
        )]
    );
}

#[test]
fn a_bel_terminated_span_and_a_multibyte_label_both_survive() {
    // BEL is the other legal OSC terminator, and the one `printf` in a
    // shell reaches for.
    let seen = links("\x1b]8;;http://x/\x07café\x1b]8;;\x07".as_bytes());
    assert_eq!(seen[0].2, Some("café".to_string()));
    assert!(seen[0].3);
}

#[test]
fn the_id_parameter_is_kept_so_multi_span_links_can_be_grouped() {
    let seen = links(
        b"\x1b]8;id=42:x=y;http://x/\x1b\\one\x1b]8;;\x1b\\               \x1b]8;id=42;http://x/\x1b\\two\x1b]8;;\x1b\\",
    );
    assert_eq!(seen.len(), 2);
    assert_eq!(seen[0].1.as_deref(), Some("42"));
    assert_eq!(seen[1].1.as_deref(), Some("42"));
    assert_eq!(seen[0].2.as_deref(), Some("one"));
    assert_eq!(seen[1].2.as_deref(), Some("two"));
}

/// A URI with a query string contains `;` of its own. Splitting on the
/// last separator, or on all of them, truncates the target silently —
/// which is precisely the wrong-URL failure this feature exists to catch.
#[test]
fn only_the_first_separator_ends_the_parameters() {
    let seen = links(b"\x1b]8;;http://x/?a=1;b=2\x1b\\t\x1b]8;;\x1b\\");
    assert_eq!(seen[0].0, "http://x/?a=1;b=2");
}

/// An unterminated span is a real defect — in a real terminal every
/// character after it joins the link — so it is reported rather than
/// dropped, and its label is bounded rather than allowed to swallow the
/// stream.
#[test]
fn an_unterminated_span_is_reported_open_and_cannot_bleed() {
    let mut bytes = b"\x1b]8;;http://x/\x1b\\".to_vec();
    bytes.extend(std::iter::repeat_n(b'z', LINK_LABEL_MAX + 100));
    let seen = links(&bytes);
    assert_eq!(seen.len(), 1);
    assert_eq!(seen[0].0, "http://x/");
    assert!(!seen[0].3, "the application never closed it");
    // Still open, so there is no final label — and the bound means the
    // captured bytes are a prefix, which is not an answer either.
    assert_eq!(seen[0].2, None);
}

#[test]
fn a_label_past_the_bound_is_unknown_rather_than_a_prefix() {
    let mut bytes = b"\x1b]8;;http://x/\x1b\\".to_vec();
    bytes.extend(std::iter::repeat_n(b'z', LINK_LABEL_MAX + 1));
    bytes.extend_from_slice(b"\x1b]8;;\x1b\\");
    let seen = links(&bytes);
    assert!(seen[0].3, "closed");
    assert_eq!(
        seen[0].2, None,
        "a prefix of the wrong length is a wrong answer"
    );
}

/// A real terminal replaces the current target rather than nesting, so a
/// second open closes the first — otherwise the second label would be
/// attributed to the first URI.
#[test]
fn a_new_span_supersedes_one_left_open() {
    let seen = links(b"\x1b]8;;http://a/\x1b\\one\x1b]8;;http://b/\x1b\\two\x1b]8;;\x1b\\");
    assert_eq!(seen.len(), 2);
    assert_eq!(
        (seen[0].0.as_str(), seen[0].2.as_deref()),
        ("http://a/", Some("one"))
    );
    assert_eq!(
        (seen[1].0.as_str(), seen[1].2.as_deref()),
        ("http://b/", Some("two"))
    );
}

/// A URI past the OSC capture bound is a *prefix*, and opening a span on
/// a prefix records a link pointing somewhere the application never
/// named — the wrong-URL failure this feature exists to catch, only
/// manufactured by termlens rather than by the program under test.
/// Refused outright, exactly as a truncated `OSC 52` payload is.
#[test]
fn an_osc8_past_the_capture_bound_is_refused_rather_than_truncated() {
    let mut bytes = b"\x1b]8;;http://x/".to_vec();
    bytes.extend(std::iter::repeat_n(b'a', OSC_CAPTURE_MAX));
    bytes.extend_from_slice(b"\x1b\\label\x1b]8;;\x1b\\");
    assert!(
        links(&bytes).is_empty(),
        "a truncated URI must not become a link"
    );
}

#[test]
fn a_malformed_osc8_neither_opens_nor_closes() {
    // No second `;` at all: not a link, and not a close either —
    // silently closing would attribute what follows to nothing.
    let seen = links(b"\x1b]8;http://x/\x1b\\t");
    assert!(seen.is_empty());
    // An open, then a malformed one, then text: the text still belongs
    // to the span that is actually open.
    let seen = links(b"\x1b]8;;http://x/\x1b\\a\x1b]8;junk\x1b\\b\x1b]8;;\x1b\\");
    assert_eq!(seen.len(), 1);
    assert_eq!(seen[0].2.as_deref(), Some("ab"));
}

#[test]
fn control_characters_are_not_part_of_a_label() {
    // A newline moves the cursor; it does not spell anything.
    let seen = links(b"\x1b]8;;http://x/\x1b\\a\r\nb\x1b]8;;\x1b\\");
    assert_eq!(seen[0].2.as_deref(), Some("ab"));
}

#[test]
fn the_link_log_is_bounded_and_evicts_the_oldest() {
    let mut bytes = Vec::new();
    for n in 0..LINK_HISTORY + 10 {
        bytes
            .extend_from_slice(format!("\x1b]8;;http://x/{n}\x1b\\l\x1b]8;;\x1b\\").as_bytes());
    }
    let seen = links(&bytes);
    assert_eq!(seen.len(), LINK_HISTORY);
    // Oldest evicted, newest kept.
    assert_eq!(seen[0].0, "http://x/10");
    assert_eq!(
        seen[LINK_HISTORY - 1].0,
        format!("http://x/{}", LINK_HISTORY + 9)
    );
}

#[test]
fn an_application_that_emits_no_links_reports_none() {
    assert!(links(b"plain text\x1b]0;title\x07").is_empty());
}

#[test]
fn decscusr_records_the_parameter_the_application_asked_for() {
    // Never asked is its own state, and not the same as any value.
    assert_eq!(fed(b"hello").cursor_style(), None);
    for ps in 0u8..=6 {
        let bytes = format!("\x1b[{ps} q");
        assert_eq!(
            fed(bytes.as_bytes()).cursor_style(),
            Some(ps),
            "DECSCUSR {ps} was not recorded"
        );
    }
    // An omitted parameter is 0 (a blinking block), per xterm.
    assert_eq!(fed(b"\x1b[ q").cursor_style(), Some(0));
    // The last one wins, which is what makes a restore assertable.
    assert_eq!(fed(b"\x1b[5 q\x1b[2 q").cursor_style(), Some(2));
}

/// RIS is a way a program restores the cursor on exit, so a stale
/// `DECSCUSR` after one would fail the very assertion `cursor_shape`
/// exists to support — and claim a shape the terminal no longer holds.
#[test]
fn a_hard_reset_returns_the_cursor_to_the_terminals_default() {
    assert_eq!(fed(b"\x1b[5 q").cursor_style(), Some(5));
    assert_eq!(fed(b"\x1b[5 q\x1bc").cursor_style(), None);
    // …and a style set *after* the reset is still recorded.
    assert_eq!(fed(b"\x1b[5 q\x1bc\x1b[2 q").cursor_style(), Some(2));
}

/// An open span cannot survive a hard reset, so it is closed with what
/// it had. The *log* is a record of what the application emitted and is
/// deliberately kept, like the bell count and the clipboard.
#[test]
fn a_hard_reset_closes_an_open_span_and_keeps_the_log() {
    let seen = links(b"\x1b]8;;http://x/\x1b\\lab\x1bcafter");
    assert_eq!(seen.len(), 1);
    assert_eq!(seen[0].0, "http://x/");
    assert_eq!(
        seen[0].2.as_deref(),
        Some("lab"),
        "the text before the reset"
    );
    assert!(seen[0].3, "closed by the reset");
    // Text after the reset belongs to no span.
    let seen = links(b"\x1b]8;;http://x/\x1b\\a\x1bcbbb");
    assert_eq!(seen[0].2.as_deref(), Some("a"));
}

/// The two-character escapes that are *not* RIS must keep passing
/// through untouched — `ESC 7` (save cursor) is next to it in the table.
#[test]
fn other_two_character_escapes_do_not_reset_anything() {
    for seq in [
        &b"\x1b[5 q\x1b7"[..],
        b"\x1b[5 q\x1b8",
        b"\x1b[5 q\x1bD",
        b"\x1b[5 q\x1bM",
    ] {
        assert_eq!(
            fed(seq).cursor_style(),
            Some(5),
            "{seq:?} reset the cursor style"
        );
    }
}

#[test]
fn an_undefined_or_misshapen_decscusr_leaves_the_last_known_style() {
    // 7+ is undefined; xterm ignores it, and inventing a shape here
    // would report one the application never asked for.
    assert_eq!(fed(b"\x1b[5 q\x1b[7 q").cursor_style(), Some(5));
    assert_eq!(fed(b"\x1b[7 q").cursor_style(), None);
    // A private prefix or a second parameter makes it a different
    // sequence, not a DECSCUSR with extra decoration.
    assert_eq!(fed(b"\x1b[?5 q").cursor_style(), None);
    assert_eq!(fed(b"\x1b[5;2 q").cursor_style(), None);
}

/// `SP` is the intermediate of DECSCUSR *and* of SL/SR (`CSI Ps SP @`
/// / `A`), which scroll the screen sideways. Accepting the intermediate
/// must not turn those into a cursor style, nor let them fall through
/// into the query table below, which assumes no intermediate.
#[test]
fn the_other_space_intermediate_sequences_are_not_cursor_styles() {
    for seq in [&b"\x1b[2 @"[..], b"\x1b[2 A", b"\x1b[1 t"] {
        let mut t = fed(seq);
        assert_eq!(t.cursor_style(), None, "{seq:?} set a cursor style");
        assert_eq!(t.step(b'x'), SeqEvent::Nothing);
    }
}

#[test]
fn plain_text_is_ground() {
    assert!(!fed(b"hello world\r\n").mid_sequence());
}

#[test]
fn split_csi_is_mid_sequence_until_final_byte() {
    let mut t = SeqTracker::new(DEFAULT_CAPTURE);
    t.feed(b"\x1b[3");
    assert!(t.mid_sequence());
    t.feed(b"1");
    assert!(t.mid_sequence());
    t.feed(b"m");
    assert!(!t.mid_sequence());
}

#[test]
fn two_char_escape_completes() {
    assert!(!fed(b"\x1b7").mid_sequence()); // DECSC
    assert!(fed(b"\x1b").mid_sequence());
}

#[test]
fn esc_intermediate_completes_on_final() {
    assert!(fed(b"\x1b(").mid_sequence()); // charset designation, unfinished
    assert!(!fed(b"\x1b(B").mid_sequence());
}

#[test]
fn osc_terminated_by_bel_or_st() {
    assert!(fed(b"\x1b]0;title").mid_sequence());
    assert!(!fed(b"\x1b]0;title\x07").mid_sequence());
    assert!(!fed(b"\x1b]0;title\x1b\\").mid_sequence());
}

#[test]
fn dcs_terminated_by_st_only() {
    assert!(fed(b"\x1bPdata").mid_sequence());
    assert!(fed(b"\x1bPdata\x07").mid_sequence()); // BEL is DCS payload
    assert!(!fed(b"\x1bPdata\x1b\\").mid_sequence());
}

#[test]
fn esc_inside_string_starts_new_sequence() {
    // ESC c aborts the OSC and completes as its own two-char escape.
    assert!(!fed(b"\x1b]0;title\x1bc").mid_sequence());
    // ESC [ aborts the OSC and leaves us inside a CSI.
    assert!(fed(b"\x1b]0;title\x1b[3").mid_sequence());
}

#[test]
fn can_aborts_sequences() {
    assert!(!fed(b"\x1b[31\x18").mid_sequence());
}

#[test]
fn sync_update_events_fire_on_2026_set_and_reset() {
    let mut t = SeqTracker::new(DEFAULT_CAPTURE);
    let events: Vec<SeqEvent> = b"\x1b[?2026h".iter().map(|&b| t.step(b)).collect();
    assert_eq!(*events.last().unwrap(), SeqEvent::SyncBegin);
    assert!(t.in_sync_update());
    let events: Vec<SeqEvent> = b"\x1b[?2026l".iter().map(|&b| t.step(b)).collect();
    assert_eq!(*events.last().unwrap(), SeqEvent::SyncEnd);
    assert!(!t.in_sync_update());
}

#[test]
fn sync_2026_is_recognized_anywhere_in_a_multi_mode_list() {
    let mut t = SeqTracker::new(DEFAULT_CAPTURE);
    t.feed(b"\x1b[?2026;25h");
    assert!(t.in_sync_update());
    let mut t = SeqTracker::new(DEFAULT_CAPTURE);
    t.feed(b"\x1b[?25;2026h");
    assert!(t.in_sync_update());
}

#[test]
fn lookalike_sequences_do_not_toggle_sync() {
    let mut t = SeqTracker::new(DEFAULT_CAPTURE);
    t.feed(b"\x1b[2026h"); // not private (no '?')
    assert!(!t.in_sync_update());
    t.feed(b"\x1b[?2026m"); // wrong final byte
    assert!(!t.in_sync_update());
    t.feed(b"\x1b[?2026:1h"); // sub-parameter form: not a plain mode set
    assert!(!t.in_sync_update());
    t.feed(b"\x1b[?20260h"); // different mode number
    assert!(!t.in_sync_update());
}

#[test]
fn base64_decodes_or_refuses() {
    assert_eq!(
        decode_base64(b"dGhlIHRpdGxl").as_deref(),
        Some(&b"the title"[..])
    );
    // Every padding shape.
    assert_eq!(decode_base64(b"YQ==").as_deref(), Some(&b"a"[..]));
    assert_eq!(decode_base64(b"YWI=").as_deref(), Some(&b"ab"[..]));
    assert_eq!(decode_base64(b"YWJj").as_deref(), Some(&b"abc"[..]));
    // Unpadded is common in the wild and unambiguous.
    assert_eq!(decode_base64(b"YQ").as_deref(), Some(&b"a"[..]));
    assert_eq!(decode_base64(b"YWI").as_deref(), Some(&b"ab"[..]));
    // A real write of nothing.
    assert_eq!(decode_base64(b"").as_deref(), Some(&b""[..]));

    // Refusals: out of alphabet, impossible length, misplaced padding.
    assert_eq!(decode_base64(b"not base64!"), None);
    assert_eq!(decode_base64(b"YWJjZ"), None);
    assert_eq!(decode_base64(b"Y===="), None);
    // One leftover character encodes nothing.
    assert_eq!(decode_base64(b"Y"), None);
}

#[test]
fn osc52_writes_are_captured_with_their_target() {
    let t = fed(b"\x1b]52;c;V2lyZSB1cCB0aGUgUFRZIHJlYWRlcg==\x07");
    let clip = t.clipboard().expect("a write was observed");
    assert_eq!(clip.targets(), "c");
    assert_eq!(clip.text(), Some("Wire up the PTY reader"));

    // Primary selection, ST-terminated instead of BEL.
    let t = fed(b"\x1b]52;p;c2VsZWN0ZWQgd29yZHM=\x1b\\");
    let clip = t.clipboard().expect("a write was observed");
    assert_eq!(clip.targets(), "p");
    assert_eq!(clip.text(), Some("selected words"));

    // No target named: the terminal would pick its default, and we
    // report what the application actually sent rather than guessing.
    let t = fed(b"\x1b]52;;Y29waWVk\x07");
    assert_eq!(t.clipboard().expect("write").targets(), "");

    // The most recent write wins.
    let t = fed(b"\x1b]52;c;YQ==\x07\x1b]52;c;YWI=\x07");
    assert_eq!(t.clipboard().expect("write").text(), Some("ab"));
}

#[test]
fn an_undecodable_payload_is_not_an_empty_clipboard() {
    // The distinction the whole feature rests on: a test asserting
    // `text() == Some("")` must not pass on a payload we could not read.
    let empty = fed(b"\x1b]52;c;\x07");
    assert_eq!(empty.clipboard().expect("write").text(), Some(""));

    let broken = fed(b"\x1b]52;c;!!!not base64!!!\x07");
    assert_eq!(broken.clipboard().expect("write").text(), None);
    assert_eq!(broken.clipboard().expect("write").targets(), "c");

    // Valid base64 that is not text.
    let not_utf8 = fed(b"\x1b]52;c;//8=\x07");
    assert_eq!(not_utf8.clipboard().expect("write").text(), None);
}

#[test]
fn a_payload_past_the_capture_bound_is_reported_as_unreadable() {
    // A prefix of base64 can still decode — to the wrong thing. Any
    // truncation must therefore read as "could not decode".
    let mut stream = b"\x1b]52;c;".to_vec();
    stream.extend(std::iter::repeat_n(b'A', OSC_CAPTURE_MAX + 64));
    stream.push(0x07);
    let t = fed(&stream);
    assert_eq!(t.clipboard().expect("write").text(), None);
}

#[test]
fn a_clipboard_read_is_a_query_not_a_write() {
    let mut t = SeqTracker::new(DEFAULT_CAPTURE);
    let events: Vec<SeqEvent> = b"\x1b]52;c;?\x07".iter().map(|&b| t.step(b)).collect();
    assert!(matches!(
        events.last(),
        Some(SeqEvent::Query(Query::Unanswerable(_)))
    ));
    assert!(t.clipboard().is_none(), "a read must not invent a write");
}

#[test]
fn an_end_that_closes_no_begin_is_not_a_frame() {
    // Applications reset terminal modes defensively at startup and on
    // crash, and such a reset string contains `?2026l`. It must not end
    // a frame that never began.
    let mut t = SeqTracker::new(DEFAULT_CAPTURE);
    let events: Vec<SeqEvent> = b"\x1b[?2026l".iter().map(|&b| t.step(b)).collect();
    assert!(!events.contains(&SeqEvent::SyncEnd));
    assert!(!t.in_sync_update());

    // Taken verbatim from a real crash handler.
    let reset = b"\x1b[?2026l\x1b[?25h\x1b[?1000l\x1b[?1002l\x1b[?1003l\x1b[?2004l\x1b[?1049l";
    let mut t = SeqTracker::new(DEFAULT_CAPTURE);
    let events: Vec<SeqEvent> = reset.iter().map(|&b| t.step(b)).collect();
    assert!(!events.contains(&SeqEvent::SyncEnd));

    // And the End of a real frame still ends it, once only.
    let mut t = SeqTracker::new(DEFAULT_CAPTURE);
    let events: Vec<SeqEvent> = b"\x1b[?2026h\x1b[?2026l\x1b[?2026l"
        .iter()
        .map(|&b| t.step(b))
        .collect();
    assert_eq!(
        events.iter().filter(|e| **e == SeqEvent::SyncEnd).count(),
        1
    );
}

#[test]
fn sync_survives_an_aborted_csi_inside_the_update() {
    let mut t = SeqTracker::new(DEFAULT_CAPTURE);
    t.feed(b"\x1b[?2026h\x1b[31\x18"); // CAN aborts the SGR, not the frame
    assert!(t.in_sync_update());
    t.feed(b"\x1b[?2026l");
    assert!(!t.in_sync_update());
}

fn queries_of(bytes: &[u8]) -> Vec<Query> {
    let mut t = SeqTracker::new(DEFAULT_CAPTURE);
    bytes
        .iter()
        .filter_map(|&b| match t.step(b) {
            SeqEvent::Query(q) => Some(q),
            _ => None,
        })
        .collect()
}

#[test]
fn recognizes_the_answerable_queries() {
    assert_eq!(
        queries_of(b"\x1b[6n"),
        vec![Query::CursorPosition { private: false }]
    );
    assert_eq!(
        queries_of(b"\x1b[?6n"),
        vec![Query::CursorPosition { private: true }]
    );
    assert_eq!(queries_of(b"\x1b[5n"), vec![Query::OperatingStatus]);
    assert_eq!(queries_of(b"\x1b[c"), vec![Query::PrimaryDa]);
    assert_eq!(queries_of(b"\x1b[0c"), vec![Query::PrimaryDa]);
    assert_eq!(queries_of(b"\x1b[>c"), vec![Query::SecondaryDa]);
    assert_eq!(queries_of(b"\x1b[18t"), vec![Query::TextAreaSize]);
    assert_eq!(
        queries_of(b"\x1b]11;?\x07"),
        vec![Query::OscColor {
            code: 11,
            st_terminated: false
        }]
    );
    assert_eq!(
        queries_of(b"\x1b]10;?\x1b\\"),
        vec![Query::OscColor {
            code: 10,
            st_terminated: true
        }]
    );
}

/// The pixel reports used to be lumped in with the whole `CSI t` family
/// as unanswerable. They are arithmetic, so they are now their own
/// questions — while the rest of the family stays declined.
#[test]
fn pixel_geometry_queries_are_classified_apart_from_the_rest() {
    assert_eq!(queries_of(b"\x1b[14t"), vec![Query::WindowSizePixels]);
    assert_eq!(queries_of(b"\x1b[16t"), vec![Query::CellSizePixels]);
    assert_eq!(queries_of(b"\x1b[18t"), vec![Query::TextAreaSize]);
    for shape in [&b"\x1b[11t"[..], b"\x1b[13t", b"\x1b[19t", b"\x1b[20t"] {
        assert!(
            matches!(queries_of(shape).as_slice(), [Query::Unanswerable(_)]),
            "still declined: {shape:?}"
        );
    }
}

/// The names must come out intact, since the reply has to echo each one
/// back — and they are longer than the 24-byte diagnostic buffer can
/// hold, which is why they come from the header capture instead.
#[test]
fn xtgettcap_carries_the_names_it_was_asked_for() {
    // "TN" and "colors", hex-encoded, as xterm-style clients send them.
    let q = queries_of(b"\x1bP+q544e;636f6c6f7273\x1b\\");
    assert_eq!(
        q,
        vec![Query::RequestTermcap {
            names: "544e;636f6c6f7273".into(),
            shape: "^[P+q544e;636f6c6f7273^[\\".into(),
        }]
    );
}

#[test]
fn a_kitty_probe_without_an_id_still_classifies() {
    assert_eq!(
        queries_of(b"\x1b_Ga=q;\x1b\\"),
        vec![Query::KittyGraphics {
            id: None,
            shape: "^[_Ga=q;^[\\".into()
        }]
    );
}

#[test]
fn recognizes_unanswerable_questions_with_their_shape() {
    let q = queries_of(b"\x1b[?u");
    assert_eq!(q, vec![Query::Unanswerable("^[[?u".into())]);
    // 14t and 16t are classified in their own right now; 13t is not.
    let q = queries_of(b"\x1b[13t");
    assert_eq!(q, vec![Query::Unanswerable("^[[13t".into())]);
    // XTGETTCAP is answerable now; DECRQSS still is not.
    let q = queries_of(b"\x1bP$qm\x1b\\"); // DECRQSS
    assert_eq!(q, vec![Query::Unanswerable("^[P$qm^[\\".into())]);
    let q = queries_of(b"\x1b[=c"); // DA3
    assert_eq!(q, vec![Query::Unanswerable("^[[=c".into())]);
    let q = queries_of(b"\x1b]12;?\x07"); // cursor color
    assert_eq!(q, vec![Query::Unanswerable("^[]12;?^G".into())]);
    // Any CSI …n is a DSR-family status request by definition.
    let q = queries_of(b"\x1b[6;1n");
    assert_eq!(q, vec![Query::Unanswerable("^[[6;1n".into())]);
}

#[test]
fn recognizes_decrqm_mode_requests() {
    assert_eq!(queries_of(b"\x1b[?2026$p"), vec![Query::RequestMode(2026)]);
    assert_eq!(queries_of(b"\x1b[?2004$p"), vec![Query::RequestMode(2004)]);
    assert_eq!(queries_of(b"\x1b[?1$p"), vec![Query::RequestMode(1)]);
    // ANSI-mode DECRQM (no `?`) is recognized but not answerable.
    assert_eq!(
        queries_of(b"\x1b[4$p"),
        vec![Query::Unanswerable("^[[4$p".into())]
    );
}

#[test]
fn recognizes_the_remaining_unanswerable_families() {
    // DECRQSS: "what is the current setting of ...?"
    assert_eq!(
        queries_of(b"\x1bP$qm\x1b\\"),
        vec![Query::Unanswerable("^[P$qm^[\\".into())]
    );
    // Palette query and clipboard read.
    assert_eq!(
        queries_of(b"\x1b]4;1;?\x07"),
        vec![Query::Unanswerable("^[]4;1;?^G".into())]
    );
    assert_eq!(
        queries_of(b"\x1b]52;c;?\x07"),
        vec![Query::Unanswerable("^[]52;c;?^G".into())]
    );
}

#[test]
fn setting_a_palette_colour_is_not_a_query() {
    // `OSC 4;1;rgb:...` sets rather than asks — only the `?` form is
    // a question.
    assert!(queries_of(b"\x1b]4;1;rgb:ff/00/00\x07").is_empty());
    assert!(queries_of(b"\x1b]52;c;aGVsbG8=\x07").is_empty());
}

#[test]
fn ordinary_output_is_not_a_query() {
    assert!(queries_of(b"\x1b[31m").is_empty()); // SGR
    assert!(queries_of(b"\x1b[2J\x1b[H").is_empty()); // clear+home
    assert!(queries_of(b"\x1b[8;30;100t").is_empty()); // resize command
    assert!(queries_of(b"\x1b]0;title\x07").is_empty()); // set title
    assert!(queries_of(b"\x1b[1;6H").is_empty()); // cursor move
    assert!(queries_of(b"plain text").is_empty());
}

#[test]
fn osc_0_and_2_set_the_title_via_bel_or_st() {
    let mut t = SeqTracker::new(DEFAULT_CAPTURE);
    assert_eq!(t.title().as_str(), "");
    t.feed(b"\x1b]2;hello world\x07");
    assert_eq!(t.title().as_str(), "hello world");
    t.feed("\x1b]0;second ✓\x1b\\".as_bytes());
    assert_eq!(t.title().as_str(), "second ✓");
}

#[test]
fn titles_longer_than_the_diagnostic_capture_are_kept_whole() {
    let mut t = SeqTracker::new(DEFAULT_CAPTURE);
    let title = "t".repeat(80); // seq_buf truncates at 24; titles must not
    t.feed(format!("\x1b]2;{title}\x07").as_bytes());
    assert_eq!(t.title().as_str(), title.as_str());
}

#[test]
fn title_survives_chunked_delivery() {
    let mut t = SeqTracker::new(DEFAULT_CAPTURE);
    t.feed(b"\x1b]2;split");
    t.feed(b" title\x07");
    assert_eq!(t.title().as_str(), "split title");
}

#[test]
fn title_keeps_embedded_semicolons() {
    let mut t = SeqTracker::new(DEFAULT_CAPTURE);
    t.feed(b"\x1b]0;a;b;c\x07");
    assert_eq!(t.title().as_str(), "a;b;c");
}

#[test]
fn icon_only_and_aborted_titles_do_not_change_the_title() {
    let mut t = SeqTracker::new(DEFAULT_CAPTURE);
    t.feed(b"\x1b]2;kept\x07");
    t.feed(b"\x1b]1;icon only\x07"); // OSC 1: icon name, not the title
    assert_eq!(t.title().as_str(), "kept");
    t.feed(b"\x1b]2;aborted\x18"); // CAN aborts the string
    assert_eq!(t.title().as_str(), "kept");
    t.feed(b"\x1b]2;also aborted\x1b[31m"); // ESC starts a new sequence
    assert_eq!(t.title().as_str(), "kept");
    t.feed(b"\x1b]2;\x07"); // explicitly set empty: cleared
    assert_eq!(t.title().as_str(), "");
}

#[test]
fn split_utf8_is_mid_sequence() {
    let bytes = "汉".as_bytes(); // 3 bytes
    let mut t = SeqTracker::new(DEFAULT_CAPTURE);
    t.feed(&bytes[..1]);
    assert!(t.mid_sequence());
    t.feed(&bytes[1..2]);
    assert!(t.mid_sequence());
    t.feed(&bytes[2..]);
    assert!(!t.mid_sequence());
}


#[test]
fn ends_never_outnumber_begins_and_the_flag_follows_the_last() {
    let mut t = SeqTracker::new(DEFAULT_CAPTURE);
    let stream = b"\x1b[?2026l\x1b[?2026h\x1b[?2026h\x1b[?2026l\x1b[?2026l\x1b[?2026h";
    let mut begins = 0;
    let mut ends = 0;
    for &b in stream.iter() {
        match t.step(b) {
            SeqEvent::SyncBegin => begins += 1,
            SeqEvent::SyncEnd => {
                ends += 1;
                assert!(ends <= begins);
            }
            _ => {}
        }
    }
    assert_eq!((begins, ends), (3, 1));
    assert!(t.in_sync_update());
}
