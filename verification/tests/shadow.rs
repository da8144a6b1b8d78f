use termlens::shadow::{carrier, rewrite_sgr, SgrRewriter};

/// The rewriter's output, as a readable string.
fn shadowed(bytes: &[u8]) -> String {
    let mut shadow = SgrRewriter::new();
    let mut out = shadow.rewrite_stream(bytes);
    // Anything still held at the end of the stream is not an SGR.
    out.extend_from_slice(shadow.pending());
    String::from_utf8_lossy(&out).replace('\x1b', "E")
}

#[test]
fn the_three_dropped_attributes_get_carriers() {
    assert_eq!(shadowed(b"\x1b[5mX"), "E[1mX");
    assert_eq!(shadowed(b"\x1b[6mX"), "E[1mX");
    assert_eq!(shadowed(b"\x1b[8mX"), "E[3mX");
    assert_eq!(shadowed(b"\x1b[9mX"), "E[4mX");
    assert_eq!(shadowed(b"\x1b[25m"), "E[22m");
    assert_eq!(shadowed(b"\x1b[28m"), "E[23m");
    assert_eq!(shadowed(b"\x1b[29m"), "E[24m");
}

#[test]
fn the_primarys_own_attributes_are_dropped_from_the_shadow() {
    assert_eq!(shadowed(b"\x1b[1mX"), "X");
    assert_eq!(shadowed(b"\x1b[3mX"), "X");
    assert_eq!(shadowed(b"\x1b[4mX"), "X");
    assert_eq!(shadowed(b"\x1b[7;31;44mX"), "X");
    assert_eq!(shadowed(b"\x1b[22m\x1b[23m\x1b[24m\x1b[27m"), "");
    assert_eq!(shadowed(b"\x1b[0mX"), "E[0mX");
    assert_eq!(shadowed(b"\x1b[mX"), "E[0mX");
}

#[test]
fn mixed_parameters_keep_only_the_carriers_in_order() {
    assert_eq!(shadowed(b"\x1b[1;5;31mX"), "E[1mX");
    assert_eq!(shadowed(b"\x1b[0;9;1;8mX"), "E[0;4;3mX");
}

#[test]
fn an_extended_colour_never_looks_like_a_carrier() {
    assert_eq!(shadowed(b"\x1b[38;5;196mX"), "X");
    assert_eq!(shadowed(b"\x1b[48;5;9mX"), "X");
    assert_eq!(shadowed(b"\x1b[38;2;255;0;8mX"), "X");
    assert_eq!(shadowed(b"\x1b[38;2;0;9;0;5mX"), "E[1mX");
    assert_eq!(shadowed(b"\x1b[38:5:196mX"), "X");
    assert_eq!(shadowed(b"\x1b[38:2::255:0:9mX"), "X");
    assert_eq!(shadowed(b"\x1b[4:3mX"), "X");
    assert_eq!(shadowed(b"\x1b[38;5;196;9mX"), "E[4mX");
}

#[test]
fn anything_that_is_not_a_plain_sgr_passes_through_verbatim() {
    for seq in [
        &b"\x1b[?2026h"[..],
        &b"\x1b[2J"[..],
        &b"\x1b[H"[..],
        &b"\x1b[3;7Hhi"[..],
        &b"\x1b[?25l"[..],
        &b"\x1b[>4;2m"[..],
        &b"\x1b[4$p"[..],
        &b"\x1b]0;title\x07"[..],
        &b"\x1b7\x1b8"[..],
        &b"plain text\r\n\t"[..],
    ] {
        assert_eq!(
            shadowed(seq),
            String::from_utf8_lossy(seq).replace('\x1b', "E"),
            "sequence {:?} must pass through untouched",
            String::from_utf8_lossy(seq)
        );
    }
}

#[test]
fn an_aborted_csi_keeps_its_bytes() {
    assert_eq!(shadowed(b"\x1b[31\x18X"), "E[31\u{18}X");
    assert_eq!(shadowed(b"\x1b[31\x18\x1b[9mX"), "E[31\u{18}E[4mX");
    assert_eq!(shadowed(b"\x1b[31\x1b[9mX"), "E[31E[4mX");
}

#[test]
fn a_split_sequence_is_held_until_it_completes() {
    let mut shadow = SgrRewriter::new();
    assert!(shadow.rewrite_stream(b"\x1b[8").is_empty());
    assert_eq!(shadow.pending(), b"\x1b[8");
    assert_eq!(shadow.rewrite_stream(b"mX"), b"\x1b[3mX".to_vec());
    assert!(shadow.pending().is_empty());
}

#[test]
fn rewrite_sgr_refuses_what_is_not_a_plain_sgr() {
    assert_eq!(rewrite_sgr(b"\x1b[?1m"), None);
    assert_eq!(rewrite_sgr(b"\x1b["), None);
    assert_eq!(rewrite_sgr(b"\x1b[31m"), Some(Vec::new()));
    assert_eq!(rewrite_sgr(b"\x1b[99999999999;5m"), Some(b"\x1b[1m".to_vec()));
    assert_eq!(carrier(5), Some(1));
    assert_eq!(carrier(7), None);
}
