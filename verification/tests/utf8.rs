use termlens::utf8::Utf8Sanitizer;

fn s(bytes: &[u8]) -> String {
    String::from_utf8(bytes.to_vec()).expect("sanitizer output is valid UTF-8")
}

#[test]
fn valid_input_passes_through_untouched() {
    let mut san = Utf8Sanitizer::default();
    assert_eq!(
        s(&san.feed("ascii and 汉字 and 🦀".as_bytes())),
        "ascii and 汉字 and 🦀"
    );
    assert!(!san.pending());
}

#[test]
fn an_invalid_byte_becomes_one_replacement_and_the_columns_hold() {
    let mut san = Utf8Sanitizer::default();
    assert_eq!(s(&san.feed(b"caf\xe9 done")), "caf\u{FFFD} done");
    assert!(!san.pending());
}

#[test]
fn a_character_split_across_two_reads_is_reassembled() {
    let mut san = Utf8Sanitizer::default();
    let bytes = "ab汉cd".as_bytes(); // 汉 is E6 B1 89
    let first = san.feed(&bytes[..3]); // "ab" + E6
    assert_eq!(s(&first), "ab");
    assert!(san.pending(), "the lead byte is held, not replaced");
    let second = san.feed(&bytes[3..]);
    assert_eq!(s(&second), "汉cd");
    assert!(!san.pending());
}

#[test]
fn a_lead_byte_the_next_read_does_not_continue_is_replaced_then() {
    let mut san = Utf8Sanitizer::default();
    assert_eq!(s(&san.feed(b"ab\xe9")), "ab");
    assert!(san.pending());
    assert_eq!(s(&san.feed(b"cd")), "\u{FFFD}cd");
    assert!(!san.pending());
}

#[test]
fn a_partial_character_at_eof_is_one_replacement() {
    let mut san = Utf8Sanitizer::default();
    assert_eq!(s(&san.feed(b"x\xf0\x9f")), "x");
    assert!(san.pending());
    assert_eq!(s(&san.finish()), "\u{FFFD}");
    assert!(!san.pending());
    assert!(san.finish().is_empty());
}

#[test]
fn every_invalid_sequence_is_replaced_separately() {
    let mut san = Utf8Sanitizer::default();
    // Two stray continuation bytes, then a truncated three-byte lead
    // followed by ASCII.
    assert_eq!(
        s(&san.feed(b"a\x80\x80b\xe6\xb1c")),
        "a\u{FFFD}\u{FFFD}b\u{FFFD}c"
    );
}


#[test]
fn any_chunking_gives_the_lossy_decoding_of_the_whole() {
    let whole: &[u8] = b"a\xc3\xa9\xe2\x82\xacb\xff\xe2\x82";
    let expected = termlens::utf8::lossy_bytes(whole);
    for cut in 0..=whole.len() {
        for cut2 in cut..=whole.len() {
            let mut s = termlens::utf8::Utf8Sanitizer::new();
            let mut out = s.feed(&whole[..cut]);
            out.extend(s.feed(&whole[cut..cut2]));
            out.extend(s.feed(&whole[cut2..]));
            out.extend(s.finish());
            assert_eq!(out, expected, "cut at {cut} and {cut2}");
        }
    }
}
