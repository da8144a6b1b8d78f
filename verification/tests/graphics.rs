use termlens::graphics::{DecodeError, GraphicsAction, GraphicsBuilder, GraphicsFormat, GraphicsPayload, GraphicsProtocol};

fn kitty_payload(control: &[u8], data: &[u8]) -> GraphicsPayload {
    let mut builder = GraphicsBuilder::default();
    builder.kitty(control);
    builder.chunk(data.len() as u64, data, true, usize::MAX);
    builder.finish().expect("a payload")
}

#[test]
fn a_kitty_control_block_yields_every_fact_it_states() {
    let payload = kitty_payload(b"a=T,q=2,f=32,o=z,s=954,v=133,i=7,c=106,r=7", b"AAAA");
    assert_eq!(payload.protocol(), GraphicsProtocol::Kitty);
    assert_eq!(payload.action(), GraphicsAction::TransmitAndPlace);
    assert_eq!(payload.format(), GraphicsFormat::Rgba);
    assert!(payload.compressed());
    assert_eq!(payload.id(), Some(7));
    assert_eq!(payload.size(), Some((954, 133)));
    assert_eq!(payload.cells(), Some((106, 7)));
    assert_eq!(payload.data(), Some(&b"AAAA"[..]));
}

#[test]
fn the_protocols_defaults_are_the_protocols_defaults() {
    // A transmission naming neither action nor format is `a=T,f=32`.
    let payload = kitty_payload(b"s=1,v=1", b"AAAA");
    assert_eq!(payload.action(), GraphicsAction::TransmitAndPlace);
    assert_eq!(payload.format(), GraphicsFormat::Rgba);
    assert!(!payload.compressed());
}

#[test]
fn a_delete_is_not_an_image() {
    let payload = kitty_payload(b"a=d,d=I,i=1,q=2", b"");
    assert_eq!(payload.action(), GraphicsAction::Delete);
    assert!(!payload.action().carries_image());
}

#[test]
fn an_unknown_action_is_not_guessed_to_carry_one() {
    let payload = kitty_payload(b"a=z,i=1", b"");
    assert_eq!(payload.action(), GraphicsAction::Other);
    assert!(!payload.action().carries_image());
}

#[test]
fn chunks_join_into_one_payload() {
    let mut builder = GraphicsBuilder::default();
    builder.kitty(b"a=T,f=32,s=2,v=1,m=1");
    builder.chunk(20, b"AAAA", true, usize::MAX);
    builder.chunk(10, b"BBBB", true, usize::MAX);
    let payload = builder.finish().expect("a payload");
    assert_eq!(payload.chunks(), 2);
    assert_eq!(payload.bytes(), 30);
    assert_eq!(payload.data(), Some(&b"AAAABBBB"[..]));
}

#[test]
fn a_payload_past_the_bound_is_counted_and_not_kept() {
    let mut builder = GraphicsBuilder::default();
    builder.kitty(b"a=T,f=32,s=2,v=1");
    builder.chunk(64, b"AAAABBBB", false, usize::MAX);
    let payload = builder.finish().expect("a payload");
    assert_eq!(payload.bytes(), 64, "the cost is still known");
    assert_eq!(payload.data(), None, "and the bytes are not kept");
}

#[test]
fn a_sixel_reads_its_size_off_its_raster_attributes() {
    let mut builder = GraphicsBuilder::default();
    builder.sixel();
    builder.chunk(30, b"\"1;1;18;12#0;2;100;100;100~", true, usize::MAX);
    let payload = builder.finish().expect("a payload");
    assert_eq!(payload.protocol(), GraphicsProtocol::Sixel);
    assert_eq!(payload.size(), Some((18, 12)));
    assert_eq!(payload.format(), GraphicsFormat::Sixel);
}

#[test]
fn a_sixel_that_declares_no_size_says_so_rather_than_guessing() {
    let mut builder = GraphicsBuilder::default();
    builder.sixel();
    builder.chunk(10, b"#0;2;100;100;100~~~", true, usize::MAX);
    assert_eq!(builder.finish().expect("a payload").size(), None);
}

#[test]
fn a_kitty_rgba_transmission_decodes_to_its_pixels() {
    // Two pixels: opaque red, half-transparent blue.
    let raw = [0xff, 0x00, 0x00, 0xff, 0x00, 0x00, 0xff, 0x80];
    let data = base64(&raw);
    let payload = kitty_payload(b"a=T,f=32,s=2,v=1", data.as_bytes());
    let bitmap = payload.decode().expect("decodes");
    assert_eq!((bitmap.width(), bitmap.height()), (2, 1));
    assert_eq!(bitmap.pixel(0, 0), Some([0xff, 0, 0, 0xff]));
    assert_eq!(bitmap.pixel(1, 0), Some([0, 0, 0xff, 0x80]));
    assert_eq!(bitmap.pixel(2, 0), None, "out of bounds is None");
}

#[test]
fn an_rgb_transmission_is_opaque() {
    let data = base64(&[0x11, 0x22, 0x33]);
    let payload = kitty_payload(b"a=T,f=24,s=1,v=1", data.as_bytes());
    let bitmap = payload.decode().expect("decodes");
    assert_eq!(bitmap.pixel(0, 0), Some([0x11, 0x22, 0x33, 0xff]));
}

#[test]
fn a_compressed_transmission_is_inflated_first() {
    let raw = vec![0x40u8; 4 * 16 * 16];
    let data = base64(&miniz_oxide::deflate::compress_to_vec_zlib(&raw, 6));
    let payload = kitty_payload(b"a=T,f=32,o=z,s=16,v=16", data.as_bytes());
    let bitmap = payload.decode().expect("decodes");
    assert_eq!((bitmap.width(), bitmap.height()), (16, 16));
    assert_eq!(bitmap.pixel(15, 15), Some([0x40, 0x40, 0x40, 0x40]));
}

#[test]
fn every_refusal_names_its_reason() {
    let png = kitty_payload(b"a=T,f=100,s=1,v=1", b"AAAA");
    assert!(matches!(png.decode(), Err(DecodeError::Unsupported(_))));

    let delete = kitty_payload(b"a=d,i=1", b"");
    assert!(matches!(
        delete.decode(),
        Err(DecodeError::NoImage(GraphicsAction::Delete))
    ));

    let short = kitty_payload(b"a=T,f=32,s=64,v=64", b"AAAA");
    assert!(matches!(short.decode(), Err(DecodeError::Malformed(_))));

    let sizeless = kitty_payload(b"a=T,f=32", b"AAAA");
    assert!(matches!(sizeless.decode(), Err(DecodeError::Malformed(_))));

    let mut builder = GraphicsBuilder::default();
    builder.kitty(b"a=T,f=32,s=2,v=1");
    builder.chunk(64, b"AAAABBBB", false, usize::MAX);
    let dropped = builder.finish().expect("a payload");
    assert_eq!(dropped.decode(), Err(DecodeError::NotCaptured));
}

#[test]
fn a_sixel_decodes_into_the_pixels_it_paints() {
    // A 4x6 image: register 0 is white, and `~` sets all six rows of the
    // band, so a run of four fills the whole thing.
    let mut builder = GraphicsBuilder::default();
    builder.sixel();
    builder.chunk(40, b"\"1;1;4;6#0;2;100;100;100!4~-", true, usize::MAX);
    let bitmap = builder
        .finish()
        .expect("a payload")
        .decode()
        .expect("decodes");
    assert_eq!((bitmap.width(), bitmap.height()), (4, 6));
    for y in 0..6 {
        for x in 0..4 {
            assert_eq!(bitmap.pixel(x, y), Some([255, 255, 255, 255]), "({x},{y})");
        }
    }
}

#[test]
fn a_sixel_pixel_nothing_painted_is_transparent_rather_than_black() {
    // `@` sets only the top row of the band; the five below it were
    // never written, and sixel has no alpha to say so with.
    let mut builder = GraphicsBuilder::default();
    builder.sixel();
    builder.chunk(30, b"\"1;1;1;6#0;2;0;100;0@-", true, usize::MAX);
    let bitmap = builder
        .finish()
        .expect("a payload")
        .decode()
        .expect("decodes");
    assert_eq!(bitmap.pixel(0, 0), Some([0, 255, 0, 255]));
    assert_eq!(bitmap.pixel(0, 1), Some([0, 0, 0, 0]));
}

#[test]
fn sixel_bands_stack_downwards_and_carriage_returns_overprint() {
    // Two bands, and a `$` that goes back to paint the second colour
    // over the first band's second column.
    let mut builder = GraphicsBuilder::default();
    builder.sixel();
    builder.chunk(
        60,
        b"\"1;1;2;12#0;2;100;0;0~~$#1;2;0;0;100?~-#0??-",
        true,
        usize::MAX,
    );
    let bitmap = builder
        .finish()
        .expect("a payload")
        .decode()
        .expect("decodes");
    assert_eq!((bitmap.width(), bitmap.height()), (2, 12));
    assert_eq!(bitmap.pixel(0, 0), Some([255, 0, 0, 255]), "first colour");
    assert_eq!(bitmap.pixel(1, 0), Some([0, 0, 255, 255]), "overprinted");
    assert_eq!(bitmap.pixel(0, 6), Some([0, 0, 0, 0]), "second band");
}

#[test]
fn a_sixel_without_raster_attributes_takes_its_size_from_its_data() {
    let mut builder = GraphicsBuilder::default();
    builder.sixel();
    builder.chunk(20, b"#0;2;100;100;100!3~-", true, usize::MAX);
    let bitmap = builder
        .finish()
        .expect("a payload")
        .decode()
        .expect("decodes");
    assert_eq!((bitmap.width(), bitmap.height()), (3, 6));
}

#[test]
fn colours_are_counted_most_common_first() {
    let mut raw = vec![0u8; 0];
    for _ in 0..3 {
        raw.extend_from_slice(&[1, 2, 3, 255]);
    }
    raw.extend_from_slice(&[9, 9, 9, 255]);
    let data = base64(&raw);
    let payload = kitty_payload(b"a=T,f=32,s=4,v=1", data.as_bytes());
    let colours = payload.decode().expect("decodes").colours();
    assert_eq!(colours[0], ([1, 2, 3, 255], 3));
    assert_eq!(colours[1], ([9, 9, 9, 255], 1));
}

#[test]
fn hls_colours_are_refused_rather_than_converted() {
    let mut builder = GraphicsBuilder::default();
    builder.sixel();
    builder.chunk(30, b"\"1;1;1;6#0;1;120;50;100~-", true, usize::MAX);
    assert!(matches!(
        builder.finish().expect("a payload").decode(),
        Err(DecodeError::Unsupported(_))
    ));
}

#[test]
fn the_debug_rendering_stays_short_enough_for_a_log() {
    let payload = kitty_payload(b"a=T,f=32,o=z,s=954,v=133,i=7,c=106,r=7", &[b'A'; 4096]);
    let rendered = payload.summary();
    assert!(rendered.len() < 120, "{rendered}");
    assert!(rendered.contains("954x133px"), "{rendered}");
    assert!(rendered.contains("106x7cells"), "{rendered}");
    assert!(!rendered.contains("AAAA"), "the data must not be in it");
}

/// The encoder side of what `decode_base64` undoes — tests only.
const ALPHABET: &[u8; 64] = b"ABCDEFGHIJKLMNOPQRSTUVWXYZabcdefghijklmnopqrstuvwxyz0123456789+/";

fn base64(data: &[u8]) -> String {
    let mut out = String::new();
    for group in data.chunks(3) {
        let mut bits = 0u32;
        for (index, byte) in group.iter().enumerate() {
            bits |= u32::from(*byte) << (16 - 8 * index);
        }
        for index in 0..=group.len() {
            out.push(ALPHABET[(bits >> (18 - 6 * index) & 0x3f) as usize] as char);
        }
        for _ in group.len()..3 {
            out.push('=');
        }
    }
    out
}

