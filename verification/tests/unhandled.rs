use termlens::unhandled::{Unhandled, MAX_UNSUPPORTED};

/// The emulator's callback set, forwarding to the record.
struct Recorder(Unhandled);

impl vt100::Callbacks for Recorder {
    fn visual_bell(&mut self, _: &mut vt100::Screen) {
        self.0.visual_bell();
    }

    fn resize(&mut self, _: &mut vt100::Screen, (rows, cols): (u16, u16)) {
        self.0.resize(rows, cols);
    }

    fn unhandled_control(&mut self, _: &mut vt100::Screen, b: u8) {
        self.0.control(b);
    }

    fn unhandled_escape(&mut self, _: &mut vt100::Screen, i1: Option<u8>, i2: Option<u8>, b: u8) {
        self.0.escape(i1, i2, b);
    }

    fn unhandled_csi(&mut self, _: &mut vt100::Screen, i1: Option<u8>, i2: Option<u8>, params: &[&[u16]], c: char) {
        let params: Vec<Vec<u16>> = params.iter().map(|p| p.to_vec()).collect();
        self.0.csi(i1, i2, &params, c);
    }

    fn unhandled_osc(&mut self, _: &mut vt100::Screen, params: &[&[u8]]) {
        let params: Vec<Vec<u8>> = params.iter().map(|p| p.to_vec()).collect();
        self.0.osc(&params);
    }
}

fn nz(n: u16) -> std::num::NonZeroU16 {
    std::num::NonZeroU16::new(n).unwrap()
}

fn fed(bytes: &[u8]) -> vt100::Parser<Recorder> {
    let mut parser = vt100::Parser::new_with_callbacks(nz(4), nz(20), 0, Recorder(Unhandled::new()));
    parser.process(bytes);
    parser
}

fn shapes(bytes: &[u8]) -> Vec<String> {
    fed(bytes).callbacks().0.shapes().to_vec()
}

#[test]
fn a_sequence_nobody_honours_is_recorded_once_in_its_written_form() {
    assert_eq!(
        shapes(b"\x1b[20h\x1b[20h\x1bD\x1b]9;hi\x07\x05\x1b[?69h"),
        ["^[[20h", "^[D", "^[]9;hi", "^E", "^[[?69h"]
    );
}

#[test]
fn what_the_tracker_handles_is_not_reported() {
    let ours = b"\x1bH\x1b[3g\x1b[2I\x1b[1Z\x1b[4h\x1b[4l\x1b[6n\x1b[c\x1b[>c\x1b[18t\
                 \x1b(0\x1b)0\x1bN\x1bO\x1b[!p\x1b[2 q\x1b[?2026$p\x1b[?1004h\x1b[?2026h\
                 \x1b[?2026l\x1b[?1000h\x1b[?u\x1b]8;;http://x\x1b\\\x1b]52;c;aGk=\x07\
                 \x1b]11;?\x07\x0e\x0f";
    assert_eq!(shapes(ours), Vec::<String>::new());
}

#[test]
fn the_record_is_bounded_and_counts_the_rest() {
    let mut stream = Vec::new();
    for mode in 20..(20 + MAX_UNSUPPORTED as u16 + 5) {
        stream.extend_from_slice(format!("\x1b[{mode}h").as_bytes());
    }
    let parser = fed(&stream);
    assert_eq!(parser.callbacks().0.shapes().len(), MAX_UNSUPPORTED);
    assert_eq!(parser.callbacks().0.overflow(), 5);
}

#[test]
fn a_visual_bell_and_a_resize_request_are_seen() {
    let parser = fed(b"\x1bg\x1b[8;10;40t");
    assert_eq!(parser.callbacks().0.visual_bells(), 1);
    assert_eq!(parser.callbacks().0.shapes().to_vec(), ["^[[8;10;40t"]);
    assert_eq!(parser.screen().size(), (nz(4), nz(20)), "the request is recorded, not honoured");
}

#[test]
fn control_and_escape_shapes_are_written_as_carets() {
    let mut u = Unhandled::new();
    u.control(0x7f);
    u.control(0x05);
    u.control(0x9b);
    u.control(0x0e);
    u.escape(Some(b'#'), None, b'8');
    u.escape(Some(b'('), None, b'0');
    u.osc(&[b"4".to_vec(), b"1".to_vec()]);
    u.csi(Some(b'?'), None, &[vec![1049], vec![3, 4]], 'h');
    assert_eq!(u.shapes().to_vec(), ["^?", "^E", "\\x9b", "^[#8", "^[[?1049;3:4h"]);
}
