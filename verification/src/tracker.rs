//! A minimal escape-sequence progress tracker.
//!
//! Deliberately not a VT parser — the emulator interprets the stream. It
//! answers whether the byte stream ended in the middle of something (an
//! escape, CSI, OSC or DCS sequence, or a partial UTF-8 character), and
//! where synchronized updates (`CSI ? 2026 h` / `l`) begin and end. Along
//! the way it keeps the state the emulator does not: the window title, the
//! last `OSC 52` clipboard write, the `OSC 8` hyperlink log, bells, focus
//! reporting, the `DECSCUSR` cursor style, and inline graphics.
use vstd::prelude::*;
use vstd::utf8::{valid_utf8, decode_utf8};
use crate::bytes::{find_byte, has_field, prefixed_field, parse_u32_spec, position, prefixed_range, field_is, parse_u32, matches_at};
use crate::graphics::{
    BuilderModel, GraphicsBuilder, GraphicsCounts, GraphicsPayload, PayloadModel, builder_chunk,
    builder_kitty, builder_payload, builder_sixel, builder_idle, counts_after, sat_u32, sat_u64,
};
use crate::screen::{ClipModel, Clipboard, Link, LinkModel, opt_view};
use crate::base64::{base64_decode, decode_base64};
use crate::text::{lossy_string, push_char, string_from_utf8};

verus! {

/// How many bytes of one OSC string are captured.
pub const OSC_CAPTURE_MAX: usize = 65536;

/// How many `OSC 8` spans the log keeps, oldest evicted.
pub const LINK_HISTORY: usize = 64;

/// How many label bytes one span may accumulate.
pub const LINK_LABEL_MAX: usize = 4096;

/// How many bytes of each sequence are kept for diagnostics.
pub const SEQ_CAPTURE: usize = 24;

/// How many opening bytes of a DCS-class string are kept.
pub const DCS_HEAD: usize = 128;

/// Where in the escape-sequence grammar the stream stands.
#[derive(Debug, Clone, Copy, PartialEq, Eq, Structural)]
pub enum ParseState {
    /// Plain text.
    Ground,
    /// Got ESC, awaiting the introducer or final byte.
    Esc,
    /// Inside `ESC <intermediate>…`, awaiting a final byte.
    EscIntermediate,
    /// Inside a CSI sequence, awaiting a final byte.
    Csi,
    /// Inside an OSC string, terminated by BEL or ST.
    Osc,
    /// Inside a DCS/SOS/PM/APC string, terminated by ST only.
    Dcs,
    /// Inside an OSC string and just saw ESC.
    OscEsc,
    /// Inside a DCS-class string and just saw ESC.
    DcsEsc,
}

/// The incremental CSI scanner: enough to recognize the handful of shapes
/// that matter, in constant space.
#[derive(Debug, Clone, Copy)]
pub struct CsiScan {
    pub prefix: u8,
    pub intermediate: u8,
    pub invalid: bool,
    pub first: bool,
    pub param: u32,
    pub has_digits: bool,
    pub first_param: u32,
    pub param_count: u8,
    pub saw_2026: bool,
    pub saw_1004: bool,
}

/// A terminal query the application issued.
#[derive(Debug, Clone, PartialEq, Eq)]
pub enum Query {
    /// DSR cursor position: `CSI 6 n`, or `CSI ? 6 n` when `private`.
    CursorPosition { private: bool },
    /// DSR operating status: `CSI 5 n`.
    OperatingStatus,
    /// Primary device attributes: `CSI c` / `CSI 0 c`.
    PrimaryDa,
    /// Secondary device attributes: `CSI > c` / `CSI > 0 c`.
    SecondaryDa,
    /// Text-area size in characters: `CSI 18 t`.
    TextAreaSize,
    /// `OSC 10;?` (foreground) or `OSC 11;?` (background); the reply must
    /// mirror the terminator.
    OscColor { code: u8, st_terminated: bool },
    /// DECRQM: "is private mode `n` set?" — `CSI ? n $ p`.
    RequestMode(u32),
    /// Window size in pixels: `CSI 14 t`.
    WindowSizePixels,
    /// Character cell size in pixels: `CSI 16 t`.
    CellSizePixels,
    /// The kitty graphics probe, with the image id it named.
    KittyGraphics { id: Option<u32>, shape: String },
    /// XTGETTCAP, with the hex-encoded names as asked.
    RequestTermcap { names: String, shape: String },
    /// A question with no answer here, rendered printably.
    Unanswerable(String),
}

/// What one byte completed, if anything.
#[derive(Debug, PartialEq, Eq)]
pub enum SeqEvent {
    /// Nothing actionable.
    Nothing,
    /// A `CSI ? 2026 … h` completed: a synchronized update began.
    SyncBegin,
    /// A `CSI ? 2026 … l` closed an update that began: a frame is complete.
    SyncEnd,
    /// The application asked the terminal a question.
    Query(Query),
    /// An inline graphics payload completed.
    Graphics(Box<GraphicsPayload>),
}

/// A query, as plain values.
pub enum QueryModel {
    CursorPosition { private: bool },
    OperatingStatus,
    PrimaryDa,
    SecondaryDa,
    TextAreaSize,
    OscColor { code: u8, st_terminated: bool },
    RequestMode(u32),
    WindowSizePixels,
    CellSizePixels,
    KittyGraphics { id: Option<u32>, shape: Seq<char> },
    RequestTermcap { names: Seq<char>, shape: Seq<char> },
    Unanswerable(Seq<char>),
}

/// An event, as plain values.
pub enum EventModel {
    Nothing,
    SyncBegin,
    SyncEnd,
    Query(QueryModel),
    Graphics(PayloadModel),
}

/// The plain value of a query.
pub open spec fn query_view(q: Query) -> QueryModel {
    match q {
        Query::CursorPosition { private } => QueryModel::CursorPosition { private },
        Query::OperatingStatus => QueryModel::OperatingStatus,
        Query::PrimaryDa => QueryModel::PrimaryDa,
        Query::SecondaryDa => QueryModel::SecondaryDa,
        Query::TextAreaSize => QueryModel::TextAreaSize,
        Query::OscColor { code, st_terminated } => QueryModel::OscColor { code, st_terminated },
        Query::RequestMode(n) => QueryModel::RequestMode(n),
        Query::WindowSizePixels => QueryModel::WindowSizePixels,
        Query::CellSizePixels => QueryModel::CellSizePixels,
        Query::KittyGraphics { id, shape } => QueryModel::KittyGraphics { id, shape: shape@ },
        Query::RequestTermcap { names, shape } => QueryModel::RequestTermcap { names: names@, shape: shape@ },
        Query::Unanswerable(s) => QueryModel::Unanswerable(s@),
    }
}

/// The plain value of an event.
pub open spec fn event_view(e: SeqEvent) -> EventModel {
    match e {
        SeqEvent::Nothing => EventModel::Nothing,
        SeqEvent::SyncBegin => EventModel::SyncBegin,
        SeqEvent::SyncEnd => EventModel::SyncEnd,
        SeqEvent::Query(q) => EventModel::Query(query_view(q)),
        SeqEvent::Graphics(p) => EventModel::Graphics(p@),
    }
}

/// Everything the tracker holds, as plain values.
pub struct TrackerModel {
    pub state: ParseState,
    pub utf8_remaining: u8,
    pub sync_update: bool,
    pub csi: CsiScan,
    pub seq: Seq<u8>,
    pub osc: Seq<u8>,
    pub osc_truncated: bool,
    pub title: Seq<char>,
    pub clipboard: Option<ClipModel>,
    pub links: Seq<LinkModel>,
    pub label: Seq<u8>,
    pub link_open: bool,
    pub label_truncated: bool,
    pub bells: u64,
    pub counts: GraphicsCounts,
    pub building: BuilderModel,
    pub capture: usize,
    pub frame_printable: u32,
    pub focus_events: bool,
    pub cursor_style: Option<u8>,
    pub dcs_introducer: u8,
    pub dcs_final: u8,
    pub dcs_intermediate: u8,
    pub dcs_data_len: u64,
    pub dcs_head: Seq<u8>,
    pub dcs_body: Seq<u8>,
    pub dcs_body_full: bool,
}

/// The bounds every tracker keeps: the link log never holds more than
/// [`LINK_HISTORY`] spans, and each capture buffer stays within its bound.
pub open spec fn tracker_wf(m: TrackerModel) -> bool {
    &&& m.links.len() <= LINK_HISTORY
    &&& m.seq.len() <= SEQ_CAPTURE
    &&& m.dcs_head.len() <= DCS_HEAD
    &&& m.label.len() <= LINK_LABEL_MAX
    &&& m.osc.len() <= OSC_CAPTURE_MAX
}

/// The text bytes spell, each invalid sequence one U+FFFD.
pub open spec fn lossy_text(b: Seq<u8>) -> Seq<char> {
    decode_utf8(crate::utf8::lossy(b))
}

/// The text bytes spell, or `None` when they are not valid UTF-8.
pub open spec fn strict_text(b: Seq<u8>) -> Option<Seq<char>> {
    if valid_utf8(b) {
        Some(decode_utf8(b))
    } else {
        None
    }
}

/// A lowercase hexadecimal digit.
pub open spec fn hex_digit(d: u8) -> char {
    if d < 10 {
        (48 + d) as char
    } else {
        (87 + d) as char
    }
}

/// One byte rendered printably: `ESC` as `^[`, `BEL` as `^G`, printable
/// ASCII as itself, anything else as `\xNN`.
pub open spec fn byte_repr(b: u8) -> Seq<char> {
    if b == 0x1b {
        seq!['^', '[']
    } else if b == 0x07 {
        seq!['^', 'G']
    } else if 0x20 <= b <= 0x7e {
        seq![b as char]
    } else {
        seq!['\\', 'x', hex_digit(b / 16), hex_digit(b % 16)]
    }
}

/// Bytes rendered printably.
pub open spec fn printable_spec(b: Seq<u8>) -> Seq<char>
    decreases b.len(),
{
    if b.len() == 0 {
        Seq::empty()
    } else {
        printable_spec(b.drop_last()) + byte_repr(b.last())
    }
}

/// The UTF-8 continuation bytes still expected after `b`.
pub open spec fn utf8_after(remaining: u8, b: u8) -> u8 {
    if remaining > 0 && 0x80 <= b <= 0xbf {
        (remaining - 1) as u8
    } else if 0xc2 <= b <= 0xdf {
        1
    } else if 0xe0 <= b <= 0xef {
        2
    } else if 0xf0 <= b <= 0xf4 {
        3
    } else {
        0
    }
}

/// A fresh CSI scanner.
pub open spec fn csi_reset() -> CsiScan {
    CsiScan {
        prefix: 0,
        intermediate: 0,
        invalid: false,
        first: true,
        param: 0,
        has_digits: false,
        first_param: 0,
        param_count: 0,
        saw_2026: false,
        saw_1004: false,
    }
}

/// The scanner after the parameter being accumulated closes.
pub open spec fn csi_end_param(c: CsiScan) -> CsiScan {
    CsiScan {
        saw_2026: c.saw_2026 || c.param == 2026,
        saw_1004: c.saw_1004 || c.param == 1004,
        first_param: if c.param_count == 0 {
            c.param
        } else {
            c.first_param
        },
        param_count: if c.param_count == 255 {
            255
        } else {
            (c.param_count + 1) as u8
        },
        param: 0,
        has_digits: false,
        ..c
    }
}

/// The scanner after one parameter or intermediate byte.
pub open spec fn csi_scan(c: CsiScan, b: u8) -> CsiScan {
    let c1 = if (b == 0x3f || b == 0x3e || b == 0x3d) && c.first {
        CsiScan { prefix: b, ..c }
    } else if 0x30 <= b <= 0x39 {
        CsiScan { param: sat_u32(c.param * 10 + (b - 0x30)), has_digits: true, ..c }
    } else if b == 0x3b {
        csi_end_param(c)
    } else if b == 0x24 || b == 0x20 {
        CsiScan { intermediate: b, ..c }
    } else {
        CsiScan { invalid: true, ..c }
    };
    CsiScan { first: false, ..c1 }
}

/// The query a CSI final byte asks, if any.
pub open spec fn csi_query(c: CsiScan, b: u8, seq: Seq<u8>) -> EventModel {
    let p = c.prefix;
    let empty = c.param_count == 0;
    let one = c.param_count == 1;
    let v = c.first_param;
    if p == 0 && b == 0x6e && one && v == 6 {
        EventModel::Query(QueryModel::CursorPosition { private: false })
    } else if p == 0x3f && b == 0x6e && one && v == 6 {
        EventModel::Query(QueryModel::CursorPosition { private: true })
    } else if p == 0 && b == 0x6e && one && v == 5 {
        EventModel::Query(QueryModel::OperatingStatus)
    } else if p == 0 && b == 0x63 && (empty || (one && v == 0)) {
        EventModel::Query(QueryModel::PrimaryDa)
    } else if p == 0x3e && b == 0x63 && (empty || (one && v == 0)) {
        EventModel::Query(QueryModel::SecondaryDa)
    } else if p == 0 && b == 0x74 && one && v == 18 {
        EventModel::Query(QueryModel::TextAreaSize)
    } else if p == 0 && b == 0x74 && one && v == 14 {
        EventModel::Query(QueryModel::WindowSizePixels)
    } else if p == 0 && b == 0x74 && one && v == 16 {
        EventModel::Query(QueryModel::CellSizePixels)
    } else if b == 0x6e || (p == 0x3d && b == 0x63) {
        EventModel::Query(QueryModel::Unanswerable(printable_spec(seq)))
    } else if p == 0x3f && b == 0x75 && empty {
        EventModel::Query(QueryModel::Unanswerable(printable_spec(seq)))
    } else if p == 0 && b == 0x74 && (v == 11 || v == 13 || v == 19 || v == 20 || v == 21) && one {
        EventModel::Query(QueryModel::Unanswerable(printable_spec(seq)))
    } else {
        EventModel::Nothing
    }
}

/// A CSI final byte: the query it completes, the cursor style a
/// `DECSCUSR` sets, focus reporting (mode 1004) and synchronized output
/// (mode 2026). Only an End that closes a Begin ends a frame.
pub open spec fn csi_final(m: TrackerModel, b: u8) -> (TrackerModel, EventModel) {
    if m.csi.invalid {
        (m, EventModel::Nothing)
    } else {
        let c = if m.csi.has_digits {
            csi_end_param(m.csi)
        } else {
            m.csi
        };
        let m1 = TrackerModel { csi: c, ..m };
        if c.intermediate == 0x24 {
            if c.prefix == 0x3f && b == 0x70 && c.param_count == 1 {
                (m1, EventModel::Query(QueryModel::RequestMode(c.first_param)))
            } else if b == 0x70 || b == 0x79 {
                (m1, EventModel::Query(QueryModel::Unanswerable(printable_spec(m.seq))))
            } else {
                (m1, EventModel::Nothing)
            }
        } else if c.intermediate == 0x20 {
            let ps = if c.param_count == 0 {
                0
            } else {
                c.first_param
            };
            if b == 0x71 && c.prefix == 0 && c.param_count <= 1 && ps <= 6 {
                (TrackerModel { cursor_style: Some(ps as u8), ..m1 }, EventModel::Nothing)
            } else {
                (m1, EventModel::Nothing)
            }
        } else {
            csi_modes(m1, b)
        }
    }
}

/// A plain CSI final byte: focus reporting and synchronized output toggled
/// by the private modes in the list, or the query it asks.
pub open spec fn csi_modes(m: TrackerModel, b: u8) -> (TrackerModel, EventModel) {
    let c = m.csi;
    let m2 = if c.prefix == 0x3f && c.saw_1004 && b == 0x68 {
        TrackerModel { focus_events: true, ..m }
    } else if c.prefix == 0x3f && c.saw_1004 && b == 0x6c {
        TrackerModel { focus_events: false, ..m }
    } else {
        m
    };
    if c.prefix == 0x3f && c.saw_2026 && b == 0x68 {
        (TrackerModel { sync_update: true, frame_printable: 0, ..m2 }, EventModel::SyncBegin)
    } else if c.prefix == 0x3f && c.saw_2026 && b == 0x6c && m2.sync_update {
        (TrackerModel { sync_update: false, ..m2 }, EventModel::SyncEnd)
    } else {
        (m2, csi_query(c, b, m.seq))
    }
}

/// Close the open `OSC 8` span, if any, with the text it wrapped: `None`
/// past the label bound or for invalid UTF-8.
pub open spec fn close_link_spec(m: TrackerModel) -> TrackerModel {
    if !m.link_open {
        m
    } else {
        let label = if m.label_truncated {
            None
        } else {
            strict_text(m.label)
        };
        TrackerModel {
            link_open: false,
            label: Seq::empty(),
            label_truncated: false,
            links: if m.links.len() > 0 {
                m.links.update(m.links.len() - 1, LinkModel { label, closed: true, ..m.links.last() })
            } else {
                m.links
            },
            ..m
        }
    }
}

/// The log with its oldest spans dropped down to [`LINK_HISTORY`].
pub open spec fn bounded_log(links: Seq<LinkModel>) -> Seq<LinkModel> {
    if links.len() > LINK_HISTORY {
        links.skip(links.len() - LINK_HISTORY)
    } else {
        links
    }
}

/// Open an `OSC 8` span on `uri`: any span still open closes first, the
/// `id=` parameter is kept, and the log stays bounded.
pub open spec fn open_link_spec(m: TrackerModel, params: Seq<u8>, uri: Seq<u8>) -> TrackerModel {
    let m1 = close_link_spec(m);
    let id = match prefixed_field(params, 0x3a, seq![0x69u8, 0x64u8, 0x3du8]) {
        Some(v) => Some(lossy_text(v)),
        None => None,
    };
    TrackerModel {
        links: bounded_log(m1.links.push(LinkModel { uri: lossy_text(uri), id, label: None, closed: false })),
        link_open: true,
        label: Seq::empty(),
        label_truncated: false,
        ..m1
    }
}

/// The bytes `10;?`, `11;?` and `12;?`.
pub open spec fn colour_query(code: u8) -> Seq<u8> {
    seq![0x31u8, code, 0x3bu8, 0x3fu8]
}

/// A completed OSC string: a colour query, a palette or clipboard read, a
/// title, a hyperlink span, or a clipboard write.
pub open spec fn osc_final(m: TrackerModel, st_terminated: bool) -> (TrackerModel, EventModel) {
    let content = m.osc;
    let n = content.len();
    if content == colour_query(0x30) {
        (m, EventModel::Query(QueryModel::OscColor { code: 10, st_terminated }))
    } else if content == colour_query(0x31) {
        (m, EventModel::Query(QueryModel::OscColor { code: 11, st_terminated }))
    } else if content == colour_query(0x32) {
        (m, EventModel::Query(QueryModel::Unanswerable(printable_spec(m.seq))))
    } else if n >= 1 && content[n - 1] == 0x3f && ((n >= 2 && content[0] == 0x34 && content[1] == 0x3b) || (n >= 3
        && content[0] == 0x35 && content[1] == 0x32 && content[2] == 0x3b)) {
        (m, EventModel::Query(QueryModel::Unanswerable(printable_spec(m.seq))))
    } else if n >= 2 && (content[0] == 0x30 || content[0] == 0x32) && content[1] == 0x3b {
        (TrackerModel { title: lossy_text(content.skip(2)), ..m }, EventModel::Nothing)
    } else if n >= 2 && content[0] == 0x38 && content[1] == 0x3b {
        (osc_link(m), EventModel::Nothing)
    } else if n >= 3 && content[0] == 0x35 && content[1] == 0x32 && content[2] == 0x3b {
        (osc_clip(m), EventModel::Nothing)
    } else {
        (m, EventModel::Nothing)
    }
}

/// `OSC 8 ; params ; URI`: a span opens on the URI, or closes when the URI
/// is empty. The first `;` ends the parameters; none at all is malformed,
/// and a truncated string is acted on in neither direction.
pub open spec fn osc_link(m: TrackerModel) -> TrackerModel {
    let rest = m.osc.skip(2);
    let sep = find_byte(rest, 0x3b);
    if sep < rest.len() && !m.osc_truncated {
        let uri = rest.skip(sep + 1);
        if uri.len() == 0 {
            close_link_spec(m)
        } else {
            open_link_spec(m, rest.take(sep), uri)
        }
    } else {
        m
    }
}

/// `OSC 52 ; targets ; base64`: a clipboard write, whose text is `None`
/// when the payload is truncated, not base64, or not UTF-8.
pub open spec fn osc_clip(m: TrackerModel) -> TrackerModel {
    let rest = m.osc.skip(3);
    let sep = find_byte(rest, 0x3b);
    if sep < rest.len() {
        let text = if m.osc_truncated {
            None
        } else {
            match base64_decode(rest.skip(sep + 1)) {
                Some(bytes) => strict_text(bytes),
                None => None,
            }
        };
        TrackerModel { clipboard: Some(ClipModel { targets: lossy_text(rest.take(sep)), text }), ..m }
    } else {
        m
    }
}

/// The captured head of a DCS-class string up to its first `;`.
pub open spec fn control_block(head: Seq<u8>) -> Seq<u8> {
    head.take(find_byte(head, 0x3b))
}

/// Where the image data starts in the captured body: past the `;` that
/// closes a kitty control block, or past the final byte of a sixel header.
pub open spec fn payload_start(m: TrackerModel) -> int {
    let sep = if m.dcs_introducer == 0x5f {
        0x3bu8
    } else {
        m.dcs_final
    };
    let at = find_byte(m.dcs_body, sep);
    if at < m.dcs_body.len() {
        at + 1
    } else {
        m.dcs_body.len() as int
    }
}

/// Count a finished transmission and hand it out.
pub open spec fn finish_graphics(m: TrackerModel) -> (TrackerModel, EventModel) {
    let b2 = if m.building.protocol is Some {
        builder_idle()
    } else {
        m.building
    };
    match builder_payload(m.building) {
        Some(p) => (TrackerModel { building: b2, counts: counts_after(m.counts, p), ..m }, EventModel::Graphics(p)),
        None => (TrackerModel { building: b2, ..m }, EventModel::Nothing),
    }
}

/// The keys of a kitty control block: the block past its leading `G`.
pub open spec fn kitty_keys(control: Seq<u8>) -> Seq<u8> {
    if control.len() > 0 && control[0] == 0x47 {
        control.skip(1)
    } else {
        control
    }
}

/// A completed DCS-class string: a kitty transmission or probe, a sixel, an
/// XTGETTCAP or DECRQSS question.
pub open spec fn dcs_final(m: TrackerModel) -> (TrackerModel, EventModel) {
    let head = m.dcs_head;
    if m.dcs_introducer == 0x5f && ((head.len() > 0 && head[0] == 0x47) || m.building.protocol is Some) {
        dcs_kitty(m)
    } else if m.dcs_introducer == 0x50 && m.dcs_final == 0x71 && m.dcs_intermediate == 0 {
        finish_graphics(
            TrackerModel {
                building: builder_chunk(
                    builder_sixel(m.building),
                    m.dcs_data_len,
                    m.dcs_body.skip(payload_start(m)),
                    m.dcs_body_full,
                    m.capture,
                ),
                ..m
            },
        )
    } else if m.dcs_introducer == 0x50 && m.dcs_intermediate == 0x2b && m.dcs_final == 0x71 {
        let q = find_byte(head, 0x71);
        let names = if q < head.len() {
            lossy_text(head.skip(q + 1))
        } else {
            Seq::empty()
        };
        (m, EventModel::Query(QueryModel::RequestTermcap { names, shape: printable_spec(m.seq) }))
    } else if m.seq.len() >= 4 && (m.seq[2] == 0x2b || m.seq[2] == 0x24) && m.seq[3] == 0x71 {
        (m, EventModel::Query(QueryModel::Unanswerable(printable_spec(m.seq))))
    } else {
        (m, EventModel::Nothing)
    }
}

/// A kitty graphics string: a transmission (joined across its `m=1`
/// chunks, and counted once it completes) or an `a=q` probe.
pub open spec fn dcs_kitty(m: TrackerModel) -> (TrackerModel, EventModel) {
    let keys = kitty_keys(control_block(m.dcs_head));
    if !has_field(keys, seq![0x61u8, 0x3du8, 0x71u8]) {
        let m1 = TrackerModel {
            building: builder_chunk(
                builder_kitty(m.building, keys),
                m.dcs_data_len,
                m.dcs_body.skip(payload_start(m)),
                m.dcs_body_full,
                m.capture,
            ),
            ..m
        };
        if has_field(keys, seq![0x6du8, 0x3du8, 0x31u8]) {
            (m1, EventModel::Nothing)
        } else {
            finish_graphics(m1)
        }
    } else {
        let id = match prefixed_field(keys, 0x2c, seq![0x69u8, 0x3du8]) {
            Some(v) => parse_u32_spec(v),
            None => None,
        };
        (m, EventModel::Query(QueryModel::KittyGraphics { id, shape: printable_spec(m.seq) }))
    }
}

/// A byte of plain text: a bell when it is `BEL` outside a character, a
/// printable character counted once, and label text while a span is open.
pub open spec fn ground_byte(m: TrackerModel, b: u8) -> TrackerModel {
    let text = b >= 0x20 && b != 0x7f;
    TrackerModel {
        bells: if b == 0x07 && m.utf8_remaining == 0 {
            sat_u64(m.bells + 1)
        } else {
            m.bells
        },
        frame_printable: if m.utf8_remaining == 0 && text {
            sat_u32(m.frame_printable + 1)
        } else {
            m.frame_printable
        },
        label: if m.link_open && text && m.label.len() < LINK_LABEL_MAX {
            m.label.push(b)
        } else {
            m.label
        },
        label_truncated: if m.link_open && text && m.label.len() >= LINK_LABEL_MAX {
            true
        } else {
            m.label_truncated
        },
        utf8_remaining: utf8_after(m.utf8_remaining, b),
        ..m
    }
}

/// One byte of a DCS-class string: header bytes classified, the head and
/// body captured within their bounds.
pub open spec fn dcs_byte(m: TrackerModel, b: u8) -> TrackerModel {
    let in_header = m.dcs_introducer != 0x5f && m.dcs_final == 0;
    TrackerModel {
        dcs_data_len: sat_u64(m.dcs_data_len + 1),
        dcs_intermediate: if in_header && 0x20 <= b <= 0x2f {
            b
        } else {
            m.dcs_intermediate
        },
        dcs_final: if in_header && 0x40 <= b <= 0x7e {
            b
        } else {
            m.dcs_final
        },
        dcs_head: if m.dcs_head.len() < DCS_HEAD {
            m.dcs_head.push(b)
        } else {
            m.dcs_head
        },
        dcs_body: if m.dcs_body.len() < m.capture {
            m.dcs_body.push(b)
        } else {
            m.dcs_body
        },
        dcs_body_full: if m.dcs_body.len() < m.capture {
            m.dcs_body_full
        } else {
            false
        },
        ..m
    }
}

/// What a byte does right after ESC.
pub open spec fn esc_byte(m: TrackerModel, b: u8) -> TrackerModel {
    if b == 0x5b {
        TrackerModel { csi: csi_reset(), state: ParseState::Csi, ..m }
    } else if b == 0x5d {
        TrackerModel { osc: Seq::empty(), osc_truncated: false, state: ParseState::Osc, ..m }
    } else if b == 0x50 || b == 0x58 || b == 0x5e || b == 0x5f {
        TrackerModel {
            dcs_introducer: b,
            dcs_final: 0,
            dcs_intermediate: 0,
            dcs_data_len: 0,
            dcs_head: Seq::empty(),
            dcs_body: Seq::empty(),
            dcs_body_full: true,
            state: ParseState::Dcs,
            ..m
        }
    } else if 0x20 <= b <= 0x2f {
        TrackerModel { state: ParseState::EscIntermediate, ..m }
    } else if b == 0x1b {
        TrackerModel { state: ParseState::Esc, ..m }
    } else if b == 0x18 || b == 0x1a {
        TrackerModel { state: ParseState::Ground, ..m }
    } else if b == 0x63 {
        TrackerModel { cursor_style: None, state: ParseState::Ground, ..close_link_spec(m) }
    } else {
        TrackerModel { state: ParseState::Ground, ..m }
    }
}

/// Run the state machine on one byte (already captured).
pub open spec fn transition_spec(m: TrackerModel, b: u8) -> (TrackerModel, EventModel) {
    match m.state {
        ParseState::Ground => if b == 0x1b {
            (TrackerModel { utf8_remaining: 0, state: ParseState::Esc, ..m }, EventModel::Nothing)
        } else {
            (ground_byte(m, b), EventModel::Nothing)
        },
        ParseState::Esc => (esc_byte(m, b), EventModel::Nothing),
        ParseState::EscIntermediate => if 0x20 <= b <= 0x2f {
            (m, EventModel::Nothing)
        } else if b == 0x1b {
            (TrackerModel { state: ParseState::Esc, ..m }, EventModel::Nothing)
        } else {
            (TrackerModel { state: ParseState::Ground, ..m }, EventModel::Nothing)
        },
        ParseState::Csi => if 0x40 <= b <= 0x7e {
            let (m2, e) = csi_final(m, b);
            (TrackerModel { state: ParseState::Ground, ..m2 }, e)
        } else if b == 0x1b {
            (TrackerModel { state: ParseState::Esc, ..m }, EventModel::Nothing)
        } else if b == 0x18 || b == 0x1a {
            (TrackerModel { state: ParseState::Ground, ..m }, EventModel::Nothing)
        } else {
            (TrackerModel { csi: csi_scan(m.csi, b), ..m }, EventModel::Nothing)
        },
        ParseState::Osc => if b == 0x07 {
            let (m2, e) = osc_final(m, false);
            (TrackerModel { state: ParseState::Ground, ..m2 }, e)
        } else if b == 0x1b {
            (TrackerModel { state: ParseState::OscEsc, ..m }, EventModel::Nothing)
        } else if b == 0x18 || b == 0x1a {
            (TrackerModel { state: ParseState::Ground, ..m }, EventModel::Nothing)
        } else if m.osc.len() < OSC_CAPTURE_MAX {
            (TrackerModel { osc: m.osc.push(b), ..m }, EventModel::Nothing)
        } else {
            (TrackerModel { osc_truncated: true, ..m }, EventModel::Nothing)
        },
        ParseState::Dcs => if b == 0x1b {
            (TrackerModel { state: ParseState::DcsEsc, ..m }, EventModel::Nothing)
        } else if b == 0x18 || b == 0x1a {
            (TrackerModel { state: ParseState::Ground, ..m }, EventModel::Nothing)
        } else {
            (dcs_byte(m, b), EventModel::Nothing)
        },
        ParseState::OscEsc => if b == 0x5c {
            let (m2, e) = osc_final(m, true);
            (TrackerModel { state: ParseState::Ground, ..m2 }, e)
        } else if b == 0x1b {
            (m, EventModel::Nothing)
        } else {
            (esc_byte(m, b), EventModel::Nothing)
        },
        ParseState::DcsEsc => if b == 0x5c {
            let (m2, e) = dcs_final(m);
            (TrackerModel { state: ParseState::Ground, ..m2 }, e)
        } else if b == 0x1b {
            (m, EventModel::Nothing)
        } else {
            (esc_byte(m, b), EventModel::Nothing)
        },
    }
}

/// Capture a byte for diagnostics: an ESC in plain text starts a new
/// capture, and every byte inside a sequence extends it, within bound.
pub open spec fn capture_byte(m: TrackerModel, b: u8) -> TrackerModel {
    if m.state is Ground {
        if b == 0x1b {
            TrackerModel { seq: seq![b], ..m }
        } else {
            m
        }
    } else if m.seq.len() < SEQ_CAPTURE {
        TrackerModel { seq: m.seq.push(b), ..m }
    } else {
        m
    }
}

/// Feed one byte: capture it, then run the state machine.
#[verifier::opaque]
pub open spec fn step_spec(m: TrackerModel, b: u8) -> (TrackerModel, EventModel) {
    transition_spec(capture_byte(m, b), b)
}


/// The tracker's state after feeding `bytes` from `m`.
pub open spec fn feed_spec(m: TrackerModel, bytes: Seq<u8>) -> TrackerModel
    decreases bytes.len(),
{
    if bytes.len() == 0 {
        m
    } else {
        step_spec(feed_spec(m, bytes.drop_last()), bytes.last()).0
    }
}

/// A fresh tracker keeping at most `capture` bytes of each graphics
/// payload.
pub open spec fn tracker_start(capture: usize) -> TrackerModel {
    TrackerModel {
        state: ParseState::Ground,
        utf8_remaining: 0,
        sync_update: false,
        csi: csi_reset(),
        seq: Seq::empty(),
        osc: Seq::empty(),
        osc_truncated: false,
        title: Seq::empty(),
        clipboard: None,
        links: Seq::empty(),
        label: Seq::empty(),
        link_open: false,
        label_truncated: false,
        bells: 0,
        counts: GraphicsCounts { kitty: 0, sixel: 0, deletes: 0, bytes: 0 },
        building: builder_idle(),
        capture,
        frame_printable: 0,
        focus_events: false,
        cursor_style: None,
        dcs_introducer: 0,
        dcs_final: 0,
        dcs_intermediate: 0,
        dcs_data_len: 0,
        dcs_head: Seq::empty(),
        dcs_body: Seq::empty(),
        dcs_body_full: true,
    }
}

/// Render bytes printably: `ESC` as `^[`, `BEL` as `^G`, printable ASCII as
/// itself, anything else as `\xNN`.
pub fn printable(bytes: &[u8]) -> (r: String)
    ensures
        r@ == printable_spec(bytes@),
{
    let mut out = String::new();
    let mut i: usize = 0;
    while i < bytes.len()
        invariant
            i <= bytes@.len(),
            out@ == printable_spec(bytes@.take(i as int)),
        decreases bytes@.len() - i,
    {
        let b = bytes[i];
        let ghost before = out@;
        if b == 0x1b {
            push_char(&mut out, '^');
            push_char(&mut out, '[');
        } else if b == 0x07 {
            push_char(&mut out, '^');
            push_char(&mut out, 'G');
        } else if 0x20 <= b && b <= 0x7e {
            push_char(&mut out, b as char);
        } else {
            let hi = b / 16;
            let lo = b % 16;
            push_char(&mut out, '\\');
            push_char(&mut out, 'x');
            push_char(&mut out, if hi < 10 { (48 + hi) as char } else { (87 + hi) as char });
            push_char(&mut out, if lo < 10 { (48 + lo) as char } else { (87 + lo) as char });
        }
        proof {
            assert(out@ =~= before + byte_repr(b));
            assert(bytes@.take(i + 1).drop_last() =~= bytes@.take(i as int));
        }
        i = i + 1;
    }
    proof {
        assert(bytes@.take(bytes@.len() as int) =~= bytes@);
    }
    out
}

fn csi_end_param_exec(c: CsiScan) -> (r: CsiScan)
    ensures
        r == csi_end_param(c),
{
    CsiScan {
        saw_2026: c.saw_2026 || c.param == 2026,
        saw_1004: c.saw_1004 || c.param == 1004,
        first_param: if c.param_count == 0 {
            c.param
        } else {
            c.first_param
        },
        param_count: if c.param_count == 255 {
            255
        } else {
            c.param_count + 1
        },
        param: 0,
        has_digits: false,
        ..c
    }
}

fn csi_scan_exec(c: CsiScan, b: u8) -> (r: CsiScan)
    ensures
        r == csi_scan(c, b),
{
    let c1 = if (b == 0x3f || b == 0x3e || b == 0x3d) && c.first {
        CsiScan { prefix: b, ..c }
    } else if 0x30 <= b && b <= 0x39 {
        let p = if c.param > 429496729 {
            u32::MAX
        } else {
            (c.param * 10).saturating_add((b - 0x30) as u32)
        };
        CsiScan { param: p, has_digits: true, ..c }
    } else if b == 0x3b {
        csi_end_param_exec(c)
    } else if b == 0x24 || b == 0x20 {
        CsiScan { intermediate: b, ..c }
    } else {
        CsiScan { invalid: true, ..c }
    };
    CsiScan { first: false, ..c1 }
}

/// The `OSC 8`, `OSC 52` and title strings, and the kitty and sixel
/// payloads, as the byte-level tracker sees them.
pub struct SeqTracker {
    state: ParseState,
    utf8_remaining: u8,
    sync_update: bool,
    csi: CsiScan,
    seq: Vec<u8>,
    osc: Vec<u8>,
    osc_truncated: bool,
    title: String,
    clipboard: Option<Clipboard>,
    links: Vec<Link>,
    label: Vec<u8>,
    link_open: bool,
    label_truncated: bool,
    bells: u64,
    counts: GraphicsCounts,
    building: GraphicsBuilder,
    capture: usize,
    frame_printable: u32,
    focus_events: bool,
    cursor_style: Option<u8>,
    dcs_introducer: u8,
    dcs_final: u8,
    dcs_intermediate: u8,
    dcs_data_len: u64,
    dcs_head: Vec<u8>,
    dcs_body: Vec<u8>,
    dcs_body_full: bool,
}

/// The plain value of an optional clipboard.
pub open spec fn clip_view(c: Option<Clipboard>) -> Option<ClipModel> {
    match c {
        Some(c) => Some(c@),
        None => None,
    }
}

impl View for SeqTracker {
    type V = TrackerModel;

    closed spec fn view(&self) -> TrackerModel {
        TrackerModel {
            state: self.state,
            utf8_remaining: self.utf8_remaining,
            sync_update: self.sync_update,
            csi: self.csi,
            seq: self.seq@,
            osc: self.osc@,
            osc_truncated: self.osc_truncated,
            title: self.title@,
            clipboard: clip_view(self.clipboard),
            links: self.links@.map_values(|l: Link| l@),
            label: self.label@,
            link_open: self.link_open,
            label_truncated: self.label_truncated,
            bells: self.bells,
            counts: self.counts,
            building: self.building@,
            capture: self.capture,
            frame_printable: self.frame_printable,
            focus_events: self.focus_events,
            cursor_style: self.cursor_style,
            dcs_introducer: self.dcs_introducer,
            dcs_final: self.dcs_final,
            dcs_intermediate: self.dcs_intermediate,
            dcs_data_len: self.dcs_data_len,
            dcs_head: self.dcs_head@,
            dcs_body: self.dcs_body@,
            dcs_body_full: self.dcs_body_full,
        }
    }
}

impl SeqTracker {
    /// A tracker in plain text with nothing recorded, keeping at most
    /// `capture` bytes of each graphics payload.
    pub fn new(capture: usize) -> (r: Self)
        ensures
            r@ == tracker_start(capture),
    {
        let r = SeqTracker {
            state: ParseState::Ground,
            utf8_remaining: 0,
            sync_update: false,
            csi: CsiScan {
                prefix: 0,
                intermediate: 0,
                invalid: false,
                first: true,
                param: 0,
                has_digits: false,
                first_param: 0,
                param_count: 0,
                saw_2026: false,
                saw_1004: false,
            },
            seq: Vec::new(),
            osc: Vec::new(),
            osc_truncated: false,
            title: String::new(),
            clipboard: None,
            links: Vec::new(),
            label: Vec::new(),
            link_open: false,
            label_truncated: false,
            bells: 0,
            counts: GraphicsCounts { kitty: 0, sixel: 0, deletes: 0, bytes: 0 },
            building: GraphicsBuilder::new(),
            capture,
            frame_printable: 0,
            focus_events: false,
            cursor_style: None,
            dcs_introducer: 0,
            dcs_final: 0,
            dcs_intermediate: 0,
            dcs_data_len: 0,
            dcs_head: Vec::new(),
            dcs_body: Vec::new(),
            dcs_body_full: true,
        };
        assert(r@.links =~= Seq::<LinkModel>::empty());
        r
    }

    /// True while the stream stands inside a sequence or a character.
    pub fn mid_sequence(&self) -> (r: bool)
        ensures
            r == (!(self@.state is Ground) || self@.utf8_remaining > 0),
    {
        self.state != ParseState::Ground || self.utf8_remaining > 0
    }

    /// True while the stream is inside a synchronized update.
    pub fn in_sync_update(&self) -> (r: bool)
        ensures
            r == self@.sync_update,
    {
        self.sync_update
    }

    /// The most recent `OSC 52` clipboard write, if any.
    pub fn clipboard(&self) -> (r: Option<Clipboard>)
        ensures
            clip_view(r) == self@.clipboard,
    {
        match &self.clipboard {
            Some(c) => Some(c.clone()),
            None => None,
        }
    }

    /// The window title as most recently set by `OSC 0`/`OSC 2`; empty
    /// until the application sets one.
    pub fn title(&self) -> (r: String)
        ensures
            r@ == self@.title,
    {
        self.title.clone()
    }

    /// Bells rung in plain text so far.
    pub fn bells(&self) -> (r: u64)
        ensures
            r == self@.bells,
    {
        self.bells
    }

    /// The `OSC 8` hyperlinks seen so far, oldest first.
    pub fn links(&self) -> (r: Vec<Link>)
        ensures
            r@.map_values(|l: Link| l@) == self@.links,
    {
        let mut out: Vec<Link> = Vec::new();
        let mut i: usize = 0;
        while i < self.links.len()
            invariant
                i <= self.links@.len(),
                out@.len() == i,
                forall|j: int| 0 <= j < i ==> #[trigger] out@[j]@ == self.links@[j]@,
            decreases self.links@.len() - i,
        {
            out.push(self.links[i].clone());
            i = i + 1;
        }
        assert(out@.map_values(|l: Link| l@) =~= self@.links);
        out
    }

    /// Inline graphics counted so far.
    pub fn graphics(&self) -> (r: GraphicsCounts)
        ensures
            r == self@.counts,
    {
        self.counts
    }

    /// True while the application has focus reporting enabled.
    pub fn focus_events(&self) -> (r: bool)
        ensures
            r == self@.focus_events,
    {
        self.focus_events
    }

    /// The raw `DECSCUSR` parameter last requested, `None` if never (or
    /// since a hard reset).
    pub fn cursor_style(&self) -> (r: Option<u8>)
        ensures
            r == self@.cursor_style,
    {
        self.cursor_style
    }

    /// Printable characters written since the current frame began, cleared
    /// for the next one.
    pub fn take_frame_printable(&mut self) -> (r: u32)
        ensures
            r == old(self)@.frame_printable,
            final(self)@ == (TrackerModel { frame_printable: 0, ..old(self)@ }),
    {
        let r = self.frame_printable;
        self.frame_printable = 0;
        r
    }
}


impl SeqTracker {
    fn close_link(&mut self)
        ensures
            final(self)@ == close_link_spec(old(self)@),
    {
        if !self.link_open {
            return;
        }
        self.link_open = false;
        let mut raw: Vec<u8> = Vec::new();
        std::mem::swap(&mut raw, &mut self.label);
        let label = if self.label_truncated {
            None
        } else {
            string_from_utf8(raw)
        };
        self.label_truncated = false;
        let n = self.links.len();
        if n > 0 {
            let ghost before = self.links@;
            let ghost lab = opt_view(label);
            self.links[n - 1].close(label);
            proof {
                assert(self.links@.map_values(|l: Link| l@) =~= before.map_values(|l: Link| l@).update(
                    n - 1,
                    LinkModel { label: lab, closed: true, ..before[n - 1]@ },
                ));
            }
        }
    }

    fn open_link(&mut self, params: &[u8], uri: &[u8])
        requires
            old(self)@.links.len() <= LINK_HISTORY,
        ensures
            final(self)@ == open_link_spec(old(self)@, params@, uri@),
            final(self)@.links.len() <= LINK_HISTORY,
    {
        self.close_link();
        let id_key: [u8; 3] = [0x69, 0x64, 0x3d];
        proof {
            assert(id_key@ =~= seq![0x69u8, 0x64u8, 0x3du8]);
        }
        let id = match prefixed_range(params, 0x3a, id_key.as_slice()) {
            Some((a, b)) => Some(lossy_string(vstd::slice::slice_subrange(params, a, b))),
            None => None,
        };
        let uri_text = lossy_string(uri);
        let ghost before = self.links@.map_values(|l: Link| l@);
        let link = Link::open(uri_text, id);
        self.links.push(link);
        assert(self.links@.map_values(|l: Link| l@) =~= before.push(link@));
        if self.links.len() > LINK_HISTORY {
            let ghost pushed = self.links@.map_values(|l: Link| l@);
            self.links.remove(0);
            assert(self.links@.map_values(|l: Link| l@) =~= pushed.skip(pushed.len() - LINK_HISTORY));
        }
        self.link_open = true;
        self.label = Vec::new();
        self.label_truncated = false;
    }

    fn ground(&mut self, b: u8)
        ensures
            final(self)@ == ground_byte(old(self)@, b),
    {
        if b == 0x07 && self.utf8_remaining == 0 {
            self.bells = self.bells.saturating_add(1);
        }
        let text = b >= 0x20 && b != 0x7f;
        if self.utf8_remaining == 0 && text {
            self.frame_printable = self.frame_printable.saturating_add(1);
        }
        if self.link_open && text {
            if self.label.len() < LINK_LABEL_MAX {
                self.label.push(b);
            } else {
                self.label_truncated = true;
            }
        }
        self.utf8_remaining = if self.utf8_remaining > 0 && 0x80 <= b && b <= 0xbf {
            self.utf8_remaining - 1
        } else if 0xc2 <= b && b <= 0xdf {
            1
        } else if 0xe0 <= b && b <= 0xef {
            2
        } else if 0xf0 <= b && b <= 0xf4 {
            3
        } else {
            0
        };
    }

    fn dcs_byte(&mut self, b: u8)
        ensures
            final(self)@ == dcs_byte(old(self)@, b),
    {
        self.dcs_data_len = self.dcs_data_len.saturating_add(1);
        if self.dcs_introducer != 0x5f && self.dcs_final == 0 {
            if 0x20 <= b && b <= 0x2f {
                self.dcs_intermediate = b;
            } else if 0x40 <= b && b <= 0x7e {
                self.dcs_final = b;
            }
        }
        if self.dcs_head.len() < DCS_HEAD {
            self.dcs_head.push(b);
        }
        if self.dcs_body.len() < self.capture {
            self.dcs_body.push(b);
        } else {
            self.dcs_body_full = false;
        }
    }

    fn esc(&mut self, b: u8)
        ensures
            final(self)@ == esc_byte(old(self)@, b),
    {
        if b == 0x5b {
            self.csi = CsiScan {
                prefix: 0,
                intermediate: 0,
                invalid: false,
                first: true,
                param: 0,
                has_digits: false,
                first_param: 0,
                param_count: 0,
                saw_2026: false,
                saw_1004: false,
            };
            self.state = ParseState::Csi;
        } else if b == 0x5d {
            self.osc = Vec::new();
            self.osc_truncated = false;
            self.state = ParseState::Osc;
        } else if b == 0x50 || b == 0x58 || b == 0x5e || b == 0x5f {
            self.dcs_introducer = b;
            self.dcs_final = 0;
            self.dcs_intermediate = 0;
            self.dcs_data_len = 0;
            self.dcs_head = Vec::new();
            self.dcs_body = Vec::new();
            self.dcs_body_full = true;
            self.state = ParseState::Dcs;
        } else if 0x20 <= b && b <= 0x2f {
            self.state = ParseState::EscIntermediate;
        } else if b == 0x1b {
            self.state = ParseState::Esc;
        } else if b == 0x18 || b == 0x1a {
            self.state = ParseState::Ground;
        } else if b == 0x63 {
            self.close_link();
            self.cursor_style = None;
            self.state = ParseState::Ground;
        } else {
            self.state = ParseState::Ground;
        }
    }

    fn capture_byte(&mut self, b: u8)
        ensures
            final(self)@ == capture_byte(old(self)@, b),
    {
        if self.state == ParseState::Ground {
            if b == 0x1b {
                self.seq = Vec::new();
                self.seq.push(b);
                assert(self.seq@ =~= seq![b]);
            }
        } else if self.seq.len() < SEQ_CAPTURE {
            self.seq.push(b);
        }
    }
}


fn unanswerable(seq: &[u8]) -> (r: SeqEvent)
    ensures
        event_view(r) == EventModel::Query(QueryModel::Unanswerable(printable_spec(seq@))),
{
    SeqEvent::Query(Query::Unanswerable(printable(seq)))
}

impl SeqTracker {
    fn csi_query(&self, b: u8) -> (r: SeqEvent)
        ensures
            event_view(r) == csi_query(self.csi, b, self.seq@),
    {
        let c = self.csi;
        let p = c.prefix;
        let empty = c.param_count == 0;
        let one = c.param_count == 1;
        let v = c.first_param;
        if p == 0 && b == 0x6e && one && v == 6 {
            SeqEvent::Query(Query::CursorPosition { private: false })
        } else if p == 0x3f && b == 0x6e && one && v == 6 {
            SeqEvent::Query(Query::CursorPosition { private: true })
        } else if p == 0 && b == 0x6e && one && v == 5 {
            SeqEvent::Query(Query::OperatingStatus)
        } else if p == 0 && b == 0x63 && (empty || (one && v == 0)) {
            SeqEvent::Query(Query::PrimaryDa)
        } else if p == 0x3e && b == 0x63 && (empty || (one && v == 0)) {
            SeqEvent::Query(Query::SecondaryDa)
        } else if p == 0 && b == 0x74 && one && v == 18 {
            SeqEvent::Query(Query::TextAreaSize)
        } else if p == 0 && b == 0x74 && one && v == 14 {
            SeqEvent::Query(Query::WindowSizePixels)
        } else if p == 0 && b == 0x74 && one && v == 16 {
            SeqEvent::Query(Query::CellSizePixels)
        } else if b == 0x6e || (p == 0x3d && b == 0x63) {
            unanswerable(self.seq.as_slice())
        } else if p == 0x3f && b == 0x75 && empty {
            unanswerable(self.seq.as_slice())
        } else if p == 0 && b == 0x74 && (v == 11 || v == 13 || v == 19 || v == 20 || v == 21) && one {
            unanswerable(self.seq.as_slice())
        } else {
            SeqEvent::Nothing
        }
    }

    fn csi_final(&mut self, b: u8) -> (r: SeqEvent)
        ensures
            (final(self)@, event_view(r)) == csi_final(old(self)@, b),
    {
        if self.csi.invalid {
            return SeqEvent::Nothing;
        }
        if self.csi.has_digits {
            self.csi = csi_end_param_exec(self.csi);
        }
        let c = self.csi;
        if c.intermediate == 0x24 {
            if c.prefix == 0x3f && b == 0x70 && c.param_count == 1 {
                return SeqEvent::Query(Query::RequestMode(c.first_param));
            } else if b == 0x70 || b == 0x79 {
                return unanswerable(self.seq.as_slice());
            } else {
                return SeqEvent::Nothing;
            }
        }
        if c.intermediate == 0x20 {
            let ps = if c.param_count == 0 {
                0
            } else {
                c.first_param
            };
            if b == 0x71 && c.prefix == 0 && c.param_count <= 1 && ps <= 6 {
                self.cursor_style = Some(ps as u8);
            }
            return SeqEvent::Nothing;
        }
        self.csi_modes(b)
    }

    fn csi_modes(&mut self, b: u8) -> (r: SeqEvent)
        ensures
            (final(self)@, event_view(r)) == csi_modes(old(self)@, b),
    {
        let c = self.csi;
        if c.prefix == 0x3f && c.saw_1004 {
            if b == 0x68 {
                self.focus_events = true;
            } else if b == 0x6c {
                self.focus_events = false;
            }
        }
        if c.prefix == 0x3f && c.saw_2026 {
            if b == 0x68 {
                self.sync_update = true;
                self.frame_printable = 0;
                return SeqEvent::SyncBegin;
            } else if b == 0x6c && self.sync_update {
                self.sync_update = false;
                return SeqEvent::SyncEnd;
            }
        }
        self.csi_query(b)
    }

    fn finish_graphics(&mut self) -> (r: SeqEvent)
        ensures
            (final(self)@, event_view(r)) == finish_graphics(old(self)@),
    {
        match self.building.finish() {
            Some(payload) => {
                self.counts.record(&payload);
                SeqEvent::Graphics(Box::new(payload))
            },
            None => SeqEvent::Nothing,
        }
    }

    fn payload_start(&self) -> (r: usize)
        ensures
            r == payload_start(self@),
            r <= self.dcs_body@.len(),
    {
        let sep = if self.dcs_introducer == 0x5f {
            0x3b
        } else {
            self.dcs_final
        };
        let len = self.dcs_body.len();
        let at = position(self.dcs_body.as_slice(), 0, len, sep);
        proof {
            assert(self.dcs_body@.subrange(0, len as int) =~= self.dcs_body@);
        }
        if at < len {
            at + 1
        } else {
            len
        }
    }
}


fn is_colour_query(osc: &[u8], code: u8) -> (r: bool)
    ensures
        r == (osc@ == colour_query(code)),
{
    if osc.len() == 4 && osc[0] == 0x31 && osc[1] == code && osc[2] == 0x3b && osc[3] == 0x3f {
        assert(osc@ =~= colour_query(code));
        true
    } else {
        proof {
            if osc@ == colour_query(code) {
                assert(osc@.len() == 4);
                assert(osc@[0] == 0x31 && osc@[1] == code && osc@[2] == 0x3b && osc@[3] == 0x3f);
            }
        }
        false
    }
}

impl SeqTracker {
    fn osc_final(&mut self, st_terminated: bool) -> (r: SeqEvent)
        requires
            old(self)@.links.len() <= LINK_HISTORY,
        ensures
            (final(self)@, event_view(r)) == osc_final(old(self)@, st_terminated),
            final(self)@.links.len() <= LINK_HISTORY,
    {
        let n = self.osc.len();
        if is_colour_query(self.osc.as_slice(), 0x30) {
            return SeqEvent::Query(Query::OscColor { code: 10, st_terminated });
        }
        if is_colour_query(self.osc.as_slice(), 0x31) {
            return SeqEvent::Query(Query::OscColor { code: 11, st_terminated });
        }
        if is_colour_query(self.osc.as_slice(), 0x32) {
            return unanswerable(self.seq.as_slice());
        }
        if n >= 1 && self.osc[n - 1] == 0x3f && ((n >= 2 && self.osc[0] == 0x34 && self.osc[1] == 0x3b) || (n >= 3
            && self.osc[0] == 0x35 && self.osc[1] == 0x32 && self.osc[2] == 0x3b)) {
            return unanswerable(self.seq.as_slice());
        }
        if n >= 2 && (self.osc[0] == 0x30 || self.osc[0] == 0x32) && self.osc[1] == 0x3b {
            let t = lossy_string(vstd::slice::slice_subrange(self.osc.as_slice(), 2, n));
            assert(self.osc@.subrange(2, n as int) =~= self.osc@.skip(2));
            self.title = t;
            return SeqEvent::Nothing;
        }
        if n >= 2 && self.osc[0] == 0x38 && self.osc[1] == 0x3b {
            self.osc_link();
            return SeqEvent::Nothing;
        }
        if n >= 3 && self.osc[0] == 0x35 && self.osc[1] == 0x32 && self.osc[2] == 0x3b {
            self.osc_clip();
            return SeqEvent::Nothing;
        }
        SeqEvent::Nothing
    }
}


impl SeqTracker {
    fn osc_link(&mut self)
        requires
            old(self)@.links.len() <= LINK_HISTORY,
            old(self)@.osc.len() >= 2,
        ensures
            final(self)@ == osc_link(old(self)@),
            final(self)@.links.len() <= LINK_HISTORY,
    {
        let n = self.osc.len();
        let sep = position(self.osc.as_slice(), 2, n, 0x3b);
        proof {
            let rest = self.osc@.skip(2);
            assert(self.osc@.subrange(2, n as int) =~= rest);
            crate::bytes::lemma_find_byte(rest, 0x3b);
        }
        if sep < n && !self.osc_truncated {
            let params = vstd::slice::slice_to_vec(vstd::slice::slice_subrange(self.osc.as_slice(), 2, sep));
            let uri = vstd::slice::slice_to_vec(vstd::slice::slice_subrange(self.osc.as_slice(), sep + 1, n));
            proof {
                let rest = self.osc@.skip(2);
                assert(params@ =~= rest.take(sep - 2));
                assert(uri@ =~= rest.skip(sep - 2 + 1));
            }
            if uri.len() == 0 {
                self.close_link();
            } else {
                self.open_link(params.as_slice(), uri.as_slice());
            }
        }
    }

    fn osc_clip(&mut self)
        requires
            old(self)@.osc.len() >= 3,
        ensures
            final(self)@ == osc_clip(old(self)@),
    {
        let n = self.osc.len();
        let sep = position(self.osc.as_slice(), 3, n, 0x3b);
        proof {
            let rest = self.osc@.skip(3);
            assert(self.osc@.subrange(3, n as int) =~= rest);
            crate::bytes::lemma_find_byte(rest, 0x3b);
        }
        if sep < n {
            let targets = lossy_string(vstd::slice::slice_subrange(self.osc.as_slice(), 3, sep));
            let text = if self.osc_truncated {
                None
            } else {
                match decode_base64(vstd::slice::slice_subrange(self.osc.as_slice(), sep + 1, n)) {
                    Some(bytes) => string_from_utf8(bytes),
                    None => None,
                }
            };
            proof {
                let rest = self.osc@.skip(3);
                assert(self.osc@.subrange(3, sep as int) =~= rest.take(sep - 3));
                assert(self.osc@.subrange(sep + 1, n as int) =~= rest.skip(sep - 3 + 1));
            }
            self.clipboard = Some(Clipboard::new(targets, text));
        }
    }
}


impl SeqTracker {
    fn dcs_kitty(&mut self) -> (r: SeqEvent)
        ensures
            (final(self)@, event_view(r)) == dcs_kitty(old(self)@),
    {
        let head_len = self.dcs_head.len();
        let cb_end = position(self.dcs_head.as_slice(), 0, head_len, 0x3b);
        proof {
            assert(self.dcs_head@.subrange(0, head_len as int) =~= self.dcs_head@);
        }
        let kstart: usize = if cb_end > 0 && self.dcs_head[0] == 0x47 {
            1
        } else {
            0
        };
        let keys = vstd::slice::slice_to_vec(vstd::slice::slice_subrange(self.dcs_head.as_slice(), kstart, cb_end));
        proof {
            let control = control_block(self.dcs_head@);
            assert(control =~= self.dcs_head@.subrange(0, cb_end as int));
            assert(keys@ =~= kitty_keys(control));
        }
        let aq: [u8; 3] = [0x61, 0x3d, 0x71];
        let m1: [u8; 3] = [0x6d, 0x3d, 0x31];
        let ik: [u8; 2] = [0x69, 0x3d];
        proof {
            assert(aq@ =~= seq![0x61u8, 0x3du8, 0x71u8]);
            assert(m1@ =~= seq![0x6du8, 0x3du8, 0x31u8]);
            assert(ik@ =~= seq![0x69u8, 0x3du8]);
        }
        if !field_is(keys.as_slice(), aq.as_slice()) {
            self.building.kitty(keys.as_slice());
            let at = self.payload_start();
            let body_len = self.dcs_body.len();
            let body = vstd::slice::slice_to_vec(vstd::slice::slice_subrange(self.dcs_body.as_slice(), at, body_len));
            assert(body@ =~= self.dcs_body@.skip(at as int));
            self.building.chunk(self.dcs_data_len, body.as_slice(), self.dcs_body_full, self.capture);
            if field_is(keys.as_slice(), m1.as_slice()) {
                return SeqEvent::Nothing;
            }
            return self.finish_graphics();
        }
        let id = match prefixed_range(keys.as_slice(), 0x2c, ik.as_slice()) {
            Some((a, b)) => parse_u32(keys.as_slice(), a, b),
            None => None,
        };
        SeqEvent::Query(Query::KittyGraphics { id, shape: printable(self.seq.as_slice()) })
    }

    fn dcs_final(&mut self) -> (r: SeqEvent)
        ensures
            (final(self)@, event_view(r)) == dcs_final(old(self)@),
    {
        let head_len = self.dcs_head.len();
        if self.dcs_introducer == 0x5f && ((head_len > 0 && self.dcs_head[0] == 0x47) || self.building.in_progress()) {
            return self.dcs_kitty();
        }
        if self.dcs_introducer == 0x50 && self.dcs_final == 0x71 && self.dcs_intermediate == 0 {
            self.building.sixel();
            let at = self.payload_start();
            let body_len = self.dcs_body.len();
            let body = vstd::slice::slice_to_vec(vstd::slice::slice_subrange(self.dcs_body.as_slice(), at, body_len));
            assert(body@ =~= self.dcs_body@.skip(at as int));
            self.building.chunk(self.dcs_data_len, body.as_slice(), self.dcs_body_full, self.capture);
            return self.finish_graphics();
        }
        if self.dcs_introducer == 0x50 && self.dcs_intermediate == 0x2b && self.dcs_final == 0x71 {
            let q = position(self.dcs_head.as_slice(), 0, head_len, 0x71);
            proof {
                assert(self.dcs_head@.subrange(0, head_len as int) =~= self.dcs_head@);
            }
            let names = if q < head_len {
                let t = lossy_string(vstd::slice::slice_subrange(self.dcs_head.as_slice(), q + 1, head_len));
                assert(self.dcs_head@.subrange(q + 1, head_len as int) =~= self.dcs_head@.skip(q + 1));
                t
            } else {
                String::new()
            };
            return SeqEvent::Query(Query::RequestTermcap { names, shape: printable(self.seq.as_slice()) });
        }
        let n = self.seq.len();
        if n >= 4 && (self.seq[2] == 0x2b || self.seq[2] == 0x24) && self.seq[3] == 0x71 {
            return unanswerable(self.seq.as_slice());
        }
        SeqEvent::Nothing
    }
}


proof fn lemma_close_link_wf(m: TrackerModel)
    requires
        tracker_wf(m),
    ensures
        tracker_wf(close_link_spec(m)),
        close_link_spec(m).links.len() == m.links.len(),
{
}

proof fn lemma_open_link_wf(m: TrackerModel, params: Seq<u8>, uri: Seq<u8>)
    requires
        tracker_wf(m),
    ensures
        tracker_wf(open_link_spec(m, params, uri)),
{
    lemma_close_link_wf(m);
}

proof fn lemma_osc_final_wf(m: TrackerModel, st: bool)
    requires
        tracker_wf(m),
    ensures
        tracker_wf(osc_final(m, st).0),
{
    lemma_close_link_wf(m);
    let rest = m.osc.skip(2);
    let sep = find_byte(rest, 0x3b);
    lemma_open_link_wf(m, rest.take(sep), rest.skip(sep + 1));
    assert(tracker_wf(osc_link(m)));
    assert(tracker_wf(osc_clip(m)));
}

proof fn lemma_finish_graphics_wf(m: TrackerModel)
    requires
        tracker_wf(m),
    ensures
        tracker_wf(finish_graphics(m).0),
{
}

proof fn lemma_dcs_final_wf(m: TrackerModel)
    requires
        tracker_wf(m),
    ensures
        tracker_wf(dcs_final(m).0),
{
    let keys = kitty_keys(control_block(m.dcs_head));
    let m1 = TrackerModel {
        building: builder_chunk(
            builder_kitty(m.building, keys),
            m.dcs_data_len,
            m.dcs_body.skip(payload_start(m)),
            m.dcs_body_full,
            m.capture,
        ),
        ..m
    };
    lemma_finish_graphics_wf(m1);
    let m2 = TrackerModel {
        building: builder_chunk(
            builder_sixel(m.building),
            m.dcs_data_len,
            m.dcs_body.skip(payload_start(m)),
            m.dcs_body_full,
            m.capture,
        ),
        ..m
    };
    lemma_finish_graphics_wf(m2);
    assert(tracker_wf(dcs_kitty(m).0));
}

proof fn lemma_csi_final_wf(m: TrackerModel, b: u8)
    requires
        tracker_wf(m),
    ensures
        tracker_wf(csi_final(m, b).0),
{
}

proof fn lemma_esc_byte_wf(m: TrackerModel, b: u8)
    requires
        tracker_wf(m),
    ensures
        tracker_wf(esc_byte(m, b)),
{
    lemma_close_link_wf(m);
}

proof fn lemma_transition_wf(m: TrackerModel, b: u8)
    requires
        tracker_wf(m),
    ensures
        tracker_wf(transition_spec(m, b).0),
{
    match m.state {
        ParseState::Ground => {},
        ParseState::Esc => lemma_esc_byte_wf(m, b),
        ParseState::EscIntermediate => {},
        ParseState::Csi => lemma_csi_final_wf(m, b),
        ParseState::Osc => lemma_osc_final_wf(m, false),
        ParseState::Dcs => {},
        ParseState::OscEsc => {
            lemma_osc_final_wf(m, true);
            lemma_esc_byte_wf(m, b);
        },
        ParseState::DcsEsc => {
            lemma_dcs_final_wf(m);
            lemma_esc_byte_wf(m, b);
        },
    }
}

/// Every byte keeps the tracker's bounds: the link log never holds more
/// than [`LINK_HISTORY`] spans, and no capture buffer outgrows its bound.
pub proof fn lemma_step_keeps_bounds(m: TrackerModel, b: u8)
    requires
        tracker_wf(m),
    ensures
        tracker_wf(step_spec(m, b).0),
{
    reveal(step_spec);
    lemma_transition_wf(capture_byte(m, b), b);
}

impl SeqTracker {
    fn transition(&mut self, b: u8) -> (r: SeqEvent)
        requires
            tracker_wf(old(self)@),
        ensures
            (final(self)@, event_view(r)) == transition_spec(old(self)@, b),
    {
        match self.state {
            ParseState::Ground => {
                if b == 0x1b {
                    self.utf8_remaining = 0;
                    self.state = ParseState::Esc;
                } else {
                    self.ground(b);
                }
                SeqEvent::Nothing
            },
            ParseState::Esc => {
                self.esc(b);
                SeqEvent::Nothing
            },
            ParseState::EscIntermediate => {
                if 0x20 <= b && b <= 0x2f {
                } else if b == 0x1b {
                    self.state = ParseState::Esc;
                } else {
                    self.state = ParseState::Ground;
                }
                SeqEvent::Nothing
            },
            ParseState::Csi => {
                if 0x40 <= b && b <= 0x7e {
                    let e = self.csi_final(b);
                    self.state = ParseState::Ground;
                    e
                } else {
                    if b == 0x1b {
                        self.state = ParseState::Esc;
                    } else if b == 0x18 || b == 0x1a {
                        self.state = ParseState::Ground;
                    } else {
                        self.csi = csi_scan_exec(self.csi, b);
                    }
                    SeqEvent::Nothing
                }
            },
            ParseState::Osc => {
                if b == 0x07 {
                    let e = self.osc_final(false);
                    self.state = ParseState::Ground;
                    e
                } else {
                    if b == 0x1b {
                        self.state = ParseState::OscEsc;
                    } else if b == 0x18 || b == 0x1a {
                        self.state = ParseState::Ground;
                    } else if self.osc.len() < OSC_CAPTURE_MAX {
                        self.osc.push(b);
                    } else {
                        self.osc_truncated = true;
                    }
                    SeqEvent::Nothing
                }
            },
            ParseState::Dcs => {
                if b == 0x1b {
                    self.state = ParseState::DcsEsc;
                } else if b == 0x18 || b == 0x1a {
                    self.state = ParseState::Ground;
                } else {
                    self.dcs_byte(b);
                }
                SeqEvent::Nothing
            },
            ParseState::OscEsc => {
                if b == 0x5c {
                    let e = self.osc_final(true);
                    self.state = ParseState::Ground;
                    e
                } else {
                    if b != 0x1b {
                        self.esc(b);
                    }
                    SeqEvent::Nothing
                }
            },
            ParseState::DcsEsc => {
                if b == 0x5c {
                    let e = self.dcs_final();
                    self.state = ParseState::Ground;
                    e
                } else {
                    if b != 0x1b {
                        self.esc(b);
                    }
                    SeqEvent::Nothing
                }
            },
        }
    }

    /// Feed one byte: capture it if it belongs to a sequence, then run the
    /// state machine. Returns what the byte completed, if anything.
    pub fn step(&mut self, b: u8) -> (r: SeqEvent)
        requires
            tracker_wf(old(self)@),
        ensures
            (final(self)@, event_view(r)) == step_spec(old(self)@, b),
            tracker_wf(final(self)@),
    {
        proof {
            reveal(step_spec);
            lemma_step_keeps_bounds(self@, b);
        }
        self.capture_byte(b);
        self.transition(b)
    }

    /// Feed a run of bytes, discarding the events.
    pub fn feed(&mut self, bytes: &[u8])
        requires
            tracker_wf(old(self)@),
        ensures
            final(self)@ == feed_spec(old(self)@, bytes@),
            tracker_wf(final(self)@),
    {
        let mut i: usize = 0;
        while i < bytes.len()
            invariant
                i <= bytes@.len(),
                tracker_wf(self@),
                self@ == feed_spec(old(self)@, bytes@.take(i as int)),
            decreases bytes@.len() - i,
        {
            let _ = self.step(bytes[i]);
            proof {
                assert(bytes@.take(i + 1).drop_last() =~= bytes@.take(i as int));
            }
            i = i + 1;
        }
        assert(bytes@.take(bytes@.len() as int) =~= bytes@);
    }
}

/// One byte and synchronized output: a begin leaves an update open, an end
/// closes one that was open and leaves none, and every other byte leaves
/// the flag as it was.
pub proof fn lemma_sync_step(m: TrackerModel, b: u8)
    ensures
        step_spec(m, b).1 is SyncBegin ==> step_spec(m, b).0.sync_update,
        step_spec(m, b).1 is SyncEnd ==> m.sync_update && !step_spec(m, b).0.sync_update,
        !(step_spec(m, b).1 is SyncBegin) && !(step_spec(m, b).1 is SyncEnd) ==> step_spec(m, b).0.sync_update
            == m.sync_update,
{
    reveal(step_spec);
}

/// How many synchronized-update begins (`begin`) or ends raised along
/// `bytes` from `t`.
pub open spec fn sync_count(t: TrackerModel, bytes: Seq<u8>, begin: bool) -> nat
    decreases bytes.len(),
{
    if bytes.len() == 0 {
        0
    } else {
        let e = step_spec(feed_spec(t, bytes.drop_last()), bytes.last()).1;
        sync_count(t, bytes.drop_last(), begin) + if (begin && e is SyncBegin) || (!begin && e is SyncEnd) {
            1nat
        } else {
            0nat
        }
    }
}

/// Whether the last synchronized-update event along `bytes` from `t` was
/// a begin; `None` when there was none.
pub open spec fn last_sync(t: TrackerModel, bytes: Seq<u8>) -> Option<bool>
    decreases bytes.len(),
{
    if bytes.len() == 0 {
        None
    } else {
        let e = step_spec(feed_spec(t, bytes.drop_last()), bytes.last()).1;
        if e is SyncBegin {
            Some(true)
        } else if e is SyncEnd {
            Some(false)
        } else {
            last_sync(t, bytes.drop_last())
        }
    }
}

/// Over any stream, a synchronized update is open exactly when the last
/// begin or end was a begin (or, with neither, when it was open before),
/// and an end only ever closes an update that was open: the ends never
/// outnumber the begins, plus one for an update already open.
pub proof fn lemma_sync_over_any_stream(t: TrackerModel, bytes: Seq<u8>)
    ensures
        feed_spec(t, bytes).sync_update == match last_sync(t, bytes) {
            Some(open) => open,
            None => t.sync_update,
        },
        sync_count(t, bytes, false) <= sync_count(t, bytes, true) + if t.sync_update {
            1int
        } else {
            0int
        },
        feed_spec(t, bytes).sync_update ==> sync_count(t, bytes, false) < sync_count(t, bytes, true) + if t.sync_update {
            1int
        } else {
            0int
        },
    decreases bytes.len(),
{
    if bytes.len() > 0 {
        lemma_sync_over_any_stream(t, bytes.drop_last());
        lemma_sync_step(feed_spec(t, bytes.drop_last()), bytes.last());
    }
}

} // verus!
