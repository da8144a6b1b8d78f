//! Inline graphics: the payloads an application transmitted over the kitty
//! graphics protocol (`APC G <control> ; <base64> ST`) or as sixel
//! (`DCS <params> q <data> ST`), and what they depicted.
//!
//! Capturing is not rendering: nothing here draws, and the grid never
//! mentions an image. A payload records the facts the application stated
//! or the wire carried; [`GraphicsPayload::decode`] turns the supported
//! encodings into pixels on demand.
use vstd::prelude::*;
use crate::text::{decimal_text, push_decimal_text, push_str};
use crate::bytes::{key_range, key_value, parse_u32, parse_u32_spec, position, find_byte};

verus! {

/// How many payload bytes are kept for inspection by default.
pub const DEFAULT_CAPTURE: usize = 4194304;

/// Which protocol carried a payload.
#[derive(Debug, Clone, Copy, PartialEq, Eq, Hash, Structural)]
pub enum GraphicsProtocol {
    /// The kitty graphics protocol.
    Kitty,
    /// Sixel.
    Sixel,
}

/// What the application asked the terminal to do with an image.
#[derive(Debug, Clone, Copy, PartialEq, Eq, Hash, Structural)]
pub enum GraphicsAction {
    /// `a=t`: transmit the data, place it later.
    Transmit,
    /// `a=p`: place an image transmitted earlier.
    Place,
    /// `a=T`, and every sixel: transmit and place in one go.
    TransmitAndPlace,
    /// `a=d`: delete an image, or the placements made from one.
    Delete,
    /// Any other action; never guessed to carry a picture.
    Other,
}

impl GraphicsAction {
    /// Whether this action carries image data.
    pub open spec fn spec_carries_image(self) -> bool {
        self is Transmit || self is TransmitAndPlace
    }

    /// Whether this action carries image data.
    #[verifier::when_used_as_spec(spec_carries_image)]
    pub fn carries_image(self) -> (r: bool)
        ensures
            r == self.spec_carries_image(),
    {
        match self {
            GraphicsAction::Transmit | GraphicsAction::TransmitAndPlace => true,
            _ => false,
        }
    }
}

/// How the pixels in a payload are encoded.
#[derive(Debug, Clone, Copy, PartialEq, Eq, Hash, Structural)]
pub enum GraphicsFormat {
    /// kitty `f=24`: three bytes a pixel.
    Rgb,
    /// kitty `f=32`: four bytes a pixel.
    Rgba,
    /// kitty `f=100`: a PNG file, which is not decoded here.
    Png,
    /// The sixel data stream itself.
    Sixel,
    /// A kitty `f=` value this crate does not know.
    Other(u32),
}

/// The facts one payload carries, as plain values.
pub struct PayloadModel {
    pub protocol: GraphicsProtocol,
    pub action: GraphicsAction,
    pub format: GraphicsFormat,
    pub compressed: bool,
    pub id: Option<u32>,
    pub size: Option<(u32, u32)>,
    pub cells: Option<(u16, u16)>,
    pub chunks: u32,
    pub bytes: u64,
    pub at: (u16, u16),
    pub data: Option<Seq<u8>>,
}

/// One inline image an application transmitted, as observed on the wire.
#[derive(Debug, PartialEq, Eq)]
pub struct GraphicsPayload {
    protocol: GraphicsProtocol,
    action: GraphicsAction,
    format: GraphicsFormat,
    compressed: bool,
    id: Option<u32>,
    size: Option<(u32, u32)>,
    cells: Option<(u16, u16)>,
    chunks: u32,
    bytes: u64,
    at: (u16, u16),
    data: Option<Vec<u8>>,
}

impl View for GraphicsPayload {
    type V = PayloadModel;

    closed spec fn view(&self) -> PayloadModel {
        PayloadModel {
            protocol: self.protocol,
            action: self.action,
            format: self.format,
            compressed: self.compressed,
            id: self.id,
            size: self.size,
            cells: self.cells,
            chunks: self.chunks,
            bytes: self.bytes,
            at: self.at,
            data: match self.data {
                Some(d) => Some(d@),
                None => None,
            },
        }
    }
}

impl Clone for GraphicsPayload {
    fn clone(&self) -> (r: Self)
        ensures
            r@ == self@,
    {
        GraphicsPayload {
            protocol: self.protocol,
            action: self.action,
            format: self.format,
            compressed: self.compressed,
            id: self.id,
            size: self.size,
            cells: self.cells,
            chunks: self.chunks,
            bytes: self.bytes,
            at: self.at,
            data: match &self.data {
                Some(d) => Some(d.clone()),
                None => None,
            },
        }
    }
}

impl GraphicsPayload {
    /// Which protocol carried it.
    pub fn protocol(&self) -> (r: GraphicsProtocol)
        ensures
            r == self@.protocol,
    {
        self.protocol
    }

    /// What the application asked the terminal to do with it.
    pub fn action(&self) -> (r: GraphicsAction)
        ensures
            r == self@.action,
    {
        self.action
    }

    /// How the pixels are encoded.
    pub fn format(&self) -> (r: GraphicsFormat)
        ensures
            r == self@.format,
    {
        self.format
    }

    /// Whether the data is zlib-compressed (kitty `o=z`).
    pub fn compressed(&self) -> (r: bool)
        ensures
            r == self@.compressed,
    {
        self.compressed
    }

    /// The image id the application gave it (kitty `i=`), if any.
    pub fn id(&self) -> (r: Option<u32>)
        ensures
            r == self@.id,
    {
        self.id
    }

    /// The size in pixels the application declared, if any.
    pub fn size(&self) -> (r: Option<(u32, u32)>)
        ensures
            r == self@.size,
    {
        self.size
    }

    /// The placement in character cells the application pinned (kitty
    /// `c=`/`r=`).
    pub fn cells(&self) -> (r: Option<(u16, u16)>)
        ensures
            r == self@.cells,
    {
        self.cells
    }

    /// Where the cursor stood when the payload completed, as `(row, col)`.
    pub fn at(&self) -> (r: (u16, u16))
        ensures
            r == self@.at,
    {
        self.at
    }

    /// Escapes the transmission was split across.
    pub fn chunks(&self) -> (r: u32)
        ensures
            r == self@.chunks,
    {
        self.chunks
    }

    /// Bytes this payload occupied on the wire, summed over its chunks.
    pub fn bytes(&self) -> (r: u64)
        ensures
            r == self@.bytes,
    {
        self.bytes
    }

    /// The image data as it arrived, or `None` when it fell past the
    /// capture bound (distinct from `Some` of nothing).
    pub fn data(&self) -> (r: Option<&[u8]>)
        ensures
            r matches Some(d) ==> self@.data == Some(d@),
            r is None ==> self@.data is None,
    {
        match &self.data {
            Some(d) => Some(d.as_slice()),
            None => None,
        }
    }

    /// Stamp where the payload was placed.
    pub fn place(&mut self, at: (u16, u16))
        ensures
            final(self)@ == (PayloadModel { at, ..old(self)@ }),
    {
        self.at = at;
    }
}

/// The cumulative graphics counters, kept as bytes arrive.
#[derive(Debug, Clone, Copy, Default, PartialEq, Eq)]
pub struct GraphicsCounts {
    pub kitty: u32,
    pub sixel: u32,
    pub deletes: u32,
    pub bytes: u64,
}

/// `a + b`, held at `u32::MAX`.
pub open spec fn sat_u32(n: int) -> u32 {
    if n > u32::MAX {
        u32::MAX
    } else {
        n as u32
    }
}

/// `a + b`, held at `u64::MAX`.
pub open spec fn sat_u64(n: int) -> u64 {
    if n > u64::MAX {
        u64::MAX
    } else {
        n as u64
    }
}

/// The counters after one completed payload: bytes for every action,
/// deletes apart, and an image only where the action carries one.
pub open spec fn counts_after(c: GraphicsCounts, p: PayloadModel) -> GraphicsCounts {
    GraphicsCounts {
        bytes: sat_u64(c.bytes + p.bytes),
        deletes: if p.action is Delete {
            sat_u32(c.deletes + 1)
        } else {
            c.deletes
        },
        kitty: if p.action.spec_carries_image() && p.protocol is Kitty {
            sat_u32(c.kitty + 1)
        } else {
            c.kitty
        },
        sixel: if p.action.spec_carries_image() && p.protocol is Sixel {
            sat_u32(c.sixel + 1)
        } else {
            c.sixel
        },
    }
}

impl GraphicsCounts {
    /// Count one completed payload.
    pub fn record(&mut self, payload: &GraphicsPayload)
        ensures
            *final(self) == counts_after(*old(self), payload@),
    {
        self.bytes = self.bytes.saturating_add(payload.bytes());
        if payload.action() == GraphicsAction::Delete {
            self.deletes = self.deletes.saturating_add(1);
        }
        if !payload.action().carries_image() {
            return;
        }
        match payload.protocol() {
            GraphicsProtocol::Kitty => self.kitty = self.kitty.saturating_add(1),
            GraphicsProtocol::Sixel => self.sixel = self.sixel.saturating_add(1),
        }
    }
}

/// Inline graphics payloads the application transmitted, as observed at one
/// snapshot: cumulative counters and the bounded tail of the payloads.
pub struct GraphicsSeen {
    counts: GraphicsCounts,
    payloads: Vec<GraphicsPayload>,
}

/// What a [`GraphicsSeen`] holds, as plain values.
pub struct SeenModel {
    pub counts: GraphicsCounts,
    pub payloads: Seq<PayloadModel>,
}

impl View for GraphicsSeen {
    type V = SeenModel;

    closed spec fn view(&self) -> SeenModel {
        SeenModel { counts: self.counts, payloads: self.payloads@.map_values(|p: GraphicsPayload| p@) }
    }
}

impl GraphicsSeen {
    /// Counters and payloads, as a snapshot takes them.
    pub fn new(counts: GraphicsCounts, payloads: Vec<GraphicsPayload>) -> (r: Self)
        ensures
            r@.counts == counts,
            r@.payloads == payloads@.map_values(|p: GraphicsPayload| p@),
    {
        GraphicsSeen { counts, payloads }
    }

    /// Counters without payloads.
    pub fn for_test(kitty: u32, sixel: u32, deletes: u32, bytes: u64) -> (r: Self)
        ensures
            r@.counts == (GraphicsCounts { kitty, sixel, deletes, bytes }),
            r@.payloads.len() == 0,
    {
        GraphicsSeen { counts: GraphicsCounts { kitty, sixel, deletes, bytes }, payloads: Vec::new() }
    }

    /// Kitty images transmitted: images, not escapes.
    pub fn kitty(&self) -> (r: u32)
        ensures
            r == self@.counts.kitty,
    {
        self.counts.kitty
    }

    /// Sixel images transmitted.
    pub fn sixel(&self) -> (r: u32)
        ensures
            r == self@.counts.sixel,
    {
        self.counts.sixel
    }

    /// Images of either protocol.
    pub fn total(&self) -> (r: u32)
        ensures
            r == sat_u32(self@.counts.kitty + self@.counts.sixel),
    {
        self.counts.kitty.saturating_add(self.counts.sixel)
    }

    /// Kitty delete commands: images taken off the screen.
    pub fn deletes(&self) -> (r: u32)
        ensures
            r == self@.counts.deletes,
    {
        self.counts.deletes
    }

    /// True when no inline image was transmitted at all; deletes do not
    /// count.
    pub fn is_empty(&self) -> (r: bool)
        ensures
            r == (self@.counts.kitty == 0 && self@.counts.sixel == 0),
    {
        self.total() == 0
    }

    /// Total payload bytes across both protocols and every action.
    pub fn bytes(&self) -> (r: u64)
        ensures
            r == self@.counts.bytes,
    {
        self.counts.bytes
    }

    /// The payloads themselves, oldest first.
    pub fn payloads(&self) -> (r: &[GraphicsPayload])
        ensures
            r@.map_values(|p: GraphicsPayload| p@) == self@.payloads,
    {
        self.payloads.as_slice()
    }

    /// The most recent payload, if any.
    pub fn last(&self) -> (r: Option<&GraphicsPayload>)
        ensures
            self@.payloads.len() == 0 ==> r is None,
            self@.payloads.len() > 0 ==> (r matches Some(p) && p@ == self@.payloads.last()),
    {
        if self.payloads.len() == 0 {
            None
        } else {
            Some(&self.payloads[self.payloads.len() - 1])
        }
    }
}


/// A payload under construction: kitty splits one image across escapes, so
/// a payload is not complete until an escape arrives without `m=1`.
pub struct GraphicsBuilder {
    protocol: Option<GraphicsProtocol>,
    action: GraphicsAction,
    format: GraphicsFormat,
    compressed: bool,
    id: Option<u32>,
    size: Option<(u32, u32)>,
    cells: Option<(u16, u16)>,
    chunks: u32,
    bytes: u64,
    data: Vec<u8>,
    dropped: bool,
}

/// What a [`GraphicsBuilder`] holds, as plain values.
pub struct BuilderModel {
    pub protocol: Option<GraphicsProtocol>,
    pub action: GraphicsAction,
    pub format: GraphicsFormat,
    pub compressed: bool,
    pub id: Option<u32>,
    pub size: Option<(u32, u32)>,
    pub cells: Option<(u16, u16)>,
    pub chunks: u32,
    pub bytes: u64,
    pub data: Seq<u8>,
    pub dropped: bool,
}

impl View for GraphicsBuilder {
    type V = BuilderModel;

    closed spec fn view(&self) -> BuilderModel {
        BuilderModel {
            protocol: self.protocol,
            action: self.action,
            format: self.format,
            compressed: self.compressed,
            id: self.id,
            size: self.size,
            cells: self.cells,
            chunks: self.chunks,
            bytes: self.bytes,
            data: self.data@,
            dropped: self.dropped,
        }
    }
}

/// The builder with nothing under way.
pub open spec fn builder_idle() -> BuilderModel {
    BuilderModel {
        protocol: None,
        action: GraphicsAction::Other,
        format: GraphicsFormat::Rgba,
        compressed: false,
        id: None,
        size: None,
        cells: None,
        chunks: 0,
        bytes: 0,
        data: Seq::empty(),
        dropped: false,
    }
}

/// The numeric value of `name` in a kitty control block, if it carries
/// one.
pub open spec fn number_spec(control: Seq<u8>, name: Seq<u8>) -> Option<u32> {
    match key_value(control, name) {
        Some(v) => parse_u32_spec(v),
        None => None,
    }
}

/// The action a kitty control block names; `a=T` when it names none.
pub open spec fn action_spec(control: Seq<u8>) -> GraphicsAction {
    match key_value(control, seq![0x61u8]) {
        None => GraphicsAction::TransmitAndPlace,
        Some(v) => if v == seq![0x74u8] {
            GraphicsAction::Transmit
        } else if v == seq![0x70u8] {
            GraphicsAction::Place
        } else if v == seq![0x54u8] {
            GraphicsAction::TransmitAndPlace
        } else if v == seq![0x64u8] {
            GraphicsAction::Delete
        } else {
            GraphicsAction::Other
        },
    }
}

/// The pixel format a kitty control block names; `f=32` when it names none.
pub open spec fn format_spec(control: Seq<u8>) -> GraphicsFormat {
    match number_spec(control, seq![0x66u8]) {
        None => GraphicsFormat::Rgba,
        Some(n) => if n == 24 {
            GraphicsFormat::Rgb
        } else if n == 32 {
            GraphicsFormat::Rgba
        } else if n == 100 {
            GraphicsFormat::Png
        } else {
            GraphicsFormat::Other(n)
        },
    }
}

/// `n` held at `u16::MAX`.
pub open spec fn clamp_u16(n: u32) -> u16 {
    if n > 0xffff {
        0xffff
    } else {
        n as u16
    }
}

/// The builder after a kitty control block: the first escape of a
/// transmission settles every fact, and continuations change none.
pub open spec fn builder_kitty(b: BuilderModel, control: Seq<u8>) -> BuilderModel {
    if b.protocol is Some {
        b
    } else {
        BuilderModel {
            protocol: Some(GraphicsProtocol::Kitty),
            action: action_spec(control),
            format: format_spec(control),
            compressed: key_value(control, seq![0x6fu8]) == Some(seq![0x7au8]),
            id: number_spec(control, seq![0x69u8]),
            size: match (number_spec(control, seq![0x73u8]), number_spec(control, seq![0x76u8])) {
                (Some(w), Some(h)) => Some((w, h)),
                _ => None,
            },
            cells: match (number_spec(control, seq![0x63u8]), number_spec(control, seq![0x72u8])) {
                (Some(c), Some(r)) => Some((clamp_u16(c), clamp_u16(r))),
                _ => None,
            },
            ..b
        }
    }
}

/// The builder after a sixel header.
pub open spec fn builder_sixel(b: BuilderModel) -> BuilderModel {
    BuilderModel {
        protocol: Some(GraphicsProtocol::Sixel),
        action: GraphicsAction::TransmitAndPlace,
        format: GraphicsFormat::Sixel,
        ..b
    }
}

/// The builder after one escape's worth of wire cost and data: the data is
/// kept only while every chunk so far was whole and the total fits `cap`;
/// past that, none of it is.
pub open spec fn builder_chunk(b: BuilderModel, bytes: u64, data: Seq<u8>, complete: bool, cap: usize) -> BuilderModel {
    let fits = (if b.data.len() + data.len() > usize::MAX {
        usize::MAX as int
    } else {
        (b.data.len() + data.len()) as int
    }) <= cap;
    if complete && fits && !b.dropped {
        BuilderModel {
            chunks: sat_u32(b.chunks + 1),
            bytes: sat_u64(b.bytes + bytes),
            data: b.data + data,
            ..b
        }
    } else {
        BuilderModel {
            chunks: sat_u32(b.chunks + 1),
            bytes: sat_u64(b.bytes + bytes),
            data: Seq::empty(),
            dropped: true,
            ..b
        }
    }
}

/// The payload a finished builder yields, if a transmission was under way.
pub open spec fn builder_payload(b: BuilderModel) -> Option<PayloadModel> {
    match b.protocol {
        None => None,
        Some(protocol) => Some(
            PayloadModel {
                protocol,
                action: b.action,
                format: b.format,
                compressed: b.compressed,
                id: b.id,
                size: if protocol is Sixel {
                    match raster_spec(b.data) {
                        Some(s) => Some(s),
                        None => b.size,
                    }
                } else {
                    b.size
                },
                cells: b.cells,
                chunks: b.chunks,
                bytes: b.bytes,
                at: (0, 0),
                data: if b.dropped {
                    None
                } else {
                    Some(b.data)
                },
            },
        ),
    }
}

/// Whether a byte is an ASCII digit.
pub open spec fn is_digit(b: u8) -> bool {
    0x30 <= b <= 0x39
}

/// How many leading bytes of `s` are digits or `;`.
pub open spec fn param_run(s: Seq<u8>) -> int
    decreases s.len(),
{
    if s.len() == 0 {
        0
    } else if is_digit(s[0]) || s[0] == 0x3b {
        1 + param_run(s.drop_first())
    } else {
        0
    }
}

proof fn lemma_param_run(s: Seq<u8>)
    ensures
        0 <= param_run(s) <= s.len(),
        forall|j: int| 0 <= j < param_run(s) ==> is_digit(#[trigger] s[j]) || s[j] == 0x3b,
        param_run(s) < s.len() ==> !(is_digit(s[param_run(s)]) || s[param_run(s)] == 0x3b),
    decreases s.len(),
{
    if s.len() > 0 && (is_digit(s[0]) || s[0] == 0x3b) {
        lemma_param_run(s.drop_first());
        assert forall|j: int| 0 <= j < param_run(s) implies is_digit(#[trigger] s[j]) || s[j] == 0x3b by {
            if j > 0 {
                assert(s[j] == s.drop_first()[j - 1]);
            }
        }
    }
}

proof fn lemma_param_run_unique(s: Seq<u8>, r: int)
    requires
        0 <= r <= s.len(),
        forall|j: int| 0 <= j < r ==> is_digit(#[trigger] s[j]) || s[j] == 0x3b,
        r < s.len() ==> !(is_digit(s[r]) || s[r] == 0x3b),
    ensures
        param_run(s) == r,
    decreases s.len(),
{
    if r > 0 {
        assert(is_digit(s[0]) || s[0] == 0x3b);
        assert forall|j: int| 0 <= j < r - 1 implies is_digit(#[trigger] s.drop_first()[j]) || s.drop_first()[j] == 0x3b by {
            assert(s.drop_first()[j] == s[j + 1]);
        }
        lemma_param_run_unique(s.drop_first(), r - 1);
    }
}

/// One byte of a `;`-separated decimal parameter list: a digit extends the
/// last parameter (held at `u32::MAX`), and `;` starts a new one.
pub open spec fn param_step(acc: Seq<u32>, b: u8) -> Seq<u32> {
    if is_digit(b) {
        acc.update(acc.len() - 1, sat_u32(acc.last() * 10 + (b - 0x30)))
    } else {
        acc.push(0)
    }
}

/// The parameters the digits and `;` of `t` spell, from a single `0`.
pub open spec fn params_fold(t: Seq<u8>) -> Seq<u32>
    decreases t.len(),
{
    if t.len() == 0 {
        seq![0u32]
    } else {
        param_step(params_fold(t.drop_last()), t.last())
    }
}

/// The parameter list at the head of `s`.
pub open spec fn params_of(s: Seq<u8>) -> Seq<u32> {
    params_fold(s.take(param_run(s)))
}

proof fn lemma_params_fold_len(t: Seq<u8>)
    ensures
        params_fold(t).len() >= 1,
    decreases t.len(),
{
    if t.len() > 0 {
        lemma_params_fold_len(t.drop_last());
    }
}

/// `x * 10 + d`, held at `u32::MAX`.
fn sat_decimal(x: u32, d: u8) -> (r: u32)
    requires
        d <= 9,
    ensures
        r == sat_u32(x * 10 + d),
{
    if x > 429496729 {
        u32::MAX
    } else {
        (x * 10).saturating_add(d as u32)
    }
}

/// Read the `;`-separated decimal parameters at `data[at..]`; the list and
/// where it stopped.
pub fn read_params(data: &[u8], at: usize) -> (r: (Vec<u32>, usize))
    requires
        at <= data@.len(),
    ensures
        r.0@ == params_of(data@.skip(at as int)),
        r.1 == at + param_run(data@.skip(at as int)),
        at <= r.1 <= data@.len(),
{
    let mut out: Vec<u32> = Vec::new();
    out.push(0);
    let mut i = at;
    let ghost s = data@.skip(at as int);
    proof {
        assert(s.take(0) =~= Seq::<u8>::empty());
    }
    while i < data.len()
        invariant
            at <= i <= data@.len(),
            s == data@.skip(at as int),
            forall|j: int| 0 <= j < i - at ==> is_digit(#[trigger] s[j]) || s[j] == 0x3b,
            out@ == params_fold(s.take(i - at)),
        ensures
            at <= i <= data@.len(),
            forall|j: int| 0 <= j < i - at ==> is_digit(#[trigger] s[j]) || s[j] == 0x3b,
            i < data@.len() ==> !(is_digit(s[i - at]) || s[i - at] == 0x3b),
            out@ == params_fold(s.take(i - at)),
        decreases data@.len() - i,
    {
        let b = data[i];
        assert(s[i - at] == b);
        if 0x30 <= b && b <= 0x39 {
            proof {
                lemma_params_fold_len(s.take(i - at));
                assert(s.take(i - at + 1).drop_last() =~= s.take(i - at));
            }
            let last = out.len() - 1;
            let v = sat_decimal(out[last], b - 0x30);
            out.set(last, v);
        } else if b == 0x3b {
            proof {
                assert(s.take(i - at + 1).drop_last() =~= s.take(i - at));
            }
            out.push(0);
        } else {
            break;
        }
        i = i + 1;
    }
    proof {
        lemma_param_run_unique(s, i - at);
    }
    (out, i)
}

/// The `"Pan;Pad;Ph;Pv` raster attributes at the head of a sixel stream:
/// the first `"`, with no painting byte before it, and a width and height
/// that are both non-zero.
pub open spec fn raster_spec(data: Seq<u8>) -> Option<(u32, u32)> {
    let at = find_byte(data, 0x22);
    if at >= data.len() {
        None
    } else if exists|j: int| 0 <= j < at && 0x3f <= #[trigger] data[j] <= 0x7e {
        None
    } else {
        let v = params_of(data.skip(at + 1));
        if v.len() >= 4 && v[2] > 0 && v[3] > 0 {
            Some((v[2], v[3]))
        } else {
            None
        }
    }
}

/// The declared size of a sixel stream, if it declares one.
pub fn raster_size(data: &[u8]) -> (r: Option<(u32, u32)>)
    ensures
        r == raster_spec(data@),
{
    let len = data.len();
    let at = position(data, 0, len, 0x22);
    proof {
        assert(data@.subrange(0, len as int) =~= data@);
        crate::bytes::lemma_find_byte(data@, 0x22);
    }
    if at == len {
        return None;
    }
    let mut j: usize = 0;
    while j < at
        invariant
            j <= at < data@.len(),
            at == find_byte(data@, 0x22),
            forall|k: int| 0 <= k < j ==> !(0x3f <= #[trigger] data@[k] <= 0x7e),
        decreases at - j,
    {
        if 0x3f <= data[j] && data[j] <= 0x7e {
            assert(0x3f <= data@[j as int] <= 0x7e);
            return None;
        }
        j = j + 1;
    }
    let (values, _end) = read_params(data, at + 1);
    if values.len() >= 4 && values[2] > 0 && values[3] > 0 {
        Some((values[2], values[3]))
    } else {
        None
    }
}

/// The range of `control` holding the value of `name`, compared with the
/// single byte `v`.
fn value_is(control: &[u8], range: Option<(usize, usize)>, v: u8) -> (r: bool)
    requires
        range matches Some((a, b)) ==> a <= b <= control@.len(),
    ensures
        r == (range matches Some((a, b)) && control@.subrange(a as int, b as int) == seq![v]),
{
    match range {
        Some((a, b)) => {
            if b > a && b - a == 1 && control[a] == v {
                assert(control@.subrange(a as int, b as int) =~= seq![v]);
                true
            } else {
                proof {
                    let sub = control@.subrange(a as int, b as int);
                    if sub == seq![v] {
                        assert(sub.len() == 1);
                        assert(sub[0] == control@[a as int]);
                    }
                }
                false
            }
        },
        None => false,
    }
}

/// The numeric value of `name` in a kitty control block, if it carries one.
pub fn number(control: &[u8], name: &[u8]) -> (r: Option<u32>)
    ensures
        r == number_spec(control@, name@),
{
    match key_range(control, name) {
        Some((a, b)) => parse_u32(control, a, b),
        None => None,
    }
}

impl GraphicsBuilder {
    /// A builder with nothing under way.
    pub fn new() -> (r: Self)
        ensures
            r@ == builder_idle(),
    {
        GraphicsBuilder {
            protocol: None,
            action: GraphicsAction::Other,
            format: GraphicsFormat::Rgba,
            compressed: false,
            id: None,
            size: None,
            cells: None,
            chunks: 0,
            bytes: 0,
            data: Vec::new(),
            dropped: false,
        }
    }

    /// True once an escape has opened a transmission.
    pub fn in_progress(&self) -> (r: bool)
        ensures
            r == self@.protocol is Some,
    {
        self.protocol.is_some()
    }

    /// Take on the facts of a kitty control block.
    pub fn kitty(&mut self, control: &[u8])
        ensures
            final(self)@ == builder_kitty(old(self)@, control@),
    {
        if self.protocol.is_none() {
            self.protocol = Some(GraphicsProtocol::Kitty);
            let a = key_range(control, &[0x61u8]);
            proof {
                assert((&[0x61u8])@ =~= seq![0x61u8]);
            }
            self.action = if a.is_none() {
                GraphicsAction::TransmitAndPlace
            } else if value_is(control, a, 0x74) {
                GraphicsAction::Transmit
            } else if value_is(control, a, 0x70) {
                GraphicsAction::Place
            } else if value_is(control, a, 0x54) {
                GraphicsAction::TransmitAndPlace
            } else if value_is(control, a, 0x64) {
                GraphicsAction::Delete
            } else {
                GraphicsAction::Other
            };
            let f = number(control, &[0x66u8]);
            proof {
                assert((&[0x66u8])@ =~= seq![0x66u8]);
            }
            self.format = match f {
                None => GraphicsFormat::Rgba,
                Some(n) => if n == 24 {
                    GraphicsFormat::Rgb
                } else if n == 32 {
                    GraphicsFormat::Rgba
                } else if n == 100 {
                    GraphicsFormat::Png
                } else {
                    GraphicsFormat::Other(n)
                },
            };
            let o = key_range(control, &[0x6fu8]);
            proof {
                assert((&[0x6fu8])@ =~= seq![0x6fu8]);
            }
            self.compressed = value_is(control, o, 0x7a);
            proof {
                if key_value(control@, seq![0x6fu8]) == Some(seq![0x7au8]) {
                    assert(o is Some);
                }
            }
            self.id = number(control, &[0x69u8]);
            proof {
                assert((&[0x69u8])@ =~= seq![0x69u8]);
            }
            let w = number(control, &[0x73u8]);
            let h = number(control, &[0x76u8]);
            proof {
                assert((&[0x73u8])@ =~= seq![0x73u8]);
                assert((&[0x76u8])@ =~= seq![0x76u8]);
            }
            self.size = match (w, h) {
                (Some(w), Some(h)) => Some((w, h)),
                _ => None,
            };
            let c = number(control, &[0x63u8]);
            let r = number(control, &[0x72u8]);
            proof {
                assert((&[0x63u8])@ =~= seq![0x63u8]);
                assert((&[0x72u8])@ =~= seq![0x72u8]);
            }
            self.cells = match (c, r) {
                (Some(c), Some(r)) => Some(
                    (
                        if c > 0xffff {
                            0xffffu16
                        } else {
                            c as u16
                        },
                        if r > 0xffff {
                            0xffffu16
                        } else {
                            r as u16
                        },
                    ),
                ),
                _ => None,
            };
        }
    }

    /// Take on the facts of a sixel header.
    pub fn sixel(&mut self)
        ensures
            final(self)@ == builder_sixel(old(self)@),
    {
        self.protocol = Some(GraphicsProtocol::Sixel);
        self.action = GraphicsAction::TransmitAndPlace;
        self.format = GraphicsFormat::Sixel;
    }

    /// Add one escape's worth of wire cost and image data. `complete` is
    /// false when the capture bound cut this chunk short, and `cap` bounds
    /// the payload as a whole.
    pub fn chunk(&mut self, bytes: u64, data: &[u8], complete: bool, cap: usize)
        ensures
            final(self)@ == builder_chunk(old(self)@, bytes, data@, complete, cap),
    {
        self.chunks = self.chunks.saturating_add(1);
        self.bytes = self.bytes.saturating_add(bytes);
        let fits = self.data.len().saturating_add(data.len()) <= cap;
        if complete && fits && !self.dropped {
            crate::text::push_bytes(&mut self.data, data);
        } else {
            self.dropped = true;
            self.data = Vec::new();
        }
    }

    /// Finish the payload and return to idle. The placement is stamped
    /// later, by whoever knows where the cursor stood.
    pub fn finish(&mut self) -> (r: Option<GraphicsPayload>)
        ensures
            final(self)@ == (if old(self)@.protocol is Some {
                builder_idle()
            } else {
                old(self)@
            }),
            r matches Some(p) ==> builder_payload(old(self)@) == Some(p@),
            r is None ==> builder_payload(old(self)@) is None,
    {
        let protocol = match self.protocol {
            Some(p) => p,
            None => return None,
        };
        let mut size = self.size;
        if protocol == GraphicsProtocol::Sixel {
            match raster_size(&self.data) {
                Some(s) => size = Some(s),
                None => {},
            }
        }
        let mut data: Vec<u8> = Vec::new();
        std::mem::swap(&mut data, &mut self.data);
        let payload = GraphicsPayload {
            protocol,
            action: self.action,
            format: self.format,
            compressed: self.compressed,
            id: self.id,
            size,
            cells: self.cells,
            chunks: self.chunks,
            bytes: self.bytes,
            at: (0, 0),
            data: if self.dropped {
                None
            } else {
                Some(data)
            },
        };
        *self = GraphicsBuilder::new();
        Some(payload)
    }
}


/// The pixels one payload depicted.
#[derive(Debug, PartialEq, Eq)]
pub struct Bitmap {
    width: u32,
    height: u32,
    pixels: Vec<[u8; 4]>,
}

/// What a [`Bitmap`] holds: its size and its pixels in row-major order.
pub struct BitmapModel {
    pub width: u32,
    pub height: u32,
    pub pixels: Seq<[u8; 4]>,
}

impl View for Bitmap {
    type V = BitmapModel;

    closed spec fn view(&self) -> BitmapModel {
        BitmapModel { width: self.width, height: self.height, pixels: self.pixels@ }
    }
}

/// Why a payload could not be decoded.
#[derive(Debug, Clone, PartialEq, Eq)]
pub enum DecodeError {
    /// The payload fell past the capture bound: counted, not kept.
    NotCaptured,
    /// The action carries no image at all.
    NoImage(GraphicsAction),
    /// A well-formed payload in an encoding that is not decoded here.
    Unsupported(&'static str),
    /// The payload contradicts itself or the protocol.
    Malformed(&'static str),
}

/// The pixel at `(x, y)` of a bitmap, or `None` out of bounds.
pub open spec fn pixel_spec(b: BitmapModel, x: u32, y: u32) -> Option<[u8; 4]> {
    if x >= b.width || y >= b.height || y * b.width + x >= b.pixels.len() {
        None
    } else {
        Some(b.pixels[y * b.width + x])
    }
}

impl Bitmap {
    /// Width in pixels.
    pub fn width(&self) -> (r: u32)
        ensures
            r == self@.width,
    {
        self.width
    }

    /// Height in pixels.
    pub fn height(&self) -> (r: u32)
        ensures
            r == self@.height,
    {
        self.height
    }

    /// The pixel at `(x, y)` as RGBA, or `None` when out of bounds.
    pub fn pixel(&self, x: u32, y: u32) -> (r: Option<[u8; 4]>)
        ensures
            r == pixel_spec(self@, x, y),
    {
        if x >= self.width || y >= self.height {
            return None;
        }
        proof {
            assert((y as u64) * (self.width as u64) + (x as u64) < 0x1_0000_0000 * 0x1_0000_0000) by (nonlinear_arith)
                requires y < self.height, x < self.width, self.width <= 0xffff_ffff, y <= 0xffff_ffff;
        }
        let index: u64 = (y as u64) * (self.width as u64) + (x as u64);
        if index >= self.pixels.len() as u64 {
            None
        } else {
            Some(self.pixels[index as usize])
        }
    }
}

/// `v` percent of full scale, rounded to the nearest step as a terminal
/// does; values past 100 count as 100.
pub open spec fn percent_spec(v: u32) -> u8 {
    (((if v > 100 { 100 } else { v }) * 255 + 50) / 100) as u8
}

fn percent(v: u32) -> (r: u8)
    ensures
        r == percent_spec(v),
{
    let c: u32 = if v > 100 { 100 } else { v };
    ((c * 255 + 50) / 100) as u8
}

/// Pixels from raw colour bytes: `channels` bytes a pixel, the fourth one
/// alpha when `has_alpha`, opaque otherwise.
pub open spec fn raw_pixels(raw: Seq<u8>, channels: nat, has_alpha: bool, n: nat) -> Seq<[u8; 4]> {
    Seq::new(
        n,
        |i: int|
            [
                raw[i * channels],
                raw[i * channels + 1],
                raw[i * channels + 2],
                if has_alpha {
                    raw[i * channels + 3]
                } else {
                    0xffu8
                },
            ],
    )
}

/// What `width x height` pixels of `channels` bytes each make of `raw`.
pub open spec fn bitmap_from_raw_spec(width: u32, height: u32, has_alpha: bool, raw: Seq<u8>) -> Result<BitmapModel, DecodeError> {
    let channels: nat = if has_alpha { 4 } else { 3 };
    let wanted = width * height * channels;
    if wanted > usize::MAX {
        Err(DecodeError::Malformed("a declared size that overflows"))
    } else if raw.len() < wanted {
        Err(DecodeError::Malformed("fewer bytes than the declared size needs"))
    } else {
        Ok(BitmapModel { width, height, pixels: raw_pixels(raw, channels, has_alpha, (width * height) as nat) })
    }
}

/// Whether a decode result is the model `m`.
pub open spec fn decoded_as(r: Result<Bitmap, DecodeError>, m: Result<BitmapModel, DecodeError>) -> bool {
    match r {
        Ok(b) => m == Ok::<BitmapModel, DecodeError>(b@),
        Err(e) => m == Err::<BitmapModel, DecodeError>(e),
    }
}

/// The bitmap `width x height` pixels of RGB (or RGBA, with `has_alpha`)
/// bytes make; an error when the size overflows or the bytes run short.
pub fn bitmap_from_raw(width: u32, height: u32, has_alpha: bool, raw: &[u8]) -> (r: Result<Bitmap, DecodeError>)
    ensures
        decoded_as(r, bitmap_from_raw_spec(width, height, has_alpha, raw@)),
{
    let channels: usize = if has_alpha { 4 } else { 3 };
    let ghost chans: nat = channels as nat;
    let w = width as usize;
    let h = height as usize;
    let pixels_n = match w.checked_mul(h) {
        Some(n) => n,
        None => {
            proof {
                assert(width * height * chans >= width * height) by (nonlinear_arith)
                    requires chans >= 3;
            }
            return Err(DecodeError::Malformed("a declared size that overflows"));
        },
    };
    let wanted = match pixels_n.checked_mul(channels) {
        Some(n) => n,
        None => return Err(DecodeError::Malformed("a declared size that overflows")),
    };
    assert(wanted == width * height * chans);
    if raw.len() < wanted {
        return Err(DecodeError::Malformed("fewer bytes than the declared size needs"));
    }
    let mut pixels: Vec<[u8; 4]> = Vec::new();
    let mut i: usize = 0;
    while i < pixels_n
        invariant
            i <= pixels_n,
            pixels_n * channels == wanted,
            wanted <= raw@.len(),
            channels == chans,
            chans == 3 || chans == 4,
            has_alpha <==> chans == 4,
            pixels@ == raw_pixels(raw@, chans, has_alpha, i as nat),
        decreases pixels_n - i,
    {
        proof {
            assert(i * chans + chans <= pixels_n * chans) by (nonlinear_arith)
                requires i < pixels_n, chans >= 3;
        }
        let base = i * channels;
        let a = if has_alpha { raw[base + 3] } else { 0xff };
        pixels.push([raw[base], raw[base + 1], raw[base + 2], a]);
        i = i + 1;
        proof {
            assert(pixels@ =~= raw_pixels(raw@, chans, has_alpha, i as nat));
        }
    }
    Ok(Bitmap { width, height, pixels })
}

/// What inflating zlib data yields: the bytes it encodes, or `None` when it
/// does not inflate.
pub uninterp spec fn zlib_inflate(data: Seq<u8>) -> Option<Seq<u8>>;

/// `miniz_oxide::inflate::decompress_to_vec_zlib`: the bytes zlib data
/// inflates to, or `None` when it is not valid zlib. Its result is a
/// function of its input, named by [`zlib_inflate`].
#[verifier::external_body]
fn inflate(data: &[u8]) -> (r: Option<Vec<u8>>)
    ensures
        r matches Some(v) ==> zlib_inflate(data@) == Some(v@),
        r is None ==> zlib_inflate(data@) is None,
{
    miniz_oxide::inflate::decompress_to_vec_zlib(data).ok()
}

/// What a kitty payload decodes to, given its captured data.
pub open spec fn kitty_decode_spec(p: PayloadModel, data: Seq<u8>) -> Result<BitmapModel, DecodeError> {
    if p.format is Png {
        Err(DecodeError::Unsupported("kitty f=100 (PNG)"))
    } else if p.format is Sixel {
        Err(DecodeError::Unsupported("a sixel stream sent as kitty data"))
    } else if p.format is Other {
        Err(DecodeError::Unsupported("an unknown kitty f= format"))
    } else if !p.action.spec_carries_image() {
        Err(DecodeError::NoImage(p.action))
    } else if p.size is None {
        Err(DecodeError::Malformed("a kitty transmission without s= and v="))
    } else {
        match crate::base64::base64_decode(data) {
            None => Err(DecodeError::Malformed("bad base64")),
            Some(b64) => {
                let raw = if p.compressed {
                    zlib_inflate(b64)
                } else {
                    Some(b64)
                };
                match raw {
                    None => Err(DecodeError::Malformed("zlib data that would not inflate")),
                    Some(raw) => match p.size {
                        Some((w, h)) => bitmap_from_raw_spec(w, h, p.format is Rgba, raw),
                        None => Err(DecodeError::Malformed("a kitty transmission without s= and v=")),
                    },
                }
            },
        }
    }
}

impl GraphicsPayload {
    /// Decode the payload into pixels: kitty `f=24`/`f=32`, compressed or
    /// not, and the sixel data stream. Everything else is an error naming
    /// the reason.
    pub fn decode(&self) -> (r: Result<Bitmap, DecodeError>)
        ensures
            self@.data is None ==> r == Err::<Bitmap, DecodeError>(DecodeError::NotCaptured),
            self@.data matches Some(d) ==> decoded_as(
                r,
                if self@.protocol is Kitty {
                    kitty_decode_spec(self@, d)
                } else {
                    sixel_decode_spec(d)
                },
            ),
    {
        match &self.data {
            None => Err(DecodeError::NotCaptured),
            Some(d) => match self.protocol {
                GraphicsProtocol::Kitty => self.decode_kitty(d.as_slice()),
                GraphicsProtocol::Sixel => decode_sixel(d.as_slice()),
            },
        }
    }

    fn decode_kitty(&self, data: &[u8]) -> (r: Result<Bitmap, DecodeError>)
        ensures
            decoded_as(r, kitty_decode_spec(self@, data@)),
    {
        let has_alpha = match self.format {
            GraphicsFormat::Rgb => false,
            GraphicsFormat::Rgba => true,
            GraphicsFormat::Png => return Err(DecodeError::Unsupported("kitty f=100 (PNG)")),
            GraphicsFormat::Sixel => return Err(DecodeError::Unsupported("a sixel stream sent as kitty data")),
            GraphicsFormat::Other(_) => return Err(DecodeError::Unsupported("an unknown kitty f= format")),
        };
        if !self.action.carries_image() {
            return Err(DecodeError::NoImage(self.action));
        }
        let (width, height) = match self.size {
            Some(s) => s,
            None => return Err(DecodeError::Malformed("a kitty transmission without s= and v=")),
        };
        let b64 = match crate::base64::decode_base64(data) {
            Some(v) => v,
            None => return Err(DecodeError::Malformed("bad base64")),
        };
        if self.compressed {
            match inflate(b64.as_slice()) {
                Some(raw) => bitmap_from_raw(width, height, has_alpha, raw.as_slice()),
                None => Err(DecodeError::Malformed("zlib data that would not inflate")),
            }
        } else {
            bitmap_from_raw(width, height, has_alpha, b64.as_slice())
        }
    }
}


/// A sixel colour, or `None` where nothing was defined or painted.
pub type Paint = Option<[u8; 4]>;

/// Where a sixel decode stands: the read position, the declared size, the
/// colour registers and the one selected, the painted rows, and the
/// current band and column.
pub struct SixelState {
    pub at: int,
    pub declared: Option<(u32, u32)>,
    pub registers: Seq<Paint>,
    pub current: int,
    pub rows: Seq<Seq<Paint>>,
    pub band_top: int,
    pub x: int,
    pub width_seen: int,
}

/// `n` held at `usize::MAX`.
pub open spec fn sat_usize(n: int) -> int {
    if n > usize::MAX {
        usize::MAX as int
    } else {
        n
    }
}

/// The rows with pixel `(x, y)` painted `c`, growing the rows and the row
/// as far as needed.
pub open spec fn set_cell_spec(rows: Seq<Seq<Paint>>, y: int, x: int, c: [u8; 4]) -> Seq<Seq<Paint>> {
    let grown = if rows.len() <= y {
        rows + Seq::new((y + 1 - rows.len()) as nat, |i: int| Seq::<Paint>::empty())
    } else {
        rows
    };
    let row = grown[y];
    let row2 = if row.len() <= x {
        row + Seq::new((x + 1 - row.len()) as nat, |i: int| None::<[u8; 4]>)
    } else {
        row
    };
    grown.update(y, row2.update(x, Some(c)))
}

/// Paint, from bit `k` on, the pixels of column `x` in the band at
/// `band_top` whose bits are set in `bits`.
pub open spec fn paint_bits(rows: Seq<Seq<Paint>>, band_top: int, x: int, bits: u8, c: [u8; 4], k: nat) -> Seq<Seq<Paint>>
    decreases 6 - k,
{
    if k >= 6 {
        rows
    } else {
        let r2 = if (bits >> (k as u8)) & 1u8 == 1u8 {
            set_cell_spec(rows, sat_usize(band_top + k), x, c)
        } else {
            rows
        };
        paint_bits(r2, band_top, x, bits, c, k + 1)
    }
}

/// Paint `count` columns of `bits` in `colour` (or, with no colour, only
/// move across them).
pub open spec fn paint_n(st: SixelState, bits: u8, count: nat, colour: Paint) -> SixelState
    decreases count,
{
    if count == 0 {
        st
    } else {
        let rows2 = match colour {
            Some(c) => paint_bits(st.rows, st.band_top, st.x, bits, c, 0),
            None => st.rows,
        };
        let x2 = sat_usize(st.x + 1);
        paint_n(
            SixelState {
                rows: rows2,
                x: x2,
                width_seen: if st.width_seen > x2 {
                    st.width_seen
                } else {
                    x2
                },
                ..st
            },
            bits,
            (count - 1) as nat,
            colour,
        )
    }
}

/// The colour the selected register holds.
pub open spec fn colour_of(st: SixelState) -> Paint {
    if 0 <= st.current < st.registers.len() {
        st.registers[st.current]
    } else {
        None
    }
}

/// One record of a sixel stream at `st.at`: raster attributes, a colour
/// definition or selection, a repeated or single sixel, a carriage return
/// or a new band; anything else is skipped.
pub open spec fn sixel_step(data: Seq<u8>, st: SixelState) -> Result<SixelState, DecodeError> {
    let b = data[st.at];
    let rest = data.skip(st.at + 1);
    let v = params_of(rest);
    let end = st.at + 1 + param_run(rest);
    if b == 0x22 {
        Ok(
            SixelState {
                at: end,
                declared: if v.len() >= 4 {
                    Some((v[2], v[3]))
                } else {
                    st.declared
                },
                ..st
            },
        )
    } else if b == 0x23 {
        let index = v[0] as int;
        let regs = if index >= st.registers.len() {
            st.registers + Seq::new((index + 1 - st.registers.len()) as nat, |i: int| None::<[u8; 4]>)
        } else {
            st.registers
        };
        if v.len() >= 5 && v[1] != 2 {
            Err(DecodeError::Unsupported("sixel HLS colours"))
        } else {
            Ok(
                SixelState {
                    at: end,
                    registers: if v.len() >= 5 {
                        regs.update(index, Some([percent_spec(v[2]), percent_spec(v[3]), percent_spec(v[4]), 0xffu8]))
                    } else {
                        regs
                    },
                    current: index,
                    ..st
                },
            )
        }
    } else if b == 0x21 {
        if end < data.len() && 0x3f <= data[end] <= 0x7e {
            Ok(paint_n(SixelState { at: end + 1, ..st }, (data[end] - 0x3f) as u8, v[0] as nat, colour_of(st)))
        } else {
            Ok(SixelState { at: end, ..st })
        }
    } else if 0x3f <= b <= 0x7e {
        Ok(paint_n(SixelState { at: st.at + 1, ..st }, (b - 0x3f) as u8, 1, colour_of(st)))
    } else if b == 0x24 {
        Ok(SixelState { at: st.at + 1, x: 0, ..st })
    } else if b == 0x2d {
        Ok(SixelState { at: st.at + 1, band_top: sat_usize(st.band_top + 6), x: 0, ..st })
    } else {
        Ok(SixelState { at: st.at + 1, ..st })
    }
}

/// The stream run from `st` to its end.
pub open spec fn sixel_run(data: Seq<u8>, st: SixelState) -> Result<SixelState, DecodeError>
    decreases data.len() - st.at,
{
    if st.at < 0 || st.at >= data.len() {
        Ok(st)
    } else {
        match sixel_step(data, st) {
            Err(e) => Err(e),
            Ok(st2) => if st.at < st2.at <= data.len() {
                sixel_run(data, st2)
            } else {
                Ok(st2)
            },
        }
    }
}

/// The pixel at `(x, y)` of painted rows; transparent where nothing was
/// painted.
pub open spec fn cell_at(rows: Seq<Seq<Paint>>, y: int, x: int) -> [u8; 4] {
    if 0 <= y < rows.len() && 0 <= x < rows[y].len() && rows[y][x] is Some {
        rows[y][x]->0
    } else {
        [0u8, 0u8, 0u8, 0u8]
    }
}

/// The size a decoded sixel has: the declared one when both sides are
/// non-zero, else what the data painted.
pub open spec fn sixel_size(st: SixelState) -> (u32, u32) {
    match st.declared {
        Some((w, h)) => if w > 0 && h > 0 {
            (w, h)
        } else {
            (st.width_seen as u32, st.rows.len() as u32)
        },
        None => (st.width_seen as u32, st.rows.len() as u32),
    }
}

/// The bitmap a finished sixel run depicts.
pub open spec fn sixel_bitmap(st: SixelState) -> BitmapModel {
    let (w, h) = sixel_size(st);
    BitmapModel { width: w, height: h, pixels: Seq::new((w * h) as nat, |i: int| cell_at(st.rows, i / w as int, i % w as int)) }
}

/// The state a sixel decode starts in: 256 empty registers, register 0
/// selected, nothing painted.
pub open spec fn sixel_start() -> SixelState {
    SixelState {
        at: 0,
        declared: None,
        registers: Seq::new(256, |i: int| None::<[u8; 4]>),
        current: 0,
        rows: Seq::empty(),
        band_top: 0,
        x: 0,
        width_seen: 0,
    }
}

/// What a sixel data stream decodes to.
pub open spec fn sixel_decode_spec(data: Seq<u8>) -> Result<BitmapModel, DecodeError> {
    match sixel_run(data, sixel_start()) {
        Err(e) => Err(e),
        Ok(st) => Ok(sixel_bitmap(st)),
    }
}

struct SixelDecoder {
    at: usize,
    declared: Option<(u32, u32)>,
    registers: Vec<Paint>,
    current: usize,
    rows: Vec<Vec<Paint>>,
    band_top: usize,
    x: usize,
    width_seen: usize,
}

impl SixelDecoder {
    spec fn state(&self) -> SixelState {
        SixelState {
            at: self.at as int,
            declared: self.declared,
            registers: self.registers@,
            current: self.current as int,
            rows: self.rows@.map_values(|r: Vec<Paint>| r@),
            band_top: self.band_top as int,
            x: self.x as int,
            width_seen: self.width_seen as int,
        }
    }

    fn set_cell(&mut self, y: usize, c: [u8; 4])
        ensures
            final(self).state() == (SixelState {
                rows: set_cell_spec(old(self).state().rows, y as int, old(self).x as int, c),
                ..old(self).state()
            }),
    {
        let ghost before = self.rows@.map_values(|r: Vec<Paint>| r@);
        let ghost grown = if before.len() <= y {
            before + Seq::new((y + 1 - before.len()) as nat, |i: int| Seq::<Paint>::empty())
        } else {
            before
        };
        while self.rows.len() <= y
            invariant
                before.len() <= self.rows@.len(),
                self.rows@.len() <= if before.len() <= y { y + 1 } else { before.len() as int },
                before == old(self).rows@.map_values(|r: Vec<Paint>| r@),
                forall|i: int| 0 <= i < before.len() ==> #[trigger] self.rows@[i]@ == before[i],
                forall|i: int| before.len() <= i < self.rows@.len() ==> #[trigger] self.rows@[i]@ == Seq::<Paint>::empty(),
                self.at == old(self).at,
                self.declared == old(self).declared,
                self.registers == old(self).registers,
                self.current == old(self).current,
                self.band_top == old(self).band_top,
                self.x == old(self).x,
                self.width_seen == old(self).width_seen,
            decreases y + 1 - self.rows@.len(),
        {
            self.rows.push(Vec::new());
        }
        assert(self.rows@.map_values(|r: Vec<Paint>| r@) =~= grown);
        let x = self.x;
        let row = &mut self.rows[y];
        let ghost row0 = row@;
        while row.len() <= x
            invariant
                row@.len() <= if row0.len() <= x { x + 1 } else { row0.len() as int },
                row0.len() <= row@.len(),
                forall|i: int| 0 <= i < row0.len() ==> row@[i] == row0[i],
                forall|i: int| row0.len() <= i < row@.len() ==> row@[i] is None,
            decreases x + 1 - row@.len(),
        {
            row.push(None);
        }
        row.set(x, Some(c));
        proof {
            let row2 = if row0.len() <= x {
                row0 + Seq::new((x + 1 - row0.len()) as nat, |i: int| None::<[u8; 4]>)
            } else {
                row0
            };
            assert(row@ =~= row2.update(x as int, Some(c)));
        }
        assert(self.rows@.map_values(|r: Vec<Paint>| r@) =~= set_cell_spec(before, y as int, x as int, c));
    }

    fn paint_column(&mut self, bits: u8, c: [u8; 4])
        ensures
            final(self).state() == (SixelState {
                rows: paint_bits(old(self).state().rows, old(self).band_top as int, old(self).x as int, bits, c, 0),
                ..old(self).state()
            }),
    {
        let ghost target = paint_bits(self.state().rows, self.band_top as int, self.x as int, bits, c, 0);
        assert(self.state() == (SixelState { rows: self.state().rows, ..old(self).state() }));
        let mut k: u8 = 0;
        while k < 6
            invariant
                k <= 6,
                target == paint_bits(self.state().rows, old(self).band_top as int, old(self).x as int, bits, c, k as nat),
                self.state() == (SixelState { rows: self.state().rows, ..old(self).state() }),
            decreases 6 - k,
        {
            if (bits >> k) & 1u8 == 1u8 {
                let y = self.band_top.saturating_add(k as usize);
                self.set_cell(y, c);
            }
            k = k + 1;
        }
    }

    fn paint(&mut self, bits: u8, count: usize, colour: Paint)
        ensures
            final(self).state() == paint_n(old(self).state(), bits, count as nat, colour),
    {
        let mut i: usize = 0;
        while i < count
            invariant
                i <= count,
                paint_n(old(self).state(), bits, count as nat, colour) == paint_n(
                    self.state(),
                    bits,
                    (count - i) as nat,
                    colour,
                ),
            decreases count - i,
        {
            match colour {
                Some(c) => self.paint_column(bits, c),
                None => {},
            }
            self.x = self.x.saturating_add(1);
            if self.x > self.width_seen {
                self.width_seen = self.x;
            }
            i = i + 1;
        }
    }

    fn colour(&self) -> (r: Paint)
        ensures
            r == colour_of(self.state()),
    {
        if self.current < self.registers.len() {
            self.registers[self.current]
        } else {
            None
        }
    }

    fn step(&mut self, data: &[u8]) -> (r: Result<(), DecodeError>)
        requires
            old(self).at < data@.len(),
        ensures
            match sixel_step(data@, old(self).state()) {
                Ok(st) => r is Ok && final(self).state() == st && old(self).at < final(self).at <= data@.len(),
                Err(e) => r == Err::<(), DecodeError>(e),
            },
    {
        let b = data[self.at];
        let at = self.at;
        if b == 0x22 || b == 0x23 || b == 0x21 {
            let (values, end) = read_params(data, at + 1);
            proof {
                lemma_params_fold_len(data@.skip(at + 1).take(param_run(data@.skip(at + 1))));
            }
            if b == 0x22 {
                if values.len() >= 4 {
                    self.declared = Some((values[2], values[3]));
                }
                self.at = end;
            } else if b == 0x23 {
                let index = values[0] as usize;
                let ghost regs0 = self.registers@;
                while self.registers.len() <= index
                    invariant
                        regs0.len() <= self.registers@.len(),
                        self.registers@.len() <= (if index >= regs0.len() { index + 1 } else { regs0.len() as int }),
                        forall|i: int| 0 <= i < regs0.len() ==> self.registers@[i] == regs0[i],
                        forall|i: int| regs0.len() <= i < self.registers@.len() ==> self.registers@[i] is None,
                        self.at == at,
                        self.declared == old(self).declared,
                        self.current == old(self).current,
                        self.rows == old(self).rows,
                        self.band_top == old(self).band_top,
                        self.x == old(self).x,
                        self.width_seen == old(self).width_seen,
                    decreases index + 1 - self.registers@.len(),
                {
                    self.registers.push(None);
                }
                proof {
                    let grown = if index >= regs0.len() {
                        regs0 + Seq::new((index + 1 - regs0.len()) as nat, |i: int| None::<[u8; 4]>)
                    } else {
                        regs0
                    };
                    assert(self.registers@ =~= grown);
                }
                if values.len() >= 5 {
                    if values[1] != 2 {
                        return Err(DecodeError::Unsupported("sixel HLS colours"));
                    }
                    let colour = [percent(values[2]), percent(values[3]), percent(values[4]), 0xffu8];
                    self.registers.set(index, Some(colour));
                }
                self.current = index;
                self.at = end;
            } else {
                let count = values[0] as usize;
                if end < data.len() && 0x3f <= data[end] && data[end] <= 0x7e {
                    let colour = self.colour();
                    let bits = data[end] - 0x3f;
                    self.at = end + 1;
                    proof {
                        lemma_paint_n_keeps_at(self.state(), bits, count as nat, colour);
                    }
                    self.paint(bits, count, colour);
                } else {
                    self.at = end;
                }
            }
        } else if 0x3f <= b && b <= 0x7e {
            let colour = self.colour();
            self.at = at + 1;
            proof {
                lemma_paint_n_keeps_at(self.state(), (b - 0x3f) as u8, 1, colour);
            }
            self.paint(b - 0x3f, 1, colour);
        } else if b == 0x24 {
            self.at = at + 1;
            self.x = 0;
        } else if b == 0x2d {
            self.at = at + 1;
            self.band_top = self.band_top.saturating_add(6);
            self.x = 0;
        } else {
            self.at = at + 1;
        }
        Ok(())
    }
}

proof fn lemma_paint_n_keeps_at(st: SixelState, bits: u8, count: nat, colour: Paint)
    ensures
        paint_n(st, bits, count, colour).at == st.at,
    decreases count,
{
    if count > 0 {
        let rows2 = match colour {
            Some(c) => paint_bits(st.rows, st.band_top, st.x, bits, c, 0),
            None => st.rows,
        };
        let x2 = sat_usize(st.x + 1);
        lemma_paint_n_keeps_at(
            SixelState {
                rows: rows2,
                x: x2,
                width_seen: if st.width_seen > x2 {
                    st.width_seen
                } else {
                    x2
                },
                ..st
            },
            bits,
            (count - 1) as nat,
            colour,
        );
    }
}

/// Decode a sixel data stream (everything after the `q` that closes the
/// DCS header) into pixels.
pub fn decode_sixel(data: &[u8]) -> (r: Result<Bitmap, DecodeError>)
    ensures
        decoded_as(r, sixel_decode_spec(data@)),
{
    let mut registers: Vec<Paint> = Vec::new();
    while registers.len() < 256
        invariant
            registers@.len() <= 256,
            forall|i: int| 0 <= i < registers@.len() ==> registers@[i] is None,
        decreases 256 - registers@.len(),
    {
        registers.push(None);
    }
    let mut d = SixelDecoder {
        at: 0,
        declared: None,
        registers,
        current: 0,
        rows: Vec::new(),
        band_top: 0,
        x: 0,
        width_seen: 0,
    };
    proof {
        assert(d.state().registers =~= sixel_start().registers);
        assert(d.state().rows =~= sixel_start().rows);
    }
    while d.at < data.len()
        invariant
            d.at <= data@.len(),
            sixel_run(data@, sixel_start()) == sixel_run(data@, d.state()),
        decreases data@.len() - d.at,
    {
        let ghost before = d.state();
        match d.step(data) {
            Ok(()) => {},
            Err(e) => {
                return Err(e);
            },
        }
    }
    let (w, h) = match d.declared {
        Some((w, h)) => if w > 0 && h > 0 {
            (w, h)
        } else {
            (#[verifier::truncate] (d.width_seen as u32), #[verifier::truncate] (d.rows.len() as u32))
        },
        None => (#[verifier::truncate] (d.width_seen as u32), #[verifier::truncate] (d.rows.len() as u32)),
    };
    let ghost st = d.state();
    assert(sixel_size(st) == (w, h));
    let mut pixels: Vec<[u8; 4]> = Vec::new();
    let mut y: u32 = 0;
    while y < h
        invariant
            y <= h,
            st == d.state(),
            pixels@.len() == y * w,
            forall|i: int| 0 <= i < y * w ==> #[trigger] pixels@[i] == cell_at(st.rows, i / w as int, i % w as int),
        decreases h - y,
    {
        let mut x: u32 = 0;
        while x < w
            invariant
                x <= w,
                y < h,
                st == d.state(),
                pixels@.len() == y * w + x,
                forall|i: int| 0 <= i < y * w + x ==> #[trigger] pixels@[i] == cell_at(st.rows, i / w as int, i % w as int),
            decreases w - x,
        {
            let yi = y as usize;
            let xi = x as usize;
            let cell = if yi < d.rows.len() && xi < d.rows[yi].len() {
                match d.rows[yi][xi] {
                    Some(c) => c,
                    None => [0u8, 0u8, 0u8, 0u8],
                }
            } else {
                [0u8, 0u8, 0u8, 0u8]
            };
            proof {
                let i = y * w + x;
                assert(i / w as int == y && i % w as int == x) by (nonlinear_arith)
                    requires i == y * w + x, x < w, 0 <= y;
                if yi < d.rows@.len() {
                    assert(st.rows[yi as int] == d.rows@[yi as int]@);
                }
            }
            pixels.push(cell);
            x = x + 1;
        }
        y = y + 1;
        proof {
            assert((y - 1) * w + w == y * w) by (nonlinear_arith);
        }
    }
    proof {
        let bm = sixel_bitmap(st);
        assert(h * w == w * h) by (nonlinear_arith);
        assert(bm.pixels =~= pixels@);
    }
    Ok(Bitmap { width: w, height: h, pixels })
}


impl Default for GraphicsBuilder {
    fn default() -> (r: Self)
        ensures
            r@ == builder_idle(),
    {
        GraphicsBuilder::new()
    }
}

/// A protocol's name.
pub open spec fn protocol_text(p: GraphicsProtocol) -> Seq<char> {
    match p {
        GraphicsProtocol::Kitty => "kitty"@,
        GraphicsProtocol::Sixel => "sixel"@,
    }
}

/// An action's name.
pub open spec fn action_text(a: GraphicsAction) -> Seq<char> {
    match a {
        GraphicsAction::Transmit => "Transmit"@,
        GraphicsAction::Place => "Place"@,
        GraphicsAction::TransmitAndPlace => "TransmitAndPlace"@,
        GraphicsAction::Delete => "Delete"@,
        GraphicsAction::Other => "Other"@,
    }
}

/// A format's name: `rgb`, `rgba`, `png`, `sixel`, or `f=N`.
pub open spec fn format_text(f: GraphicsFormat) -> Seq<char> {
    match f {
        GraphicsFormat::Rgb => "rgb"@,
        GraphicsFormat::Rgba => "rgba"@,
        GraphicsFormat::Png => "png"@,
        GraphicsFormat::Sixel => "sixel"@,
        GraphicsFormat::Other(n) => "f="@ + decimal_text(n as nat),
    }
}

/// The opening of a payload's one-line rendering: protocol, action,
/// declared size and cells.
pub open spec fn summary_head(p: PayloadModel) -> Seq<char> {
    protocol_text(p.protocol) + " "@ + action_text(p.action) + " "@ + match p.size {
        Some((w, h)) => decimal_text(w as nat) + "x"@ + decimal_text(h as nat) + "px"@,
        None => "?px"@,
    } + match p.cells {
        Some((c, r)) => " "@ + decimal_text(c as nat) + "x"@ + decimal_text(r as nat) + "cells"@,
        None => Seq::empty(),
    }
}

/// The middle of a payload's one-line rendering: placement and id.
pub open spec fn summary_mid(p: PayloadModel) -> Seq<char> {
    " at ("@ + decimal_text(p.at.0 as nat) + ", "@ + decimal_text(p.at.1 as nat) + ")"@ + match p.id {
        Some(i) => " i="@ + decimal_text(i as nat),
        None => Seq::empty(),
    }
}

/// The end of a payload's one-line rendering: format, wire cost,
/// compression, chunking, and whether the data was kept.
pub open spec fn summary_tail(p: PayloadModel) -> Seq<char> {
    " "@ + format_text(p.format) + " "@ + decimal_text(p.bytes as nat) + " bytes"@ + if p.compressed {
        " zlib"@
    } else {
        Seq::empty()
    } + if p.chunks > 1 {
        " in "@ + decimal_text(p.chunks as nat) + " chunks"@
    } else {
        Seq::empty()
    } + if p.data is None {
        " (not captured)"@
    } else {
        Seq::empty()
    }
}

/// The one-line rendering of a payload: its facts, never its data.
pub open spec fn summary_text(p: PayloadModel) -> Seq<char> {
    summary_head(p) + summary_mid(p) + summary_tail(p)
}

impl GraphicsPayload {
    #[verifier::rlimit(60)]
    fn push_head(&self, s: &mut String)
        ensures
            final(s)@ == old(s)@ + summary_head(self@),
    {
        push_str(s, match self.protocol {
            GraphicsProtocol::Kitty => "kitty",
            GraphicsProtocol::Sixel => "sixel",
        });
        push_str(s, " ");
        push_str(s, match self.action {
            GraphicsAction::Transmit => "Transmit",
            GraphicsAction::Place => "Place",
            GraphicsAction::TransmitAndPlace => "TransmitAndPlace",
            GraphicsAction::Delete => "Delete",
            GraphicsAction::Other => "Other",
        });
        push_str(s, " ");
        let ghost mid = s@;
        match self.size {
            Some((w, h)) => {
                push_decimal_text(s, w as u64);
                push_str(s, "x");
                push_decimal_text(s, h as u64);
                push_str(s, "px");
            },
            None => push_str(s, "?px"),
        }
        let ghost mid2 = s@;
        match self.cells {
            Some((c, r)) => {
                push_str(s, " ");
                push_decimal_text(s, c as u64);
                push_str(s, "x");
                push_decimal_text(s, r as u64);
                push_str(s, "cells");
            },
            None => {},
        }
        proof {
            assert(s@ =~= old(s)@ + summary_head(self@));
        }
    }

    fn push_mid(&self, s: &mut String)
        ensures
            final(s)@ == old(s)@ + summary_mid(self@),
    {
        push_str(s, " at (");
        push_decimal_text(s, self.at.0 as u64);
        push_str(s, ", ");
        push_decimal_text(s, self.at.1 as u64);
        push_str(s, ")");
        match self.id {
            Some(i) => {
                push_str(s, " i=");
                push_decimal_text(s, i as u64);
            },
            None => {},
        }
        proof {
            assert(s@ =~= old(s)@ + summary_mid(self@));
        }
    }

    #[verifier::rlimit(60)]
    fn push_tail(&self, s: &mut String)
        ensures
            final(s)@ == old(s)@ + summary_tail(self@),
    {
        push_str(s, " ");
        match self.format {
            GraphicsFormat::Rgb => push_str(s, "rgb"),
            GraphicsFormat::Rgba => push_str(s, "rgba"),
            GraphicsFormat::Png => push_str(s, "png"),
            GraphicsFormat::Sixel => push_str(s, "sixel"),
            GraphicsFormat::Other(n) => {
                push_str(s, "f=");
                push_decimal_text(s, n as u64);
            },
        }
        push_str(s, " ");
        push_decimal_text(s, self.bytes);
        push_str(s, " bytes");
        let ghost m1 = s@;
        if self.compressed {
            push_str(s, " zlib");
        }
        let ghost m2 = s@;
        if self.chunks > 1 {
            push_str(s, " in ");
            push_decimal_text(s, self.chunks as u64);
            push_str(s, " chunks");
        }
        let ghost m3 = s@;
        if self.data.is_none() {
            push_str(s, " (not captured)");
        }
        proof {
            assert(s@ =~= old(s)@ + summary_tail(self@));
        }
    }

    /// A one-line description, short enough for a log: the protocol, the
    /// action, the declared size and cells, the placement, the id, the
    /// format and the wire cost — never the data.
    pub fn summary(&self) -> (r: String)
        ensures
            r@ == summary_text(self@),
    {
        let mut s = String::new();
        self.push_head(&mut s);
        self.push_mid(&mut s);
        self.push_tail(&mut s);
        proof {
            assert(s@ =~= summary_text(self@));
        }
        s
    }
}


/// How many pixels of `px` are `c`.
pub open spec fn count_in(px: Seq<[u8; 4]>, c: [u8; 4]) -> nat
    decreases px.len(),
{
    if px.len() == 0 {
        0
    } else {
        count_in(px.drop_last(), c) + if px.last() == c {
            1nat
        } else {
            0nat
        }
    }
}

/// Where `c` first appears in `px`; `px.len()` when it does not.
pub open spec fn first_at(px: Seq<[u8; 4]>, c: [u8; 4]) -> int
    decreases px.len(),
{
    if px.len() == 0 {
        0
    } else if px[0] == c {
        0
    } else {
        1 + first_at(px.drop_first(), c)
    }
}

/// Whether colour entry `a` comes before `b`: more pixels first, and
/// between equal counts the colour that appeared first.
pub open spec fn colour_before(px: Seq<[u8; 4]>, a: ([u8; 4], u32), b: ([u8; 4], u32)) -> bool {
    a.1 > b.1 || (a.1 == b.1 && first_at(px, a.0) < first_at(px, b.0))
}

/// `r` is every distinct colour of `px` once, each with its pixel count
/// (held at `u32::MAX`), most common first and, between equal counts, in
/// the order the colours first appear.
pub open spec fn colours_spec(px: Seq<[u8; 4]>, r: Seq<([u8; 4], u32)>) -> bool {
    &&& forall|i: int| 0 <= i < r.len() ==> first_at(px, (#[trigger] r[i]).0) < px.len() && r[i].1 == sat_u32(
        count_in(px, r[i].0) as int,
    )
    &&& forall|j: int| 0 <= j < px.len() ==> exists|i: int| 0 <= i < r.len() && (#[trigger] r[i]).0 == #[trigger] px[j]
    &&& forall|i: int, k: int| 0 <= i < k < r.len() ==> colour_before(px, #[trigger] r[i], #[trigger] r[k])
}

proof fn lemma_first_at(px: Seq<[u8; 4]>, c: [u8; 4])
    ensures
        0 <= first_at(px, c) <= px.len(),
        first_at(px, c) < px.len() ==> px[first_at(px, c)] == c,
        forall|j: int| 0 <= j < first_at(px, c) ==> px[j] != c,
    decreases px.len(),
{
    if px.len() > 0 && px[0] != c {
        lemma_first_at(px.drop_first(), c);
        assert forall|j: int| 0 <= j < first_at(px, c) implies px[j] != c by {
            if j > 0 {
                assert(px[j] == px.drop_first()[j - 1]);
            }
        }
    }
}

proof fn lemma_first_at_unique(px: Seq<[u8; 4]>, c: [u8; 4], r: int)
    requires
        0 <= r <= px.len(),
        r < px.len() ==> px[r] == c,
        forall|j: int| 0 <= j < r ==> px[j] != c,
    ensures
        first_at(px, c) == r,
    decreases px.len(),
{
    if px.len() > 0 && px[0] != c {
        assert forall|j: int| 0 <= j < r - 1 implies px.drop_first()[j] != c by {
            assert(px.drop_first()[j] == px[j + 1]);
        }
        lemma_first_at_unique(px.drop_first(), c, r - 1);
    }
}

/// A colour present in a prefix first appears where it first appears in
/// the prefix.
proof fn lemma_first_at_prefix(px: Seq<[u8; 4]>, n: int, c: [u8; 4])
    requires
        0 <= n <= px.len(),
        first_at(px.take(n), c) < n,
    ensures
        first_at(px, c) == first_at(px.take(n), c),
{
    let p = px.take(n);
    lemma_first_at(p, c);
    let r = first_at(p, c);
    assert forall|j: int| 0 <= j < r implies px[j] != c by {
        assert(px[j] == p[j]);
    }
    assert(px[r] == p[r]);
    lemma_first_at_unique(px, c, r);
}

impl Bitmap {
    /// Every distinct colour in the image, with how many pixels carry it,
    /// most common first (ties in the order the colours first appear).
    pub fn colours(&self) -> (r: Vec<([u8; 4], u32)>)
        ensures
            colours_spec(self@.pixels, r@),
    {
        let px = &self.pixels;
        let ghost all = px@;
        let mut seen: Vec<([u8; 4], u32, usize)> = Vec::new();
        let mut i: usize = 0;
        while i < px.len()
            invariant
                i <= px@.len(),
                all == px@,
                forall|k: int| 0 <= k < seen@.len() ==> (#[trigger] seen@[k]).2 == first_at(all.take(i as int), seen@[k].0)
                    && seen@[k].2 < i && seen@[k].1 == sat_u32(count_in(all.take(i as int), seen@[k].0) as int),
                covers(seen@, all.take(i as int)),
                forall|k: int, l: int| 0 <= k < l < seen@.len() ==> (#[trigger] seen@[k]).0 != (#[trigger] seen@[l]).0,
            decreases px@.len() - i,
        {
            let p = px[i];
            let ghost pre = all.take(i as int);
            let ghost post = all.take(i + 1);
            proof {
                assert(post.drop_last() =~= pre);
                assert(post.last() == p);
            }
            let mut k: usize = 0;
            let mut found = false;
            while k < seen.len()
                invariant
                    k <= seen@.len(),
                    forall|l: int| 0 <= l < k ==> (#[trigger] seen@[l]).0 != p,
                ensures
                    k <= seen@.len(),
                    forall|l: int| 0 <= l < k ==> (#[trigger] seen@[l]).0 != p,
                    k < seen@.len() ==> seen@[k as int].0 == p,
                decreases seen@.len() - k,
            {
                if same_colour(seen[k].0, p) {
                    break;
                }
                k = k + 1;
            }
            let ghost old_seen = seen@;
            if k < seen.len() {
                let e = seen[k];
                seen.set(k, (e.0, e.1.saturating_add(1), e.2));
                proof {
                    assert forall|l: int| 0 <= l < seen@.len() implies (#[trigger] seen@[l]).2 == first_at(post, seen@[l].0)
                        && seen@[l].2 < i + 1 && seen@[l].1 == sat_u32(count_in(post, seen@[l].0) as int) by {
                        let c = seen@[l].0;
                        lemma_first_at(pre, c);
                        assert(pre[first_at(pre, c)] == post[first_at(pre, c)]);
                        lemma_first_at_prefix(post, i as int, c);
                        assert(post.take(i as int) =~= pre);
                    }
                    assert(covers(seen@, post)) by {
                        assert forall|j: int| #![trigger post[j]] 0 <= j < post.len() implies exists|m: int| #![trigger seen@[m]] 0 <= m < seen@.len() && seen@[m].0 == post[j] by {
                            if j < i {
                                assert(post[j] == pre[j]);
                                let m = choose|m: int| #![trigger old_seen[m]] 0 <= m < old_seen.len() && old_seen[m].0 == pre[j];
                                assert(seen@[m].0 == post[j]);
                            } else {
                                assert(seen@[k as int].0 == post[j]);
                            }
                        }
                    }
                }
            } else {
                seen.push((p, 1, i));
                proof {
                    lemma_first_at(pre, p);
                    if first_at(pre, p) < i {
                        let j0 = first_at(pre, p);
                        assert(pre[j0] == p);
                        let m = choose|m: int| #![trigger old_seen[m]] 0 <= m < old_seen.len() && old_seen[m].0 == pre[j0];
                        assert(false);
                    }
                    assert forall|j: int| 0 <= j < i implies post[j] != p by {
                        assert(post[j] == pre[j]);
                    }
                    lemma_first_at_unique(post, p, i as int);
                    assert forall|l: int| 0 <= l < seen@.len() implies (#[trigger] seen@[l]).2 == first_at(post, seen@[l].0)
                        && seen@[l].2 < i + 1 && seen@[l].1 == sat_u32(count_in(post, seen@[l].0) as int) by {
                        if l < old_seen.len() {
                            let c = seen@[l].0;
                            lemma_first_at(pre, c);
                            assert(pre[first_at(pre, c)] == post[first_at(pre, c)]);
                            lemma_first_at_prefix(post, i as int, c);
                            assert(post.take(i as int) =~= pre);
                        } else {
                            assert(count_in(pre, p) == 0) by {
                                lemma_count_absent(pre, p);
                            }
                        }
                    }
                    assert(covers(seen@, post)) by {
                        assert forall|j: int| #![trigger post[j]] 0 <= j < post.len() implies exists|m: int| #![trigger seen@[m]] 0 <= m < seen@.len() && seen@[m].0 == post[j] by {
                            if j < i {
                                assert(post[j] == pre[j]);
                                let m = choose|m: int| #![trigger old_seen[m]] 0 <= m < old_seen.len() && old_seen[m].0 == pre[j];
                                assert(seen@[m].0 == post[j]);
                            } else {
                                assert(seen@[old_seen.len() as int].0 == post[j]);
                            }
                        }
                    }
                }
            }
            i = i + 1;
        }
        proof {
            assert(all.take(all.len() as int) =~= all);
        }
        let ghost entries = seen@;
        let ghost n = entries.len() as int;
        proof {
            assert forall|k: int, l: int| 0 <= k < n && 0 <= l < n && k != l implies (#[trigger] entries[k]).2
                != (#[trigger] entries[l]).2 by {
                lemma_first_at(all, entries[k].0);
                lemma_first_at(all, entries[l].0);
                if entries[k].2 == entries[l].2 {
                    if k < l {
                        assert(entries[k].0 != entries[l].0);
                    } else {
                        assert(entries[l].0 != entries[k].0);
                    }
                }
            }
        }
        let mut out: Vec<([u8; 4], u32)> = Vec::new();
        let ghost mut rem: Seq<int> = Seq::new(n as nat, |k: int| k);
        let ghost mut order: Seq<int> = Seq::empty();
        proof {
            assert(all.take(i as int) =~= all);
            assert forall|m: int| 0 <= m < n implies in_seq(rem, m) || #[trigger] in_seq(order, m) by {
                assert(rem[m] == m);
            }
        }
        while seen.len() > 0
            invariant
                n == entries.len(),
                forall|k: int| 0 <= k < n ==> (#[trigger] entries[k]).2 == first_at(all, entries[k].0) && entries[k].2
                    < all.len() && entries[k].1 == sat_u32(count_in(all, entries[k].0) as int),
                covers(entries, all),
                forall|k: int, l: int| 0 <= k < n && 0 <= l < n && k != l ==> (#[trigger] entries[k]).2
                    != (#[trigger] entries[l]).2,
                seen@.len() == rem.len(),
                forall|k: int| 0 <= k < rem.len() ==> 0 <= #[trigger] rem[k] < n && seen@[k] == entries[rem[k]],
                forall|k: int, l: int| 0 <= k < l < rem.len() ==> #[trigger] rem[k] != #[trigger] rem[l],
                out@.len() == order.len(),
                forall|i: int| 0 <= i < order.len() ==> 0 <= #[trigger] order[i] < n && out@[i] == (
                entries[order[i]].0,
                entries[order[i]].1,
                ),
                forall|m: int| 0 <= m < n ==> in_seq(rem, m) || #[trigger] in_seq(order, m),
                forall|i: int, l: int| 0 <= i < l < order.len() ==> key_before(
                    entries[#[trigger] order[i]],
                    entries[#[trigger] order[l]],
                ),
                forall|i: int, k: int| 0 <= i < order.len() && 0 <= k < rem.len() ==> key_before(
                    entries[#[trigger] order[i]],
                    entries[#[trigger] rem[k]],
                ),
            decreases seen@.len(),
        {
            let mut best: usize = 0;
            let mut q: usize = 1;
            while q < seen.len()
                invariant
                    0 < seen@.len() == rem.len(),
                    best < q <= seen@.len(),
                    forall|k: int| 0 <= k < rem.len() ==> 0 <= #[trigger] rem[k] < n && seen@[k] == entries[rem[k]],
                    forall|k: int, l: int| 0 <= k < l < rem.len() ==> #[trigger] rem[k] != #[trigger] rem[l],
                    forall|k: int, l: int| 0 <= k < n && 0 <= l < n && k != l ==> (#[trigger] entries[k]).2
                        != (#[trigger] entries[l]).2,
                    n == entries.len(),
                    forall|k: int| 0 <= k < q && k != best ==> key_before(seen@[best as int], #[trigger] seen@[k]),
                decreases seen@.len() - q,
            {
                let a = seen[q];
                let c = seen[best];
                if a.1 > c.1 || (a.1 == c.1 && a.2 < c.2) {
                    proof {
                        assert forall|k: int| 0 <= k < q + 1 && k != q implies key_before(seen@[q as int], #[trigger] seen@[k]) by {
                            if k != best {
                                assert(key_before(seen@[best as int], seen@[k]));
                            }
                        }
                    }
                    best = q;
                } else {
                    proof {
                        assert(rem[q as int] != rem[best as int]);
                        assert(entries[rem[q as int]].2 != entries[rem[best as int]].2);
                    }
                }
                q = q + 1;
            }
            let ghost before_rm = seen@;
            assert(forall|k: int| 0 <= k < before_rm.len() && k != best ==> key_before(before_rm[best as int], #[trigger] before_rm[k]));
            let e = seen.remove(best);
            out.push((e.0, e.1));
            proof {
                let b = best as int;
                let picked = rem[b];
                let rem2 = rem.remove(b);
                assert forall|k: int| 0 <= k < rem2.len() implies 0 <= #[trigger] rem2[k] < n && seen@[k] == entries[rem2[k]] by {
                    if k < b {
                        assert(rem2[k] == rem[k]);
                    } else {
                        assert(rem2[k] == rem[k + 1]);
                    }
                }
                assert forall|k: int, l: int| 0 <= k < l < rem2.len() implies #[trigger] rem2[k] != #[trigger] rem2[l] by {
                    let k0 = if k < b { k } else { k + 1 };
                    let l0 = if l < b { l } else { l + 1 };
                    assert(rem2[k] == rem[k0] && rem2[l] == rem[l0]);
                }
                let order2 = order.push(picked);
                assert forall|m: int| 0 <= m < n implies in_seq(rem2, m) || #[trigger] in_seq(order2, m) by {
                    if in_seq(order, m) {
                        let i = choose|i: int| 0 <= i < order.len() && order[i] == m;
                        assert(order2[i] == m);
                    } else {
                        assert(in_seq(rem, m));
                        let k = choose|k: int| 0 <= k < rem.len() && rem[k] == m;
                        if k == b {
                            assert(order2[order.len() as int] == m);
                        } else if k < b {
                            assert(rem2[k] == m);
                        } else {
                            assert(rem2[k - 1] == m);
                        }
                    }
                }
                assert forall|i: int, l: int| 0 <= i < l < order2.len() implies key_before(
                    entries[#[trigger] order2[i]],
                    entries[#[trigger] order2[l]],
                ) by {
                    if l == order.len() {
                        assert(order2[l] == rem[b]);
                        assert(order2[i] == order[i]);
                    } else {
                        assert(order2[i] == order[i] && order2[l] == order[l]);
                    }
                }
                assert forall|i: int, k: int| 0 <= i < order2.len() && 0 <= k < rem2.len() implies key_before(
                    entries[#[trigger] order2[i]],
                    entries[#[trigger] rem2[k]],
                ) by {
                    let k0 = if k < b { k } else { k + 1 };
                    assert(rem2[k] == rem[k0]);
                    if i == order.len() {
                        assert(k0 != b);
                        assert(key_before(before_rm[b], before_rm[k0]));
                        assert(order2[i] == rem[b]);
                    }
                }
                rem = rem2;
                order = order2;
            }
        }
        proof {
            let r = out@;
            assert forall|i: int| 0 <= i < r.len() implies first_at(all, (#[trigger] r[i]).0) < all.len() && r[i].1
                == sat_u32(count_in(all, r[i].0) as int) by {
                assert(0 <= order[i] < n);
            }
            assert forall|j: int| 0 <= j < all.len() implies exists|i: int| 0 <= i < r.len() && (#[trigger] r[i]).0 == #[trigger] all[j] by {
                let m = choose|m: int| 0 <= m < entries.len() && (#[trigger] entries[m]).0 == all[j];
                assert(in_seq(order, m));
                let i = choose|i: int| 0 <= i < order.len() && order[i] == m;
                assert(r[i].0 == all[j]);
            }
            assert forall|i: int, k: int| 0 <= i < k < r.len() implies colour_before(all, #[trigger] r[i], #[trigger] r[k]) by {
                assert(key_before(entries[order[i]], entries[order[k]]));
            }
        }
        out
    }
}

fn same_colour(a: [u8; 4], b: [u8; 4]) -> (r: bool)
    ensures
        r == (a == b),
{
    broadcast use vstd::array::group_array_axioms;
    let r = a[0] == b[0] && a[1] == b[1] && a[2] == b[2] && a[3] == b[3];
    proof {
        if r {
            assert(a =~= b);
        }
    }
    r
}

/// Whether every pixel's colour is one of the entries.
pub open spec fn covers(entries: Seq<([u8; 4], u32, usize)>, all: Seq<[u8; 4]>) -> bool {
    forall|j: int| #![trigger all[j]] 0 <= j < all.len() ==> exists|k: int| #![trigger entries[k]] 0 <= k < entries.len() && entries[k].0 == all[j]
}

/// Whether `m` occurs in `s`.
pub open spec fn in_seq(s: Seq<int>, m: int) -> bool {
    exists|k: int| 0 <= k < s.len() && #[trigger] s[k] == m
}

/// Colour entry `a` (colour, count, first position) comes before `b`.
pub open spec fn key_before(a: ([u8; 4], u32, usize), b: ([u8; 4], u32, usize)) -> bool {
    a.1 > b.1 || (a.1 == b.1 && a.2 < b.2)
}

proof fn lemma_count_absent(px: Seq<[u8; 4]>, c: [u8; 4])
    requires
        first_at(px, c) == px.len(),
    ensures
        count_in(px, c) == 0,
    decreases px.len(),
{
    if px.len() > 0 {
        lemma_first_at(px, c);
        assert(px.last() != c);
        let q = px.drop_last();
        assert forall|j: int| 0 <= j < q.len() implies q[j] != c by {
            assert(q[j] == px[j]);
        }
        lemma_first_at_unique(q, c, q.len() as int);
        lemma_count_absent(q, c);
    }
}

} // verus!
