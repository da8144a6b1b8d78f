//! What the grid emulator could not render, kept so a screen can say so:
//! distinct shapes of the sequences nobody honoured, first seen first,
//! bounded with an overflow count, written the way a caret rendering shows
//! them (`^[[20h`). Sequences the escape-sequence tracker handles itself
//! are filtered out by shape, so the list means what its name says.
use vstd::prelude::*;
use crate::render::dec;
use crate::text::{decimal_text, lossy_string, push_char, push_decimal_text, push_str};
use crate::utf8::lossy;
use vstd::utf8::decode_utf8;

verus! {

/// Distinct shapes kept before the record only counts.
pub const MAX_UNSUPPORTED: usize = 32;

/// The record, as plain values.
pub struct UnhandledModel {
    pub seen: Seq<Seq<char>>,
    pub overflow: u64,
    pub visual_bells: u64,
}

/// The sequences the emulator declined that nobody else honoured.
pub struct Unhandled {
    seen: Vec<String>,
    overflow: u64,
    visual_bells: u64,
}

impl View for Unhandled {
    type V = UnhandledModel;

    closed spec fn view(&self) -> UnhandledModel {
        UnhandledModel {
            seen: self.seen@.map_values(|s: String| s@),
            overflow: self.overflow,
            visual_bells: self.visual_bells,
        }
    }
}

/// A record is well formed: at most [`MAX_UNSUPPORTED`] shapes, no two
/// alike.
pub open spec fn record_wf(m: UnhandledModel) -> bool {
    &&& m.seen.len() <= MAX_UNSUPPORTED
    &&& forall|i: int, j: int| 0 <= i < j < m.seen.len() ==> m.seen[i] != m.seen[j]
}

/// `shape` filed: nothing changes when it is already there; past the bound
/// it is only counted.
pub open spec fn record_spec(m: UnhandledModel, shape: Seq<char>) -> UnhandledModel {
    if m.seen.contains(shape) {
        m
    } else if m.seen.len() >= MAX_UNSUPPORTED {
        UnhandledModel {
            overflow: if m.overflow == u64::MAX {
                u64::MAX
            } else {
                (m.overflow + 1) as u64
            },
            ..m
        }
    } else {
        UnhandledModel { seen: m.seen.push(shape), ..m }
    }
}

/// Filing keeps every shape already seen, first seen first; a shape filed
/// while there is room is then on the record; and filing a shape that is on
/// the record changes nothing, so filing it twice is filing it once.
pub proof fn lemma_record_keeps_first_seen(m: UnhandledModel, shape: Seq<char>)
    ensures
        record_spec(m, shape).seen.len() >= m.seen.len(),
        record_spec(m, shape).seen.take(m.seen.len() as int) == m.seen,
        m.seen.len() < MAX_UNSUPPORTED ==> record_spec(m, shape).seen.contains(shape),
        m.seen.contains(shape) ==> record_spec(m, shape) == m,
        m.seen.contains(shape) || m.seen.len() < MAX_UNSUPPORTED ==> record_spec(record_spec(m, shape), shape)
            == record_spec(m, shape),
{
    let r = record_spec(m, shape);
    if !m.seen.contains(shape) && m.seen.len() < MAX_UNSUPPORTED {
        assert(r.seen[m.seen.len() as int] == shape);
    }
    assert(r.seen.take(m.seen.len() as int) =~= m.seen);
}

/// Two hexadecimal digits, lower case.
pub open spec fn hex2(b: u8) -> Seq<char> {
    seq![hex_digit_char(b / 16), hex_digit_char(b % 16)]
}

/// One hexadecimal digit, lower case.
pub open spec fn hex_digit_char(d: u8) -> char {
    if d < 10 {
        (48 + d) as char
    } else {
        (87 + d) as char
    }
}

/// The shape of a control byte nobody handled; `None` for the locking
/// shifts the tracker handles.
pub open spec fn control_shape(b: u8) -> Option<Seq<char>> {
    if b == 0x0e || b == 0x0f {
        None
    } else if b == 0x7f {
        Some("^?"@)
    } else if b <= 0x1f {
        Some(seq!['^', (b + 0x40) as char])
    } else {
        Some("\\x"@ + hex2(b))
    }
}

/// The byte as a character when present.
pub open spec fn opt_char(b: Option<u8>) -> Seq<char> {
    match b {
        Some(x) => seq![x as char],
        None => Seq::empty(),
    }
}

/// The shape of an escape sequence nobody handled; `None` for the
/// designations, HTS, SS2, SS3 and the string terminator.
pub open spec fn escape_shape(i1: Option<u8>, i2: Option<u8>, b: u8) -> Option<Seq<char>> {
    let designation = (i1 == Some(0x28u8) || i1 == Some(0x29u8) || i1 == Some(0x2au8) || i1 == Some(0x2bu8))
        && i2 is None;
    if designation || (i1 is None && (b == 0x48 || b == 0x4e || b == 0x4f || b == 0x5c)) {
        None
    } else {
        Some("^["@ + opt_char(i1) + opt_char(i2) + seq![b as char])
    }
}

/// One parameter's sub-parameters, joined with `:`.
pub open spec fn subparams_text(p: Seq<u16>) -> Seq<char>
    decreases p.len(),
{
    if p.len() == 0 {
        Seq::empty()
    } else if p.len() == 1 {
        dec(p[0] as int)
    } else {
        subparams_text(p.drop_last()) + ":"@ + dec(p.last() as int)
    }
}

/// Parameters as they were written: `;` between parameters, `:` between
/// the sub-parameters of one.
pub open spec fn params_text(ps: Seq<Seq<u16>>) -> Seq<char>
    decreases ps.len(),
{
    if ps.len() == 0 {
        Seq::empty()
    } else if ps.len() == 1 {
        subparams_text(ps[0])
    } else {
        params_text(ps.drop_last()) + ";"@ + subparams_text(ps.last())
    }
}

/// Whether `m` is one of the private modes the tracker keeps (or the
/// console handshake's 9001).
pub open spec fn tracked_private_mode(m: u16) -> bool {
    m == 9 || m == 1000 || m == 1002 || m == 1003 || m == 1005 || m == 1006 || m == 1015 || m == 1004 || m == 2026
        || m == 9001
}

/// Whether every sub-parameter of every parameter is a tracked private mode.
pub open spec fn all_tracked(ps: Seq<Seq<u16>>) -> bool {
    forall|i: int, j: int| 0 <= i < ps.len() && 0 <= j < ps[i].len() ==> tracked_private_mode(#[trigger] ps[i][j])
}

/// The private marker and the intermediate of a CSI: the emulator hands a
/// marker (`?`, `>`, `=`) over as the first intermediate.
pub open spec fn csi_parts(i1: Option<u8>, i2: Option<u8>) -> (Option<u8>, Option<u8>) {
    if i1 == Some(0x3fu8) || i1 == Some(0x3eu8) || i1 == Some(0x3du8) {
        (i1, i2)
    } else if i2 is None {
        (None, i1)
    } else {
        (i1, i2)
    }
}

/// Whether a CSI the emulator declined is one the tracker handles.
pub open spec fn csi_handled(prefix: Option<u8>, inter: Option<u8>, ps: Seq<Seq<u16>>, c: char) -> bool {
    let first: Option<u16> = if ps.len() > 0 && ps[0].len() > 0 {
        Some(ps[0][0])
    } else {
        None
    };
    if prefix is None && inter is None && (c == 'g' || c == 'I' || c == 'Z' || c == 'c' || c == 'n' || c == 't') {
        true
    } else if prefix is None && inter is None && (c == 'h' || c == 'l') {
        first == Some(4u16)
    } else if prefix is None && ((inter == Some(0x21u8) && c == 'p') || (inter == Some(0x20u8) && c == 'q')) {
        true
    } else if inter == Some(0x24u8) && (c == 'p' || c == 'y') {
        true
    } else if inter is None && ((prefix == Some(0x3eu8) && c == 'c') || (prefix == Some(0x3fu8) && c == 'u')) {
        true
    } else if prefix == Some(0x3fu8) && inter is None && (c == 'h' || c == 'l') {
        all_tracked(ps)
    } else {
        false
    }
}

/// The shape of a CSI nobody handled.
pub open spec fn csi_shape(i1: Option<u8>, i2: Option<u8>, ps: Seq<Seq<u16>>, c: char) -> Option<Seq<char>> {
    let (prefix, inter) = csi_parts(i1, i2);
    if csi_handled(prefix, inter, ps, c) {
        None
    } else {
        Some("^[["@ + opt_char(prefix) + params_text(ps) + opt_char(inter) + seq![c])
    }
}

/// OSC parameters joined with `;`, each read as lossy UTF-8.
pub open spec fn osc_text(ps: Seq<Seq<u8>>) -> Seq<char>
    decreases ps.len(),
{
    if ps.len() == 0 {
        Seq::empty()
    } else if ps.len() == 1 {
        decode_utf8(lossy(ps[0]))
    } else {
        osc_text(ps.drop_last()) + ";"@ + decode_utf8(lossy(ps.last()))
    }
}

/// The shape of an OSC nobody handled; `None` for links, the clipboard and
/// the colour and palette queries.
pub open spec fn osc_shape(ps: Seq<Seq<u8>>) -> Option<Seq<char>> {
    if ps.len() > 0 && (ps[0] == seq![0x38u8] || ps[0] == seq![0x35u8, 0x32u8] || ps[0] == seq![0x31u8, 0x30u8]
        || ps[0] == seq![0x31u8, 0x31u8] || ps[0] == seq![0x34u8]) {
        None
    } else {
        Some("^[]"@ + osc_text(ps))
    }
}

/// The shape of a window resize request, which the grid does not honour.
pub open spec fn resize_shape(rows: u16, cols: u16) -> Seq<char> {
    "^[[8;"@ + dec(rows as int) + ";"@ + dec(cols as int) + "t"@
}

/// `shape` filed when there is one.
pub open spec fn record_opt(m: UnhandledModel, shape: Option<Seq<char>>) -> UnhandledModel {
    match shape {
        Some(s) => record_spec(m, s),
        None => m,
    }
}

fn same_text(a: &String, b: &String) -> (r: bool)
    ensures
        r == (a@ == b@),
{
    let x = crate::text::chars_of(a.as_str());
    let y = crate::text::chars_of(b.as_str());
    if x.len() != y.len() {
        return false;
    }
    crate::screen::chars_equal(x.as_slice(), y.as_slice())
}

fn push_hex2(s: &mut String, b: u8)
    ensures
        final(s)@ == old(s)@ + hex2(b),
{
    let hi = b / 16;
    let lo = b % 16;
    push_char(s, if hi < 10 { (48 + hi) as char } else { (87 + hi) as char });
    push_char(s, if lo < 10 { (48 + lo) as char } else { (87 + lo) as char });
    assert(s@ =~= old(s)@ + hex2(b));
}

fn push_opt(s: &mut String, b: Option<u8>)
    ensures
        final(s)@ == old(s)@ + opt_char(b),
{
    match b {
        Some(x) => push_char(s, x as char),
        None => {
            assert(s@ =~= old(s)@ + opt_char(b));
        },
    }
}

impl Unhandled {
    /// An empty record.
    pub fn new() -> (r: Self)
        ensures
            r@.seen.len() == 0,
            r@.overflow == 0,
            r@.visual_bells == 0,
            record_wf(r@),
    {
        let r = Unhandled { seen: Vec::new(), overflow: 0, visual_bells: 0 };
        assert(r@.seen =~= Seq::<Seq<char>>::empty());
        r
    }

    /// The distinct shapes, first seen first.
    pub fn shapes(&self) -> (r: &[String])
        ensures
            r@.map_values(|s: String| s@) == self@.seen,
    {
        self.seen.as_slice()
    }

    /// Distinct shapes beyond [`MAX_UNSUPPORTED`], counted only.
    pub fn overflow(&self) -> (r: u64)
        ensures
            r == self@.overflow,
    {
        self.overflow
    }

    /// Visual bells (`ESC g`) seen.
    pub fn visual_bells(&self) -> (r: u64)
        ensures
            r == self@.visual_bells,
    {
        self.visual_bells
    }

    /// File a shape: once only, and past the bound only counted.
    pub fn record(&mut self, shape: String)
        requires
            record_wf(old(self)@),
        ensures
            final(self)@ == record_spec(old(self)@, shape@),
            record_wf(final(self)@),
    {
        let ghost m = self@;
        let mut i: usize = 0;
        while i < self.seen.len()
            invariant
                i <= self.seen@.len(),
                self@ == m,
                record_wf(m),
                forall|j: int| 0 <= j < i ==> self@.seen[j] != shape@,
            decreases self.seen@.len() - i,
        {
            if same_text(&self.seen[i], &shape) {
                assert(m.seen[i as int] == shape@);
                return;
            }
            i = i + 1;
        }
        assert(!m.seen.contains(shape@));
        if self.seen.len() >= MAX_UNSUPPORTED {
            if self.overflow < u64::MAX {
                self.overflow = self.overflow + 1;
            }
            return;
        }
        let ghost sv = shape@;
        self.seen.push(shape);
        assert(self@.seen =~= m.seen.push(sv));
    }

    /// A visual bell: counted, saturating.
    pub fn visual_bell(&mut self)
        ensures
            final(self)@ == (UnhandledModel {
                visual_bells: if old(self)@.visual_bells == u64::MAX {
                    u64::MAX
                } else {
                    (old(self)@.visual_bells + 1) as u64
                },
                ..old(self)@
            }),
    {
        if self.visual_bells < u64::MAX {
            self.visual_bells = self.visual_bells + 1;
        }
    }

    /// A window resize request: recorded, since the grid's size is the
    /// test's to set.
    pub fn resize(&mut self, rows: u16, cols: u16)
        requires
            record_wf(old(self)@),
        ensures
            final(self)@ == record_spec(old(self)@, resize_shape(rows, cols)),
            record_wf(final(self)@),
    {
        let mut s = String::new();
        push_str(&mut s, "^[[8;");
        push_decimal_text(&mut s, rows as u64);
        push_str(&mut s, ";");
        push_decimal_text(&mut s, cols as u64);
        push_str(&mut s, "t");
        self.record(s);
    }

    /// A control byte the emulator did not handle.
    pub fn control(&mut self, b: u8)
        requires
            record_wf(old(self)@),
        ensures
            final(self)@ == record_opt(old(self)@, control_shape(b)),
            record_wf(final(self)@),
    {
        if b == 0x0e || b == 0x0f {
            return;
        }
        let mut s = String::new();
        if b == 0x7f {
            push_str(&mut s, "^?");
        } else if b <= 0x1f {
            push_char(&mut s, '^');
            push_char(&mut s, (b + 0x40) as char);
            assert(s@ =~= seq!['^', (b + 0x40) as char]);
        } else {
            push_str(&mut s, "\\x");
            push_hex2(&mut s, b);
        }
        self.record(s);
    }

    /// An escape sequence the emulator did not handle.
    pub fn escape(&mut self, i1: Option<u8>, i2: Option<u8>, b: u8)
        requires
            record_wf(old(self)@),
        ensures
            final(self)@ == record_opt(old(self)@, escape_shape(i1, i2, b)),
            record_wf(final(self)@),
    {
        let designation = (i1 == Some(0x28u8) || i1 == Some(0x29u8) || i1 == Some(0x2au8) || i1 == Some(0x2bu8))
            && i2.is_none();
        if designation || (i1.is_none() && (b == 0x48 || b == 0x4e || b == 0x4f || b == 0x5c)) {
            return;
        }
        let mut s = String::new();
        push_str(&mut s, "^[");
        push_opt(&mut s, i1);
        push_opt(&mut s, i2);
        push_char(&mut s, b as char);
        assert(s@ =~= "^["@ + opt_char(i1) + opt_char(i2) + seq![b as char]);
        self.record(s);
    }

    /// A CSI the emulator did not handle: recorded unless the tracker
    /// handles it.
    pub fn csi(&mut self, i1: Option<u8>, i2: Option<u8>, params: &[Vec<u16>], c: char)
        requires
            record_wf(old(self)@),
        ensures
            final(self)@ == record_opt(
                old(self)@,
                csi_shape(i1, i2, params@.map_values(|p: Vec<u16>| p@), c),
            ),
            record_wf(final(self)@),
    {
        let ghost ps = params@.map_values(|p: Vec<u16>| p@);
        let (prefix, inter) = if i1 == Some(0x3fu8) || i1 == Some(0x3eu8) || i1 == Some(0x3du8) {
            (i1, i2)
        } else if i2.is_none() {
            (None, i1)
        } else {
            (i1, i2)
        };
        let first: Option<u16> = if params.len() > 0 && params[0].len() > 0 {
            assert(params[0]@ == ps[0]);
            Some(params[0][0])
        } else {
            None
        };
        assert((prefix, inter) == csi_parts(i1, i2));
        let handled = if prefix.is_none() && inter.is_none() && (c == 'g' || c == 'I' || c == 'Z' || c == 'c' || c
            == 'n' || c == 't') {
            true
        } else if prefix.is_none() && inter.is_none() && (c == 'h' || c == 'l') {
            first == Some(4u16)
        } else if prefix.is_none() && ((inter == Some(0x21u8) && c == 'p') || (inter == Some(0x20u8) && c == 'q')) {
            true
        } else if inter == Some(0x24u8) && (c == 'p' || c == 'y') {
            true
        } else if inter.is_none() && ((prefix == Some(0x3eu8) && c == 'c') || (prefix == Some(0x3fu8) && c == 'u')) {
            true
        } else if prefix == Some(0x3fu8) && inter.is_none() && (c == 'h' || c == 'l') {
            all_modes_tracked(params)
        } else {
            false
        };
        assert(handled == csi_handled(prefix, inter, ps, c));
        if handled {
            return;
        }
        let mut s = String::new();
        push_str(&mut s, "^[[");
        push_opt(&mut s, prefix);
        push_params(&mut s, params);
        push_opt(&mut s, inter);
        push_char(&mut s, c);
        assert(s@ =~= "^[["@ + opt_char(prefix) + params_text(ps) + opt_char(inter) + seq![c]);
        self.record(s);
    }

    /// An OSC the emulator did not handle: recorded unless the tracker
    /// handles it.
    pub fn osc(&mut self, params: &[Vec<u8>])
        requires
            record_wf(old(self)@),
        ensures
            final(self)@ == record_opt(old(self)@, osc_shape(params@.map_values(|p: Vec<u8>| p@))),
            record_wf(final(self)@),
    {
        let ghost ps = params@.map_values(|p: Vec<u8>| p@);
        if params.len() > 0 {
            let f = params[0].as_slice();
            assert(f@ == ps[0]);
            let is8 = f.len() == 1 && f[0] == 0x38;
            let is4 = f.len() == 1 && f[0] == 0x34;
            let is52 = f.len() == 2 && f[0] == 0x35 && f[1] == 0x32;
            let is10 = f.len() == 2 && f[0] == 0x31 && f[1] == 0x30;
            let is11 = f.len() == 2 && f[0] == 0x31 && f[1] == 0x31;
            proof {
                if f@.len() == 1 {
                    assert(f@ == seq![f@[0]]);
                }
                if f@.len() == 2 {
                    assert(f@ == seq![f@[0], f@[1]]);
                }
            }
            if is8 || is4 || is52 || is10 || is11 {
                return;
            }
        }
        let mut s = String::new();
        push_str(&mut s, "^[]");
        let mut i: usize = 0;
        let ghost start = s@;
        while i < params.len()
            invariant
                i <= params@.len(),
                ps == params@.map_values(|p: Vec<u8>| p@),
                s@ == start + osc_text(ps.take(i as int)),
            decreases params@.len() - i,
        {
            if i > 0 {
                push_str(&mut s, ";");
            }
            let t = lossy_string(params[i].as_slice());
            push_str(&mut s, t.as_str());
            proof {
                assert(ps.take(i + 1).drop_last() =~= ps.take(i as int));
                assert(params[i as int]@ == ps[i as int]);
                if i == 0 {
                    assert(s@ =~= start + osc_text(ps.take(i + 1)));
                } else {
                    assert(s@ =~= start + osc_text(ps.take(i + 1)));
                }
            }
            i = i + 1;
        }
        assert(ps.take(ps.len() as int) =~= ps);
        self.record(s);
    }
}

fn all_modes_tracked(params: &[Vec<u16>]) -> (r: bool)
    ensures
        r == all_tracked(params@.map_values(|p: Vec<u16>| p@)),
{
    let ghost ps = params@.map_values(|p: Vec<u16>| p@);
    let mut i: usize = 0;
    while i < params.len()
        invariant
            i <= params@.len(),
            ps == params@.map_values(|p: Vec<u16>| p@),
            forall|a: int, b: int| 0 <= a < i && 0 <= b < ps[a].len() ==> tracked_private_mode(#[trigger] ps[a][b]),
        decreases params@.len() - i,
    {
        let p = params[i].as_slice();
        assert(p@ == ps[i as int]);
        let mut j: usize = 0;
        while j < p.len()
            invariant
                j <= p@.len(),
                p@ == ps[i as int],
                i < ps.len(),
                ps == params@.map_values(|p: Vec<u16>| p@),
                forall|b: int| 0 <= b < j ==> tracked_private_mode(#[trigger] ps[i as int][b]),
            decreases p@.len() - j,
        {
            let m = p[j];
            if !(m == 9 || m == 1000 || m == 1002 || m == 1003 || m == 1005 || m == 1006 || m == 1015 || m == 1004 || m
                == 2026 || m == 9001) {
                assert(!tracked_private_mode(ps[i as int][j as int]));
                return false;
            }
            j = j + 1;
        }
        i = i + 1;
    }
    true
}

fn push_params(s: &mut String, params: &[Vec<u16>])
    ensures
        final(s)@ == old(s)@ + params_text(params@.map_values(|p: Vec<u16>| p@)),
{
    let ghost ps = params@.map_values(|p: Vec<u16>| p@);
    let mut i: usize = 0;
    while i < params.len()
        invariant
            i <= params@.len(),
            ps == params@.map_values(|p: Vec<u16>| p@),
            s@ == old(s)@ + params_text(ps.take(i as int)),
        decreases params@.len() - i,
    {
        let ghost before = s@;
        if i > 0 {
            push_str(s, ";");
        }
        let p = params[i].as_slice();
        assert(p@ == ps[i as int]);
        let ghost mid = s@;
        let mut j: usize = 0;
        while j < p.len()
            invariant
                j <= p@.len(),
                s@ == mid + subparams_text(p@.take(j as int)),
            decreases p@.len() - j,
        {
            if j > 0 {
                push_str(s, ":");
            }
            push_decimal_text(s, p[j] as u64);
            proof {
                assert(p@.take(j + 1).drop_last() =~= p@.take(j as int));
                assert(s@ =~= mid + subparams_text(p@.take(j + 1)));
            }
            j = j + 1;
        }
        proof {
            assert(p@.take(p@.len() as int) =~= p@);
            assert(ps.take(i + 1).drop_last() =~= ps.take(i as int));
            assert(s@ =~= old(s)@ + params_text(ps.take(i + 1)));
        }
        i = i + 1;
    }
    assert(ps.take(ps.len() as int) =~= ps);
}

} // verus!
