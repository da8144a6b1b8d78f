//! The grid emulator: the `vt100` grid, the attribute shadow beside it and
//! the escape-sequence tracker ahead of both. The tracker runs a byte ahead
//! so a read can stop exactly at the end of a synchronized update or at a
//! query; every byte consumed reaches both grids, in order, once.
use vstd::prelude::*;
use crate::graphics::{GraphicsPayload, GraphicsSeen, PayloadModel};
use crate::screen::{Cell, CellModel, Color, MouseMode, Screen, Style, TermState, plain_style, trim_end, trimmed_len};
use crate::shadow::{RewriterModel, SgrRewriter, lemma_feed_split, rewrite_feed};
use crate::text::{chars_of, string_of};
use crate::tracker::{EventModel, Query, SeqEvent, SeqTracker, TrackerModel, event_view, feed_spec, query_view, step_spec, tracker_wf};
use crate::vt::{
    Grid, GridOp, MouseEncoding, grid_ops, vt100_cell_bg, vt100_cell_fg, vt100_cell_flags, vt100_cell_text, vt100_cursor,
    vt100_alternate_screen, vt100_application_cursor, vt100_bracketed_paste, vt100_hide_cursor, vt100_mouse_encoding,
    vt100_mouse_mode, vt100_rows, vt100_scrollback, vt100_size, elapsed, now, vt_alternate_screen, vt_application_cursor, vt_bracketed_paste, vt_cell_bg,
    vt_cell_fg, vt_cell_flags, vt_cell_text, vt_cursor, vt_hide_cursor, vt_mouse_encoding, vt_mouse_mode, vt_new,
    vt_process, vt_rows, vt_scrollback, vt_set_scrollback, vt_set_size, vt_size, zero_duration,
};

verus! {

/// Payloads kept for inspection before the oldest is dropped.
pub const HISTORY: usize = 512;

/// The bytes an operation hands a grid: those of a feed, none otherwise.
pub open spec fn op_bytes(op: GridOp) -> Seq<u8> {
    match op {
        GridOp::Feed(b) => b,
        _ => Seq::empty(),
    }
}

/// Every byte a grid was fed through `ops`, in order.
pub open spec fn fed_bytes(ops: Seq<GridOp>) -> Seq<u8>
    decreases ops.len(),
{
    if ops.len() == 0 {
        Seq::empty()
    } else {
        fed_bytes(ops.drop_last()) + op_bytes(ops.last())
    }
}

/// One more operation adds its bytes to what the grid was fed.
pub proof fn lemma_fed_push(ops: Seq<GridOp>, op: GridOp)
    ensures
        fed_bytes(ops.push(op)) == fed_bytes(ops) + op_bytes(op),
{
    assert(ops.push(op).drop_last() =~= ops);
}

/// A fresh grid has been fed nothing.
proof fn lemma_fed_open(rows: u16, cols: u16, scrollback: usize)
    ensures
        fed_bytes(seq![GridOp::Open { rows, cols, scrollback }]) == Seq::<u8>::empty(),
{
    lemma_fed_push(Seq::empty(), GridOp::Open { rows, cols, scrollback });
    assert(Seq::<GridOp>::empty().push(GridOp::Open { rows, cols, scrollback }) =~= seq![
        GridOp::Open { rows, cols, scrollback },
    ]);
    assert(fed_bytes(Seq::<GridOp>::empty()) == Seq::<u8>::empty());
    assert(Seq::<u8>::empty() + Seq::<u8>::empty() =~= Seq::<u8>::empty());
}

/// The rewriter's state before anything is fed.
pub open spec fn rewriter_start() -> RewriterModel {
    RewriterModel { state: crate::shadow::RewriteState::Ground, pending: Seq::empty() }
}

/// What a shadow cell's flags carry: its bold, italic and underline.
pub open spec fn carried(flags: Option<(bool, bool, bool, bool, bool)>) -> Option<(bool, bool, bool)> {
    match flags {
        Some(f) => Some((f.0, f.2, f.3)),
        None => None,
    }
}

/// A second grid fed the same bytes with plain SGR sequences rewritten, so
/// its bold, italic and underline carry the primary's blink, conceal and
/// strikethrough.
pub struct AttrShadow {
    grid: Grid,
    rewriter: SgrRewriter,
    input: Ghost<Seq<u8>>,
}

impl AttrShadow {
    /// Every byte fed so far, before rewriting.
    pub closed spec fn input(&self) -> Seq<u8> {
        self.input@
    }

    /// Where the rewriter stands.
    pub closed spec fn rewriter(&self) -> RewriterModel {
        self.rewriter@
    }

    /// Everything done to the shadow grid, oldest first.
    pub closed spec fn ops(&self) -> Seq<GridOp> {
        grid_ops(self.grid)
    }

    /// The shadow grid was fed exactly the rewriting of its input, and the
    /// rewriter stands where that rewriting left it.
    pub open spec fn wf(&self) -> bool {
        rewrite_feed(rewriter_start(), self.input()) == (self.rewriter(), fed_bytes(self.ops()))
    }

    /// A shadow grid of `rows` by `cols`, without history.
    pub fn new(rows: u16, cols: u16) -> (r: Self)
        requires
            rows > 0,
            cols > 0,
        ensures
            r.input() == Seq::<u8>::empty(),
            r.rewriter() == (RewriterModel { state: crate::shadow::RewriteState::Ground, pending: Seq::empty() }),
            r.ops() == seq![GridOp::Open { rows, cols, scrollback: 0 }],
            r.wf(),
    {
        let r = AttrShadow { grid: vt_new(rows, cols, 0), rewriter: SgrRewriter::new(), input: Ghost(Seq::empty()) };
        proof {
            lemma_fed_open(rows, cols, 0);
            assert(rewrite_feed(rewriter_start(), Seq::<u8>::empty()) == (rewriter_start(), Seq::<u8>::empty()));
        }
        r
    }

    /// Feed bytes: the rewritten form reaches the grid, bytes that may yet
    /// begin a plain SGR wait for the next call.
    pub fn feed(&mut self, bytes: &[u8])
        requires
            old(self).wf(),
        ensures
            final(self).wf(),
            final(self).input() == old(self).input() + bytes@,
            final(self).rewriter() == rewrite_feed(old(self).rewriter(), bytes@).0,
            final(self).ops() == old(self).ops().push(GridOp::Feed(rewrite_feed(old(self).rewriter(), bytes@).1)),
    {
        let shadowed = self.rewriter.rewrite_stream(bytes);
        let ghost ops0 = grid_ops(self.grid);
        vt_process(&mut self.grid, shadowed.as_slice());
        proof {
            lemma_feed_split(rewriter_start(), self.input@, bytes@);
            lemma_fed_push(ops0, GridOp::Feed(shadowed@));
        }
        self.input = Ghost(self.input@ + bytes@);
    }

    /// Resize the shadow grid with the primary.
    pub fn set_size(&mut self, rows: u16, cols: u16)
        requires
            old(self).wf(),
            rows > 0,
            cols > 0,
        ensures
            final(self).wf(),
            final(self).input() == old(self).input(),
            final(self).rewriter() == old(self).rewriter(),
            final(self).ops() == old(self).ops().push(GridOp::Resize { rows, cols }),
    {
        let ghost ops0 = grid_ops(self.grid);
        vt_set_size(&mut self.grid, rows, cols);
        proof {
            lemma_fed_push(ops0, GridOp::Resize { rows, cols });
            assert(fed_bytes(ops0) + op_bytes(GridOp::Resize { rows, cols }) =~= fed_bytes(ops0));
        }
    }

    /// The carried attributes of the cell at `(row, col)`: blink, conceal,
    /// strikethrough (the shadow's bold, italic, underline).
    pub fn carriers(&self, row: u16, col: u16) -> (r: Option<(bool, bool, bool)>)
        ensures
            r == carried(vt100_cell_flags(self.ops(), row, col)),
    {
        match vt_cell_flags(&self.grid, row, col) {
            Some((bold, _, italic, underline, _)) => Some((bold, italic, underline)),
            None => None,
        }
    }
}

/// What a `DECRQM` request can be told about a private mode.
#[derive(Debug, Clone, Copy, PartialEq, Eq, Structural)]
pub enum ModeState {
    /// Implemented and set.
    Enabled,
    /// Implemented and reset.
    Disabled,
    /// Not implemented, or not tracked precisely enough to answer honestly.
    NotRecognized,
}

/// `Enabled` when `on`, else `Disabled`.
pub open spec fn on_off(on: bool) -> ModeState {
    if on {
        ModeState::Enabled
    } else {
        ModeState::Disabled
    }
}

/// What mode `mode` is, from the states the grid and the tracker hold.
/// The mouse tracking modes are collapsed into one by the grid, so another
/// active tracking mode makes them unknown rather than reset.
pub open spec fn mode_answer_spec(mode: u32, modes: ModeFacts) -> ModeState {
    if mode == 2026 {
        on_off(modes.sync_update)
    } else if mode == 1 {
        on_off(modes.application_cursor)
    } else if mode == 25 {
        on_off(!modes.cursor_hidden)
    } else if mode == 47 || mode == 1047 || mode == 1049 {
        on_off(modes.alternate_screen)
    } else if mode == 2004 {
        on_off(modes.bracketed_paste)
    } else if mode == 1004 {
        on_off(modes.focus_events)
    } else if mode == 1006 {
        on_off(modes.encoding == MouseEncoding::Sgr)
    } else if mode == 1005 {
        on_off(modes.encoding == MouseEncoding::Utf8)
    } else if mode == 9 || mode == 1000 || mode == 1002 || mode == 1003 {
        match modes.mouse {
            MouseMode::Disabled => ModeState::Disabled,
            MouseMode::Press => if mode == 9 { ModeState::Enabled } else { ModeState::NotRecognized },
            MouseMode::PressRelease => if mode == 1000 { ModeState::Enabled } else { ModeState::NotRecognized },
            MouseMode::ButtonMotion => if mode == 1002 { ModeState::Enabled } else { ModeState::NotRecognized },
            MouseMode::AnyMotion => if mode == 1003 { ModeState::Enabled } else { ModeState::NotRecognized },
        }
    } else {
        ModeState::NotRecognized
    }
}

/// The mode states a `DECRQM` answer is made from.
#[derive(Debug, Clone, Copy, PartialEq, Eq, Structural)]
pub struct ModeFacts {
    pub sync_update: bool,
    pub application_cursor: bool,
    pub cursor_hidden: bool,
    pub alternate_screen: bool,
    pub bracketed_paste: bool,
    pub focus_events: bool,
    pub encoding: MouseEncoding,
    pub mouse: MouseMode,
}

fn on(set: bool) -> (r: ModeState)
    ensures
        r == on_off(set),
{
    if set {
        ModeState::Enabled
    } else {
        ModeState::Disabled
    }
}

/// The answer to a `DECRQM` request for `mode`, from the mode states.
pub fn mode_answer(mode: u32, modes: ModeFacts) -> (r: ModeState)
    ensures
        r == mode_answer_spec(mode, modes),
{
    if mode == 2026 {
        on(modes.sync_update)
    } else if mode == 1 {
        on(modes.application_cursor)
    } else if mode == 25 {
        on(!modes.cursor_hidden)
    } else if mode == 47 || mode == 1047 || mode == 1049 {
        on(modes.alternate_screen)
    } else if mode == 2004 {
        on(modes.bracketed_paste)
    } else if mode == 1004 {
        on(modes.focus_events)
    } else if mode == 1006 {
        on(modes.encoding == MouseEncoding::Sgr)
    } else if mode == 1005 {
        on(modes.encoding == MouseEncoding::Utf8)
    } else if mode == 9 || mode == 1000 || mode == 1002 || mode == 1003 {
        match modes.mouse {
            MouseMode::Disabled => ModeState::Disabled,
            MouseMode::Press => if mode == 9 {
                ModeState::Enabled
            } else {
                ModeState::NotRecognized
            },
            MouseMode::PressRelease => if mode == 1000 {
                ModeState::Enabled
            } else {
                ModeState::NotRecognized
            },
            MouseMode::ButtonMotion => if mode == 1002 {
                ModeState::Enabled
            } else {
                ModeState::NotRecognized
            },
            MouseMode::AnyMotion => if mode == 1003 {
                ModeState::Enabled
            } else {
                ModeState::NotRecognized
            },
        }
    } else {
        ModeState::NotRecognized
    }
}

impl ModeState {
    /// The `Ps` value of the `DECRPM` reply.
    pub fn report_value(self) -> (r: u32)
        ensures
            r == match self {
                ModeState::Enabled => 1u32,
                ModeState::Disabled => 2u32,
                ModeState::NotRecognized => 0u32,
            },
    {
        match self {
            ModeState::Enabled => 1,
            ModeState::Disabled => 2,
            ModeState::NotRecognized => 0,
        }
    }
}

/// The input-affecting modes the application has set.
#[derive(Debug, Clone, Copy, PartialEq, Eq, Structural)]
pub struct InputModes {
    pub mouse: MouseMode,
    pub mouse_encoding: MouseEncoding,
    pub bracketed_paste: bool,
    pub application_cursor: bool,
    pub focus_events: bool,
}

/// The style of a cell from the primary grid's attributes and the shadow's
/// carriers; a cell without a shadow counterpart carries none.
pub open spec fn cell_style(
    fg: Color,
    bg: Color,
    flags: (bool, bool, bool, bool, bool),
    carriers: Option<(bool, bool, bool)>,
) -> Style {
    let c = match carriers {
        Some(c) => c,
        None => (false, false, false),
    };
    Style {
        fg,
        bg,
        bold: flags.0,
        dim: flags.1,
        italic: flags.2,
        underline: flags.3,
        reverse: flags.4,
        blink: c.0,
        conceal: c.1,
        strikethrough: c.2,
    }
}

/// The cell at `(row, col)` of the view after `ops`, with its blink,
/// conceal and strikethrough from the shadow's flags after `shadow`; blank
/// where the grid reports none.
pub open spec fn cell_model(ops: Seq<GridOp>, shadow: Seq<GridOp>, row: u16, col: u16) -> CellModel {
    match (
        vt100_cell_text(ops, row, col),
        vt100_cell_flags(ops, row, col),
        vt100_cell_fg(ops, row, col),
        vt100_cell_bg(ops, row, col),
    ) {
        (Some(t), Some(f), Some(fg), Some(bg)) => CellModel {
            contents: t.0,
            style: cell_style(fg, bg, f, carried(vt100_cell_flags(shadow, row, col))),
            wide: t.1,
            continuation: t.2,
        },
        _ => CellModel { contents: Seq::empty(), style: plain_style(), wide: false, continuation: false },
    }
}

/// The model of the cell at `(row, col)` of cells laid out row by row,
/// `cols` to a row.
pub open spec fn grid_cell(cells: Seq<Cell>, cols: u16, row: int, col: int) -> CellModel {
    cells[row * cols + col]@
}

/// A position inside a grid of `rows` rows lies before its end.
proof fn lemma_index_below(row: int, col: int, rows: int, cols: int)
    requires
        0 <= row < rows,
        0 <= col < cols,
    ensures
        0 <= row * cols + col < rows * cols,
        row * cols + col + 1 <= rows * cols,
{
    assert(0 <= row * cols) by (nonlinear_arith)
        requires
            0 <= row,
            0 <= cols,
    ;
    assert(row * cols + cols <= rows * cols) by (nonlinear_arith)
        requires
            row + 1 <= rows,
            0 <= cols,
    ;
}

/// Build a cell from what the primary grid and the shadow report.
pub fn convert_cell(
    text: (String, bool, bool),
    flags: (bool, bool, bool, bool, bool),
    fg: Color,
    bg: Color,
    carriers: Option<(bool, bool, bool)>,
) -> (r: Cell)
    ensures
        r@.contents == text.0@,
        r@.wide == text.1,
        r@.continuation == text.2,
        r@.style == cell_style(fg, bg, flags, carriers),
{
    let c = match carriers {
        Some(c) => c,
        None => (false, false, false),
    };
    let style = Style {
        fg,
        bg,
        bold: flags.0,
        dim: flags.1,
        italic: flags.2,
        underline: flags.3,
        reverse: flags.4,
        blink: c.0,
        conceal: c.1,
        strikethrough: c.2,
    };
    Cell::new(text.0, style, text.1, text.2)
}


/// What one completed repaint cost, between the application's own markers:
/// the time it took and the printable characters it drew.
#[derive(Debug, Clone, Copy)]
pub struct FrameSpan {
    pub duration: std::time::Duration,
    pub printable: u32,
}

/// Why the emulator stopped consuming before the end of its input.
#[derive(Debug)]
pub enum Stop {
    /// A synchronized update ended: the screen now is a complete frame.
    FrameComplete(FrameSpan),
    /// The application asked the terminal a question; the screen is as of
    /// the query.
    Query(Query),
}

/// The outcome of feeding bytes to the emulator.
#[derive(Debug)]
pub struct Processed {
    /// How many input bytes were consumed.
    pub consumed: usize,
    /// Set when consumption stopped at a frame end or a query.
    pub stop: Option<Stop>,
}

/// Whether a tracker event stops consumption.
pub open spec fn stops(e: EventModel) -> bool {
    e is SyncEnd || e is Query
}

/// The first byte from `i` on whose event stops consumption.
pub open spec fn stop_from(t: TrackerModel, bytes: Seq<u8>, i: int) -> Option<int>
    decreases bytes.len() - i,
{
    if i < 0 || i >= bytes.len() {
        None
    } else if stops(step_spec(feed_spec(t, bytes.take(i)), bytes[i]).1) {
        Some(i)
    } else {
        stop_from(t, bytes, i + 1)
    }
}

/// How many bytes a read consumes: through the first stopping byte, or all.
pub open spec fn consumed_spec(t: TrackerModel, bytes: Seq<u8>) -> int {
    match stop_from(t, bytes, 0) {
        Some(i) => i + 1,
        None => bytes.len() as int,
    }
}

/// The bytes a payload keeps.
pub open spec fn data_len(p: PayloadModel) -> nat {
    match p.data {
        Some(d) => d.len(),
        None => 0,
    }
}

/// The bytes a log of payloads keeps.
pub open spec fn kept_bytes(ps: Seq<PayloadModel>) -> nat
    decreases ps.len(),
{
    if ps.len() == 0 {
        0
    } else {
        data_len(ps[0]) + kept_bytes(ps.drop_first())
    }
}

proof fn lemma_kept_push(ps: Seq<PayloadModel>, p: PayloadModel)
    ensures
        kept_bytes(ps.push(p)) == kept_bytes(ps) + data_len(p),
    decreases ps.len(),
{
    let q = ps.push(p);
    if ps.len() > 0 {
        assert(q.drop_first() =~= ps.drop_first().push(p));
        assert(q[0] == ps[0]);
        lemma_kept_push(ps.drop_first(), p);
        assert(kept_bytes(q) == data_len(q[0]) + kept_bytes(q.drop_first()));
        assert(kept_bytes(ps) == data_len(ps[0]) + kept_bytes(ps.drop_first()));
    } else {
        assert(q.drop_first() =~= Seq::<PayloadModel>::empty());
        assert(q[0] == p);
        assert(kept_bytes(q) == data_len(q[0]) + kept_bytes(q.drop_first()));
        assert(kept_bytes(q.drop_first()) == 0);
        assert(kept_bytes(ps) == 0);
    }
}

/// Whether a payload log is past either bound: more than [`HISTORY`]
/// payloads, or more than `capture` bytes in more than one.
pub open spec fn over_bounds(ps: Seq<PayloadModel>, capture: nat) -> bool {
    ps.len() > HISTORY || (kept_bytes(ps) > capture && ps.len() > 1)
}

/// The log left once the oldest payloads are dropped while it is past
/// either bound.
pub open spec fn evicted(ps: Seq<PayloadModel>, capture: nat) -> Seq<PayloadModel>
    decreases ps.len(),
{
    if ps.len() > 0 && over_bounds(ps, capture) {
        evicted(ps.drop_first(), capture)
    } else {
        ps
    }
}

/// The payloads of the graphics events the tracker raises, in order, as
/// it goes from `t` through `bytes`.
pub open spec fn graphics_in(t: TrackerModel, bytes: Seq<u8>) -> Seq<PayloadModel>
    decreases bytes.len(),
{
    if bytes.len() == 0 {
        Seq::empty()
    } else {
        let prev = graphics_in(t, bytes.drop_last());
        match step_spec(feed_spec(t, bytes.drop_last()), bytes.last()).1 {
            EventModel::Graphics(p) => prev.push(p),
            _ => prev,
        }
    }
}

/// The payload log after filing `gs` in order, the `k`-th stamped with
/// `ats[k]`, each followed by eviction down to the bounds.
pub open spec fn filed(ps: Seq<PayloadModel>, gs: Seq<PayloadModel>, ats: Seq<(u16, u16)>, capture: nat) -> Seq<
    PayloadModel,
>
    decreases gs.len(),
{
    if gs.len() == 0 {
        ps
    } else {
        evicted(filed(ps, gs.drop_last(), ats.drop_last(), capture).push(placed(gs.last(), ats.last())), capture)
    }
}

/// The chunks laid end to end.
pub open spec fn flatten_chunks(cs: Seq<Seq<u8>>) -> Seq<u8>
    decreases cs.len(),
{
    if cs.len() == 0 {
        Seq::empty()
    } else {
        flatten_chunks(cs.drop_last()) + cs.last()
    }
}

/// What the primary grid's operations, the history and the captured-row
/// count become when the chunks `cs` are fed in order, each non-empty one
/// followed by a capture of the rows it scrolled off.
pub open spec fn fed_and_captured(
    ops: Seq<GridOp>,
    bound: nat,
    captured: nat,
    history: Seq<Seq<char>>,
    cs: Seq<Seq<u8>>,
) -> (Seq<GridOp>, Seq<Seq<char>>, nat)
    decreases cs.len(),
{
    if cs.len() == 0 {
        (ops, history, captured)
    } else {
        let prev = fed_and_captured(ops, bound, captured, history, cs.drop_last());
        if cs.last().len() == 0 {
            prev
        } else {
            capture_spec(prev.0.push(GridOp::Feed(cs.last())), bound, prev.2, prev.1)
        }
    }
}

/// One more chunk: its bytes follow the others, and it is fed and
/// captured after them.
proof fn lemma_chunk_push(
    ops: Seq<GridOp>,
    bound: nat,
    captured: nat,
    history: Seq<Seq<char>>,
    cs: Seq<Seq<u8>>,
    c: Seq<u8>,
)
    ensures
        flatten_chunks(cs.push(c)) == flatten_chunks(cs) + c,
        fed_and_captured(ops, bound, captured, history, cs.push(c)) == if c.len() == 0 {
            fed_and_captured(ops, bound, captured, history, cs)
        } else {
            let prev = fed_and_captured(ops, bound, captured, history, cs);
            capture_spec(prev.0.push(GridOp::Feed(c)), bound, prev.2, prev.1)
        },
{
    assert(cs.push(c).drop_last() =~= cs);
}

/// The payload as filed: stamped with where the cursor stands.
pub open spec fn placed(p: PayloadModel, at: (u16, u16)) -> PayloadModel {
    PayloadModel { at, ..p }
}

/// Drop the oldest payloads while the log is past either bound: more than
/// [`HISTORY`] payloads, or more than `capture` bytes in more than one.
fn evict(log: &mut Vec<GraphicsPayload>, bytes: &mut u128, capture: usize)
    requires
        *old(bytes) == kept_bytes(payload_views(old(log)@)),
        *old(bytes) <= 2 * (usize::MAX as int),
        old(log)@.len() <= HISTORY + 1,
        forall|i: int| 0 <= i < old(log)@.len() ==> data_len(#[trigger] old(log)@[i]@) <= usize::MAX,
    ensures
        payload_views(final(log)@) == evicted(payload_views(old(log)@), capture as nat),
        *final(bytes) == kept_bytes(payload_views(final(log)@)),
        *final(bytes) <= usize::MAX,
        final(log)@.len() <= HISTORY,
        final(log)@.len() <= 1 || *final(bytes) <= capture,
        forall|i: int| 0 <= i < final(log)@.len() ==> data_len(#[trigger] final(log)@[i]@) <= usize::MAX,
{
    while log.len() > HISTORY || (*bytes > capture as u128 && log.len() > 1)
        invariant
            *bytes == kept_bytes(payload_views(log@)),
            *bytes <= 2 * (usize::MAX as int),
            log@.len() <= HISTORY + 1,
            forall|i: int| 0 <= i < log@.len() ==> data_len(#[trigger] log@[i]@) <= usize::MAX,
            evicted(payload_views(log@), capture as nat) == evicted(payload_views(old(log)@), capture as nat),
        decreases log@.len(),
    {
        let ghost views = payload_views(log@);
        let ghost old_g = log@;
        let dropped = log.remove(0);
        let k: usize = match dropped.data() {
            Some(d) => d.len(),
            None => 0,
        };
        proof {
            assert(views[0] == dropped@);
            assert(payload_views(log@) =~= views.drop_first());
            assert(views.len() > 0 && over_bounds(views, capture as nat));
            assert(evicted(views, capture as nat) == evicted(views.drop_first(), capture as nat));
            assert forall|i: int| 0 <= i < log@.len() implies data_len(#[trigger] log@[i]@) <= usize::MAX by {
                assert(log@[i] == old_g[i + 1]);
            }
        }
        *bytes = *bytes - k as u128;
    }
    proof {
        let v = payload_views(log@);
        assert(!over_bounds(v, capture as nat));
        assert(evicted(v, capture as nat) == v);
        if log@.len() == 1 {
            assert(v.drop_first() =~= Seq::<PayloadModel>::empty());
            assert(v[0] == log@[0]@);
            assert(data_len(log@[0]@) <= usize::MAX);
            assert(kept_bytes(v) == data_len(v[0]) + kept_bytes(v.drop_first()));
            assert(kept_bytes(v.drop_first()) == 0);
        }
        if log@.len() == 0 {
            assert(v.len() == 0);
            assert(kept_bytes(v) == 0);
        }
    }
}

/// The newest `bound` rows of `h`.
pub open spec fn newest<A>(h: Seq<A>, bound: nat) -> Seq<A> {
    if h.len() > bound {
        h.skip(h.len() - bound)
    } else {
        h
    }
}

/// Keep the newest `bound` rows.
fn keep_newest(history: &mut Vec<String>, bound: usize)
    ensures
        final(history)@ == newest(old(history)@, bound as nat),
{
    while history.len() > bound
        invariant
            history@ == old(history)@.skip(old(history)@.len() - history@.len()),
            history@.len() <= old(history)@.len(),
            old(history)@.len() > bound ==> history@.len() >= bound,
            old(history)@.len() <= bound ==> history@ == old(history)@,
        decreases history@.len(),
    {
        history.remove(0);
        assert(history@ =~= old(history)@.skip(old(history)@.len() - history@.len()));
    }
}

/// The plain values of a list of strings.
pub open spec fn string_views(v: Seq<String>) -> Seq<Seq<char>> {
    v.map_values(|s: String| s@)
}

/// The plain values of a payload log.
pub open spec fn payload_views(v: Seq<GraphicsPayload>) -> Seq<PayloadModel> {
    v.map_values(|p: GraphicsPayload| p@)
}

/// The `vt100` grid with the attribute shadow and the sequence tracker.
pub struct Vt100Emulator {
    grid: Grid,
    tracker: SeqTracker,
    shadow: AttrShadow,
    scrollback_len: usize,
    frame_started: Option<std::time::Instant>,
    history: Vec<String>,
    captured: usize,
    graphics: Vec<GraphicsPayload>,
    graphics_bytes: u128,
    capture: usize,
    fed: Ghost<Seq<u8>>,
}

impl Vt100Emulator {
    /// Every byte the primary grid has been fed, in order.
    pub closed spec fn fed(&self) -> Seq<u8> {
        self.fed@
    }

    /// The mode states as the grid and the tracker hold them.
    pub open spec fn facts(&self) -> ModeFacts {
        ModeFacts {
            sync_update: self.tracker_model().sync_update,
            application_cursor: vt100_application_cursor(self.primary_ops()),
            cursor_hidden: vt100_hide_cursor(self.primary_ops()),
            alternate_screen: vt100_alternate_screen(self.primary_ops()),
            bracketed_paste: vt100_bracketed_paste(self.primary_ops()),
            focus_events: self.tracker_model().focus_events,
            encoding: vt100_mouse_encoding(self.primary_ops()),
            mouse: vt100_mouse_mode(self.primary_ops()),
        }
    }

    /// Every byte the shadow grid has been fed, before rewriting.
    pub closed spec fn shadow_fed(&self) -> Seq<u8> {
        self.shadow.input()
    }

    /// The tracker's state.
    pub closed spec fn tracker_model(&self) -> TrackerModel {
        self.tracker@
    }

    /// The history rows kept, oldest first.
    pub closed spec fn history(&self) -> Seq<Seq<char>> {
        string_views(self.history@)
    }

    /// How many history rows may be kept.
    pub closed spec fn history_bound(&self) -> nat {
        self.scrollback_len as nat
    }

    /// The payloads kept, oldest first.
    pub closed spec fn payloads(&self) -> Seq<PayloadModel> {
        payload_views(self.graphics@)
    }

    /// How many payload bytes may be kept.
    pub closed spec fn capture_bound(&self) -> nat {
        self.capture as nat
    }

    /// Everything done to the primary grid, oldest first.
    pub closed spec fn primary_ops(&self) -> Seq<GridOp> {
        grid_ops(self.grid)
    }

    /// Everything done to the shadow grid, oldest first.
    pub closed spec fn shadow_ops(&self) -> Seq<GridOp> {
        self.shadow.ops()
    }

    /// How many history rows the grid held at the last capture.
    pub closed spec fn captured_rows(&self) -> nat {
        self.captured as nat
    }

    /// The emulator's standing invariant: the tracker within its bounds,
    /// the primary grid fed exactly the bytes consumed and the shadow grid
    /// exactly their rewriting, the history within its
    /// bound, the payload log within its bounds and its byte count exact.
    pub closed spec fn wf(&self) -> bool {
        &&& tracker_wf(self.tracker@)
        &&& self.shadow.input() == self.fed@
        &&& self.shadow.wf()
        &&& fed_bytes(grid_ops(self.grid)) == self.fed@
        &&& self.history@.len() <= self.scrollback_len
        &&& self.graphics@.len() <= HISTORY
        &&& self.graphics_bytes == kept_bytes(payload_views(self.graphics@))
        &&& self.graphics_bytes <= usize::MAX
        &&& (self.graphics@.len() <= 1 || self.graphics_bytes <= self.capture)
        &&& forall|i: int| 0 <= i < self.graphics@.len() ==> data_len(#[trigger] self.graphics@[i]@) <= usize::MAX
    }

    /// A blank `rows` by `cols` grid keeping `scrollback_len` rows of
    /// history and at most `capture` bytes of graphics payloads.
    pub fn new(rows: u16, cols: u16, scrollback_len: usize, capture: usize) -> (r: Self)
        requires
            rows > 0,
            cols > 0,
        ensures
            r.wf(),
            r.fed() == Seq::<u8>::empty(),
            r.tracker_model() == crate::tracker::tracker_start(capture),
            r.history().len() == 0,
            r.history_bound() == scrollback_len,
            r.payloads().len() == 0,
            r.capture_bound() == capture,
            r.primary_ops() == seq![GridOp::Open { rows, cols, scrollback: scrollback_len }],
            r.shadow_ops() == seq![GridOp::Open { rows, cols, scrollback: 0 }],
            r.captured_rows() == 0,
    {
        let tracker = SeqTracker::new(capture);
        let r = Vt100Emulator {
            grid: vt_new(rows, cols, scrollback_len),
            tracker,
            shadow: AttrShadow::new(rows, cols),
            scrollback_len,
            frame_started: None,
            history: Vec::new(),
            captured: 0,
            graphics: Vec::new(),
            graphics_bytes: 0,
            capture,
            fed: Ghost(Seq::empty()),
        };
        proof {
            lemma_fed_open(rows, cols, scrollback_len);
        }
        assert(r.history@.map_values(|s: String| s@) =~= Seq::<Seq<char>>::empty());
        assert(payload_views(r.graphics@) =~= Seq::<PayloadModel>::empty());
        r
    }

    /// Hand both grids the bytes the tracker has scanned.
    fn feed(&mut self, bytes: &[u8])
        requires
            old(self).wf(),
        ensures
            final(self).wf(),
            final(self).fed() == old(self).fed() + bytes@,
            final(self).tracker_model() == old(self).tracker_model(),
            final(self).payloads() == old(self).payloads(),
            final(self).history_bound() == old(self).history_bound(),
            final(self).capture_bound() == old(self).capture_bound(),
            (final(self).primary_ops(), final(self).history(), final(self).captured_rows()) == if bytes@.len() == 0 {
                (old(self).primary_ops(), old(self).history(), old(self).captured_rows())
            } else {
                capture_spec(
                    old(self).primary_ops().push(GridOp::Feed(bytes@)),
                    old(self).history_bound(),
                    old(self).captured_rows(),
                    old(self).history(),
                )
            },
    {
        if bytes.len() == 0 {
            assert(self.fed@ + bytes@ =~= self.fed@);
            return;
        }
        let ghost ops0 = grid_ops(self.grid);
        vt_process(&mut self.grid, bytes);
        proof {
            lemma_fed_push(ops0, GridOp::Feed(bytes@));
        }
        self.shadow.feed(bytes);
        self.fed = Ghost(self.fed@ + bytes@);
        self.capture_scrolled_rows();
    }

    /// File a completed payload, stamped with where the cursor stands, and
    /// evict the oldest while the log is past either bound.
    fn record_graphics(&mut self, payload: GraphicsPayload)
        requires
            old(self).wf(),
        ensures
            final(self).wf(),
            final(self).fed() == old(self).fed(),
            final(self).tracker_model() == old(self).tracker_model(),
            final(self).history() == old(self).history(),
            final(self).history_bound() == old(self).history_bound(),
            final(self).capture_bound() == old(self).capture_bound(),
            final(self).primary_ops() == old(self).primary_ops(),
            final(self).captured_rows() == old(self).captured_rows(),
            final(self).payloads() == evicted(
                old(self).payloads().push(placed(payload@, vt100_cursor(old(self).primary_ops()))),
                old(self).capture_bound(),
            ),
    {
        let mut payload = payload;
        let at = vt_cursor(&self.grid);
        payload.place(at);
        let kept: usize = match payload.data() {
            Some(d) => d.len(),
            None => 0,
        };
        assert(kept == data_len(payload@));
        let ghost before = payload_views(self.graphics@);
        self.graphics.push(payload);
        proof {
            lemma_kept_push(before, payload@);
            assert(payload_views(self.graphics@) =~= before.push(payload@));
        }
        self.graphics_bytes = self.graphics_bytes + kept as u128;
        proof {
            let g = self.graphics@;
            assert forall|i: int| 0 <= i < g.len() implies data_len(#[trigger] g[i]@) <= usize::MAX by {
                if i < g.len() - 1 {
                    assert(g[i] == old(self).graphics@[i]);
                }
            }
        }
        evict(&mut self.graphics, &mut self.graphics_bytes, self.capture);
    }
}

/// `line` without its trailing whitespace.
fn trimmed(line: &String) -> (r: String)
    ensures
        r@ == trim_end(line@),
{
    let cs = chars_of(line.as_str());
    let n = trimmed_len(cs.as_slice());
    let head = vstd::slice::slice_subrange(cs.as_slice(), 0, n);
    assert(head@ =~= cs@.take(n as int));
    string_of(head)
}

/// The rows a read of history rows `from..len` takes in, trimmed, and what
/// was done to the grid by then: the view is moved back to each screenful
/// in turn and its rows read.
pub open spec fn history_read(ops: Seq<GridOp>, from: int, len: int, rows: u16, cols: u16) -> (
    Seq<Seq<char>>,
    Seq<GridOp>,
)
    decreases len - from,
{
    if from >= len || rows == 0 {
        (Seq::empty(), ops)
    } else {
        let moved = ops.push(GridOp::Scroll((len - from) as usize));
        let take = if len - from < rows { len - from } else { rows as int };
        let lines = vt100_rows(moved, cols);
        let n = if take < lines.len() { take } else { lines.len() as int };
        let rest = history_read(moved, from + take, len, rows, cols);
        (lines.take(n).map_values(|l: Seq<char>| trim_end(l)) + rest.0, rest.1)
    }
}

/// Append history rows `from..len` to `history`, reading them through the
/// grid's view of its history, a screenful at a time.
fn read_history(grid: &mut Grid, history: &mut Vec<String>, from: usize, len: usize, rows: u16, cols: u16)
    requires
        rows > 0,
    ensures
        string_views(final(history)@) == string_views(old(history)@) + history_read(
            grid_ops(*old(grid)),
            from as int,
            len as int,
            rows,
            cols,
        ).0,
        grid_ops(*final(grid)) == history_read(grid_ops(*old(grid)), from as int, len as int, rows, cols).1,
        fed_bytes(grid_ops(*final(grid))) == fed_bytes(grid_ops(*old(grid))),
{
    let ghost whole = history_read(grid_ops(*grid), from as int, len as int, rows, cols);
    let mut i = from;
    while i < len
        invariant
            rows > 0,
            string_views(history@) + history_read(grid_ops(*grid), i as int, len as int, rows, cols).0 == string_views(
                old(history)@,
            ) + whole.0,
            history_read(grid_ops(*grid), i as int, len as int, rows, cols).1 == whole.1,
            fed_bytes(grid_ops(*grid)) == fed_bytes(grid_ops(*old(grid))),
        decreases len - i,
    {
        let ghost ops0 = grid_ops(*grid);
        let ghost h0 = string_views(history@);
        vt_set_scrollback(grid, len - i);
        proof {
            lemma_fed_push(ops0, GridOp::Scroll((len - i) as usize));
            assert(fed_bytes(ops0) + Seq::<u8>::empty() =~= fed_bytes(ops0));
        }
        let remaining = len - i;
        let take: usize = if remaining < rows as usize {
            remaining
        } else {
            rows as usize
        };
        let lines = vt_rows(grid, cols);
        let ghost lv = lines@.map_values(|s: String| s@);
        let mut k: usize = 0;
        while k < take && k < lines.len()
            invariant
                k <= take,
                k <= lines@.len(),
                lv == lines@.map_values(|s: String| s@),
                string_views(history@) == h0 + lv.take(k as int).map_values(|l: Seq<char>| trim_end(l)),
            decreases take - k,
        {
            let t = trimmed(&lines[k]);
            let ghost hb = history@;
            history.push(t);
            proof {
                assert(lv[k as int] == lines@[k as int]@);
                assert(lv.take(k + 1).map_values(|l: Seq<char>| trim_end(l)) =~= lv.take(k as int).map_values(
                    |l: Seq<char>| trim_end(l),
                ).push(trim_end(lv[k as int])));
                assert(string_views(history@) =~= string_views(hb).push(t@));
            }
            k = k + 1;
        }
        proof {
            let moved = ops0.push(GridOp::Scroll((len - i) as usize));
            assert(grid_ops(*grid) == moved);
            let rest = history_read(moved, i + take, len as int, rows, cols);
            assert(history_read(ops0, i as int, len as int, rows, cols) == (
                lv.take(k as int).map_values(|l: Seq<char>| trim_end(l)) + rest.0,
                rest.1,
            ));
            assert(string_views(history@) + rest.0 =~= h0 + history_read(ops0, i as int, len as int, rows, cols).0);
        }
        i = i + take;
    }
    assert(string_views(history@) + Seq::<Seq<char>>::empty() =~= string_views(history@));
}

/// What a capture of scrolled-off rows leaves: what was done to the grid
/// by then, the history rows kept and the history length recorded. The view
/// is moved to the top of the history to learn its length; when rows were
/// added since the last capture they are read and kept, the newest `bound`
/// of them (a full history is read again whole, since the grid then drops
/// its oldest rows as new ones arrive); the view returns to the live screen.
pub open spec fn capture_spec(ops: Seq<GridOp>, bound: nat, captured: nat, history: Seq<Seq<char>>) -> (
    Seq<GridOp>,
    Seq<Seq<char>>,
    nat,
) {
    if bound == 0 {
        (ops, history, captured)
    } else {
        let size = vt100_size(ops);
        let top = ops.push(GridOp::Scroll(usize::MAX));
        let len = vt100_scrollback(top);
        let full = len == bound;
        if !full && len == captured {
            (top.push(GridOp::Scroll(0)), history, captured)
        } else {
            let from: nat = if full { 0 } else { captured };
            let kept = if full { Seq::empty() } else { history };
            let read = history_read(top, from as int, len as int, size.0, size.1);
            (read.1.push(GridOp::Scroll(0)), newest(kept + read.0, bound), len as nat)
        }
    }
}

impl Vt100Emulator {
    /// Copy the rows that have scrolled off since the last call into the
    /// history, keeping at most its bound (the newest), and leave the grid's
    /// view on the live screen.
    fn capture_scrolled_rows(&mut self)
        requires
            old(self).wf(),
        ensures
            final(self).wf(),
            final(self).fed() == old(self).fed(),
            final(self).tracker_model() == old(self).tracker_model(),
            final(self).payloads() == old(self).payloads(),
            final(self).history_bound() == old(self).history_bound(),
            final(self).capture_bound() == old(self).capture_bound(),
            final(self).shadow_ops() == old(self).shadow_ops(),
            (final(self).primary_ops(), final(self).history(), final(self).captured_rows()) == capture_spec(
                old(self).primary_ops(),
                old(self).history_bound(),
                old(self).captured_rows(),
                old(self).history(),
            ),
    {
        if self.scrollback_len == 0 {
            return;
        }
        let (rows, cols) = vt_size(&self.grid);
        let ghost ops0 = grid_ops(self.grid);
        vt_set_scrollback(&mut self.grid, usize::MAX);
        proof {
            lemma_fed_push(ops0, GridOp::Scroll(usize::MAX));
            assert(fed_bytes(ops0) + Seq::<u8>::empty() =~= fed_bytes(ops0));
        }
        let len = vt_scrollback(&self.grid);
        let at_cap = len == self.scrollback_len;
        if !at_cap && len == self.captured {
            let ghost ops1 = grid_ops(self.grid);
            vt_set_scrollback(&mut self.grid, 0);
            proof {
                lemma_fed_push(ops1, GridOp::Scroll(0));
                assert(fed_bytes(ops1) + Seq::<u8>::empty() =~= fed_bytes(ops1));
            }
            return;
        }
        let from = if at_cap {
            self.history.clear();
            0
        } else {
            self.captured
        };
        let ghost kept = string_views(self.history@);
        assert(at_cap ==> kept =~= Seq::<Seq<char>>::empty());
        read_history(&mut self.grid, &mut self.history, from, len, rows, cols);
        let ghost read_in = self.history@;
        keep_newest(&mut self.history, self.scrollback_len);
        proof {
            let b = self.scrollback_len as nat;
            let sv = string_views(read_in);
            assert(string_views(self.history@) =~= newest(sv, b));
        }
        self.captured = len;
        let ghost ops2 = grid_ops(self.grid);
        vt_set_scrollback(&mut self.grid, 0);
        proof {
            lemma_fed_push(ops2, GridOp::Scroll(0));
            assert(fed_bytes(ops2) + Seq::<u8>::empty() =~= fed_bytes(ops2));
        }
    }
}

impl Vt100Emulator {
    /// Close out the frame that just ended: how long it ran since the byte
    /// that opened it, and how much it drew.
    fn close_frame(&mut self) -> (r: FrameSpan)
        requires
            old(self).wf(),
        ensures
            final(self).wf(),
            r.printable == old(self).tracker_model().frame_printable,
            final(self).tracker_model() == (TrackerModel { frame_printable: 0, ..old(self).tracker_model() }),
            final(self).fed() == old(self).fed(),
            final(self).payloads() == old(self).payloads(),
            final(self).history() == old(self).history(),
            final(self).history_bound() == old(self).history_bound(),
            final(self).capture_bound() == old(self).capture_bound(),
            final(self).primary_ops() == old(self).primary_ops(),
            final(self).captured_rows() == old(self).captured_rows(),
    {
        let started = self.frame_started.take();
        let duration = match started {
            Some(at) => elapsed(&at),
            None => zero_duration(),
        };
        let printable = self.tracker.take_frame_printable();
        FrameSpan { duration, printable }
    }

    /// Feed bytes from the terminal. Stops right after the byte that ends a
    /// synchronized update or completes a query, so the caller sees the
    /// screen as of that instant before feeding the rest; `consumed` says
    /// how far it got. Every byte consumed reaches both grids.
    pub fn process(&mut self, bytes: &[u8]) -> (r: Processed)
        requires
            old(self).wf(),
        ensures
            final(self).wf(),
            r.consumed == consumed_spec(old(self).tracker_model(), bytes@),
            final(self).fed() == old(self).fed() + bytes@.take(r.consumed as int),
            final(self).history_bound() == old(self).history_bound(),
            final(self).capture_bound() == old(self).capture_bound(),
            fed_bytes(final(self).primary_ops()) == fed_bytes(old(self).primary_ops()) + bytes@.take(r.consumed as int),
            fed_bytes(final(self).shadow_ops()) == rewrite_feed(rewriter_start(), final(self).fed()).1,
            exists|cs: Seq<Seq<u8>>|
                flatten_chunks(cs) == bytes@.take(r.consumed as int) && #[trigger] fed_and_captured(
                    old(self).primary_ops(),
                    old(self).history_bound(),
                    old(self).captured_rows(),
                    old(self).history(),
                    cs,
                ) == (final(self).primary_ops(), final(self).history(), final(self).captured_rows()),
            exists|ats: Seq<(u16, u16)>|
                ats.len() == graphics_in(old(self).tracker_model(), bytes@.take(r.consumed as int)).len()
                    && #[trigger] filed(
                    old(self).payloads(),
                    graphics_in(old(self).tracker_model(), bytes@.take(r.consumed as int)),
                    ats,
                    old(self).capture_bound(),
                ) == final(self).payloads(),
            match r.stop {
                None => stop_from(old(self).tracker_model(), bytes@, 0) is None && final(self).tracker_model()
                    == feed_spec(old(self).tracker_model(), bytes@),
                Some(Stop::Query(q)) => r.consumed >= 1 && step_spec(
                    feed_spec(old(self).tracker_model(), bytes@.take(r.consumed - 1)),
                    bytes@[r.consumed - 1],
                ).1 == EventModel::Query(query_view(q)) && final(self).tracker_model() == feed_spec(
                    old(self).tracker_model(),
                    bytes@.take(r.consumed as int),
                ),
                Some(Stop::FrameComplete(span)) => r.consumed >= 1 && step_spec(
                    feed_spec(old(self).tracker_model(), bytes@.take(r.consumed - 1)),
                    bytes@[r.consumed - 1],
                ).1 == EventModel::SyncEnd && span.printable == feed_spec(
                    old(self).tracker_model(),
                    bytes@.take(r.consumed as int),
                ).frame_printable && final(self).tracker_model() == (TrackerModel {
                    frame_printable: 0,
                    ..feed_spec(old(self).tracker_model(), bytes@.take(r.consumed as int))
                }),
            },
    {
        let ghost t0 = self.tracker@;
        let ghost f0 = self.fed@;
        let ghost p0 = self.payloads();
        let ghost mut ats: Seq<(u16, u16)> = Seq::empty();
        let ghost o0 = self.primary_ops();
        let ghost h0 = self.history();
        let ghost c0 = self.captured_rows();
        let ghost bound = self.history_bound();
        let ghost mut cs: Seq<Seq<u8>> = Seq::empty();
        assert(bytes@.take(0) =~= Seq::<u8>::empty());
        let mut fed: usize = 0;
        let mut i: usize = 0;
        let len = bytes.len();
        while i < len
            invariant
                self.wf(),
                i <= len == bytes@.len(),
                fed <= i,
                self.tracker@ == feed_spec(t0, bytes@.take(i as int)),
                self.fed@ == f0 + bytes@.take(fed as int),
                stop_from(t0, bytes@, 0) == stop_from(t0, bytes@, i as int),
                t0 == old(self).tracker@,
                f0 == old(self).fed@,
                self.scrollback_len == old(self).scrollback_len,
                self.capture == old(self).capture,
                p0 == old(self).payloads(),
                o0 == old(self).primary_ops(),
                h0 == old(self).history(),
                c0 == old(self).captured_rows(),
                bound == old(self).history_bound(),
                flatten_chunks(cs) == bytes@.take(fed as int),
                fed_and_captured(o0, bound, c0, h0, cs) == (self.primary_ops(), self.history(), self.captured_rows()),
                fed_bytes(old(self).primary_ops()) == f0,
                self.capture as nat == old(self).capture_bound(),
                ats.len() == graphics_in(t0, bytes@.take(i as int)).len(),
                self.payloads() == filed(p0, graphics_in(t0, bytes@.take(i as int)), ats, self.capture as nat),
            decreases len - i,
        {
            let b = bytes[i];
            let ghost before = self.tracker@;
            let event = self.tracker.step(b);
            let ghost gs0 = graphics_in(t0, bytes@.take(i as int));
            proof {
                assert(bytes@.take(i + 1).drop_last() =~= bytes@.take(i as int));
                assert(bytes@.take(i + 1).last() == b);
                assert(self.tracker@ == feed_spec(t0, bytes@.take(i + 1)));
            }
            let stop: Option<Stop> = match event {
                SeqEvent::SyncEnd => {
                    let span = self.close_frame();
                    Some(Stop::FrameComplete(span))
                },
                SeqEvent::Query(q) => Some(Stop::Query(q)),
                SeqEvent::Graphics(payload) => {
                    let chunk = vstd::slice::slice_subrange(bytes, fed, i + 1);
                    let ghost fed_before = self.fed@;
                    self.feed(chunk);
                    proof {
                        lemma_chunk_push(o0, bound, c0, h0, cs, chunk@);
                        cs = cs.push(chunk@);
                    }
                    proof {
                        assert(bytes@.take(fed as int) + bytes@.subrange(fed as int, i + 1) =~= bytes@.take(i + 1));
                        assert(self.fed@ == fed_before + chunk@);
                        assert(self.fed@ =~= f0 + bytes@.take(i + 1));
                    }
                    fed = i + 1;
                    let p = *payload;
                    let ghost at = vt100_cursor(self.primary_ops());
                    let ghost filed_before = self.payloads();
                    self.record_graphics(p);
                    proof {
                        let gs1 = gs0.push(p@);
                        assert(graphics_in(t0, bytes@.take(i + 1)) == gs1);
                        let ats1 = ats.push(at);
                        assert(gs1.drop_last() =~= gs0);
                        assert(ats1.drop_last() =~= ats);
                        assert(self.payloads() == filed(p0, gs1, ats1, self.capture as nat));
                        ats = ats1;
                    }
                    assert(self.fed@ == f0 + bytes@.take(fed as int));
                    None
                },
                SeqEvent::Nothing => None,
                SeqEvent::SyncBegin => {
                    self.frame_started = Some(now());
                    None
                },
            };
            if let Some(stop) = stop {
                let chunk = vstd::slice::slice_subrange(bytes, fed, i + 1);
                let ghost fed_before = self.fed@;
                self.feed(chunk);
                proof {
                    lemma_chunk_push(o0, bound, c0, h0, cs, chunk@);
                    cs = cs.push(chunk@);
                }
                assert(self.fed@ =~= f0 + bytes@.take(i + 1));
                proof {
                    assert(bytes@.take(fed as int) + bytes@.subrange(fed as int, i + 1) =~= bytes@.take(i + 1));
                    assert(stops(step_spec(feed_spec(t0, bytes@.take(i as int)), bytes@[i as int]).1));
                    assert(stop_from(t0, bytes@, i as int) == Some(i as int));
                    assert(!(step_spec(feed_spec(t0, bytes@.take(i as int)), bytes@[i as int]).1 is Graphics));
                    assert(graphics_in(t0, bytes@.take(i + 1)) == gs0);
                    assert(filed(p0, graphics_in(t0, bytes@.take(i + 1)), ats, self.capture as nat) == self.payloads());
                    assert(fed_bytes(self.primary_ops()) == self.fed@);
                    assert(fed_bytes(old(self).primary_ops()) == f0);
                }
                return Processed { consumed: i + 1, stop: Some(stop) };
            }
            i = i + 1;
        }
        let chunk = vstd::slice::slice_subrange(bytes, fed, len);
        self.feed(chunk);
        proof {
            lemma_chunk_push(o0, bound, c0, h0, cs, chunk@);
            cs = cs.push(chunk@);
        }
        assert(self.fed@ =~= f0 + bytes@.take(len as int));
        proof {
            assert(bytes@.take(fed as int) + bytes@.subrange(fed as int, len as int) =~= bytes@.take(len as int));
            assert(bytes@.take(len as int) =~= bytes@);
        }
        Processed { consumed: len, stop: None }
    }
}


/// Both grids see the same stream: the primary grid has been fed exactly
/// the bytes consumed, in order, and the shadow grid exactly their SGR
/// rewriting, with the rewriter standing where that rewriting left it.
pub proof fn lemma_shadow_follows_the_grid(emu: &Vt100Emulator)
    requires
        emu.wf(),
    ensures
        emu.shadow_fed() == emu.fed(),
        fed_bytes(emu.primary_ops()) == emu.fed(),
        fed_bytes(emu.shadow_ops()) == rewrite_feed(rewriter_start(), emu.fed()).1,
{
}

impl Vt100Emulator {
    /// The history rows as owned strings.
    fn history_copy(&self) -> (r: Vec<String>)
        ensures
            string_views(r@) == self.history(),
    {
        let ghost hv = string_views(self.history@);
        let mut out: Vec<String> = Vec::new();
        let mut i: usize = 0;
        while i < self.history.len()
            invariant
                i <= self.history@.len(),
                hv == string_views(self.history@),
                out@.len() == i,
                string_views(out@) == hv.take(i as int),
            decreases self.history@.len() - i,
        {
            let s = self.history[i].clone();
            assert(s@ == self.history@[i as int]@);
            let ghost before = out@;
            out.push(s);
            assert(out@ == before.push(s));
            assert forall|j: int| 0 <= j < i + 1 implies #[trigger] string_views(out@)[j] == hv.take(i + 1)[j] by {
                if j < i {
                    assert(out@[j] == before[j]);
                    assert(string_views(before)[j] == hv.take(i as int)[j]);
                }
            }
            assert(string_views(out@) =~= hv.take(i + 1));
            i = i + 1;
        }
        assert(hv.take(i as int) =~= hv);
        out
    }

    /// The cell at `(row, col)` from the primary grid and the shadow's
    /// carriers; blank where the grid has none.
    fn cell_at(&self, row: u16, col: u16) -> (r: Cell)
        ensures
            r@ == cell_model(self.primary_ops(), self.shadow_ops(), row, col),
    {
        let text = vt_cell_text(&self.grid, row, col);
        let flags = vt_cell_flags(&self.grid, row, col);
        let fg = vt_cell_fg(&self.grid, row, col);
        let bg = vt_cell_bg(&self.grid, row, col);
        match (text, flags, fg, bg) {
            (Some(text), Some(flags), Some(fg), Some(bg)) => convert_cell(
                text,
                flags,
                fg,
                bg,
                self.shadow.carriers(row, col),
            ),
            _ => Cell::new(String::new(), Style::default(), false, false),
        }
    }

    /// The current screen as an owned value: the grid, each cell's blink,
    /// conceal and strikethrough from the shadow, the cursor, and the
    /// out-of-band state the tracker and the grid hold.
    pub fn snapshot(&self) -> (r: Screen)
        ensures
            r@.cols > 0,
            r@.rows > 0,
            (r@.rows, r@.cols) == vt100_size(self.primary_ops()),
            r@.cells.len() == r@.cols * r@.rows,
            forall|row: int, col: int|
                0 <= row < r@.rows && 0 <= col < r@.cols ==> #[trigger] crate::screen::cell_at(r@, row, col)
                    == cell_model(self.primary_ops(), self.shadow_ops(), row as u16, col as u16),
            (r@.cursor_row, r@.cursor_col) == vt100_cursor(self.primary_ops()),
            r@.cursor_visible == !vt100_hide_cursor(self.primary_ops()),
            r@.state.title == self.tracker_model().title,
            r@.state.clipboard == self.tracker_model().clipboard,
            r@.state.scrollback == self.history(),
            r@.state.alternate_screen == vt100_alternate_screen(self.primary_ops()),
            r@.state.bracketed_paste == vt100_bracketed_paste(self.primary_ops()),
            r@.state.application_cursor == vt100_application_cursor(self.primary_ops()),
            r@.state.mouse == vt100_mouse_mode(self.primary_ops()),
    {
        let ghost ops = self.primary_ops();
        let ghost sh = self.shadow_ops();
        let (rows, cols) = vt_size(&self.grid);
        let mut cells: Vec<Cell> = Vec::new();
        let mut row: u16 = 0;
        while row < rows
            invariant
                row <= rows,
                cols > 0,
                ops == self.primary_ops(),
                sh == self.shadow_ops(),
                cells@.len() == row * cols,
                forall|r2: int, c: int|
                    0 <= r2 < row && 0 <= c < cols ==> #[trigger] grid_cell(cells@, cols, r2, c) == cell_model(
                        ops,
                        sh,
                        r2 as u16,
                        c as u16,
                    ),
            decreases rows - row,
        {
            let mut col: u16 = 0;
            while col < cols
                invariant
                    col <= cols,
                    row < rows,
                    ops == self.primary_ops(),
                    sh == self.shadow_ops(),
                    cells@.len() == row * cols + col,
                    forall|r2: int, c: int|
                        0 <= r2 < row && 0 <= c < cols ==> #[trigger] grid_cell(cells@, cols, r2, c) == cell_model(
                            ops,
                            sh,
                            r2 as u16,
                            c as u16,
                        ),
                    forall|c: int| 0 <= c < col ==> #[trigger] grid_cell(cells@, cols, row as int, c) == cell_model(
                        ops,
                        sh,
                        row,
                        c as u16,
                    ),
                decreases cols - col,
            {
                let c = self.cell_at(row, col);
                let ghost before = cells@;
                cells.push(c);
                proof {
                    assert forall|r2: int, c2: int| 0 <= r2 < row && 0 <= c2 < cols implies #[trigger] grid_cell(
                        cells@,
                        cols,
                        r2,
                        c2,
                    ) == cell_model(ops, sh, r2 as u16, c2 as u16) by {
                        lemma_index_below(r2, c2, row as int, cols as int);
                        assert(grid_cell(before, cols, r2, c2) == cell_model(ops, sh, r2 as u16, c2 as u16));
                    }
                    assert forall|c2: int| 0 <= c2 < col + 1 implies #[trigger] grid_cell(
                        cells@,
                        cols,
                        row as int,
                        c2,
                    ) == cell_model(ops, sh, row, c2 as u16) by {
                        if c2 < col {
                            assert(grid_cell(before, cols, row as int, c2) == cell_model(ops, sh, row, c2 as u16));
                        }
                    }
                }
                col = col + 1;
            }
            proof {
                assert((row + 1) * cols == row * cols + cols) by (nonlinear_arith);
            }
            row = row + 1;
        }
        let (cursor_row, cursor_col) = vt_cursor(&self.grid);
        let state = TermState {
            title: self.tracker.title(),
            alternate_screen: vt_alternate_screen(&self.grid),
            bracketed_paste: vt_bracketed_paste(&self.grid),
            application_cursor: vt_application_cursor(&self.grid),
            mouse: vt_mouse_mode(&self.grid),
            clipboard: self.tracker.clipboard(),
            scrollback: self.history_copy(),
        };
        proof {
            assert((rows as int) * (cols as int) == (cols as int) * (rows as int)) by (nonlinear_arith);
        }
        let r = Screen::from_parts(cols, rows, cursor_row, cursor_col, !vt_hide_cursor(&self.grid), cells, state);
        proof {
            assert forall|row2: int, col2: int| 0 <= row2 < r@.rows && 0 <= col2 < r@.cols implies #[trigger] crate::screen::cell_at(
                r@,
                row2,
                col2,
            ) == cell_model(ops, sh, row2 as u16, col2 as u16) by {
                lemma_index_below(row2, col2, rows as int, cols as int);
                assert(grid_cell(cells@, cols, row2, col2) == cell_model(ops, sh, row2 as u16, col2 as u16));
            }
        }
        r
    }

    /// True while the stream ends inside an unfinished escape sequence or
    /// UTF-8 character.
    pub fn mid_sequence(&self) -> (r: bool)
        ensures
            r == (!(self.tracker_model().state is Ground) || self.tracker_model().utf8_remaining > 0),
    {
        self.tracker.mid_sequence()
    }

    /// True between the start and the end of a synchronized update.
    pub fn in_sync_update(&self) -> (r: bool)
        ensures
            r == self.tracker_model().sync_update,
    {
        self.tracker.in_sync_update()
    }

    /// The input-affecting modes the application has set.
    pub fn input_modes(&self) -> (r: InputModes)
        ensures
            r == (InputModes {
                mouse: vt100_mouse_mode(self.primary_ops()),
                mouse_encoding: vt100_mouse_encoding(self.primary_ops()),
                bracketed_paste: vt100_bracketed_paste(self.primary_ops()),
                application_cursor: vt100_application_cursor(self.primary_ops()),
                focus_events: self.tracker_model().focus_events,
            }),
    {
        InputModes {
            mouse: vt_mouse_mode(&self.grid),
            mouse_encoding: vt_mouse_encoding(&self.grid),
            bracketed_paste: vt_bracketed_paste(&self.grid),
            application_cursor: vt_application_cursor(&self.grid),
            focus_events: self.tracker.focus_events(),
        }
    }

    /// The modes a `DECRQM` answer is made from, as the grid and the
    /// tracker hold them now.
    pub fn mode_facts(&self) -> (r: ModeFacts)
        ensures
            r == self.facts(),
    {
        ModeFacts {
            sync_update: self.tracker.in_sync_update(),
            application_cursor: vt_application_cursor(&self.grid),
            cursor_hidden: vt_hide_cursor(&self.grid),
            alternate_screen: vt_alternate_screen(&self.grid),
            bracketed_paste: vt_bracketed_paste(&self.grid),
            focus_events: self.tracker.focus_events(),
            encoding: vt_mouse_encoding(&self.grid),
            mouse: vt_mouse_mode(&self.grid),
        }
    }

    /// Whether DEC private mode `mode` is set, for answering `DECRQM`;
    /// `NotRecognized` for a mode not held exactly.
    pub fn mode_state(&self, mode: u32) -> (r: ModeState)
        ensures
            r == mode_answer_spec(mode, self.facts()),
    {
        let facts = self.mode_facts();
        mode_answer(mode, facts)
    }

    /// Resize both grids, and take in any rows the resize pushed into the
    /// history.
    pub fn set_size(&mut self, rows: u16, cols: u16)
        requires
            old(self).wf(),
            rows > 0,
            cols > 0,
        ensures
            final(self).wf(),
            final(self).fed() == old(self).fed(),
            final(self).tracker_model() == old(self).tracker_model(),
            final(self).payloads() == old(self).payloads(),
            final(self).history_bound() == old(self).history_bound(),
            final(self).capture_bound() == old(self).capture_bound(),
            final(self).shadow_ops() == old(self).shadow_ops().push(GridOp::Resize { rows, cols }),
            (final(self).primary_ops(), final(self).history(), final(self).captured_rows()) == capture_spec(
                old(self).primary_ops().push(GridOp::Resize { rows, cols }),
                old(self).history_bound(),
                old(self).captured_rows(),
                old(self).history(),
            ),
    {
        let ghost ops0 = grid_ops(self.grid);
        vt_set_size(&mut self.grid, rows, cols);
        proof {
            lemma_fed_push(ops0, GridOp::Resize { rows, cols });
            assert(fed_bytes(ops0) + Seq::<u8>::empty() =~= fed_bytes(ops0));
        }
        self.shadow.set_size(rows, cols);
        self.capture_scrolled_rows();
    }

    /// The graphics seen: the tracker's counters and the payloads kept.
    pub fn graphics(&self) -> (r: GraphicsSeen)
        ensures
            r@.counts == self.tracker_model().counts,
            r@.payloads == self.payloads(),
    {
        let mut kept: Vec<GraphicsPayload> = Vec::new();
        let mut i: usize = 0;
        while i < self.graphics.len()
            invariant
                i <= self.graphics@.len(),
                kept@.len() == i,
                payload_views(kept@) == payload_views(self.graphics@).take(i as int),
            decreases self.graphics@.len() - i,
        {
            let p = self.graphics[i].clone();
            assert(p@ == self.graphics@[i as int]@);
            let ghost before = kept@;
            kept.push(p);
            assert(kept@ == before.push(p));
            let ghost gv = payload_views(self.graphics@);
            assert forall|j: int| 0 <= j < i + 1 implies #[trigger] payload_views(kept@)[j] == gv.take(i + 1)[j] by {
                if j < i {
                    assert(kept@[j] == before[j]);
                    assert(payload_views(before)[j] == gv.take(i as int)[j]);
                }
            }
            assert(payload_views(kept@) =~= gv.take(i + 1));
            i = i + 1;
        }
        assert(payload_views(self.graphics@).take(i as int) =~= payload_views(self.graphics@));
        GraphicsSeen::new(self.tracker.graphics(), kept)
    }
}

/// A `DECRQM` answer reports each mode it tracks as it stands: enabled
/// exactly when the mode is set, disabled otherwise, never unrecognised.
/// Mode 25 is set while the cursor is shown; 1 with application cursor keys;
/// 47, 1047 and 1049 on the alternate screen; 2004 with bracketed paste;
/// 1004 with focus reports; 2026 inside a synchronized update; 1006 and
/// 1005 with their mouse encodings. Of the mouse tracking modes 9, 1000,
/// 1002 and 1003, the active one is enabled, all are disabled when none is,
/// and the others are unknown. Any other mode is unrecognised.
pub proof fn lemma_mode_answers_report_the_mode(mode: u32, f: ModeFacts)
    ensures
        mode == 25 ==> (mode_answer_spec(mode, f) == ModeState::Enabled <==> !f.cursor_hidden),
        mode == 1 ==> (mode_answer_spec(mode, f) == ModeState::Enabled <==> f.application_cursor),
        (mode == 47 || mode == 1047 || mode == 1049) ==> (mode_answer_spec(mode, f) == ModeState::Enabled
            <==> f.alternate_screen),
        mode == 2004 ==> (mode_answer_spec(mode, f) == ModeState::Enabled <==> f.bracketed_paste),
        mode == 1004 ==> (mode_answer_spec(mode, f) == ModeState::Enabled <==> f.focus_events),
        mode == 2026 ==> (mode_answer_spec(mode, f) == ModeState::Enabled <==> f.sync_update),
        mode == 1006 ==> (mode_answer_spec(mode, f) == ModeState::Enabled <==> f.encoding == MouseEncoding::Sgr),
        mode == 1005 ==> (mode_answer_spec(mode, f) == ModeState::Enabled <==> f.encoding == MouseEncoding::Utf8),
        (mode == 25 || mode == 1 || mode == 47 || mode == 1047 || mode == 1049 || mode == 2004 || mode == 1004 || mode
            == 2026 || mode == 1006 || mode == 1005) ==> mode_answer_spec(mode, f) != ModeState::NotRecognized,
        mode == 9 ==> (mode_answer_spec(mode, f) == ModeState::Enabled <==> f.mouse == MouseMode::Press),
        mode == 1000 ==> (mode_answer_spec(mode, f) == ModeState::Enabled <==> f.mouse == MouseMode::PressRelease),
        mode == 1002 ==> (mode_answer_spec(mode, f) == ModeState::Enabled <==> f.mouse == MouseMode::ButtonMotion),
        mode == 1003 ==> (mode_answer_spec(mode, f) == ModeState::Enabled <==> f.mouse == MouseMode::AnyMotion),
        (mode == 9 || mode == 1000 || mode == 1002 || mode == 1003) ==> (mode_answer_spec(mode, f)
            == ModeState::Disabled <==> f.mouse == MouseMode::Disabled),
        !(mode == 25 || mode == 1 || mode == 47 || mode == 1047 || mode == 1049 || mode == 2004 || mode == 1004
            || mode == 2026 || mode == 1006 || mode == 1005 || mode == 9 || mode == 1000 || mode == 1002 || mode
            == 1003) ==> mode_answer_spec(mode, f) == ModeState::NotRecognized,
{
}

/// The emulator reports mode 25 enabled exactly while the grid shows its
/// cursor.
pub proof fn lemma_cursor_mode_follows_the_grid(emu: &Vt100Emulator)
    ensures
        mode_answer_spec(25, emu.facts()) == ModeState::Enabled <==> !vt100_hide_cursor(emu.primary_ops()),
{
    lemma_mode_answers_report_the_mode(25, emu.facts());
}

} // verus!
