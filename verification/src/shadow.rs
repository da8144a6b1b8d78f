//! Recovering the three SGR attributes the grid emulator drops: blink,
//! conceal and strikethrough. A second grid is fed the same byte stream
//! with only plain SGR sequences rewritten, so three attributes the
//! emulator keeps (bold, italic, underline) carry the three it drops:
//!
//! | dropped       | carrier       | off       |
//! |---------------|---------------|-----------|
//! | `5`/`6` blink | `1` bold      | `25`→`22` |
//! | `8` conceal   | `3` italic    | `28`→`23` |
//! | `9` strike    | `4` underline | `29`→`24` |
//!
//! Every other SGR parameter is dropped from the shadow stream, and every
//! byte that is not part of a complete plain SGR passes through unchanged,
//! so the two grids have the same shape.
use vstd::prelude::*;
use crate::bytes::{find_byte, lemma_find_byte, lemma_find_byte_unique, position};
use crate::text::{decimal, push_bytes, push_decimal, push_range};

verus! {

/// Where the rewriter is in the byte stream: only enough to recognize a
/// complete plain SGR.
#[derive(Debug, Clone, Copy, PartialEq, Eq, Structural)]
pub enum RewriteState {
    /// Outside any escape sequence.
    Ground,
    /// Just after ESC.
    Esc,
    /// Inside `ESC [`.
    Csi,
}

/// The shadow parameter carrying an SGR parameter, if any.
pub open spec fn carrier_spec(param: nat) -> Option<u32> {
    if param == 0 {
        Some(0)
    } else if param == 5 || param == 6 {
        Some(1)
    } else if param == 8 {
        Some(3)
    } else if param == 9 {
        Some(4)
    } else if param == 25 {
        Some(22)
    } else if param == 28 {
        Some(23)
    } else if param == 29 {
        Some(24)
    } else {
        None
    }
}

/// The shadow parameter carrying `param`: reset stays reset, blink becomes
/// bold, conceal italic, strikethrough underline, and their resets the
/// carriers' resets. Everything else belongs to the primary grid alone.
pub fn carrier(param: u32) -> (r: Option<u32>)
    ensures
        r == carrier_spec(param as nat),
{
    if param == 0 {
        Some(0)
    } else if param == 5 || param == 6 {
        Some(1)
    } else if param == 8 {
        Some(3)
    } else if param == 9 {
        Some(4)
    } else if param == 25 {
        Some(22)
    } else if param == 28 {
        Some(23)
    } else if param == 29 {
        Some(24)
    } else {
        None
    }
}

/// `s` split at every `sep`.
pub open spec fn split_bytes(s: Seq<u8>, sep: u8) -> Seq<Seq<u8>>
    decreases s.len(),
{
    let i = find_byte(s, sep);
    proof {
        lemma_find_byte(s, sep);
    }
    if i >= s.len() {
        seq![s]
    } else {
        seq![s.take(i)] + split_bytes(s.skip(i + 1), sep)
    }
}

/// The value of a run of digits, saturating at `u32::MAX` at every step.
pub open spec fn saturating_digits(s: Seq<u8>) -> nat
    decreases s.len(),
{
    if s.len() == 0 {
        0
    } else {
        let a = saturating_digits(s.drop_last());
        let m = if a * 10 > u32::MAX {
            u32::MAX as nat
        } else {
            a * 10
        };
        let d = (s.last() - 48) as nat;
        if m + d > u32::MAX {
            u32::MAX as nat
        } else {
            m + d
        }
    }
}

/// The value a parameter group stands for: its first colon-separated
/// sub-parameter, an empty one meaning zero.
pub open spec fn param_value(group: Seq<u8>) -> nat {
    saturating_digits(group.take(find_byte(group, 0x3a)))
}

/// How many groups an extended colour introducer at `i` covers.
pub open spec fn colour_span(groups: Seq<Seq<u8>>, i: int) -> int {
    if find_byte(groups[i], 0x3a) < groups[i].len() {
        1
    } else if i + 1 < groups.len() {
        let n = param_value(groups[i + 1]);
        if n == 2 {
            5
        } else if n == 5 {
            3
        } else {
            1
        }
    } else {
        1
    }
}

/// The carriers of the parameter groups from `i` on, in order, stepping
/// over extended colours (`38`, `48`, `58`) and their arguments.
pub open spec fn sgr_walk(groups: Seq<Seq<u8>>, i: int) -> Seq<u32>
    decreases groups.len() - i,
{
    if i < 0 || i >= groups.len() {
        Seq::empty()
    } else {
        let v = param_value(groups[i]);
        if v == 38 || v == 48 || v == 58 {
            let next = if i + colour_span(groups, i) > groups.len() {
                groups.len() as int
            } else {
                i + colour_span(groups, i)
            };
            sgr_walk(groups, next)
        } else {
            match carrier_spec(v) {
                Some(c) => seq![c] + sgr_walk(groups, i + 1),
                None => sgr_walk(groups, i + 1),
            }
        }
    }
}

/// Parameters joined with `;`.
pub open spec fn join_params(ps: Seq<u32>) -> Seq<u8>
    decreases ps.len(),
{
    if ps.len() == 0 {
        Seq::empty()
    } else if ps.len() == 1 {
        decimal(ps[0] as nat)
    } else {
        join_params(ps.drop_last()) + seq![0x3bu8] + decimal(ps.last() as nat)
    }
}

/// Whether a byte may stand in the parameters of a plain SGR.
pub open spec fn sgr_param_byte(b: u8) -> bool {
    (0x30 <= b <= 0x39) || b == 0x3b || b == 0x3a
}

/// The carrier form of one complete `ESC [ … m`: `None` when it is not a
/// plain SGR (a private prefix or an intermediate byte), else the bytes to
/// emit, empty when no parameter has a carrier.
pub open spec fn rewrite_sgr_spec(seq: Seq<u8>) -> Option<Seq<u8>> {
    if seq.len() < 3 {
        None
    } else {
        let params = seq.subrange(2, seq.len() - 1);
        if exists|j: int| 0 <= j < params.len() && !sgr_param_byte(#[trigger] params[j]) {
            None
        } else {
            let out = sgr_walk(split_bytes(params, 0x3b), 0);
            Some(
                if out.len() == 0 {
                    Seq::empty()
                } else {
                    seq![0x1bu8, 0x5bu8] + join_params(out) + seq![0x6du8]
                },
            )
        }
    }
}

/// The plain values of a vector of byte vectors.
pub open spec fn byte_texts(v: Seq<Vec<u8>>) -> Seq<Seq<u8>> {
    v.map_values(|x: Vec<u8>| x@)
}

fn split_groups(s: &[u8]) -> (r: Vec<Vec<u8>>)
    ensures
        byte_texts(r@) == split_bytes(s@, 0x3b),
        r@.len() >= 1,
{
    let mut out: Vec<Vec<u8>> = Vec::new();
    let mut start: usize = 0;
    let len = s.len();
    assert(s@.subrange(0, len as int) =~= s@);
    loop
        invariant
            start <= len == s@.len(),
            byte_texts(out@) + split_bytes(s@.subrange(start as int, len as int), 0x3b) == split_bytes(s@, 0x3b),
        decreases len - start,
    {
        let i = position(s, start, len, 0x3b);
        let ghost rest = s@.subrange(start as int, len as int);
        proof {
            lemma_find_byte(rest, 0x3b);
        }
        let mut seg: Vec<u8> = Vec::new();
        push_range(&mut seg, s, start, i);
        assert(seg@ =~= rest.take(i - start));
        let ghost before = byte_texts(out@);
        out.push(seg);
        assert(byte_texts(out@) =~= before.push(rest.take(i - start)));
        if i == len {
            proof {
                assert(rest.take(i - start) =~= rest);
                assert(before.push(rest) =~= before + seq![rest]);
            }
            return out;
        }
        proof {
            assert(rest.skip(i - start + 1) =~= s@.subrange(i + 1, len as int));
            assert(before.push(rest.take(i - start)) + split_bytes(s@.subrange(i + 1, len as int), 0x3b) =~= before + (seq![
                rest.take(i - start),
            ] + split_bytes(s@.subrange(i + 1, len as int), 0x3b)));
        }
        start = i + 1;
    }
}

proof fn lemma_saturating_step(s: Seq<u8>, k: int)
    requires
        0 <= k < s.len(),
    ensures
        saturating_digits(s.take(k + 1)) == ({
            let a = saturating_digits(s.take(k));
            let m = if a * 10 > u32::MAX {
                u32::MAX as nat
            } else {
                a * 10
            };
            let d = (s[k] - 48) as nat;
            if m + d > u32::MAX {
                u32::MAX as nat
            } else {
                m + d
            }
        }),
{
    assert(s.take(k + 1).drop_last() =~= s.take(k));
}

proof fn lemma_saturating_bound(s: Seq<u8>)
    ensures
        saturating_digits(s) <= u32::MAX,
    decreases s.len(),
{
    if s.len() > 0 {
        lemma_saturating_bound(s.drop_last());
    }
}

/// The value a parameter group stands for.
fn group_value(group: &[u8]) -> (r: u32)
    requires
        forall|j: int| 0 <= j < group@.len() ==> sgr_param_byte(#[trigger] group@[j]),
    ensures
        r as nat == param_value(group@),
{
    let end = position(group, 0, group.len(), 0x3a);
    assert(group@.subrange(0, group@.len() as int) =~= group@);
    let ghost head = group@.take(end as int);
    proof {
        lemma_find_byte(group@, 0x3a);
    }
    let mut acc: u32 = 0;
    let mut k: usize = 0;
    while k < end
        invariant
            k <= end <= group@.len(),
            head == group@.take(end as int),
            forall|j: int| 0 <= j < end ==> group@[j] != 0x3a,
            forall|j: int| 0 <= j < group@.len() ==> sgr_param_byte(#[trigger] group@[j]),
            acc as nat == saturating_digits(head.take(k as int)),
        decreases end - k,
    {
        let b = group[k];
        proof {
            lemma_saturating_step(head, k as int);
            assert(head[k as int] == b);
            assert(sgr_param_byte(group@[k as int]));
        }
        let d = (b - 48) as u32;
        let m: u32 = if acc > 429496729 {
            u32::MAX
        } else {
            acc * 10
        };
        acc = if m > u32::MAX - d {
            u32::MAX
        } else {
            m + d
        };
        k = k + 1;
    }
    assert(head.take(end as int) =~= head);
    acc
}

proof fn lemma_walk_skip(groups: Seq<Seq<u8>>, i: int)
    requires
        0 <= i < groups.len(),
        ({
            let v = param_value(groups[i]);
            v == 38 || v == 48 || v == 58
        }),
    ensures
        sgr_walk(groups, i) == sgr_walk(
            groups,
            if i + colour_span(groups, i) > groups.len() {
                groups.len() as int
            } else {
                i + colour_span(groups, i)
            },
        ),
{
}

/// Rewrite one complete `ESC [ … m` into the carrier form: `None` when it
/// is not a plain SGR and must pass verbatim, else the bytes to emit.
pub fn rewrite_sgr(seq: &[u8]) -> (r: Option<Vec<u8>>)
    ensures
        match (r, rewrite_sgr_spec(seq@)) {
            (Some(a), Some(b)) => a@ == b,
            (None, None) => true,
            _ => false,
        },
{
    let len = seq.len();
    if len < 3 {
        return None;
    }
    let ghost params_v = seq@.subrange(2, len - 1);
    let mut j: usize = 2;
    while j < len - 1
        invariant
            2 <= j <= len - 1,
            len == seq@.len(),
            params_v == seq@.subrange(2, len - 1),
            len >= 3,
            forall|q: int| 2 <= q < j ==> sgr_param_byte(#[trigger] seq@[q]),
        decreases len - 1 - j,
    {
        let b = seq[j];
        if !((0x30 <= b && b <= 0x39) || b == 0x3b || b == 0x3a) {
            assert(!sgr_param_byte(params_v[j - 2]));
            return None;
        }
        j = j + 1;
    }
    assert forall|q: int| 0 <= q < params_v.len() implies sgr_param_byte(#[trigger] params_v[q]) by {
        assert(params_v[q] == seq@[q + 2]);
    }
    let mut params: Vec<u8> = Vec::new();
    push_range(&mut params, seq, 2, len - 1);
    assert(params@ =~= params_v);
    let groups = split_groups(params.as_slice());
    let ghost gv = byte_texts(groups@);
    proof {
        lemma_split_bytes_parts(params_v, 0x3b);
    }
    let mut out: Vec<u32> = Vec::new();
    let mut i: usize = 0;
    let n = groups.len();
    assert(out@ + sgr_walk(gv, 0) =~= sgr_walk(gv, 0));
    while i < n
        invariant
            n == groups@.len() == gv.len(),
            gv == byte_texts(groups@),
            gv == split_bytes(params_v, 0x3b),
            forall|k: int, q: int| 0 <= k < gv.len() && 0 <= q < gv[k].len() ==> sgr_param_byte(#[trigger] gv[k][q]),
            out@ + sgr_walk(gv, i as int) == sgr_walk(gv, 0),
        decreases n + 5 - i,
    {
        assert(groups[i as int]@ == gv[i as int]);
        let v = group_value(groups[i].as_slice());
        if v == 38 || v == 48 || v == 58 {
            let colon = position(groups[i].as_slice(), 0, groups[i].len(), 0x3a);
            assert(groups[i as int]@.subrange(0, groups[i as int]@.len() as int) =~= groups[i as int]@);
            let step: usize = if colon < groups[i].len() {
                1
            } else if i + 1 < n {
                assert(groups[i + 1]@ == gv[i + 1]);
                let next = group_value(groups[i + 1].as_slice());
                if next == 2 {
                    5
                } else if next == 5 {
                    3
                } else {
                    1
                }
            } else {
                1
            };
            proof {
                lemma_walk_skip(gv, i as int);
                assert(step == colour_span(gv, i as int));
            }
            i = if step > n - i {
                n
            } else {
                i + step
            };
        } else {
            match carrier(v) {
                Some(c) => {
                    let ghost before = out@;
                    out.push(c);
                    assert(out@ + sgr_walk(gv, i + 1) =~= before + (seq![c] + sgr_walk(gv, i + 1)));
                },
                None => {},
            }
            i = i + 1;
        }
    }
    let mut bytes: Vec<u8> = Vec::new();
    if out.len() > 0 {
        bytes.push(0x1b);
        bytes.push(0x5b);
        let mut k: usize = 0;
        while k < out.len()
            invariant
                k <= out@.len(),
                out@.len() > 0,
                bytes@ == seq![0x1bu8, 0x5bu8] + join_params(out@.take(k as int)),
            decreases out@.len() - k,
        {
            let ghost before = bytes@;
            if k > 0 {
                bytes.push(0x3b);
            }
            push_decimal(&mut bytes, out[k] as u64);
            proof {
                assert(out@.take(k + 1).drop_last() =~= out@.take(k as int));
                if k == 0 {
                    assert(bytes@ =~= seq![0x1bu8, 0x5bu8] + join_params(out@.take(k + 1)));
                } else {
                    assert(bytes@ =~= seq![0x1bu8, 0x5bu8] + join_params(out@.take(k + 1)));
                }
            }
            k = k + 1;
        }
        assert(out@.take(out@.len() as int) =~= out@);
        bytes.push(0x6d);
    }
    proof {
        assert(sgr_walk(gv, i as int) =~= Seq::<u32>::empty());
        assert(out@ =~= sgr_walk(gv, 0));
    }
    Some(bytes)
}

/// Every part of `split_bytes(s, sep)` is a piece of `s`: its bytes are
/// bytes of `s`.
proof fn lemma_split_bytes_parts(s: Seq<u8>, sep: u8)
    requires
        forall|q: int| 0 <= q < s.len() ==> sgr_param_byte(#[trigger] s[q]),
    ensures
        forall|k: int, q: int|
            0 <= k < split_bytes(s, sep).len() && 0 <= q < split_bytes(s, sep)[k].len() ==> sgr_param_byte(
                #[trigger] split_bytes(s, sep)[k][q],
            ),
    decreases s.len(),
{
    let i = find_byte(s, sep);
    lemma_find_byte(s, sep);
    if i < s.len() {
        let rest = s.skip(i + 1);
        assert forall|q: int| 0 <= q < rest.len() implies sgr_param_byte(#[trigger] rest[q]) by {
            assert(rest[q] == s[q + i + 1]);
        }
        lemma_split_bytes_parts(rest, sep);
        let parts = split_bytes(s, sep);
        assert forall|k: int, q: int| 0 <= k < parts.len() && 0 <= q < parts[k].len() implies sgr_param_byte(
            #[trigger] parts[k][q],
        ) by {
            if k == 0 {
                assert(parts[0] == s.take(i));
                assert(parts[0][q] == s[q]);
            } else {
                assert(parts[k] == split_bytes(rest, sep)[k - 1]);
            }
        }
    }
}


/// The rewriter's state, as plain values.
pub struct RewriterModel {
    pub state: RewriteState,
    pub pending: Seq<u8>,
}

/// One byte through the rewriter: the next state and what it emits. An ESC
/// anywhere abandons what was held and starts over; a CSI's final byte ends
/// the held sequence, rewritten when it is a plain SGR; a control byte
/// inside a CSI lets the held bytes through unchanged.
pub open spec fn rewrite_step(s: RewriterModel, b: u8) -> (RewriterModel, Seq<u8>) {
    if b == 0x1b {
        (RewriterModel { state: RewriteState::Esc, pending: seq![b] }, s.pending)
    } else {
        match s.state {
            RewriteState::Ground => (s, seq![b]),
            RewriteState::Esc => if b == 0x5b {
                (RewriterModel { state: RewriteState::Csi, pending: s.pending.push(b) }, Seq::empty())
            } else {
                (RewriterModel { state: RewriteState::Ground, pending: Seq::empty() }, s.pending.push(b))
            },
            RewriteState::Csi => {
                let held = s.pending.push(b);
                if 0x20 <= b <= 0x3f {
                    (RewriterModel { state: RewriteState::Csi, pending: held }, Seq::empty())
                } else if 0x40 <= b <= 0x7e {
                    (
                        RewriterModel { state: RewriteState::Ground, pending: Seq::empty() },
                        if b == 0x6d {
                            match rewrite_sgr_spec(held) {
                                Some(r) => r,
                                None => held,
                            }
                        } else {
                            held
                        },
                    )
                } else {
                    (RewriterModel { state: RewriteState::Ground, pending: Seq::empty() }, held)
                }
            },
        }
    }
}

/// A run of bytes through the rewriter: the final state and everything it
/// emitted, in order.
pub open spec fn rewrite_feed(s: RewriterModel, bytes: Seq<u8>) -> (RewriterModel, Seq<u8>)
    decreases bytes.len(),
{
    if bytes.len() == 0 {
        (s, Seq::empty())
    } else {
        let (m, out) = rewrite_feed(s, bytes.drop_last());
        let (m2, more) = rewrite_step(m, bytes.last());
        (m2, out + more)
    }
}

/// Feeding a stream in two pieces gives what feeding it whole gives: the
/// state after both, and the first piece's output then the second's, so a
/// sequence split across chunks is neither lost nor doubled.
pub proof fn lemma_feed_split(s: RewriterModel, a: Seq<u8>, b: Seq<u8>)
    ensures
        rewrite_feed(s, a + b) == (rewrite_feed(rewrite_feed(s, a).0, b).0, rewrite_feed(s, a).1 + rewrite_feed(
            rewrite_feed(s, a).0,
            b,
        ).1),
    decreases b.len(),
{
    if b.len() == 0 {
        assert(a + b =~= a);
        assert(rewrite_feed(s, a).1 + Seq::<u8>::empty() =~= rewrite_feed(s, a).1);
    } else {
        assert((a + b).drop_last() =~= a + b.drop_last());
        assert((a + b).last() == b.last());
        lemma_feed_split(s, a, b.drop_last());
        let m = rewrite_feed(s, a).0;
        let o = rewrite_feed(s, a).1;
        let mid = rewrite_feed(m, b.drop_last());
        let step = rewrite_step(mid.0, b.last());
        assert(o + mid.1 + step.1 =~= o + (mid.1 + step.1));
    }
}

/// Bytes with no ESC among them pass through a rewriter at ground state
/// unchanged, and leave it at ground holding nothing.
pub proof fn lemma_plain_bytes_pass_through(bytes: Seq<u8>)
    requires
        forall|i: int| 0 <= i < bytes.len() ==> bytes[i] != 0x1b,
    ensures
        rewrite_feed(RewriterModel { state: RewriteState::Ground, pending: Seq::empty() }, bytes) == (
        RewriterModel { state: RewriteState::Ground, pending: Seq::empty() }, bytes),
    decreases bytes.len(),
{
    if bytes.len() > 0 {
        lemma_plain_bytes_pass_through(bytes.drop_last());
        assert(bytes.drop_last() + seq![bytes.last()] =~= bytes);
    }
}

/// The stream rewriter: bytes in, the shadow stream out. Bytes that might
/// begin a plain SGR are held back until it is known whether they do, and
/// carried over to the next call.
pub struct SgrRewriter {
    state: RewriteState,
    pending: Vec<u8>,
}

impl View for SgrRewriter {
    type V = RewriterModel;

    closed spec fn view(&self) -> RewriterModel {
        RewriterModel { state: self.state, pending: self.pending@ }
    }
}

impl SgrRewriter {
    /// A rewriter at ground state holding nothing.
    pub fn new() -> (r: Self)
        ensures
            r@ == (RewriterModel { state: RewriteState::Ground, pending: Seq::empty() }),
    {
        SgrRewriter { state: RewriteState::Ground, pending: Vec::new() }
    }

    /// The bytes held back, which may yet begin a plain SGR.
    pub fn pending(&self) -> (r: &[u8])
        ensures
            r@ == self@.pending,
    {
        self.pending.as_slice()
    }

    /// The shadow form of `bytes`: identical except that complete plain SGR
    /// sequences are replaced by their carrier form.
    pub fn rewrite_stream(&mut self, bytes: &[u8]) -> (out: Vec<u8>)
        ensures
            (final(self)@, out@) == rewrite_feed(old(self)@, bytes@),
    {
        let mut out: Vec<u8> = Vec::new();
        let mut i: usize = 0;
        while i < bytes.len()
            invariant
                i <= bytes@.len(),
                (self@, out@) == rewrite_feed(old(self)@, bytes@.take(i as int)),
            decreases bytes@.len() - i,
        {
            let b = bytes[i];
            let ghost before = self@;
            let ghost emitted = out@;
            proof {
                assert(bytes@.take(i + 1).drop_last() =~= bytes@.take(i as int));
            }
            if b == 0x1b {
                out.append(&mut self.pending);
                self.pending.push(b);
                self.state = RewriteState::Esc;
                assert(self@.pending =~= seq![b]);
            } else {
                match self.state {
                    RewriteState::Ground => {
                        out.push(b);
                    },
                    RewriteState::Esc => {
                        self.pending.push(b);
                        if b == 0x5b {
                            self.state = RewriteState::Csi;
                        } else {
                            out.append(&mut self.pending);
                            self.state = RewriteState::Ground;
                        }
                    },
                    RewriteState::Csi => {
                        self.pending.push(b);
                        if 0x20 <= b && b <= 0x3f {
                        } else if 0x40 <= b && b <= 0x7e {
                            let mut seq: Vec<u8> = Vec::new();
                            seq.append(&mut self.pending);
                            self.state = RewriteState::Ground;
                            let rewritten = if b == 0x6d {
                                rewrite_sgr(seq.as_slice())
                            } else {
                                None
                            };
                            match rewritten {
                                Some(r) => push_bytes(&mut out, r.as_slice()),
                                None => push_bytes(&mut out, seq.as_slice()),
                            }
                        } else {
                            out.append(&mut self.pending);
                            self.state = RewriteState::Ground;
                        }
                    },
                }
            }
            proof {
                let (m2, more) = rewrite_step(before, b);
                assert(self@ == m2);
                assert(out@ =~= emitted + more);
            }
            i = i + 1;
        }
        assert(bytes@.take(bytes@.len() as int) =~= bytes@);
        out
    }
}

} // verus!
