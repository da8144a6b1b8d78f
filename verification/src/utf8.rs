//! Invalid UTF-8 becomes U+FFFD before it reaches the emulator.
//!
//! Valid sequences pass through unchanged; each rejected sequence (in the
//! sense of `std::str::Utf8Error::error_len`) becomes one U+FFFD; an
//! incomplete trailing sequence is held back for the next chunk and only
//! becomes U+FFFD when the next bytes prove it will never complete, or at
//! the end of the stream.
use vstd::prelude::*;
use vstd::utf8::*;

verus! {

/// What the bytes at the front of a sequence are.
pub enum Utf8Head {
    /// A well-formed character of this many bytes.
    Char(nat),
    /// A rejected sequence of this many bytes (1 to 3).
    Invalid(nat),
    /// The start of a character the input ends in the middle of.
    Incomplete,
}

/// A continuation byte, `10xxxxxx`.
pub open spec fn is_cont(b: u8) -> bool {
    0x80 <= b <= 0xbf
}

/// The range the second byte of a multi-byte sequence must fall in, given
/// its lead byte (Unicode table 3-7).
pub open spec fn second_ok(lead: u8, b: u8) -> bool {
    if lead == 0xe0 {
        0xa0 <= b <= 0xbf
    } else if lead == 0xed {
        0x80 <= b <= 0x9f
    } else if lead == 0xf0 {
        0x90 <= b <= 0xbf
    } else if lead == 0xf4 {
        0x80 <= b <= 0x8f
    } else {
        is_cont(b)
    }
}

/// How many bytes a lead byte announces: 1 to 4, or 0 for a byte that can
/// never start a character (a continuation byte, `C0`, `C1`, `F5`–`FF`).
pub open spec fn lead_width(b: u8) -> nat {
    if b <= 0x7f {
        1
    } else if 0xc2 <= b <= 0xdf {
        2
    } else if 0xe0 <= b <= 0xef {
        3
    } else if 0xf0 <= b <= 0xf4 {
        4
    } else {
        0
    }
}

/// Classify the front of a non-empty byte sequence the way `std::str`
/// validation does.
pub open spec fn head(b: Seq<u8>) -> Utf8Head
    recommends
        b.len() > 0,
{
    let w = lead_width(b[0]);
    if w == 1 {
        Utf8Head::Char(1)
    } else if w == 0 {
        Utf8Head::Invalid(1)
    } else if b.len() < 2 {
        Utf8Head::Incomplete
    } else if !second_ok(b[0], b[1]) {
        Utf8Head::Invalid(1)
    } else if w == 2 {
        Utf8Head::Char(2)
    } else if b.len() < 3 {
        Utf8Head::Incomplete
    } else if !is_cont(b[2]) {
        Utf8Head::Invalid(2)
    } else if w == 3 {
        Utf8Head::Char(3)
    } else if b.len() < 4 {
        Utf8Head::Incomplete
    } else if !is_cont(b[3]) {
        Utf8Head::Invalid(3)
    } else {
        Utf8Head::Char(4)
    }
}

/// The UTF-8 encoding of U+FFFD.
pub open spec fn replacement() -> Seq<u8> {
    seq![0xefu8, 0xbfu8, 0xbdu8]
}

/// Sanitize a byte sequence: `(output, held back)`. Valid characters are
/// copied, each rejected sequence becomes one U+FFFD, and an incomplete
/// character at the very end is held back rather than replaced.
pub open spec fn sanitize(b: Seq<u8>) -> (Seq<u8>, Seq<u8>)
    decreases b.len(),
{
    if b.len() == 0 {
        (Seq::empty(), Seq::empty())
    } else {
        match head(b) {
            Utf8Head::Char(n) => {
                let rest = sanitize(b.skip(n as int));
                (b.take(n as int) + rest.0, rest.1)
            },
            Utf8Head::Invalid(n) => {
                let rest = sanitize(b.skip(n as int));
                (replacement() + rest.0, rest.1)
            },
            Utf8Head::Incomplete => (Seq::empty(), b),
        }
    }
}

/// The whole of a finished stream sanitized: what is held back at the end
/// is one more U+FFFD.
pub open spec fn lossy(b: Seq<u8>) -> Seq<u8> {
    let r = sanitize(b);
    if r.1.len() == 0 {
        r.0
    } else {
        r.0 + replacement()
    }
}

proof fn lemma_head_bounds(b: Seq<u8>)
    requires
        b.len() > 0,
    ensures
        head(b) matches Utf8Head::Char(n) ==> 1 <= n <= 4 && n <= b.len(),
        head(b) matches Utf8Head::Invalid(n) ==> 1 <= n <= 3 && n <= b.len(),
        head(b) is Incomplete ==> b.len() < 4 && lead_width(b[0]) > b.len(),
{
}

/// A lead byte and its continuation bytes as `std` accepts them are a valid
/// scalar in the sense of `vstd::utf8`.
proof fn lemma_char_is_valid_scalar(b: Seq<u8>, n: nat)
    requires
        b.len() > 0,
        head(b) == Utf8Head::Char(n),
    ensures
        valid_first_scalar(b),
        length_of_first_scalar(b) == n,
{
    let b0 = b[0];
    if n == 1 {
        assert(is_leading_byte_width_1(b0));
    } else if n == 2 {
        let b1 = b[1];
        assert(0xc2 <= b0 <= 0xdf && is_cont(b1));
        assert(((((b0 & 0x1f) as u32) << 6u32) | ((b1 & 0x3f) as u32)) >= 0x80) by (bit_vector)
            requires 0xc2 <= b0 <= 0xdf && 0x80 <= b1 <= 0xbf;
        assert(((((b0 & 0x1f) as u32) << 6u32) | ((b1 & 0x3f) as u32)) <= 0x7ff) by (bit_vector)
            requires 0xc2 <= b0 <= 0xdf && 0x80 <= b1 <= 0xbf;
    } else if n == 3 {
        let b1 = b[1];
        let b2 = b[2];
        assert(0xe0 <= b0 <= 0xef && second_ok(b0, b1) && is_cont(b2));
        assert({
            let cp = (((b0 & 0x0f) as u32) << 12u32) | (((b1 & 0x3f) as u32) << 6u32) | ((b2 & 0x3f) as u32);
            0x800 <= cp && !(0xd800 <= cp && cp <= 0xdfff)
        }) by (bit_vector)
            requires
                0xe0 <= b0 <= 0xef,
                0x80 <= b1 <= 0xbf,
                0x80 <= b2 <= 0xbf,
                b0 == 0xe0 ==> 0xa0 <= b1,
                b0 == 0xed ==> b1 <= 0x9f;
    } else {
        let b1 = b[1];
        let b2 = b[2];
        let b3 = b[3];
        assert(0xf0 <= b0 <= 0xf4 && second_ok(b0, b1) && is_cont(b2) && is_cont(b3));
        assert({
            let cp = (((b0 & 0x07) as u32) << 18u32) | (((b1 & 0x3f) as u32) << 12u32)
                | (((b2 & 0x3f) as u32) << 6u32) | ((b3 & 0x3f) as u32);
            0x10000 <= cp && cp <= 0x10ffff
        }) by (bit_vector)
            requires
                0xf0 <= b0 <= 0xf4,
                0x80 <= b1 <= 0xbf,
                0x80 <= b2 <= 0xbf,
                0x80 <= b3 <= 0xbf,
                b0 == 0xf0 ==> 0x90 <= b1,
                b0 == 0xf4 ==> b1 <= 0x8f;
    }
}

/// Conversely, a valid scalar in the sense of `vstd::utf8` is a character
/// `std` accepts, of the same length.
proof fn lemma_valid_scalar_is_char(b: Seq<u8>)
    requires
        b.len() > 0,
        valid_first_scalar(b),
    ensures
        head(b) == Utf8Head::Char(length_of_first_scalar(b) as nat),
{
    let b0 = b[0];
    if is_leading_byte_width_1(b0) {
    } else if is_leading_byte_width_2(b0) {
        let b1 = b[1];
        assert(0xc2 <= b0) by (bit_vector)
            requires
                0xc0 <= b0 <= 0xdf,
                0x80 <= b1 <= 0xbf,
                0x80 <= ((((b0 & 0x1f) as u32) << 6u32) | ((b1 & 0x3f) as u32));
    } else if is_leading_byte_width_3(b0) {
        let b1 = b[1];
        let b2 = b[2];
        assert((b0 == 0xe0 ==> 0xa0 <= b1) && (b0 == 0xed ==> b1 <= 0x9f)) by (bit_vector)
            requires
                0xe0 <= b0 <= 0xef,
                0x80 <= b1 <= 0xbf,
                0x80 <= b2 <= 0xbf,
                ({
                    let cp = (((b0 & 0x0f) as u32) << 12u32) | (((b1 & 0x3f) as u32) << 6u32) | ((b2 & 0x3f) as u32);
                    0x800 <= cp && !(0xd800 <= cp && cp <= 0xdfff)
                });
    } else {
        let b1 = b[1];
        let b2 = b[2];
        let b3 = b[3];
        assert(b0 <= 0xf4 && (b0 == 0xf0 ==> 0x90 <= b1) && (b0 == 0xf4 ==> b1 <= 0x8f)) by (bit_vector)
            requires
                0xf0 <= b0 <= 0xf7,
                0x80 <= b1 <= 0xbf,
                0x80 <= b2 <= 0xbf,
                0x80 <= b3 <= 0xbf,
                ({
                    let cp = (((b0 & 0x07) as u32) << 18u32) | (((b1 & 0x3f) as u32) << 12u32)
                        | (((b2 & 0x3f) as u32) << 6u32) | ((b3 & 0x3f) as u32);
                    0x10000 <= cp && cp <= 0x10ffff
                });
    }
}

proof fn lemma_replacement_valid()
    ensures
        valid_utf8(replacement()),
{
    let r = replacement();
    assert(head(r) == Utf8Head::Char(3));
    lemma_char_is_valid_scalar(r, 3);
    assert(pop_first_scalar(r) =~= Seq::<u8>::empty());
    assert(valid_utf8(Seq::<u8>::empty()));
}

proof fn lemma_valid_prepend(first: Seq<u8>, rest: Seq<u8>)
    requires
        first.len() > 0,
        head(first + rest) == Utf8Head::Char(first.len()),
        valid_utf8(rest),
    ensures
        valid_utf8(first + rest),
{
    let b = first + rest;
    lemma_char_is_valid_scalar(b, first.len());
    assert(pop_first_scalar(b) =~= rest);
}

/// Everything the sanitizer emits is valid UTF-8.
pub proof fn lemma_sanitize_valid(b: Seq<u8>)
    ensures
        valid_utf8(sanitize(b).0),
    decreases b.len(),
{
    if b.len() > 0 {
        lemma_head_bounds(b);
        match head(b) {
            Utf8Head::Char(n) => {
                lemma_sanitize_valid(b.skip(n as int));
                let rest = sanitize(b.skip(n as int)).0;
                let first = b.take(n as int);
                assert(head(first + rest) == head(b)) by {
                    assert((first + rest)[0] == b[0]);
                    if n >= 2 { assert((first + rest)[1] == b[1]); }
                    if n >= 3 { assert((first + rest)[2] == b[2]); }
                    if n >= 4 { assert((first + rest)[3] == b[3]); }
                }
                lemma_valid_prepend(first, rest);
            },
            Utf8Head::Invalid(n) => {
                lemma_sanitize_valid(b.skip(n as int));
                lemma_replacement_valid();
                valid_utf8_concat(replacement(), sanitize(b.skip(n as int)).0);
            },
            Utf8Head::Incomplete => {},
        }
    }
}

/// A finished stream sanitizes to valid UTF-8.
pub proof fn lemma_lossy_valid(b: Seq<u8>)
    ensures
        valid_utf8(lossy(b)),
{
    lemma_sanitize_valid(b);
    lemma_replacement_valid();
    if sanitize(b).1.len() != 0 {
        valid_utf8_concat(sanitize(b).0, replacement());
    }
}

/// Valid UTF-8 passes through the sanitizer untouched, with nothing held
/// back.
pub proof fn lemma_valid_passes_through(b: Seq<u8>)
    requires
        valid_utf8(b),
    ensures
        sanitize(b).0 == b,
        sanitize(b).1.len() == 0,
        lossy(b) == b,
    decreases b.len(),
{
    if b.len() > 0 {
        lemma_valid_scalar_is_char(b);
        let n = length_of_first_scalar(b);
        assert(pop_first_scalar(b) =~= b.skip(n));
        lemma_valid_passes_through(b.skip(n));
        assert(b.take(n) + b.skip(n) =~= b);
    }
}

proof fn lemma_sanitize_unfold(b: Seq<u8>)
    requires
        b.len() > 0,
    ensures
        head(b) matches Utf8Head::Char(n) ==> sanitize(b).0 == b.take(n as int) + sanitize(b.skip(n as int)).0
            && sanitize(b).1 == sanitize(b.skip(n as int)).1,
        head(b) matches Utf8Head::Invalid(n) ==> sanitize(b).0 == replacement() + sanitize(b.skip(n as int)).0
            && sanitize(b).1 == sanitize(b.skip(n as int)).1,
        head(b) is Incomplete ==> sanitize(b).0 == Seq::<u8>::empty() && sanitize(b).1 == b,
{
}

/// Classify the bytes of `b` from index `i` on.
fn classify(b: &[u8], i: usize) -> (h: (u8, usize))
    requires
        i < b@.len(),
    ensures
        h.0 == 0 ==> head(b@.skip(i as int)) == Utf8Head::Char(h.1 as nat),
        h.0 == 1 ==> head(b@.skip(i as int)) == Utf8Head::Invalid(h.1 as nat),
        h.0 == 2 ==> head(b@.skip(i as int)) is Incomplete,
        h.0 <= 2,
{
    let ghost s = b@.skip(i as int);
    let len = b.len() - i;
    let b0 = b[i];
    let w: usize = if b0 <= 0x7f {
        1
    } else if 0xc2 <= b0 && b0 <= 0xdf {
        2
    } else if 0xe0 <= b0 && b0 <= 0xef {
        3
    } else if 0xf0 <= b0 && b0 <= 0xf4 {
        4
    } else {
        0
    };
    assert(w as nat == lead_width(s[0]));
    if w == 1 {
        return (0, 1);
    }
    if w == 0 {
        return (1, 1);
    }
    if len < 2 {
        return (2, 0);
    }
    let b1 = b[i + 1];
    let ok = if b0 == 0xe0 {
        0xa0 <= b1 && b1 <= 0xbf
    } else if b0 == 0xed {
        0x80 <= b1 && b1 <= 0x9f
    } else if b0 == 0xf0 {
        0x90 <= b1 && b1 <= 0xbf
    } else if b0 == 0xf4 {
        0x80 <= b1 && b1 <= 0x8f
    } else {
        0x80 <= b1 && b1 <= 0xbf
    };
    assert(ok == second_ok(s[0], s[1]));
    if !ok {
        return (1, 1);
    }
    if w == 2 {
        return (0, 2);
    }
    if len < 3 {
        return (2, 0);
    }
    let b2 = b[i + 2];
    if !(0x80 <= b2 && b2 <= 0xbf) {
        return (1, 2);
    }
    if w == 3 {
        return (0, 3);
    }
    if len < 4 {
        return (2, 0);
    }
    let b3 = b[i + 3];
    if !(0x80 <= b3 && b3 <= 0xbf) {
        return (1, 3);
    }
    (0, 4)
}

/// Sanitize `input`: the output, and the tail to hold back.
fn sanitize_bytes(input: &[u8]) -> (r: (Vec<u8>, Vec<u8>))
    ensures
        r.0@ == sanitize(input@).0,
        r.1@ == sanitize(input@).1,
{
    let mut out: Vec<u8> = Vec::new();
    let mut i: usize = 0;
    proof {
        assert(input@.skip(0) =~= input@);
        assert(out@ + sanitize(input@).0 =~= sanitize(input@).0);
    }
    while i < input.len()
        invariant
            i <= input@.len(),
            out@ + sanitize(input@.skip(i as int)).0 == sanitize(input@).0,
            sanitize(input@.skip(i as int)).1 == sanitize(input@).1,
        decreases input@.len() - i,
    {
        let ghost s = input@.skip(i as int);
        proof {
            lemma_head_bounds(s);
            lemma_sanitize_unfold(s);
        }
        let (kind, n) = classify(input, i);
        if kind == 2 {
            let mut carry: Vec<u8> = Vec::new();
            crate::text::push_range(&mut carry, input, i, input.len());
            proof {
                assert(carry@ =~= s);
                assert(out@ + Seq::<u8>::empty() =~= out@);
            }
            return (out, carry);
        }
        let ghost before = out@;
        if kind == 0 {
            crate::text::push_range(&mut out, input, i, i + n);
            proof {
                assert(input@.subrange(i as int, i + n) =~= s.take(n as int));
            }
        } else {
            out.push(0xef);
            out.push(0xbf);
            out.push(0xbd);
            proof {
                assert(out@ =~= before + replacement());
            }
        }
        proof {
            assert(s.skip(n as int) =~= input@.skip(i + n));
            assert((out@ + sanitize(input@.skip(i + n)).0) =~= before + sanitize(s).0);
        }
        i = i + n;
    }
    proof {
        assert(input@.skip(i as int) =~= Seq::<u8>::empty());
        assert(out@ + Seq::<u8>::empty() =~= out@);
    }
    (out, Vec::new())
}

/// A streaming UTF-8 sanitizer: valid sequences pass through unchanged,
/// invalid ones become U+FFFD, and an incomplete trailing sequence waits for
/// the next chunk.
#[derive(Debug, Default)]
pub struct Utf8Sanitizer {
    /// The incomplete tail of the previous chunk.
    carry: Vec<u8>,
}

impl View for Utf8Sanitizer {
    type V = Seq<u8>;

    /// The bytes held back: the incomplete tail of the stream so far.
    closed spec fn view(&self) -> Seq<u8> {
        self.carry@
    }
}

impl Utf8Sanitizer {
    /// A sanitizer with nothing held back.
    pub fn new() -> (s: Self)
        ensures
            s@ == Seq::<u8>::empty(),
    {
        Utf8Sanitizer { carry: Vec::new() }
    }

    /// Sanitize one chunk: what was held back followed by `bytes`. The
    /// result is always valid UTF-8; bytes that might still complete a
    /// character are held back for the next call.
    pub fn feed(&mut self, bytes: &[u8]) -> (out: Vec<u8>)
        ensures
            out@ == sanitize(old(self)@ + bytes@).0,
            final(self)@ == sanitize(old(self)@ + bytes@).1,
            valid_utf8(out@),
    {
        let mut input: Vec<u8> = Vec::new();
        crate::text::push_bytes(&mut input, self.carry.as_slice());
        crate::text::push_bytes(&mut input, bytes);
        let (out, carry) = sanitize_bytes(input.as_slice());
        self.carry = carry;
        proof { lemma_sanitize_valid(input@); }
        out
    }

    /// True while a partial character is being held back.
    pub fn pending(&self) -> (b: bool)
        ensures
            b == (self@.len() > 0),
    {
        self.carry.len() > 0
    }

    /// At end of stream: whatever is still held back was never completed,
    /// and becomes one U+FFFD.
    pub fn finish(&mut self) -> (out: Vec<u8>)
        ensures
            old(self)@.len() == 0 ==> out@ == Seq::<u8>::empty(),
            old(self)@.len() > 0 ==> out@ == replacement(),
            final(self)@ == Seq::<u8>::empty(),
    {
        if self.carry.len() == 0 {
            return Vec::new();
        }
        self.carry = Vec::new();
        vec![0xef, 0xbf, 0xbd]
    }
}

/// The bytes of a finished stream, sanitized: valid characters kept, every
/// rejected or unfinished sequence one U+FFFD.
pub fn lossy_bytes(input: &[u8]) -> (out: Vec<u8>)
    ensures
        out@ == lossy(input@),
        valid_utf8(out@),
{
    let (mut out, carry) = sanitize_bytes(input);
    if carry.len() > 0 {
        out.push(0xef);
        out.push(0xbf);
        out.push(0xbd);
        proof { assert(out@ =~= sanitize(input@).0 + replacement()); }
    }
    proof { lemma_lossy_valid(input@); }
    out
}

/// A decided front stays decided, the same way, whatever follows it.
proof fn lemma_head_extends(a: Seq<u8>, b: Seq<u8>)
    requires
        a.len() > 0,
        !(head(a) is Incomplete),
    ensures
        head(a + b) == head(a),
        head(a) matches Utf8Head::Char(n) ==> 1 <= n <= a.len(),
        head(a) matches Utf8Head::Invalid(n) ==> 1 <= n <= a.len(),
{
    let ab = a + b;
    assert(ab[0] == a[0]);
    if a.len() >= 2 {
        assert(ab[1] == a[1]);
    }
    if a.len() >= 3 {
        assert(ab[2] == a[2]);
    }
    if a.len() >= 4 {
        assert(ab[3] == a[3]);
    }
}

/// Sanitizing a stream in two pieces, the second after what the first
/// held back, gives what sanitizing it whole gives.
pub proof fn lemma_sanitize_split(a: Seq<u8>, b: Seq<u8>)
    ensures
        sanitize(a + b) == (
            sanitize(a).0 + sanitize(sanitize(a).1 + b).0,
            sanitize(sanitize(a).1 + b).1,
        ),
    decreases a.len(),
{
    if a.len() == 0 {
        assert(a + b =~= b);
        assert(Seq::<u8>::empty() + b =~= b);
        assert(Seq::<u8>::empty() + sanitize(b).0 =~= sanitize(b).0);
    } else {
        match head(a) {
            Utf8Head::Incomplete => {
                assert(Seq::<u8>::empty() + sanitize(a + b).0 =~= sanitize(a + b).0);
            },
            Utf8Head::Char(n) => {
                lemma_head_extends(a, b);
                assert((a + b).skip(n as int) =~= a.skip(n as int) + b);
                assert((a + b).take(n as int) =~= a.take(n as int));
                lemma_sanitize_split(a.skip(n as int), b);
                let r = sanitize(a.skip(n as int));
                assert(a.take(n as int) + r.0 + sanitize(r.1 + b).0 =~= a.take(n as int) + (r.0 + sanitize(
                    r.1 + b,
                ).0));
            },
            Utf8Head::Invalid(n) => {
                lemma_head_extends(a, b);
                assert((a + b).skip(n as int) =~= a.skip(n as int) + b);
                lemma_sanitize_split(a.skip(n as int), b);
                let r = sanitize(a.skip(n as int));
                assert(replacement() + r.0 + sanitize(r.1 + b).0 =~= replacement() + (r.0 + sanitize(r.1 + b).0));
            },
        }
    }
}

/// The chunks of a stream laid end to end.
pub open spec fn joined(chunks: Seq<Seq<u8>>) -> Seq<u8>
    decreases chunks.len(),
{
    if chunks.len() == 0 {
        Seq::empty()
    } else {
        joined(chunks.drop_last()) + chunks.last()
    }
}

/// What a sanitizer hands out over a stream fed as `chunks`, in turn, and
/// what it holds back at the end.
pub open spec fn sanitize_chunks(chunks: Seq<Seq<u8>>) -> (Seq<u8>, Seq<u8>)
    decreases chunks.len(),
{
    if chunks.len() == 0 {
        (Seq::empty(), Seq::empty())
    } else {
        let prev = sanitize_chunks(chunks.drop_last());
        let step = sanitize(prev.1 + chunks.last());
        (prev.0 + step.0, step.1)
    }
}

/// However a stream is cut into chunks, what the sanitizer hands out is
/// what sanitizing the whole stream gives; with the end-of-stream
/// replacement for what is still held back, it is the lossy decoding of
/// the whole.
pub proof fn lemma_chunking_does_not_matter(chunks: Seq<Seq<u8>>)
    ensures
        sanitize_chunks(chunks) == sanitize(joined(chunks)),
        (if sanitize_chunks(chunks).1.len() == 0 {
            sanitize_chunks(chunks).0
        } else {
            sanitize_chunks(chunks).0 + replacement()
        }) == lossy(joined(chunks)),
    decreases chunks.len(),
{
    if chunks.len() > 0 {
        lemma_chunking_does_not_matter(chunks.drop_last());
        lemma_sanitize_split(joined(chunks.drop_last()), chunks.last());
    }
}

} // verus!
