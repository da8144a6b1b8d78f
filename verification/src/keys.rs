//! Typed key input and its byte encodings.
//!
//! Every [`Key`] maps to the byte sequence an xterm-compatible terminal sends
//! in its default modes; a [`Chord`] adds modifiers to a special key in the
//! xterm CSI-modifier form. Mouse reports come in the three encodings an
//! application can select.
use vstd::prelude::*;
use vstd::utf8::encode_utf8;
use crate::text::{char_from_u32, decimal, encode_char, push_bytes, push_decimal};

verus! {

/// A key press to send to the terminal.
#[derive(Debug, Clone, Copy, PartialEq, Eq, Hash)]
pub enum Key {
    /// A literal character, sent as its UTF-8 bytes.
    Char(char),
    /// Enter / Return: CR.
    Enter,
    /// The Escape key alone.
    Esc,
    /// Tab.
    Tab,
    /// Shift-Tab (`ESC [ Z`).
    BackTab,
    /// Backspace: DEL (`0x7F`).
    Backspace,
    /// Forward delete (`ESC [ 3 ~`).
    Delete,
    /// Up arrow.
    Up,
    /// Down arrow.
    Down,
    /// Left arrow.
    Left,
    /// Right arrow.
    Right,
    /// Home.
    Home,
    /// End.
    End,
    /// Page Up.
    PageUp,
    /// Page Down.
    PageDown,
    /// Function key F1–F12.
    F(u8),
    /// A Control chord over a character.
    Ctrl(char),
    /// An Alt (Meta) chord: ESC followed by the character.
    Alt(char),
}

/// The control byte for `Ctrl(c)`, when `c` has one: letters (either
/// case), `@ [ \ ] ^ _`, space and `?`.
pub open spec fn ctrl_code(c: char) -> Option<u8> {
    let v = c as u32;
    if (0x61 <= v && v <= 0x7a) || (0x41 <= v && v <= 0x5a) || v == 0x40 || v == 0x5b
        || v == 0x5c || v == 0x5d || v == 0x5e || v == 0x5f {
        Some((v % 32) as u8)
    } else if v == 0x20 {
        Some(0u8)
    } else if v == 0x3f {
        Some(0x7fu8)
    } else {
        None
    }
}

/// Whether a key has an encoding at all: `F(n)` only for 1..=12, `Ctrl(c)`
/// only for characters with a control code.
pub open spec fn key_encodable(key: Key) -> bool {
    match key {
        Key::F(n) => 1 <= n <= 12,
        Key::Ctrl(c) => ctrl_code(c) is Some,
        _ => true,
    }
}

/// `ESC [` followed by `tail`.
pub open spec fn csi(tail: Seq<u8>) -> Seq<u8> {
    seq![0x1bu8, 0x5bu8] + tail
}

/// The bytes of function key `n` (1..=12), xterm's defaults.
pub open spec fn function_key_bytes(n: u8) -> Seq<u8> {
    if n == 1 { seq![0x1bu8, 0x4f, 0x50] }
    else if n == 2 { seq![0x1bu8, 0x4f, 0x51] }
    else if n == 3 { seq![0x1bu8, 0x4f, 0x52] }
    else if n == 4 { seq![0x1bu8, 0x4f, 0x53] }
    else { csi(decimal(tilde_number(n) as nat).push(0x7e)) }
}

/// The `n` of `ESC [ n ~` for F5–F12.
pub open spec fn tilde_number(n: u8) -> u8 {
    if n == 5 { 15 }
    else if n <= 10 { (11 + n) as u8 }
    else if n == 11 { 23 }
    else { 24 }
}

/// The exact bytes a key sends.
pub open spec fn key_bytes(key: Key) -> Seq<u8> {
    match key {
        Key::Char(c) => encode_utf8(seq![c]),
        Key::Enter => seq![0x0du8],
        Key::Esc => seq![0x1bu8],
        Key::Tab => seq![0x09u8],
        Key::BackTab => csi(seq![0x5au8]),
        Key::Backspace => seq![0x7fu8],
        Key::Delete => csi(seq![0x33u8, 0x7e]),
        Key::Up => csi(seq![0x41u8]),
        Key::Down => csi(seq![0x42u8]),
        Key::Right => csi(seq![0x43u8]),
        Key::Left => csi(seq![0x44u8]),
        Key::Home => csi(seq![0x48u8]),
        Key::End => csi(seq![0x46u8]),
        Key::PageUp => csi(seq![0x35u8, 0x7e]),
        Key::PageDown => csi(seq![0x36u8, 0x7e]),
        Key::F(n) => function_key_bytes(n),
        Key::Ctrl(c) => seq![ctrl_code(c).unwrap()],
        Key::Alt(c) => seq![0x1bu8] + encode_utf8(seq![c]),
    }
}

fn ctrl_byte(c: char) -> (b: u8)
    requires
        ctrl_code(c) is Some,
    ensures
        b == ctrl_code(c).unwrap(),
{
    let v = c as u32;
    if v == 0x20 {
        0
    } else if v == 0x3f {
        0x7f
    } else {
        (v % 32) as u8
    }
}

impl Key {
    /// The exact bytes this key sends, per xterm defaults. Only F1–F12 and
    /// `Ctrl` over a character with a control code have an encoding.
    pub fn encode(self) -> (bytes: Vec<u8>)
        requires
            key_encodable(self),
        ensures
            bytes@ == key_bytes(self),
    {
        match self {
            Key::Char(c) => encode_char(c),
            Key::Enter => vec![0x0d],
            Key::Esc => vec![0x1b],
            Key::Tab => vec![0x09],
            Key::BackTab => vec![0x1b, 0x5b, 0x5a],
            Key::Backspace => vec![0x7f],
            Key::Delete => vec![0x1b, 0x5b, 0x33, 0x7e],
            Key::Up => vec![0x1b, 0x5b, 0x41],
            Key::Down => vec![0x1b, 0x5b, 0x42],
            Key::Right => vec![0x1b, 0x5b, 0x43],
            Key::Left => vec![0x1b, 0x5b, 0x44],
            Key::Home => vec![0x1b, 0x5b, 0x48],
            Key::End => vec![0x1b, 0x5b, 0x46],
            Key::PageUp => vec![0x1b, 0x5b, 0x35, 0x7e],
            Key::PageDown => vec![0x1b, 0x5b, 0x36, 0x7e],
            Key::F(n) => {
                if n == 1 {
                    vec![0x1b, 0x4f, 0x50]
                } else if n == 2 {
                    vec![0x1b, 0x4f, 0x51]
                } else if n == 3 {
                    vec![0x1b, 0x4f, 0x52]
                } else if n == 4 {
                    vec![0x1b, 0x4f, 0x53]
                } else {
                    let number: u8 = if n == 5 {
                        15
                    } else if n <= 10 {
                        11 + n
                    } else if n == 11 {
                        23
                    } else {
                        24
                    };
                    let mut out: Vec<u8> = vec![0x1b, 0x5b];
                    push_decimal(&mut out, number as u64);
                    out.push(0x7e);
                    out
                }
            },
            Key::Ctrl(c) => vec![ctrl_byte(c)],
            Key::Alt(c) => {
                let mut out: Vec<u8> = vec![0x1b];
                let tail = encode_char(c);
                push_bytes(&mut out, tail.as_slice());
                out
            },
        }
    }

    /// A `Ctrl` chord over this special key.
    pub fn ctrl(self) -> (chord: Chord)
        requires
            chord_base(self) is Some,
        ensures
            chord@ == (ChordModel { key: self, ctrl: true, alt: false, shift: false }),
    {
        Chord::over(self).ctrl()
    }

    /// An `Alt` chord over this special key.
    pub fn alt(self) -> (chord: Chord)
        requires
            chord_base(self) is Some,
        ensures
            chord@ == (ChordModel { key: self, ctrl: false, alt: true, shift: false }),
    {
        Chord::over(self).alt()
    }

    /// A `Shift` chord over this special key.
    pub fn shift(self) -> (chord: Chord)
        requires
            chord_base(self) is Some,
        ensures
            chord@ == (ChordModel { key: self, ctrl: false, alt: false, shift: true }),
    {
        Chord::over(self).shift()
    }
}

/// How a special key is written in the CSI-modifier form.
pub enum ChordBase {
    /// `ESC [ 1 ; m <letter>`.
    Letter(u8),
    /// `ESC [ n ; m ~`.
    Tilde(u8),
}

/// The CSI-modifier form of a key, for the special keys that have one.
pub open spec fn chord_base(key: Key) -> Option<ChordBase> {
    match key {
        Key::Up => Some(ChordBase::Letter(0x41)),
        Key::Down => Some(ChordBase::Letter(0x42)),
        Key::Right => Some(ChordBase::Letter(0x43)),
        Key::Left => Some(ChordBase::Letter(0x44)),
        Key::Home => Some(ChordBase::Letter(0x48)),
        Key::End => Some(ChordBase::Letter(0x46)),
        Key::F(n) => if 1 <= n <= 4 {
            Some(ChordBase::Letter((0x4f + n) as u8))
        } else if 5 <= n <= 12 {
            Some(ChordBase::Tilde(tilde_number(n)))
        } else {
            None
        },
        Key::Delete => Some(ChordBase::Tilde(3)),
        Key::PageUp => Some(ChordBase::Tilde(5)),
        Key::PageDown => Some(ChordBase::Tilde(6)),
        _ => None,
    }
}

fn exec_chord_base(key: Key) -> (base: Option<ChordBase>)
    ensures
        base == chord_base(key),
{
    match key {
        Key::Up => Some(ChordBase::Letter(0x41)),
        Key::Down => Some(ChordBase::Letter(0x42)),
        Key::Right => Some(ChordBase::Letter(0x43)),
        Key::Left => Some(ChordBase::Letter(0x44)),
        Key::Home => Some(ChordBase::Letter(0x48)),
        Key::End => Some(ChordBase::Letter(0x46)),
        Key::F(n) => if 1 <= n && n <= 4 {
            Some(ChordBase::Letter(0x4f + n))
        } else if 5 <= n && n <= 12 {
            let number: u8 = if n == 5 {
                15
            } else if n <= 10 {
                11 + n
            } else if n == 11 {
                23
            } else {
                24
            };
            Some(ChordBase::Tilde(number))
        } else {
            None
        },
        Key::Delete => Some(ChordBase::Tilde(3)),
        Key::PageUp => Some(ChordBase::Tilde(5)),
        Key::PageDown => Some(ChordBase::Tilde(6)),
        _ => None,
    }
}

/// A modifier chord over a special key — `Ctrl-Right`, `Shift-Up`,
/// `Ctrl-Shift-F5`.
#[derive(Debug, Clone, Copy, PartialEq, Eq, Hash)]
pub struct Chord {
    key: Key,
    ctrl: bool,
    alt: bool,
    shift: bool,
}

/// What a chord is: a key with a CSI-modifier form and three modifier flags.
pub struct ChordModel {
    pub key: Key,
    pub ctrl: bool,
    pub alt: bool,
    pub shift: bool,
}

impl View for Chord {
    type V = ChordModel;

    closed spec fn view(&self) -> ChordModel {
        ChordModel { key: self.key, ctrl: self.ctrl, alt: self.alt, shift: self.shift }
    }
}

/// The xterm modifier parameter: `1 + shift + 2·alt + 4·ctrl`.
pub open spec fn modifier_value(ctrl: bool, alt: bool, shift: bool) -> nat {
    1 + (if shift { 1nat } else { 0nat }) + (if alt { 2nat } else { 0nat }) + (if ctrl { 4nat } else { 0nat })
}

/// The exact bytes a chord sends.
pub open spec fn chord_bytes(c: ChordModel) -> Seq<u8> {
    let m = modifier_value(c.ctrl, c.alt, c.shift);
    match chord_base(c.key) {
        Some(ChordBase::Letter(l)) => csi(seq![0x31u8, 0x3b] + decimal(m).push(l)),
        Some(ChordBase::Tilde(n)) => csi(decimal(n as nat) + seq![0x3bu8] + decimal(m).push(0x7e)),
        None => Seq::empty(),
    }
}

impl Chord {
    #[verifier::type_invariant]
    spec fn has_chord_form(self) -> bool {
        chord_base(self.key) is Some
    }

    fn over(key: Key) -> (chord: Chord)
        requires
            chord_base(key) is Some,
        ensures
            chord@ == (ChordModel { key, ctrl: false, alt: false, shift: false }),
    {
        Chord { key, ctrl: false, alt: false, shift: false }
    }

    /// The chord's key; always one with a CSI-modifier form.
    pub fn key(&self) -> (key: Key)
        ensures
            key == self@.key,
            chord_base(key) is Some,
    {
        proof { use_type_invariant(self); }
        self.key
    }

    /// Add `Ctrl` to the chord.
    pub fn ctrl(self) -> (chord: Chord)
        ensures
            chord@ == (ChordModel { ctrl: true, ..self@ }),
    {
        proof { use_type_invariant(&self); }
        Chord { key: self.key, ctrl: true, alt: self.alt, shift: self.shift }
    }

    /// Add `Alt` to the chord.
    pub fn alt(self) -> (chord: Chord)
        ensures
            chord@ == (ChordModel { alt: true, ..self@ }),
    {
        proof { use_type_invariant(&self); }
        Chord { key: self.key, ctrl: self.ctrl, alt: true, shift: self.shift }
    }

    /// Add `Shift` to the chord.
    pub fn shift(self) -> (chord: Chord)
        ensures
            chord@ == (ChordModel { shift: true, ..self@ }),
    {
        proof { use_type_invariant(&self); }
        Chord { key: self.key, ctrl: self.ctrl, alt: self.alt, shift: true }
    }

    /// The exact bytes this chord sends: `ESC [ 1 ; m <letter>` or
    /// `ESC [ n ; m ~`, where `m` is `1 + shift + 2·alt + 4·ctrl`.
    pub fn encode(&self) -> (bytes: Vec<u8>)
        ensures
            bytes@ == chord_bytes(self@),
            bytes@.len() > 0,
    {
        proof { use_type_invariant(self); }
        let modifier: u8 = 1 + (if self.shift { 1u8 } else { 0u8 }) + (if self.alt { 2u8 } else { 0u8 })
            + (if self.ctrl { 4u8 } else { 0u8 });
        let mut out: Vec<u8> = vec![0x1b, 0x5b];
        match exec_chord_base(self.key) {
            Some(ChordBase::Letter(l)) => {
                out.push(0x31);
                out.push(0x3b);
                push_decimal(&mut out, modifier as u64);
                out.push(l);
            },
            Some(ChordBase::Tilde(n)) => {
                push_decimal(&mut out, n as u64);
                out.push(0x3b);
                push_decimal(&mut out, modifier as u64);
                out.push(0x7e);
            },
            None => {},
        }
        proof {
            assert(modifier as nat == modifier_value(self.ctrl, self.alt, self.shift));
        }
        out
    }
}

/// The final byte of a key's application-cursor (DECCKM) form,
/// `ESC O <final>`: the arrows, Home and End have one.
pub open spec fn ss3_final(key: Key) -> Option<u8> {
    match key {
        Key::Up => Some(0x41u8),
        Key::Down => Some(0x42u8),
        Key::Right => Some(0x43u8),
        Key::Left => Some(0x44u8),
        Key::Home => Some(0x48u8),
        Key::End => Some(0x46u8),
        _ => None,
    }
}

/// Anything a terminal can send as typed input: a [`Key`] or a [`Chord`].
pub trait Input {
    /// Whether this input has an encoding.
    spec fn sendable(&self) -> bool;

    /// The bytes this input sends when application cursor mode is
    /// `application_cursor`.
    spec fn input_bytes(&self, application_cursor: bool) -> Seq<u8>;

    /// Encode for the wire.
    fn encode_modal(&self, application_cursor: bool) -> (bytes: Vec<u8>)
        requires
            self.sendable(),
        ensures
            bytes@ == self.input_bytes(application_cursor);
}

impl Input for Key {
    open spec fn sendable(&self) -> bool {
        key_encodable(*self)
    }

    open spec fn input_bytes(&self, application_cursor: bool) -> Seq<u8> {
        match (application_cursor, ss3_final(*self)) {
            (true, Some(f)) => seq![0x1bu8, 0x4fu8, f],
            _ => key_bytes(*self),
        }
    }

    fn encode_modal(&self, application_cursor: bool) -> (bytes: Vec<u8>) {
        if application_cursor {
            let f: Option<u8> = match *self {
                Key::Up => Some(0x41u8),
                Key::Down => Some(0x42u8),
                Key::Right => Some(0x43u8),
                Key::Left => Some(0x44u8),
                Key::Home => Some(0x48u8),
                Key::End => Some(0x46u8),
                _ => None,
            };
            if let Some(f) = f {
                return vec![0x1bu8, 0x4fu8, f];
            }
        }
        self.encode()
    }
}

impl Input for Chord {
    open spec fn sendable(&self) -> bool {
        true
    }

    open spec fn input_bytes(&self, application_cursor: bool) -> Seq<u8> {
        chord_bytes(self@)
    }

    fn encode_modal(&self, application_cursor: bool) -> (bytes: Vec<u8>) {
        self.encode()
    }
}

/// SGR (mode 1006) mouse report: `ESC [ < b ; col+1 ; row+1 M`, or `m` for
/// a release.
pub open spec fn mouse_sgr_bytes(button: u8, col: u16, row: u16, press: bool) -> Seq<u8> {
    csi(seq![0x3cu8] + decimal(button as nat) + seq![0x3bu8] + decimal(col as nat + 1)
        + seq![0x3bu8] + decimal(row as nat + 1) + seq![if press { 0x4du8 } else { 0x6du8 }])
}

/// SGR (1006) mouse report. `press = false` is the release form.
pub fn mouse_sgr(button: u8, col: u16, row: u16, press: bool) -> (bytes: Vec<u8>)
    ensures
        bytes@ == mouse_sgr_bytes(button, col, row, press),
{
    let mut out: Vec<u8> = vec![0x1b, 0x5b, 0x3c];
    push_decimal(&mut out, button as u64);
    out.push(0x3b);
    push_decimal(&mut out, col as u64 + 1);
    out.push(0x3b);
    push_decimal(&mut out, row as u64 + 1);
    out.push(if press { 0x4d } else { 0x6d });
    proof {
        assert(out@ =~= mouse_sgr_bytes(button, col, row, press));
    }
    out
}

/// Legacy (X10/normal) mouse report: `ESC [ M Cb Cx Cy`, each a byte of
/// value 32 plus the button, and 33 plus the column and row.
pub fn mouse_legacy(button: u8, col: u16, row: u16) -> (bytes: Vec<u8>)
    requires
        button <= 223,
        col <= 222,
        row <= 222,
    ensures
        bytes@ == csi(seq![0x4du8, (32 + button) as u8, (33 + col) as u8, (33 + row) as u8]),
{
    let out: Vec<u8> = vec![0x1b, 0x5b, 0x4d, 32 + button, 33 + col as u8, 33 + row as u8];
    proof {
        assert(out@ =~= csi(seq![0x4du8, (32 + button) as u8, (33 + col) as u8, (33 + row) as u8]));
    }
    out
}

/// UTF-8 (mode 1005) mouse report: like the legacy form, with each
/// coordinate value (33 plus the position) written as a UTF-8 character.
pub fn mouse_utf8(button: u8, col: u16, row: u16) -> (bytes: Vec<u8>)
    requires
        button <= 223,
        col <= 2014,
        row <= 2014,
    ensures
        bytes@ == csi(seq![0x4du8, (32 + button) as u8]) + encode_utf8(seq![((33 + col) as u32) as char])
            + encode_utf8(seq![((33 + row) as u32) as char]),
{
    let mut out: Vec<u8> = vec![0x1b, 0x5b, 0x4d, 32 + button];
    let x = char_of(33 + col as u32);
    let y = char_of(33 + row as u32);
    let xs = encode_char(x);
    let ys = encode_char(y);
    push_bytes(&mut out, xs.as_slice());
    push_bytes(&mut out, ys.as_slice());
    out
}

/// A character below the surrogate range, from its scalar value.
fn char_of(v: u32) -> (c: char)
    requires
        v < 0xd800,
    ensures
        c == v as char,
        c as u32 == v,
{
    match char_from_u32(v) {
        Some(c) => {
            proof {
                vstd::utf8::char_u32_cast(c, v);
            }
            c
        },
        None => {
            proof {
                assert(vstd::utf8::is_scalar(v));
            }
            '\0'
        },
    }
}

/// The digits of a two-digit number.
proof fn lemma_two_digits(k: nat)
    requires
        10 <= k < 100,
    ensures
        decimal(k) == seq![(48 + k / 10) as u8, (48 + k % 10) as u8],
{
    assert(k / 10 < 10);
    assert(decimal(k / 10) == seq![(48 + k / 10) as u8]);
}

/// The `ESC [ k ~` number xterm gives function key `n` from F5 on: one
/// more than `10 + n`, skipping 16 and 22.
pub open spec fn xterm_tilde(n: int) -> int {
    10 + n + (if n >= 6 { 1int } else { 0int }) + (if n >= 11 { 1int } else { 0int })
}

/// Function keys send xterm's defaults: F1 to F4 the SS3 forms `ESC O P`
/// to `ESC O S` in order, F5 to F12 `ESC [ k ~` with `k` = 15, 17, 18, 19,
/// 20, 21, 23, 24. No two function keys send the same bytes, and none
/// sends what an arrow, Home, End, Delete, Page Up, Page Down or Shift-Tab
/// sends.
pub proof fn lemma_function_keys_are_xterms(n: u8, m: u8)
    requires
        1 <= n <= 12,
        1 <= m <= 12,
    ensures
        n <= 4 ==> key_bytes(Key::F(n)) == seq![0x1bu8, 0x4fu8, (0x4f + n) as u8],
        n >= 5 ==> key_bytes(Key::F(n)) == seq![
            0x1bu8,
            0x5bu8,
            (48 + xterm_tilde(n as int) / 10) as u8,
            (48 + xterm_tilde(n as int) % 10) as u8,
            0x7eu8,
        ],
        n != m ==> key_bytes(Key::F(n)) != key_bytes(Key::F(m)),
        key_bytes(Key::F(n)) != key_bytes(Key::Up),
        key_bytes(Key::F(n)) != key_bytes(Key::Down),
        key_bytes(Key::F(n)) != key_bytes(Key::Left),
        key_bytes(Key::F(n)) != key_bytes(Key::Right),
        key_bytes(Key::F(n)) != key_bytes(Key::Home),
        key_bytes(Key::F(n)) != key_bytes(Key::End),
        key_bytes(Key::F(n)) != key_bytes(Key::Delete),
        key_bytes(Key::F(n)) != key_bytes(Key::PageUp),
        key_bytes(Key::F(n)) != key_bytes(Key::PageDown),
        key_bytes(Key::F(n)) != key_bytes(Key::BackTab),
{
    lemma_fkey_form(n);
    lemma_fkey_form(m);
    let a = key_bytes(Key::F(n));
    let b = key_bytes(Key::F(m));
    if n != m {
        if n <= 4 && m <= 4 {
            assert(a[2] != b[2]);
        } else if n >= 5 && m >= 5 {
            assert(xterm_tilde(n as int) != xterm_tilde(m as int));
            assert(a[2] != b[2] || a[3] != b[3]);
        } else {
            assert(a.len() != b.len());
        }
    }
    assert(csi(seq![0x41u8]) =~= seq![0x1bu8, 0x5bu8, 0x41u8]);
    assert(csi(seq![0x42u8]) =~= seq![0x1bu8, 0x5bu8, 0x42u8]);
    assert(csi(seq![0x43u8]) =~= seq![0x1bu8, 0x5bu8, 0x43u8]);
    assert(csi(seq![0x44u8]) =~= seq![0x1bu8, 0x5bu8, 0x44u8]);
    assert(csi(seq![0x48u8]) =~= seq![0x1bu8, 0x5bu8, 0x48u8]);
    assert(csi(seq![0x46u8]) =~= seq![0x1bu8, 0x5bu8, 0x46u8]);
    assert(csi(seq![0x5au8]) =~= seq![0x1bu8, 0x5bu8, 0x5au8]);
    assert(csi(seq![0x33u8, 0x7e]).len() == 4);
    assert(csi(seq![0x35u8, 0x7e]).len() == 4);
    assert(csi(seq![0x36u8, 0x7e]).len() == 4);
    if n <= 4 {
        assert(a[1] == 0x4fu8);
    }
}

/// The bytes of one function key, by xterm's table.
proof fn lemma_fkey_form(n: u8)
    requires
        1 <= n <= 12,
    ensures
        n <= 4 ==> key_bytes(Key::F(n)) == seq![0x1bu8, 0x4fu8, (0x4f + n) as u8],
        n >= 5 ==> key_bytes(Key::F(n)) == seq![
            0x1bu8,
            0x5bu8,
            (48 + xterm_tilde(n as int) / 10) as u8,
            (48 + xterm_tilde(n as int) % 10) as u8,
            0x7eu8,
        ],
{
    if n >= 5 {
        let k = xterm_tilde(n as int);
        assert(tilde_number(n) as int == k);
        lemma_two_digits(k as nat);
        assert(csi(decimal(k as nat).push(0x7e)) =~= seq![
            0x1bu8,
            0x5bu8,
            (48 + k / 10) as u8,
            (48 + k % 10) as u8,
            0x7eu8,
        ]);
    }
}

} // verus!
