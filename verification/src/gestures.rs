//! The bytes of the gestures a test performs on a terminal — a click, a
//! drag, a wheel notch, a paste — encoded for the modes the application
//! under test has set, or the error that says why it cannot receive them.
use vstd::prelude::*;
use vstd::utf8::encode_utf8;
use crate::emulator::InputModes;
use crate::error::Error;
use crate::screen::MouseMode;
use crate::terminal::{
    MouseChord, Scroll, chord_code, mouse_report, mouse_report_spec, no_mouse_tracking, no_tracking_text, strip_paste_markers,
    strip_spec,
};
use crate::text::{chars_of, encode_char, push_str};

verus! {

/// Two reports one after the other, or the first error.
pub open spec fn then_report(a: Result<Seq<u8>, Seq<char>>, b: Result<Seq<u8>, Seq<char>>) -> Result<Seq<u8>, Seq<char>> {
    match a {
        Err(e) => Err(e),
        Ok(x) => match b {
            Err(e) => Err(e),
            Ok(y) => Ok(x + y),
        },
    }
}

/// A click of the button with code `code` at `(col, row)`: a press, and a
/// release when the tracking mode reports releases.
pub open spec fn click_spec(modes: InputModes, code: u8, col: u16, row: u16) -> Result<Seq<u8>, Seq<char>> {
    let enc = modes.mouse_encoding;
    match modes.mouse {
        MouseMode::Disabled => Err(no_tracking_text()),
        MouseMode::Press => mouse_report_spec(enc, code, col, row, true),
        _ => then_report(mouse_report_spec(enc, code, col, row, true), mouse_report_spec(enc, code, col, row, false)),
    }
}

/// What a drag under X10 tracking is refused with.
pub open spec fn x10_drag_text() -> Seq<char> {
    "the application enabled X10 mouse tracking (CSI ?9 h), which reports presses only — a drag has no release to report"@
}

/// A drag: a press at `from`, a motion report at `to` when the tracking
/// mode reports motion, and a release at `to`.
pub open spec fn drag_spec(modes: InputModes, code: u8, from: (u16, u16), to: (u16, u16)) -> Result<Seq<u8>, Seq<char>> {
    let enc = modes.mouse_encoding;
    let press = mouse_report_spec(enc, code, from.0, from.1, true);
    let release = mouse_report_spec(enc, code, to.0, to.1, false);
    match modes.mouse {
        MouseMode::Disabled => Err(no_tracking_text()),
        MouseMode::Press => Err(x10_drag_text()),
        MouseMode::PressRelease => then_report(press, release),
        _ => then_report(then_report(press, mouse_report_spec(enc, (code + 32) as u8, to.0, to.1, true)), release),
    }
}

/// The wheel button of a scroll direction.
pub open spec fn wheel_code(d: Scroll) -> u8 {
    match d {
        Scroll::Up => 64,
        Scroll::Down => 65,
        Scroll::Left => 66,
        Scroll::Right => 67,
    }
}

/// One wheel notch: a press of the wheel button, which has no release.
pub open spec fn scroll_spec(modes: InputModes, d: Scroll, col: u16, row: u16) -> Result<Seq<u8>, Seq<char>> {
    if modes.mouse == MouseMode::Disabled {
        Err(no_tracking_text())
    } else {
        mouse_report_spec(modes.mouse_encoding, wheel_code(d), col, row, true)
    }
}

fn input_error(e: Error) -> (r: Error)
    ensures
        r == e,
{
    e
}

/// Whether a result matches its description: the bytes, or an input error
/// with the message.
pub open spec fn matches_report(r: Result<Vec<u8>, Error>, s: Result<Seq<u8>, Seq<char>>) -> bool {
    match (r, s) {
        (Ok(a), Ok(b)) => a@ == b,
        (Err(Error::Input(m)), Err(b)) => m@ == b,
        _ => false,
    }
}

/// The bytes of a click of `chord` at `(col, row)`, or why the application
/// cannot receive one.
pub fn click_bytes(modes: &InputModes, chord: MouseChord, col: u16, row: u16) -> (r: Result<Vec<u8>, Error>)
    ensures
        matches_report(r, click_spec(*modes, chord_code(chord), col, row)),
{
    let code = chord.code();
    let press_only = match modes.mouse {
        MouseMode::Disabled => {
            return Err(no_mouse_tracking());
        },
        MouseMode::Press => true,
        _ => false,
    };
    let mut bytes = match mouse_report(modes, code, col, row, true) {
        Ok(b) => b,
        Err(e) => {
            return Err(input_error(e));
        },
    };
    if !press_only {
        match mouse_report(modes, code, col, row, false) {
            Ok(mut more) => {
                bytes.append(&mut more);
            },
            Err(e) => {
                return Err(input_error(e));
            },
        }
    }
    Ok(bytes)
}

/// The bytes of a drag of `chord` from `from` to `to`, or why the
/// application cannot receive one.
pub fn drag_bytes(modes: &InputModes, chord: MouseChord, from: (u16, u16), to: (u16, u16)) -> (r: Result<Vec<u8>, Error>)
    ensures
        matches_report(r, drag_spec(*modes, chord_code(chord), from, to)),
{
    let code = chord.code();
    let motion = match modes.mouse {
        MouseMode::Disabled => {
            return Err(no_mouse_tracking());
        },
        MouseMode::Press => {
            let mut m = String::new();
            push_str(
                &mut m,
                "the application enabled X10 mouse tracking (CSI ?9 h), which reports presses only — a drag has no release to report",
            );
            return Err(Error::Input(m));
        },
        MouseMode::PressRelease => false,
        _ => true,
    };
    let mut bytes = match mouse_report(modes, code, from.0, from.1, true) {
        Ok(b) => b,
        Err(e) => {
            return Err(input_error(e));
        },
    };
    if motion {
        match mouse_report(modes, code + 32, to.0, to.1, true) {
            Ok(mut more) => {
                bytes.append(&mut more);
            },
            Err(e) => {
                return Err(input_error(e));
            },
        }
    }
    match mouse_report(modes, code, to.0, to.1, false) {
        Ok(mut more) => {
            bytes.append(&mut more);
        },
        Err(e) => {
            return Err(input_error(e));
        },
    }
    Ok(bytes)
}

/// The bytes of one wheel notch at `(col, row)`, or why the application
/// cannot receive it.
pub fn scroll_bytes(modes: &InputModes, direction: Scroll, col: u16, row: u16) -> (r: Result<Vec<u8>, Error>)
    ensures
        matches_report(r, scroll_spec(*modes, direction, col, row)),
{
    if modes.mouse == MouseMode::Disabled {
        return Err(no_mouse_tracking());
    }
    let button: u8 = match direction {
        Scroll::Up => 64,
        Scroll::Down => 65,
        Scroll::Left => 66,
        Scroll::Right => 67,
    };
    mouse_report(modes, button, col, row, true)
}

/// Pasted text with its line breaks as a terminal sends them: `\r\n` and
/// `\n` each become the `\r` the Enter key produces.
pub open spec fn paste_line_breaks(s: Seq<char>) -> Seq<char>
    decreases s.len(),
{
    if s.len() == 0 {
        Seq::empty()
    } else if s[0] == '\r' && s.len() > 1 && s[1] == '\n' {
        seq!['\r'] + paste_line_breaks(s.skip(2))
    } else if s[0] == '\n' {
        seq!['\r'] + paste_line_breaks(s.drop_first())
    } else {
        seq![s[0]] + paste_line_breaks(s.drop_first())
    }
}

/// The bytes of a paste: the text with its line breaks as `\r`; under
/// bracketed paste, with the paste markers removed from it and the whole
/// wrapped in `ESC[200~` … `ESC[201~`.
pub open spec fn paste_spec(bracketed: bool, text: Seq<char>) -> Seq<u8> {
    let t = paste_line_breaks(text);
    if bracketed {
        seq![0x1bu8, 0x5bu8, 0x32u8, 0x30u8, 0x30u8, 0x7eu8] + encode_utf8(strip_spec(t)) + seq![
            0x1bu8,
            0x5bu8,
            0x32u8,
            0x30u8,
            0x31u8,
            0x7eu8,
        ]
    } else {
        encode_utf8(t)
    }
}

proof fn lemma_encode_concat(a: Seq<char>, b: Seq<char>)
    ensures
        encode_utf8(a + b) == encode_utf8(a) + encode_utf8(b),
    decreases a.len(),
{
    if a.len() == 0 {
        assert(a + b =~= b);
    } else {
        assert((a + b).drop_first() =~= a.drop_first() + b);
        lemma_encode_concat(a.drop_first(), b);
        assert((a + b)[0] == a[0]);
    }
}

fn push_utf8(out: &mut Vec<u8>, cs: &[char])
    ensures
        final(out)@ == old(out)@ + encode_utf8(cs@),
{
    let mut i: usize = 0;
    while i < cs.len()
        invariant
            i <= cs@.len(),
            out@ == old(out)@ + encode_utf8(cs@.take(i as int)),
        decreases cs@.len() - i,
    {
        let mut b = encode_char(cs[i]);
        proof {
            assert(cs@.take(i + 1) =~= cs@.take(i as int) + seq![cs@[i as int]]);
            lemma_encode_concat(cs@.take(i as int), seq![cs@[i as int]]);
        }
        out.append(&mut b);
        i = i + 1;
    }
    assert(cs@.take(cs@.len() as int) =~= cs@);
}

fn line_breaks(cs: &[char]) -> (r: Vec<char>)
    ensures
        r@ == paste_line_breaks(cs@),
{
    let mut out: Vec<char> = Vec::new();
    let mut i: usize = 0;
    assert(cs@.skip(0) =~= cs@);
    assert(out@ + paste_line_breaks(cs@) =~= paste_line_breaks(cs@));
    while i < cs.len()
        invariant
            i <= cs@.len(),
            out@ + paste_line_breaks(cs@.skip(i as int)) == paste_line_breaks(cs@),
        decreases cs@.len() - i,
    {
        let ghost rest = cs@.skip(i as int);
        if cs[i] == '\r' && i + 1 < cs.len() && cs[i + 1] == '\n' {
            proof {
                assert(rest[0] == '\r' && rest.len() > 1 && rest[1] == '\n');
                assert(rest.skip(2) =~= cs@.skip(i + 2));
            }
            out.push('\r');
            assert(out@ + paste_line_breaks(cs@.skip(i + 2)) =~= paste_line_breaks(cs@));
            i = i + 2;
        } else {
            let c = cs[i];
            proof {
                assert(rest.drop_first() =~= cs@.skip(i + 1));
                assert(rest[0] == c);
            }
            if c == '\n' {
                out.push('\r');
            } else {
                out.push(c);
            }
            assert(out@ + paste_line_breaks(cs@.skip(i + 1)) =~= paste_line_breaks(cs@));
            i = i + 1;
        }
    }
    assert(cs@.skip(cs@.len() as int) =~= Seq::<char>::empty());
    assert(out@ + Seq::<char>::empty() =~= out@);
    out
}

/// The bytes of a paste of `text`, bracketed when the application enabled
/// bracketed paste.
pub fn paste_bytes(bracketed: bool, text: &str) -> (r: Vec<u8>)
    ensures
        r@ == paste_spec(bracketed, text@),
{
    let cs = chars_of(text);
    let t = line_breaks(cs.as_slice());
    let mut out: Vec<u8> = Vec::new();
    if bracketed {
        out.push(0x1b);
        out.push(0x5b);
        out.push(0x32);
        out.push(0x30);
        out.push(0x30);
        out.push(0x7e);
        let ts = crate::text::string_of(t.as_slice());
        let stripped = strip_paste_markers(ts.as_str());
        let sc = chars_of(stripped.as_str());
        push_utf8(&mut out, sc.as_slice());
        out.push(0x1b);
        out.push(0x5b);
        out.push(0x32);
        out.push(0x30);
        out.push(0x31);
        out.push(0x7e);
    } else {
        push_utf8(&mut out, t.as_slice());
    }
    out
}

/// A wheel notch is reported as xterm's wheel buttons report it: a press
/// of button 64 + the direction's place in up, down, left, right (wheel
/// buttons 4 to 7), so scrolling up is 64, down 65, left 66 and right 67,
/// and no two directions share a button. Without mouse tracking nothing is
/// sent.
pub proof fn lemma_wheel_buttons_are_xterms(modes: InputModes, d: Scroll, e: Scroll, col: u16, row: u16)
    ensures
        modes.mouse != MouseMode::Disabled ==> scroll_spec(modes, d, col, row) == mouse_report_spec(
            modes.mouse_encoding,
            (64 + match d {
                Scroll::Up => 0int,
                Scroll::Down => 1int,
                Scroll::Left => 2int,
                Scroll::Right => 3int,
            }) as u8,
            col,
            row,
            true,
        ),
        modes.mouse == MouseMode::Disabled ==> scroll_spec(modes, d, col, row) is Err,
        d != e ==> wheel_code(d) != wheel_code(e),
{
}

} // verus!
