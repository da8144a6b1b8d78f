//! The `styles:` block read back: a style's tokens read back as the style,
//! a run's span restyles the run's columns, and a row's line, and the
//! block's lines in turn, give every cell the style the screen shows.
use vstd::prelude::*;
use crate::parse::{
    channel, colour_text, hex_value, is_ascii_text, restyle, span_spec, spans_fold, style_fold, style_line, style_token,
    styles_fold,
};
use crate::round_trip::lemma_trim_end_drops_ws;
use crate::screen::{first_occurrence, lemma_first_occurrence, trim_end};
use crate::words::{split_on, trim, trim_start};
use crate::screen::{CellModel, index_of, lemma_index_of_unique};
use crate::words::uint_text;
use crate::round_trip::{lemma_decimal_digits, lemma_decimal_reads_back};
use crate::screen::{Color, Style, colour_token, flag_token, hex_char, hex_pair, plain_style, starts_with, style_tokens};
use crate::text::decimal_text;
use crate::screen::{ScreenModel, cell_at, is_ws, join_sep, row_spans, run_text, runs_upto, span_texts};
use crate::words::{lemma_ws_index_unique, words_spec, ws_index};

verus! {

pub(crate) proof fn lemma_hex_char(d: u8)
    requires
        d < 16,
    ensures
        hex_value(hex_char(d)) == Some(d as nat),
        (hex_char(d) as u32) < 0x80,
        hex_char(d) != '+',
{
    if d < 10 {
        assert(((48 + d) as char) as nat == 48 + d);
    } else {
        assert(((87 + d) as char) as nat == 87 + d);
    }
}

pub(crate) proof fn lemma_hex_pair(b: u8)
    ensures
        channel(hex_pair(b)[0], hex_pair(b)[1]) == Some(b),
        is_ascii_text(hex_pair(b)),
{
    lemma_hex_char(b / 16);
    lemma_hex_char(b % 16);
    assert((b / 16) as nat * 16 + (b % 16) as nat == b);
}

/// A colour's token value reads back as the colour.
pub(crate) proof fn lemma_colour_reads_back(c: Color)
    ensures
        c is Indexed ==> colour_text(decimal_text(c->Indexed_0 as nat)) == Some(c),
        c is Rgb ==> colour_text(seq!['#'] + hex_pair(c->Rgb_0) + hex_pair(c->Rgb_1) + hex_pair(c->Rgb_2)) == Some(c),
{
    match c {
        Color::Indexed(i) => {
            lemma_decimal_reads_back(i as nat, 255);
            lemma_decimal_digits(i as nat);
            assert(crate::words::is_digit(decimal_text(i as nat)[0]));
        },
        Color::Rgb(r, g, b) => {
            lemma_hex_pair(r);
            lemma_hex_pair(g);
            lemma_hex_pair(b);
            let t = seq!['#'] + hex_pair(r) + hex_pair(g) + hex_pair(b);
            let h = t.drop_first();
            assert(h =~= hex_pair(r) + hex_pair(g) + hex_pair(b));
            assert forall|i: int| 0 <= i < h.len() implies (#[trigger] h[i] as u32) < 0x80 by {
                if i < 2 {
                    assert(h[i] == hex_pair(r)[i]);
                } else if i < 4 {
                    assert(h[i] == hex_pair(g)[i - 2]);
                } else {
                    assert(h[i] == hex_pair(b)[i - 4]);
                }
            }
        },
        Color::Default => {},
    }
}

/// The tokens applied in order to `st`.
pub open spec fn apply_all(st: Style, toks: Seq<Seq<char>>) -> Result<Style, Seq<char>>
    decreases toks.len(),
{
    if toks.len() == 0 {
        Ok(st)
    } else {
        match apply_all(st, toks.drop_last()) {
            Err(e) => Err(e),
            Ok(s) => style_token(s, toks.last()),
        }
    }
}

pub(crate) proof fn lemma_apply_concat(st: Style, a: Seq<Seq<char>>, b: Seq<Seq<char>>)
    ensures
        apply_all(st, a + b) == match apply_all(st, a) {
            Err(e) => Err(e),
            Ok(s) => apply_all(s, b),
        },
    decreases b.len(),
{
    if b.len() == 0 {
        assert(a + b =~= a);
    } else {
        assert((a + b).drop_last() =~= a + b.drop_last());
        assert((a + b).last() == b.last());
        lemma_apply_concat(st, a, b.drop_last());
    }
}

pub(crate) proof fn lemma_apply_one(st: Style, tok: Seq<char>)
    ensures
        apply_all(st, seq![tok]) == style_token(st, tok),
{
    assert(seq![tok].drop_last() =~= Seq::<Seq<char>>::empty());
    assert(seq![tok].last() == tok);
    assert(apply_all(st, Seq::<Seq<char>>::empty()) == Ok::<Style, Seq<char>>(st));
}

pub(crate) proof fn lemma_apply_step(p: Style, t: Seq<Seq<char>>, part: Seq<Seq<char>>, s: Style, s2: Style)
    requires
        apply_all(p, t) == Ok::<Style, Seq<char>>(s),
        apply_all(s, part) == Ok::<Style, Seq<char>>(s2),
    ensures
        apply_all(p, t + part) == Ok::<Style, Seq<char>>(s2),
{
    lemma_apply_concat(p, t, part);
}

pub(crate) proof fn lemma_style_fold_is_apply(toks: Seq<Seq<char>>, n: int)
    requires
        1 <= n <= toks.len(),
    ensures
        style_fold(toks, n) == apply_all(plain_style(), toks.subrange(1, n)),
    decreases n,
{
    if n == 1 {
        assert(toks.subrange(1, 1) =~= Seq::<Seq<char>>::empty());
    } else {
        lemma_style_fold_is_apply(toks, n - 1);
        assert(toks.subrange(1, n).drop_last() =~= toks.subrange(1, n - 1));
    }
}

#[verifier::rlimit(40)]
pub(crate) proof fn lemma_colour_token_reads(st: Style, tok: Seq<char>)
    requires
        tok.len() >= 3,
        tok[2] == '=',
        tok[0] == 'f' || tok[0] == 'b',
        tok[1] == 'g',
    ensures
        style_token(st, tok) == if tok[0] == 'f' {
            match colour_text(tok.skip(3)) {
                Some(c) => Ok(Style { fg: c, ..st }),
                None => Err("bad colour"@),
            }
        } else {
            match colour_text(tok.skip(3)) {
                Some(c) => Ok(Style { bg: c, ..st }),
                None => Err("bad colour"@),
            }
        },
{
    reveal_strlit("bold");
    reveal_strlit("dim");
    reveal_strlit("italic");
    reveal_strlit("underline");
    reveal_strlit("blink");
    reveal_strlit("reverse");
    reveal_strlit("conceal");
    reveal_strlit("strikethrough");
    reveal_strlit("fg=");
    reveal_strlit("bg=");
    assert(tok != "bold"@ && tok != "dim"@ && tok != "italic"@ && tok != "underline"@);
    assert(tok != "blink"@ && tok != "reverse"@ && tok != "conceal"@ && tok != "strikethrough"@);
    if tok[0] == 'f' {
        assert(tok.take(3) =~= "fg="@);
    } else {
        assert(tok.take(3) =~= "bg="@);
        assert(tok.take(3)[0] != "fg="@[0]);
        assert(!starts_with(tok, "fg="@));
    }
}

pub(crate) proof fn lemma_colour_token_applies(st: Style, c: Color, fg: bool)
    ensures
        apply_all(st, colour_token(if fg { "fg"@ } else { "bg"@ }, c)) == Ok::<Style, Seq<char>>(
            if c is Default {
                st
            } else if fg {
                Style { fg: c, ..st }
            } else {
                Style { bg: c, ..st }
            },
        ),
{
    reveal_strlit("fg");
    reveal_strlit("bg");
    reveal_strlit("=");
    reveal_strlit("=#");
    let prefix = if fg {
        "fg"@
    } else {
        "bg"@
    };
    match c {
        Color::Default => {
            assert(colour_token(prefix, c) =~= Seq::<Seq<char>>::empty());
            assert(apply_all(st, Seq::<Seq<char>>::empty()) == Ok::<Style, Seq<char>>(st));
        },
        Color::Indexed(i) => {
            let tok = prefix + "="@ + decimal_text(i as nat);
            assert(colour_token(prefix, c) == seq![tok]);
            lemma_apply_one(st, tok);
            assert(tok.skip(3) =~= decimal_text(i as nat));
            lemma_colour_reads_back(c);
            lemma_colour_token_reads(st, tok);
        },
        Color::Rgb(r, g, b) => {
            let tok = prefix + "=#"@ + hex_pair(r) + hex_pair(g) + hex_pair(b);
            assert(colour_token(prefix, c) == seq![tok]);
            lemma_apply_one(st, tok);
            assert(tok.skip(3) =~= seq!['#'] + hex_pair(r) + hex_pair(g) + hex_pair(b));
            lemma_colour_reads_back(c);
            lemma_colour_token_reads(st, tok);
        },
    }
}

/// Each attribute word sets its attribute.
#[verifier::rlimit(60)]
pub(crate) proof fn lemma_flag_words(st: Style)
    ensures
        style_token(st, "bold"@) == Ok::<Style, Seq<char>>(Style { bold: true, ..st }),
        style_token(st, "dim"@) == Ok::<Style, Seq<char>>(Style { dim: true, ..st }),
        style_token(st, "italic"@) == Ok::<Style, Seq<char>>(Style { italic: true, ..st }),
        style_token(st, "underline"@) == Ok::<Style, Seq<char>>(Style { underline: true, ..st }),
        style_token(st, "blink"@) == Ok::<Style, Seq<char>>(Style { blink: true, ..st }),
        style_token(st, "reverse"@) == Ok::<Style, Seq<char>>(Style { reverse: true, ..st }),
        style_token(st, "conceal"@) == Ok::<Style, Seq<char>>(Style { conceal: true, ..st }),
        style_token(st, "strikethrough"@) == Ok::<Style, Seq<char>>(Style { strikethrough: true, ..st }),
{
    reveal_strlit("bold");
    reveal_strlit("dim");
    reveal_strlit("italic");
    reveal_strlit("underline");
    reveal_strlit("blink");
    reveal_strlit("reverse");
    reveal_strlit("conceal");
    reveal_strlit("strikethrough");
    reveal_strlit("fg=");
    reveal_strlit("bg=");
    let w = seq!["bold"@, "dim"@, "italic"@, "underline"@, "blink"@, "reverse"@, "conceal"@, "strikethrough"@];
    assert(forall|i: int, j: int| 0 <= i < j < 8 ==> #[trigger] w[i] != #[trigger] w[j]) by {
        assert forall|i: int, j: int| 0 <= i < j < 8 implies #[trigger] w[i] != #[trigger] w[j] by {
            assert(w[i].len() != w[j].len() || w[i][0] != w[j][0]);
        }
    }
    assert(w[0] == "bold"@ && w[1] == "dim"@ && w[2] == "italic"@ && w[3] == "underline"@);
    assert(w[4] == "blink"@ && w[5] == "reverse"@ && w[6] == "conceal"@ && w[7] == "strikethrough"@);
    assert(w[0] != w[1] && w[0] != w[2] && w[1] != w[2] && w[0] != w[3] && w[1] != w[3] && w[2] != w[3]);
    assert(w[0] != w[4] && w[1] != w[4] && w[2] != w[4] && w[3] != w[4]);
    assert(w[0] != w[5] && w[1] != w[5] && w[2] != w[5] && w[3] != w[5] && w[4] != w[5]);
    assert(w[0] != w[6] && w[1] != w[6] && w[2] != w[6] && w[3] != w[6] && w[4] != w[6] && w[5] != w[6]);
    assert(w[0] != w[7] && w[1] != w[7] && w[2] != w[7] && w[3] != w[7] && w[4] != w[7] && w[5] != w[7] && w[6]
        != w[7]);
}

pub(crate) proof fn lemma_flag_token_applies(st: Style, on: bool, name: Seq<char>, set: Style)
    requires
        on ==> style_token(st, name) == Ok::<Style, Seq<char>>(set),
    ensures
        apply_all(st, flag_token(on, name)) == Ok::<Style, Seq<char>>(if on { set } else { st }),
{
    if on {
        assert(flag_token(on, name) == seq![name]);
        assert(seq![name].drop_last() =~= Seq::<Seq<char>>::empty());
        assert(seq![name].last() == name);
        assert(apply_all(st, Seq::<Seq<char>>::empty()) == Ok::<Style, Seq<char>>(st));
    } else {
        assert(flag_token(on, name) == Seq::<Seq<char>>::empty());
    }
}

#[verifier::spinoff_prover]
#[verifier::rlimit(100)]
pub(crate) proof fn lemma_style_tokens_apply(st: Style)
    ensures
        apply_all(plain_style(), style_tokens(st)) == Ok::<Style, Seq<char>>(st),
{
    let p = plain_style();
    let s1 = if st.fg is Default { p } else { Style { fg: st.fg, ..p } };
    let s2 = if st.bg is Default { s1 } else { Style { bg: st.bg, ..s1 } };
    let s3 = Style { bold: st.bold, ..s2 };
    let s4 = Style { dim: st.dim, ..s3 };
    let s5 = Style { italic: st.italic, ..s4 };
    let s6 = Style { underline: st.underline, ..s5 };
    let s7 = Style { blink: st.blink, ..s6 };
    let s8 = Style { reverse: st.reverse, ..s7 };
    let s9 = Style { conceal: st.conceal, ..s8 };
    let s10 = Style { strikethrough: st.strikethrough, ..s9 };
    assert(s10 == st);
    reveal_strlit("fg");
    reveal_strlit("bg");
    lemma_colour_token_applies(p, st.fg, true);
    lemma_colour_token_applies(s1, st.bg, false);
    lemma_flag_words(s2);
    lemma_flag_words(s3);
    lemma_flag_words(s4);
    lemma_flag_words(s5);
    lemma_flag_words(s6);
    lemma_flag_words(s7);
    lemma_flag_words(s8);
    lemma_flag_words(s9);
    lemma_flag_token_applies(s2, st.bold, "bold"@, s3);
    lemma_flag_token_applies(s3, st.dim, "dim"@, s4);
    lemma_flag_token_applies(s4, st.italic, "italic"@, s5);
    lemma_flag_token_applies(s5, st.underline, "underline"@, s6);
    lemma_flag_token_applies(s6, st.blink, "blink"@, s7);
    lemma_flag_token_applies(s7, st.reverse, "reverse"@, s8);
    lemma_flag_token_applies(s8, st.conceal, "conceal"@, s9);
    lemma_flag_token_applies(s9, st.strikethrough, "strikethrough"@, s10);
    let c1 = colour_token("fg"@, st.fg);
    let c2 = colour_token("bg"@, st.bg);
    let f1 = flag_token(st.bold, "bold"@);
    let f2 = flag_token(st.dim, "dim"@);
    let f3 = flag_token(st.italic, "italic"@);
    let f4 = flag_token(st.underline, "underline"@);
    let f5 = flag_token(st.blink, "blink"@);
    let f6 = flag_token(st.reverse, "reverse"@);
    let f7 = flag_token(st.conceal, "conceal"@);
    let f8 = flag_token(st.strikethrough, "strikethrough"@);
    let t2 = c1 + c2;
    let t3 = t2 + f1;
    let t4 = t3 + f2;
    let t5 = t4 + f3;
    let t6 = t5 + f4;
    let t7 = t6 + f5;
    let t8 = t7 + f6;
    let t9 = t8 + f7;
    let t10 = t9 + f8;
    lemma_apply_step(p, c1, c2, s1, s2);
    lemma_apply_step(p, t2, f1, s2, s3);
    lemma_apply_step(p, t3, f2, s3, s4);
    lemma_apply_step(p, t4, f3, s4, s5);
    lemma_apply_step(p, t5, f4, s5, s6);
    lemma_apply_step(p, t6, f5, s6, s7);
    lemma_apply_step(p, t7, f6, s7, s8);
    lemma_apply_step(p, t8, f7, s8, s9);
    lemma_apply_step(p, t9, f8, s9, s10);
    assert(style_tokens(st) == t10);
}

/// A style's tokens read back as the style: after a span's range, the
/// tokens the `styles:` block writes for `st` are read back by the parser
/// as `st`.
pub proof fn lemma_style_tokens_read_back(range: Seq<char>, st: Style)
    ensures
        style_fold(seq![range] + style_tokens(st), 1 + style_tokens(st).len() as int) == Ok::<Style, Seq<char>>(st),
{
    let toks = seq![range] + style_tokens(st);
    lemma_style_fold_is_apply(toks, toks.len() as int);
    assert(toks.subrange(1, toks.len() as int) =~= style_tokens(st));
    lemma_style_tokens_apply(st);
}

/// A character the `styles:` block writes inside a span: a lowercase ASCII
/// letter, a digit, `=`, `#` or `-`.
pub open spec fn span_char(c: char) -> bool {
    ('a' <= c && c <= 'z') || ('0' <= c && c <= '9') || c == '=' || c == '#' || c == '-'
}

/// A non-empty run of span characters.
pub open spec fn span_word(s: Seq<char>) -> bool {
    s.len() > 0 && forall|i: int| 0 <= i < s.len() ==> span_char(#[trigger] s[i])
}

pub(crate) proof fn lemma_span_char_not_ws(c: char)
    requires
        span_char(c),
    ensures
        !is_ws(c),
        c != ';',
        c != ':',
        c != ' ',
        c != '\n',
{
}

pub(crate) proof fn lemma_decimal_word(n: nat)
    ensures
        span_word(decimal_text(n)),
{
    lemma_decimal_digits(n);
    assert forall|i: int| 0 <= i < decimal_text(n).len() implies span_char(#[trigger] decimal_text(n)[i]) by {
        assert(crate::words::is_digit(decimal_text(n)[i]));
    }
}

pub(crate) proof fn lemma_concat_word(a: Seq<char>, b: Seq<char>)
    requires
        span_word(a),
        b.len() == 0 || span_word(b),
    ensures
        span_word(a + b),
{
    assert forall|i: int| 0 <= i < (a + b).len() implies span_char(#[trigger] (a + b)[i]) by {
        if i < a.len() {
            assert((a + b)[i] == a[i]);
        } else {
            assert((a + b)[i] == b[i - a.len()]);
        }
    }
}

pub(crate) proof fn lemma_hex_word(b: u8)
    ensures
        span_word(hex_pair(b)),
{
    let d1 = b / 16;
    let d2 = b % 16;
    if d1 < 10 {
        assert(((48 + d1) as char) as nat == 48 + d1);
    } else {
        assert(((87 + d1) as char) as nat == 87 + d1);
    }
    if d2 < 10 {
        assert(((48 + d2) as char) as nat == 48 + d2);
    } else {
        assert(((87 + d2) as char) as nat == 87 + d2);
    }
    assert(span_char(hex_pair(b)[0]) && span_char(hex_pair(b)[1]));
}

/// Every element is a span word.
pub open spec fn all_words(ws: Seq<Seq<char>>) -> bool {
    forall|i: int| 0 <= i < ws.len() ==> span_word(#[trigger] ws[i])
}

pub(crate) proof fn lemma_all_words_concat(a: Seq<Seq<char>>, b: Seq<Seq<char>>)
    requires
        all_words(a),
        all_words(b),
    ensures
        all_words(a + b),
{
    assert forall|i: int| 0 <= i < (a + b).len() implies span_word(#[trigger] (a + b)[i]) by {
        if i < a.len() {
            assert((a + b)[i] == a[i]);
        } else {
            assert((a + b)[i] == b[i - a.len()]);
        }
    }
}

pub(crate) proof fn lemma_literal_words()
    ensures
        span_word("fg"@),
        span_word("bg"@),
        span_word("="@),
        span_word("=#"@),
        span_word("bold"@),
        span_word("dim"@),
        span_word("italic"@),
        span_word("underline"@),
        span_word("blink"@),
        span_word("reverse"@),
        span_word("conceal"@),
        span_word("strikethrough"@),
{
    reveal_strlit("fg");
    reveal_strlit("bg");
    reveal_strlit("=");
    reveal_strlit("=#");
    reveal_strlit("bold");
    reveal_strlit("dim");
    reveal_strlit("italic");
    reveal_strlit("underline");
    reveal_strlit("blink");
    reveal_strlit("reverse");
    reveal_strlit("conceal");
    reveal_strlit("strikethrough");
}

pub(crate) proof fn lemma_colour_token_words(prefix: Seq<char>, c: Color)
    requires
        span_word(prefix),
    ensures
        all_words(colour_token(prefix, c)),
{
    lemma_literal_words();
    match c {
        Color::Indexed(n) => {
            lemma_decimal_word(n as nat);
            lemma_concat_word(prefix, "="@);
            lemma_concat_word(prefix + "="@, decimal_text(n as nat));
            assert(colour_token(prefix, c)[0] == prefix + "="@ + decimal_text(n as nat));
        },
        Color::Rgb(r, g, b) => {
            lemma_hex_word(r);
            lemma_hex_word(g);
            lemma_hex_word(b);
            lemma_concat_word(prefix, "=#"@);
            lemma_concat_word(prefix + "=#"@, hex_pair(r));
            lemma_concat_word(prefix + "=#"@ + hex_pair(r), hex_pair(g));
            lemma_concat_word(prefix + "=#"@ + hex_pair(r) + hex_pair(g), hex_pair(b));
            assert(colour_token(prefix, c)[0] == prefix + "=#"@ + hex_pair(r) + hex_pair(g) + hex_pair(b));
        },
        Color::Default => {},
    }
}

pub(crate) proof fn lemma_flag_token_words(on: bool, name: Seq<char>)
    requires
        span_word(name),
    ensures
        all_words(flag_token(on, name)),
{
}

/// Every token of a style is a span word.
pub(crate) proof fn lemma_tokens_are_words(st: Style)
    ensures
        all_words(style_tokens(st)),
{
    lemma_literal_words();
    let c1 = colour_token("fg"@, st.fg);
    let c2 = colour_token("bg"@, st.bg);
    let f1 = flag_token(st.bold, "bold"@);
    let f2 = flag_token(st.dim, "dim"@);
    let f3 = flag_token(st.italic, "italic"@);
    let f4 = flag_token(st.underline, "underline"@);
    let f5 = flag_token(st.blink, "blink"@);
    let f6 = flag_token(st.reverse, "reverse"@);
    let f7 = flag_token(st.conceal, "conceal"@);
    let f8 = flag_token(st.strikethrough, "strikethrough"@);
    lemma_colour_token_words("fg"@, st.fg);
    lemma_colour_token_words("bg"@, st.bg);
    lemma_flag_token_words(st.bold, "bold"@);
    lemma_flag_token_words(st.dim, "dim"@);
    lemma_flag_token_words(st.italic, "italic"@);
    lemma_flag_token_words(st.underline, "underline"@);
    lemma_flag_token_words(st.blink, "blink"@);
    lemma_flag_token_words(st.reverse, "reverse"@);
    lemma_flag_token_words(st.conceal, "conceal"@);
    lemma_flag_token_words(st.strikethrough, "strikethrough"@);
    lemma_all_words_concat(c1, c2);
    lemma_all_words_concat(c1 + c2, f1);
    lemma_all_words_concat(c1 + c2 + f1, f2);
    lemma_all_words_concat(c1 + c2 + f1 + f2, f3);
    lemma_all_words_concat(c1 + c2 + f1 + f2 + f3, f4);
    lemma_all_words_concat(c1 + c2 + f1 + f2 + f3 + f4, f5);
    lemma_all_words_concat(c1 + c2 + f1 + f2 + f3 + f4 + f5, f6);
    lemma_all_words_concat(c1 + c2 + f1 + f2 + f3 + f4 + f5 + f6, f7);
    lemma_all_words_concat(c1 + c2 + f1 + f2 + f3 + f4 + f5 + f6 + f7, f8);
}

pub(crate) proof fn lemma_join_sep_first(parts: Seq<Seq<char>>, sep: Seq<char>)
    requires
        parts.len() >= 2,
    ensures
        join_sep(parts, sep) == parts[0] + sep + join_sep(parts.drop_first(), sep),
    decreases parts.len(),
{
    if parts.len() == 2 {
        assert(parts.drop_last() =~= seq![parts[0]]);
        assert(parts.drop_first() =~= seq![parts[1]]);
        assert(join_sep(parts.drop_last(), sep) == parts[0]);
        assert(join_sep(parts.drop_first(), sep) == parts[1]);
    } else {
        lemma_join_sep_first(parts.drop_last(), sep);
        assert(parts.drop_last().drop_first() =~= parts.drop_first().drop_last());
        assert(parts.drop_first().last() == parts.last());
        assert(parts.drop_last()[0] == parts[0]);
        assert(join_sep(parts, sep) =~= parts[0] + sep + join_sep(parts.drop_first(), sep));
    }
}

pub(crate) proof fn lemma_words_word_then(a: Seq<char>, b: Seq<char>)
    requires
        span_word(a),
        b.len() == 0 || b[0] == ' ',
    ensures
        words_spec(a + b) == seq![a] + words_spec(b),
{
    let s = a + b;
    assert forall|j: int| 0 <= j < a.len() implies !is_ws(#[trigger] s[j]) by {
        assert(s[j] == a[j]);
        lemma_span_char_not_ws(a[j]);
    }
    if b.len() > 0 {
        assert(s[a.len() as int] == ' ');
    }
    lemma_ws_index_unique(s, a.len() as int);
    assert(s[0] == a[0]);
    lemma_span_char_not_ws(a[0]);
    assert(s.take(a.len() as int) =~= a);
    assert(s.skip(a.len() as int) =~= b);
}

pub(crate) proof fn lemma_words_of_join(ts: Seq<Seq<char>>)
    requires
        all_words(ts),
    ensures
        words_spec(join_sep(ts, seq![' '])) == ts,
    decreases ts.len(),
{
    if ts.len() == 0 {
        assert(words_spec(Seq::<char>::empty()) == Seq::<Seq<char>>::empty());
    } else if ts.len() == 1 {
        assert(span_word(ts[0]));
        lemma_words_word_then(ts[0], Seq::empty());
        assert(ts[0] + Seq::<char>::empty() =~= ts[0]);
        assert(seq![ts[0]] + Seq::<Seq<char>>::empty() =~= ts);
    } else {
        lemma_join_sep_first(ts, seq![' ']);
        let rest = join_sep(ts.drop_first(), seq![' ']);
        assert(all_words(ts.drop_first())) by {
            assert forall|i: int| 0 <= i < ts.drop_first().len() implies span_word(#[trigger] ts.drop_first()[i]) by {
                assert(ts.drop_first()[i] == ts[i + 1]);
            }
        }
        lemma_words_of_join(ts.drop_first());
        assert(span_word(ts[0]));
        lemma_words_word_then(ts[0], seq![' '] + rest);
        assert(ts[0] + seq![' '] + rest =~= ts[0] + (seq![' '] + rest));
        assert(words_spec(seq![' '] + rest) == words_spec((seq![' '] + rest).drop_first()));
        assert((seq![' '] + rest).drop_first() =~= rest);
        assert(seq![ts[0]] + ts.drop_first() =~= ts);
    }
}

/// The range a span of columns `start..=end` is written as.
pub open spec fn range_text(start: int, end: int) -> Seq<char> {
    if start == end {
        decimal_text(start as nat)
    } else {
        decimal_text(start as nat) + "-"@ + decimal_text(end as nat)
    }
}

pub(crate) proof fn lemma_run_words(run: (int, int, Style))
    requires
        0 <= run.0 <= run.1,
    ensures
        words_spec(run_text(run)) == seq![range_text(run.0, run.1)] + style_tokens(run.2),
        span_word(range_text(run.0, run.1)),
{
    reveal_strlit(" ");
    reveal_strlit("-");
    assert(" "@ =~= seq![' ']);
    lemma_decimal_word(run.0 as nat);
    lemma_decimal_word(run.1 as nat);
    let r = range_text(run.0, run.1);
    if run.0 != run.1 {
        assert(span_word("-"@));
        lemma_concat_word(decimal_text(run.0 as nat), "-"@);
        lemma_concat_word(decimal_text(run.0 as nat) + "-"@, decimal_text(run.1 as nat));
    }
    lemma_tokens_are_words(run.2);
    let j = join_sep(style_tokens(run.2), seq![' ']);
    assert(run_text(run) =~= r + (seq![' '] + j));
    lemma_words_word_then(r, seq![' '] + j);
    assert((seq![' '] + j).drop_first() =~= j);
    lemma_words_of_join(style_tokens(run.2));
}

/// A run's span, read back, gives the run's columns of `row` its style.
pub proof fn lemma_span_reads_back(run: (int, int, Style), row: int, cols: int, cells: Seq<CellModel>)
    requires
        0 <= run.0 <= run.1 < cols <= 65535,
    ensures
        span_spec(run_text(run), row, cols, cells) == Ok::<Seq<CellModel>, Seq<char>>(
            restyle(cells, row * cols + run.0, row * cols + run.1 + 1, run.2),
        ),
{
    reveal_strlit("-");
    lemma_run_words(run);
    let r = range_text(run.0, run.1);
    let toks = seq![r] + style_tokens(run.2);
    assert(toks[0] == r);
    let a = decimal_text(run.0 as nat);
    let b = decimal_text(run.1 as nat);
    lemma_decimal_reads_back(run.0 as nat, 65535);
    lemma_decimal_reads_back(run.1 as nat, 65535);
    lemma_decimal_word(run.0 as nat);
    lemma_decimal_word(run.1 as nat);
    if run.0 == run.1 {
        assert forall|j: int| 0 <= j < r.len() implies r[j] != '-' by {
            assert(span_char(a[j]));
            assert(crate::words::is_digit(a[j]));
        }
        lemma_index_of_unique(r, '-', r.len() as int);
    } else {
        assert forall|j: int| 0 <= j < a.len() implies r[j] != '-' by {
            assert(r[j] == a[j]);
            assert(crate::words::is_digit(a[j]));
        }
        assert(r[a.len() as int] == '-');
        lemma_index_of_unique(r, '-', a.len() as int);
        assert(r.take(a.len() as int) =~= a);
        assert(r.skip(a.len() as int + 1) =~= b);
    }
    lemma_style_tokens_read_back(r, run.2);
    assert(toks.len() == 1 + style_tokens(run.2).len());
}

/// The styled runs' columns of `row` given their styles, in order; runs in
/// the default style are left alone.
pub open spec fn apply_runs(cells: Seq<CellModel>, row: int, cols: int, runs: Seq<(int, int, Style)>) -> Seq<CellModel>
    decreases runs.len(),
{
    if runs.len() == 0 {
        cells
    } else {
        let c = apply_runs(cells, row, cols, runs.drop_last());
        if runs.last().2 == plain_style() {
            c
        } else {
            restyle(c, row * cols + runs.last().0, row * cols + runs.last().1 + 1, runs.last().2)
        }
    }
}

pub(crate) proof fn lemma_spans_fold_prefix(a: Seq<Seq<char>>, b: Seq<Seq<char>>, n: int, row: int, cols: int, cells: Seq<CellModel>)
    requires
        0 <= n <= a.len(),
        n <= b.len(),
        a.take(n) == b.take(n),
    ensures
        spans_fold(a, n, row, cols, cells) == spans_fold(b, n, row, cols, cells),
    decreases n,
{
    if n > 0 {
        assert(a.take(n - 1) =~= b.take(n - 1)) by {
            assert forall|i: int| 0 <= i < n - 1 implies #[trigger] a.take(n - 1)[i] == b.take(n - 1)[i] by {
                assert(a.take(n)[i] == b.take(n)[i]);
            }
        }
        lemma_spans_fold_prefix(a, b, n - 1, row, cols, cells);
        assert(a[n - 1] == a.take(n)[n - 1]);
        assert(b[n - 1] == b.take(n)[n - 1]);
    }
}

/// Whether every run lies within the first `cols` columns.
pub open spec fn runs_within(runs: Seq<(int, int, Style)>, cols: int) -> bool {
    forall|i: int| 0 <= i < runs.len() ==> 0 <= (#[trigger] runs[i]).0 <= runs[i].1 < cols
}

pub(crate) proof fn lemma_spans_fold_runs(runs: Seq<(int, int, Style)>, row: int, cols: int, cells: Seq<CellModel>)
    requires
        cols <= 65535,
        runs_within(runs, cols),
    ensures
        spans_fold(span_texts(runs), span_texts(runs).len() as int, row, cols, cells) == Ok::<Seq<CellModel>, Seq<char>>(
            apply_runs(cells, row, cols, runs),
        ),
    decreases runs.len(),
{
    if runs.len() > 0 {
        let prev = runs.drop_last();
        assert(runs_within(prev, cols)) by {
            assert forall|i: int| 0 <= i < prev.len() implies 0 <= (#[trigger] prev[i]).0 <= prev[i].1 < cols by {
                assert(prev[i] == runs[i]);
            }
        }
        lemma_spans_fold_runs(prev, row, cols, cells);
        let sp = span_texts(prev);
        if runs.last().2 != plain_style() {
            let all = span_texts(runs);
            assert(all == sp + seq![run_text(runs.last())]);
            assert(all.take(sp.len() as int) =~= sp.take(sp.len() as int));
            lemma_spans_fold_prefix(all, sp, sp.len() as int, row, cols, cells);
            assert(all[sp.len() as int] == run_text(runs.last()));
            assert(runs.last() == runs[runs.len() - 1]);
            lemma_span_reads_back(runs.last(), row, cols, apply_runs(cells, row, cols, prev));
        } else {
            assert(span_texts(runs) =~= sp + Seq::<Seq<char>>::empty());
        }
    }
}

pub(crate) proof fn lemma_restyle_extend(c: Seq<CellModel>, a: int, b: int, st: Style)
    requires
        a <= b,
    ensures
        restyle(restyle(c, a, b, st), b, b + 1, st) == restyle(c, a, b + 1, st),
{
    assert(restyle(restyle(c, a, b, st), b, b + 1, st) =~= restyle(c, a, b + 1, st));
}

pub(crate) proof fn lemma_runs_step(m: ScreenModel, row: int, n: int, cols: int, cells: Seq<CellModel>)
    requires
        1 <= n,
        runs_within(runs_upto(m, row, n - 1), n - 1),
    ensures
        runs_within(runs_upto(m, row, n), n),
        apply_runs(cells, row, cols, runs_upto(m, row, n)) == if cell_at(m, row, n - 1).style == plain_style() {
            apply_runs(cells, row, cols, runs_upto(m, row, n - 1))
        } else {
            restyle(
                apply_runs(cells, row, cols, runs_upto(m, row, n - 1)),
                row * cols + n - 1,
                row * cols + n,
                cell_at(m, row, n - 1).style,
            )
        },
{
    let prev = runs_upto(m, row, n - 1);
    let st = cell_at(m, row, n - 1).style;
    let cur = runs_upto(m, row, n);
    if prev.len() > 0 && prev.last().2 == st {
        let last = prev.last();
        assert(cur == prev.update(prev.len() - 1, (last.0, n - 1, st)));
        assert(cur.drop_last() =~= prev.drop_last());
        assert(cur.last() == (last.0, n - 1, st));
        assert(prev.last() == prev[prev.len() - 1]);
        assert forall|i: int| 0 <= i < cur.len() implies 0 <= (#[trigger] cur[i]).0 <= cur[i].1 < n by {
            if i < cur.len() - 1 {
                assert(cur[i] == prev[i]);
            }
        }
        if st != plain_style() {
            lemma_restyle_extend(
                apply_runs(cells, row, cols, prev.drop_last()),
                row * cols + last.0,
                row * cols + n - 1,
                st,
            );
        }
    } else {
        assert(cur == prev.push((n - 1, n - 1, st)));
        assert(cur.drop_last() =~= prev);
        assert forall|i: int| 0 <= i < cur.len() implies 0 <= (#[trigger] cur[i]).0 <= cur[i].1 < n by {
            if i < cur.len() - 1 {
                assert(cur[i] == prev[i]);
            }
        }
    }
}

/// The cells with the first `n` of `row` given the styles `m` shows there.
pub open spec fn with_row_styles(cells: Seq<CellModel>, m: ScreenModel, row: int, cols: int, n: int) -> Seq<CellModel> {
    Seq::new(
        cells.len(),
        |i: int|
            if row * cols <= i < row * cols + n {
                CellModel { style: cell_at(m, row, i - row * cols).style, ..cells[i] }
            } else {
                cells[i]
            },
    )
}

pub(crate) proof fn lemma_runs_restyle(m: ScreenModel, row: int, n: int, cols: int, cells: Seq<CellModel>)
    requires
        0 <= n <= cols,
        row * cols + cols <= cells.len(),
        0 <= row * cols,
        forall|j: int| 0 <= j < cols ==> (#[trigger] cells[row * cols + j]).style == plain_style(),
    ensures
        runs_within(runs_upto(m, row, n), n),
        apply_runs(cells, row, cols, runs_upto(m, row, n)) == with_row_styles(cells, m, row, cols, n),
    decreases n,
{
    if n == 0 {
        assert(with_row_styles(cells, m, row, cols, 0) =~= cells);
    } else {
        lemma_runs_restyle(m, row, n - 1, cols, cells);
        lemma_runs_step(m, row, n, cols, cells);
        let st = cell_at(m, row, n - 1).style;
        let before = with_row_styles(cells, m, row, cols, n - 1);
        let after = with_row_styles(cells, m, row, cols, n);
        let k = row * cols + n - 1;
        assert(cells[row * cols + (n - 1)].style == plain_style());
        if st == plain_style() {
            assert(before =~= after) by {
                assert(after[k] == CellModel { style: st, ..cells[k] });
                assert(cells[k] == CellModel { style: plain_style(), ..cells[k] });
            }
        } else {
            assert(restyle(before, k, k + 1, st) =~= after);
        }
    }
}

/// A row's spans, read back, give each of the row's columns the style the
/// screen shows there, starting from a row in the default style.
pub proof fn lemma_row_spans_read_back(m: ScreenModel, row: int, cells: Seq<CellModel>)
    requires
        m.cols <= 65535,
        row * m.cols + m.cols <= cells.len(),
        0 <= row * m.cols,
        forall|j: int| 0 <= j < m.cols ==> (#[trigger] cells[row * m.cols + j]).style == plain_style(),
    ensures
        spans_fold(row_spans(m, row), row_spans(m, row).len() as int, row, m.cols as int, cells) == Ok::<
            Seq<CellModel>,
            Seq<char>,
        >(with_row_styles(cells, m, row, m.cols as int, m.cols as int)),
{
    let cols = m.cols as int;
    lemma_runs_restyle(m, row, cols, cols, cells);
    let runs = runs_upto(m, row, cols);
    assert(runs_within(runs, cols)) by {
        assert forall|i: int| 0 <= i < runs.len() implies 0 <= (#[trigger] runs[i]).0 <= runs[i].1 < cols by {}
    }
    lemma_spans_fold_runs(runs, row, cols, cells);
}

/// Whether `c` occurs in `s`.
pub open spec fn has_char(s: Seq<char>, c: char) -> bool {
    exists|i: int| 0 <= i < s.len() && s[i] == c
}

pub(crate) proof fn lemma_no_occurrence(s: Seq<char>, sep: Seq<char>)
    requires
        sep.len() > 0,
        !has_char(s, sep[0]),
    ensures
        first_occurrence(s, sep) is None,
{
    if crate::screen::occurs(s, sep) {
        let i = choose|i: int| 0 <= i && i + sep.len() <= s.len() && #[trigger] s.subrange(i, i + sep.len()) == sep;
        assert(s.subrange(i, i + sep.len())[0] == s[i]);
    }
}

pub(crate) proof fn lemma_split_join(parts: Seq<Seq<char>>)
    requires
        parts.len() >= 1,
        forall|i: int| 0 <= i < parts.len() ==> !has_char(#[trigger] parts[i], ';'),
    ensures
        split_on(join_sep(parts, "; "@), "; "@) == parts,
    decreases parts.len(),
{
    reveal_strlit("; ");
    if parts.len() == 1 {
        assert(!has_char(parts[0], ';'));
        lemma_no_occurrence(parts[0], "; "@);
        assert(seq![parts[0]] =~= parts);
    } else {
        lemma_join_sep_first(parts, "; "@);
        let a = parts[0];
        let rest = join_sep(parts.drop_first(), "; "@);
        let s = a + "; "@ + rest;
        assert(!has_char(a, ';'));
        assert(s.subrange(a.len() as int, a.len() as int + 2) =~= "; "@);
        assert forall|j: int| 0 <= j < a.len() implies #[trigger] s.subrange(j, j + "; "@.len()) != "; "@ by {
            assert(s.subrange(j, j + 2)[0] == a[j]);
        }
        lemma_first_occurrence(s, "; "@, a.len() as int);
        assert(s.take(a.len() as int) =~= a);
        assert(s.skip(a.len() as int + 2) =~= rest);
        assert forall|i: int| 0 <= i < parts.drop_first().len() implies !has_char(#[trigger] parts.drop_first()[i], ';') by {
            assert(parts.drop_first()[i] == parts[i + 1]);
        }
        lemma_split_join(parts.drop_first());
        assert(seq![a] + parts.drop_first() =~= parts);
    }
}

pub(crate) proof fn lemma_join_sep_last(parts: Seq<Seq<char>>, sep: Seq<char>)
    requires
        parts.len() >= 1,
        parts.last().len() > 0,
    ensures
        join_sep(parts, sep).len() > 0,
        join_sep(parts, sep).last() == parts.last().last(),
{
}

pub(crate) proof fn lemma_style_has_tokens(st: Style)
    requires
        st != plain_style(),
    ensures
        style_tokens(st).len() > 0,
{
    let c1 = colour_token("fg"@, st.fg);
    let c2 = colour_token("bg"@, st.bg);
    let f1 = flag_token(st.bold, "bold"@);
    let f2 = flag_token(st.dim, "dim"@);
    let f3 = flag_token(st.italic, "italic"@);
    let f4 = flag_token(st.underline, "underline"@);
    let f5 = flag_token(st.blink, "blink"@);
    let f6 = flag_token(st.reverse, "reverse"@);
    let f7 = flag_token(st.conceal, "conceal"@);
    let f8 = flag_token(st.strikethrough, "strikethrough"@);
    assert(style_tokens(st).len() == c1.len() + c2.len() + f1.len() + f2.len() + f3.len() + f4.len() + f5.len() + f6.len()
        + f7.len() + f8.len());
    if style_tokens(st).len() == 0 {
        assert(c1.len() == 0 ==> st.fg is Default);
        assert(c2.len() == 0 ==> st.bg is Default);
        assert(!st.bold && !st.dim && !st.italic && !st.underline);
        assert(!st.blink && !st.reverse && !st.conceal && !st.strikethrough);
        assert(st == plain_style());
    }
}

/// A run's span has no `;` and, for a styled run, ends in a span word.
#[verifier::spinoff_prover]
#[verifier::rlimit(60)]
pub(crate) proof fn lemma_run_text_chars(run: (int, int, Style), c: char)
    requires
        !span_char(c),
        c != ' ',
        0 <= run.0 <= run.1,
        run.2 != plain_style(),
    ensures
        !has_char(run_text(run), c),
        run_text(run).len() > 0,
        span_char(run_text(run).last()),
{
    reveal_strlit(" ");
    lemma_run_words(run);
    lemma_tokens_are_words(run.2);
    lemma_style_has_tokens(run.2);
    let r = range_text(run.0, run.1);
    let ts = style_tokens(run.2);
    let j = join_sep(ts, seq![' ']);
    assert(run_text(run) =~= r + (seq![' '] + j));
    lemma_join_chars(ts, c);
    assert(span_word(ts.last()));
    lemma_join_sep_last(ts, seq![' ']);
    if has_char(run_text(run), c) {
        let i = choose|i: int| 0 <= i < run_text(run).len() && run_text(run)[i] == c;
        if i < r.len() {
            assert(span_char(r[i]));
        } else if i > r.len() {
            assert(run_text(run)[i] == j[i - r.len() - 1]);
        }
    }
}

pub(crate) proof fn lemma_join_chars(ts: Seq<Seq<char>>, c: char)
    requires
        !span_char(c),
        c != ' ',
        all_words(ts),
    ensures
        !has_char(join_sep(ts, seq![' ']), c),
    decreases ts.len(),
{
    let j = join_sep(ts, seq![' ']);
    if ts.len() == 1 {
        assert(span_word(ts[0]));
    } else if ts.len() > 1 {
        assert(all_words(ts.drop_last())) by {
            assert forall|i: int| 0 <= i < ts.drop_last().len() implies span_word(#[trigger] ts.drop_last()[i]) by {
                assert(ts.drop_last()[i] == ts[i]);
            }
        }
        lemma_join_chars(ts.drop_last(), c);
        let a = join_sep(ts.drop_last(), seq![' ']);
        assert(j == a + seq![' '] + ts.last());
        assert(span_word(ts.last()));
        if has_char(j, c) {
            let i = choose|i: int| 0 <= i < j.len() && j[i] == c;
            if i < a.len() {
                assert(j[i] == a[i]);
            } else if i > a.len() {
                assert(j[i] == ts.last()[i - a.len() - 1]);
            }
        }
    }
}

/// The `styles:` line of a row: its number, `: `, and its spans.
pub open spec fn style_line_text(m: ScreenModel, row: int) -> Seq<char> {
    decimal_text(row as nat) + ": "@ + join_sep(row_spans(m, row), "; "@)
}

pub(crate) proof fn lemma_span_texts_chars(runs: Seq<(int, int, Style)>, c: char)
    requires
        !span_char(c),
        c != ' ',
        forall|i: int| 0 <= i < runs.len() ==> 0 <= (#[trigger] runs[i]).0 <= runs[i].1,
    ensures
        forall|i: int| 0 <= i < span_texts(runs).len() ==> !has_char(#[trigger] span_texts(runs)[i], c) && span_texts(
            runs,
        )[i].len() > 0 && span_char(span_texts(runs)[i].last()),
    decreases runs.len(),
{
    if runs.len() > 0 {
        let prev = runs.drop_last();
        assert forall|i: int| 0 <= i < prev.len() implies 0 <= (#[trigger] prev[i]).0 <= prev[i].1 by {
            assert(prev[i] == runs[i]);
        }
        lemma_span_texts_chars(prev, c);
        let sp = span_texts(prev);
        if runs.last().2 != plain_style() {
            assert(runs.last() == runs[runs.len() - 1]);
            lemma_run_text_chars(runs.last(), c);
            assert(span_texts(runs) == sp + seq![run_text(runs.last())]);
            assert forall|i: int| 0 <= i < span_texts(runs).len() implies !has_char(#[trigger] span_texts(runs)[i], c)
                && span_texts(runs)[i].len() > 0 && span_char(span_texts(runs)[i].last()) by {
                if i < sp.len() {
                    assert(span_texts(runs)[i] == sp[i]);
                } else {
                    assert(span_texts(runs)[i] == run_text(runs.last()));
                }
            }
        } else {
            assert(span_texts(runs) =~= sp + Seq::<Seq<char>>::empty());
        }
    }
}

/// A row's `styles:` line, read back, gives each of the row's columns the
/// style the screen shows there, starting from a row in the default style.
pub proof fn lemma_style_line_reads_back(m: ScreenModel, row: int, number: int, cells: Seq<CellModel>)
    requires
        0 <= row < m.rows,
        m.cols <= 65535,
        row_spans(m, row).len() > 0,
        row * m.cols + m.cols <= cells.len(),
        0 <= row * m.cols,
        forall|j: int| 0 <= j < m.cols ==> (#[trigger] cells[row * m.cols + j]).style == plain_style(),
    ensures
        style_line(style_line_text(m, row), number, m.cols as int, m.rows as int, cells) == Ok::<
            Seq<CellModel>,
            Seq<char>,
        >(with_row_styles(cells, m, row, m.cols as int, m.cols as int)),
{
    reveal(style_line);
    reveal_strlit(": ");
    reveal_strlit("; ");
    reveal_strlit("(none)");
    let cols = m.cols as int;
    let spans = row_spans(m, row);
    let d = decimal_text(row as nat);
    let line = style_line_text(m, row);
    let body = join_sep(spans, "; "@);
    lemma_runs_restyle(m, row, cols, cols, cells);
    lemma_span_texts_chars(runs_upto(m, row, cols), ';');
    lemma_join_sep_last(spans, "; "@);
    assert(span_char(spans.last().last()));
    assert(line.last() == body.last());
    lemma_span_char_not_ws(line.last());
    lemma_trim_end_drops_ws(line, Seq::empty());
    assert(line + Seq::<char>::empty() =~= line);
    lemma_decimal_word(row as nat);
    lemma_decimal_reads_back(row as nat, 65535);
    assert(line[0] == d[0]);
    assert(line != "(none)"@) by {
        assert("(none)"@[0] == '(');
        assert(span_char(d[0]));
    }
    let k = d.len() as int;
    assert(line.subrange(k, k + 2) =~= ": "@);
    assert forall|j: int| 0 <= j < k implies #[trigger] line.subrange(j, j + ": "@.len()) != ": "@ by {
        assert(line.subrange(j, j + 2)[0] == d[j]);
        assert(span_char(d[j]));
    }
    lemma_first_occurrence(line, ": "@, k);
    assert(line.take(k) =~= d);
    lemma_trim_end_drops_ws(d, Seq::empty());
    assert(d + Seq::<char>::empty() =~= d);
    assert(span_char(d[0]));
    assert(trim_start(d) == d);
    assert(trim(d) == d);
    assert(line.skip(k + 2) =~= body);
    assert forall|i: int| 0 <= i < spans.len() implies !has_char(#[trigger] spans[i], ';') by {}
    lemma_split_join(spans);
    lemma_row_spans_read_back(m, row, cells);
}

/// The `styles:` lines of the first `k` rows, one for each row with a
/// styled span.
pub open spec fn style_lines(m: ScreenModel, k: int) -> Seq<Seq<char>>
    decreases k,
{
    if k <= 0 {
        Seq::empty()
    } else {
        style_lines(m, k - 1) + if row_spans(m, k - 1).len() == 0 {
            Seq::<Seq<char>>::empty()
        } else {
            seq![style_line_text(m, k - 1)]
        }
    }
}

/// The cells with the rows below `k` given the styles `m` shows there.
pub open spec fn restored(cells: Seq<CellModel>, m: ScreenModel, k: int) -> Seq<CellModel>
    decreases k,
{
    if k <= 0 {
        cells
    } else {
        with_row_styles(restored(cells, m, k - 1), m, k - 1, m.cols as int, m.cols as int)
    }
}

pub(crate) proof fn lemma_restored_untouched(cells: Seq<CellModel>, m: ScreenModel, k: int)
    requires
        0 <= k,
    ensures
        restored(cells, m, k).len() == cells.len(),
        forall|i: int| k * m.cols <= i < cells.len() ==> #[trigger] restored(cells, m, k)[i] == cells[i],
    decreases k,
{
    if k > 0 {
        lemma_restored_untouched(cells, m, k - 1);
        let cols = m.cols as int;
        assert((k - 1) * cols + cols == k * cols) by (nonlinear_arith);
        assert((k - 1) * cols <= k * cols) by (nonlinear_arith)
            requires
                cols >= 0,
        ;
    }
}

pub(crate) proof fn lemma_plain_runs_change_nothing(cells: Seq<CellModel>, row: int, cols: int, runs: Seq<(int, int, Style)>)
    requires
        span_texts(runs).len() == 0,
    ensures
        apply_runs(cells, row, cols, runs) == cells,
    decreases runs.len(),
{
    if runs.len() > 0 {
        if runs.last().2 != plain_style() {
            assert(span_texts(runs).len() > 0);
        }
        assert(span_texts(runs.drop_last()).len() == 0);
        lemma_plain_runs_change_nothing(cells, row, cols, runs.drop_last());
    }
}

pub(crate) proof fn lemma_styles_fold_prefix(
    a: Seq<Seq<char>>,
    b: Seq<Seq<char>>,
    n: int,
    first: int,
    cols: int,
    rows: int,
    cells: Seq<CellModel>,
)
    requires
        0 <= n <= a.len(),
        n <= b.len(),
        a.take(n) == b.take(n),
    ensures
        styles_fold(a, n, first, cols, rows, cells) == styles_fold(b, n, first, cols, rows, cells),
    decreases n,
{
    if n > 0 {
        assert(a.take(n - 1) =~= b.take(n - 1)) by {
            assert forall|i: int| 0 <= i < n - 1 implies #[trigger] a.take(n - 1)[i] == b.take(n - 1)[i] by {
                assert(a.take(n)[i] == b.take(n)[i]);
            }
        }
        lemma_styles_fold_prefix(a, b, n - 1, first, cols, rows, cells);
        assert(a[n - 1] == a.take(n)[n - 1]);
        assert(b[n - 1] == b.take(n)[n - 1]);
    }
}

/// The `styles:` block's lines, read back over a grid in the default
/// style, give every cell the style the screen shows there.
pub proof fn lemma_style_lines_read_back(m: ScreenModel, k: int, first: int, cells: Seq<CellModel>)
    requires
        0 <= k <= m.rows,
        m.cols <= 65535,
        cells.len() == m.cols * m.rows,
        forall|i: int| 0 <= i < cells.len() ==> (#[trigger] cells[i]).style == plain_style(),
    ensures
        styles_fold(style_lines(m, k), style_lines(m, k).len() as int, first, m.cols as int, m.rows as int, cells)
            == Ok::<Seq<CellModel>, Seq<char>>(restored(cells, m, k)),
    decreases k,
{
    if k > 0 {
        lemma_style_lines_read_back(m, k - 1, first, cells);
        let cols = m.cols as int;
        let prev = style_lines(m, k - 1);
        let r = restored(cells, m, k - 1);
        lemma_restored_untouched(cells, m, k - 1);
        assert(0 <= (k - 1) * cols) by (nonlinear_arith)
            requires
                k >= 1,
                cols >= 0,
        ;
        assert((k - 1) * cols + cols <= cols * m.rows) by (nonlinear_arith)
            requires
                k <= m.rows,
                cols >= 0,
        ;
        assert forall|j: int| 0 <= j < cols implies (#[trigger] r[(k - 1) * cols + j]).style == plain_style() by {
            assert(r[(k - 1) * cols + j] == cells[(k - 1) * cols + j]);
        }
        if row_spans(m, k - 1).len() == 0 {
            assert(style_lines(m, k) =~= prev);
            lemma_runs_restyle(m, k - 1, cols, cols, r);
            lemma_plain_runs_change_nothing(r, k - 1, cols, runs_upto(m, k - 1, cols));
        } else {
            let all = style_lines(m, k);
            assert(all == prev + seq![style_line_text(m, k - 1)]);
            assert(all.take(prev.len() as int) =~= prev.take(prev.len() as int));
            lemma_styles_fold_prefix(all, prev, prev.len() as int, first, cols, m.rows as int, cells);
            assert(prev.take(prev.len() as int) =~= prev);
            assert(all[prev.len() as int] == style_line_text(m, k - 1));
            lemma_style_line_reads_back(m, k - 1, first + prev.len(), r);
        }
    }
}

pub(crate) proof fn lemma_runs_valid(m: ScreenModel, row: int, n: int)
    requires
        0 <= n,
    ensures
        runs_within(runs_upto(m, row, n), n),
        forall|i: int| 0 <= i < runs_upto(m, row, n).len() ==> 0 <= (#[trigger] runs_upto(m, row, n)[i]).0 <= runs_upto(m, row, n)[i].1,
    decreases n,
{
    if n > 0 {
        lemma_runs_valid(m, row, n - 1);
        lemma_runs_step(m, row, n, 0, Seq::empty());
    }
    assert forall|i: int| 0 <= i < runs_upto(m, row, n).len() implies 0 <= (#[trigger] runs_upto(m, row, n)[i]).0 <= runs_upto(m, row, n)[i].1 by {}
}

} // verus!
